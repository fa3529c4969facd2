use super::text_feed::{feed_steps, is_plain_len, loop_step, plain_len};
use crate::base::encoding::{decode_outcome, is_plain_start, DecodeCall};
use vstd::prelude::*;
use vstd::utf8::decode_utf8;

verus! {

/// Among the starts of the input that are their own text there is a longest one.
proof fn lemma_longest_plain_start(name: Seq<char>, input: Seq<u8>, len: int, upto: int)
    requires
        0 <= len <= upto <= input.len(),
        is_plain_start(name, input.take(len)),
        forall|longer: int|
            upto < longer <= input.len() ==> !is_plain_start(name, #[trigger] input.take(longer)),
    ensures
        exists|longest: nat| len <= longest && is_plain_len(name, input, longest),
    decreases upto - len,
{
    if is_plain_start(name, input.take(upto)) {
        assert(is_plain_len(name, input, upto as nat));
    } else {
        lemma_longest_plain_start(name, input, len, upto - 1);
    }
}

proof fn lemma_plain_len_is_longest(name: Seq<char>, input: Seq<u8>, len: int)
    requires
        0 <= len <= input.len(),
        is_plain_start(name, input.take(len)),
    ensures
        is_plain_len(name, input, plain_len(name, input)),
        len <= plain_len(name, input) <= input.len(),
{
    lemma_longest_plain_start(name, input, len, input.len() as int);
    if plain_len(name, input) < len {
        assert(!is_plain_start(name, input.take(len)));
    }
}

/// Input that is its own text as a whole, where no decoder has bytes of an earlier feed, is handed on
/// at once and as it is: one piece with all of its text, in its place.
pub proof fn law_plain_input_is_handed_on_at_once(
    name: Seq<char>,
    input: Seq<u8>,
    start: nat,
    last: bool,
)
    requires
        is_plain_start(name, input),
    ensures
        ({
            let steps = feed_steps(name, None, input, start, last);
            &&& steps.len() > 0
            &&& steps[0].delivery matches Some(delivery) && delivery.text == decode_utf8(input)
                && delivery.start == start && delivery.end == start + input.len() && delivery.last
                == last
            &&& last ==> steps.len() == 1
        }),
{
    let len = input.len() as int;
    assert(input.take(len) =~= input);
    lemma_plain_len_is_longest(name, input, len);
    assert(plain_len(name, input) == len);
}

/// Where no decoder has bytes of an earlier feed, a start of the input of at least 1024 bytes that is
/// its own text is handed on first and as it is, as far as it goes.
pub proof fn law_long_plain_start_is_handed_on_first(
    name: Seq<char>,
    input: Seq<u8>,
    start: nat,
    last: bool,
    len: nat,
)
    requires
        1024 <= len <= input.len(),
        is_plain_start(name, input.take(len as int)),
        forall|longer: int|
            len < longer <= input.len() ==> !is_plain_start(name, #[trigger] input.take(longer)),
    ensures
        ({
            let steps = feed_steps(name, None, input, start, last);
            &&& steps.len() > 0
            &&& steps[0].delivery matches Some(delivery) && delivery.text == decode_utf8(
                input.take(len as int),
            ) && delivery.start == start && delivery.end == start + len && delivery.last == (last
                && len == input.len())
        }),
{
    lemma_plain_len_is_longest(name, input, len as int);
    let longest = plain_len(name, input);
    if longest > len {
        assert(!is_plain_start(name, input.take(longest as int)));
    }
}

/// Where a decoder has bytes of an earlier feed, or the input has less than 1024 bytes at its start
/// that are their own text and more behind them, all of it goes through the decoder: the first call
/// is given the input as a whole.
pub proof fn law_other_input_goes_through_the_decoder(
    name: Seq<char>,
    pending: Option<Seq<DecodeCall>>,
    input: Seq<u8>,
    start: nat,
    last: bool,
    len: nat,
)
    requires
        len < 1024 && len < input.len() || pending is Some,
        len <= input.len(),
        is_plain_start(name, input.take(len as int)),
        forall|longer: int|
            len < longer <= input.len() ==> !is_plain_start(name, #[trigger] input.take(longer)),
    ensures
        ({
            let steps = feed_steps(name, pending, input, start, last);
            &&& steps.len() > 0
            &&& steps[0].calls matches Some(calls) && calls.len() > 0 && calls.last().bytes == input
                && calls.last().last == last && calls.last().room == 1024
        }),
{
    lemma_plain_len_is_longest(name, input, len as int);
    let longest = plain_len(name, input);
    if longest > len {
        assert(!is_plain_start(name, input.take(longest as int)));
    }
}

/// What a decoder wrote in a call is handed on if it is any text. An empty text is handed on only of a
/// feed that ends a text node.
pub proof fn law_empty_text_is_handed_on_only_at_the_end(
    name: Seq<char>,
    calls: Seq<DecodeCall>,
    input: Seq<u8>,
    start: nat,
    last: bool,
)
    ensures
        ({
            let made = calls.push(DecodeCall { bytes: input, room: 1024, last });
            let outcome = decode_outcome(name, made);
            let step = loop_step(name, calls, input, start, last);
            &&& step.calls == Some(made)
            &&& match step.delivery {
                Some(delivery) => {
                    &&& delivery.text == outcome.text
                    &&& delivery.start == start
                    &&& delivery.end == start + outcome.read
                    &&& delivery.last == (last && outcome.finished)
                    &&& outcome.text.len() > 0 || last
                },
                None => outcome.text.len() == 0 && !last,
            }
            &&& step.position.finished == outcome.finished
            &&& step.position.next_start == start + outcome.read
        }),
{
}

} // verus!
