use crate::base::encoding::{decode_outcome, decoded, is_plain_start, DecodeCall};
use crate::base::spanned::SourceLocation;
use crate::rewriter::errors::RewritingError;
use encoding_rs::Encoding;
use vstd::prelude::*;
use vstd::utf8::decode_utf8;

verus! {

/// How many bytes of text the decoder writes at a time.
pub const DEFAULT_BUFFER_LEN: usize = 1024;

/// A piece of text that is handed on: whether it is the last of its text node, and where its bytes
/// are in the document.
pub struct Delivery {
    pub text: Seq<char>,
    pub last: bool,
    pub start: nat,
    pub end: nat,
}

/// Where a feed is after a piece of text was handed on.
pub struct SuspensionView {
    pub remaining: Seq<u8>,
    pub next_start: nat,
    pub last: bool,
    pub finished: bool,
}

/// One step of a feed: what is handed on, if anything, where the feed is then, and which calls the
/// streaming decoder has had by then, if there is one.
pub struct FeedStep {
    pub delivery: Option<Delivery>,
    pub position: SuspensionView,
    pub calls: Option<Seq<DecodeCall>>,
}

/// The next call of the streaming decoder.
pub open spec fn loop_call(input: Seq<u8>, last: bool) -> DecodeCall {
    DecodeCall { bytes: input, room: DEFAULT_BUFFER_LEN as nat, last }
}

/// One call of the streaming decoder. What it wrote is handed on, and at the end of a text node an
/// empty text is too, so that the end gets known.
pub open spec fn loop_step(
    name: Seq<char>,
    calls: Seq<DecodeCall>,
    input: Seq<u8>,
    start: nat,
    last: bool,
) -> FeedStep {
    let made = calls.push(loop_call(input, last));
    let outcome = decode_outcome(name, made);
    FeedStep {
        delivery: if outcome.text.len() > 0 || last {
            Some(
                Delivery {
                    text: outcome.text,
                    last: last && outcome.finished,
                    start,
                    end: start + outcome.read,
                },
            )
        } else {
            None
        },
        position: SuspensionView {
            remaining: input.skip(outcome.read as int),
            next_start: start + outcome.read,
            last,
            finished: outcome.finished,
        },
        calls: Some(made),
    }
}

/// The calls of the streaming decoder until it has taken all of the input.
pub open spec fn loop_steps(
    name: Seq<char>,
    calls: Seq<DecodeCall>,
    input: Seq<u8>,
    start: nat,
    last: bool,
) -> Seq<FeedStep>
    decreases input.len(),
{
    let step = loop_step(name, calls, input, start, last);
    let rest = step.position.remaining;
    if step.position.finished || rest.len() >= input.len() {
        seq![step]
    } else {
        seq![step] + loop_steps(
            name,
            calls.push(loop_call(input, last)),
            rest,
            step.position.next_start,
            last,
        )
    }
}

/// How many bytes at the start of the input are their own text in the encoding of a name.
pub open spec fn is_plain_len(name: Seq<char>, input: Seq<u8>, len: nat) -> bool {
    &&& len <= input.len()
    &&& is_plain_start(name, input.take(len as int))
    &&& forall|longer: int|
        len < longer <= input.len() ==> !is_plain_start(name, #[trigger] input.take(longer))
}

/// The length of the longest start of the input that is its own text.
pub open spec fn plain_len(name: Seq<char>, input: Seq<u8>) -> nat {
    choose|len: nat| is_plain_len(name, input, len)
}

/// Whether the start of the input can be handed on without a decoder: no decoder has bytes of an
/// earlier feed, and the start is all of the input, or at least as long as a buffer.
pub open spec fn has_fast_start(
    name: Seq<char>,
    pending: Option<Seq<DecodeCall>>,
    input: Seq<u8>,
) -> bool {
    &&& pending is None
    &&& plain_len(name, input) == input.len() || plain_len(name, input) >= DEFAULT_BUFFER_LEN
}

/// The step that hands on the start of the input as it is.
pub open spec fn fast_step(name: Seq<char>, input: Seq<u8>, start: nat, last: bool) -> FeedStep {
    let len = plain_len(name, input);
    let really_last = last && len == input.len();
    FeedStep {
        delivery: Some(
            Delivery {
                text: decode_utf8(input.take(len as int)),
                last: really_last,
                start,
                end: start + len,
            },
        ),
        position: SuspensionView {
            remaining: input.skip(len as int),
            next_start: start + len,
            last,
            finished: really_last,
        },
        calls: None,
    }
}

/// The steps of a feed: the start of the input as it is, where that can be, and the rest through
/// the streaming decoder.
pub open spec fn feed_steps(
    name: Seq<char>,
    pending: Option<Seq<DecodeCall>>,
    input: Seq<u8>,
    start: nat,
    last: bool,
) -> Seq<FeedStep> {
    if has_fast_start(name, pending, input) {
        let step = fast_step(name, input, start, last);
        if step.position.finished {
            seq![step]
        } else {
            seq![step] + loop_steps(
                name,
                Seq::empty(),
                step.position.remaining,
                step.position.next_start,
                last,
            )
        }
    } else {
        loop_steps(name, calls_or_none(pending), input, start, last)
    }
}

/// The calls that a decoder has had, or none where there is no decoder yet.
pub open spec fn calls_or_none(pending: Option<Seq<DecodeCall>>) -> Seq<DecodeCall> {
    match pending {
        Some(calls) => calls,
        None => Seq::empty(),
    }
}

/// The steps that are left of a feed that was suspended.
pub open spec fn resumed_steps(
    name: Seq<char>,
    pending: Option<Seq<DecodeCall>>,
    position: SuspensionView,
) -> Seq<FeedStep> {
    if position.finished {
        Seq::empty()
    } else {
        loop_steps(
            name,
            calls_or_none(pending),
            position.remaining,
            position.next_start,
            position.last,
        )
    }
}

/// What pieces of text are handed to.
pub trait TextSink: Sized {
    /// What one call may do: to the sink, and what it may return. A sink that does not say otherwise
    /// may do anything.
    open spec fn taken(
        before: Self,
        delivery: Delivery,
        encoding: Encoding,
        after: Self,
        res: Result<(), RewritingError>,
    ) -> bool {
        true
    }

    /// Takes a piece of text: whether it is the last of its text node, the encoding of the document,
    /// and where its bytes are in the document.
    fn take_text(
        &mut self,
        text: &str,
        last: bool,
        encoding: &'static Encoding,
        location: SourceLocation,
    ) -> (res: Result<(), RewritingError>)
        ensures
            Self::taken(
                *old(self),
                (Delivery {
                    text: text@,
                    last,
                    start: location.spec_start(),
                    end: location.spec_end(),
                }),
                *encoding,
                *final(self),
                res,
            ),
    ;
}

/// Whether a sink that was handed what some steps hand on, each piece once and in order, and took
/// all of it, may have become `after`.
pub open spec fn takes_all<S: TextSink>(
    before: S,
    steps: Seq<FeedStep>,
    encoding: Encoding,
    after: S,
) -> bool
    decreases steps.len(),
{
    if steps.len() == 0 {
        after == before
    } else {
        match steps.last().delivery {
            None => takes_all(before, steps.drop_last(), encoding, after),
            Some(delivery) => exists|between: S|
                {
                    &&& takes_all(before, steps.drop_last(), encoding, between)
                    &&& #[trigger] S::taken(between, delivery, encoding, after, Ok(()))
                },
        }
    }
}

/// Whether a sink that was handed what some steps hand on, took all of it before step `n`, and
/// returned `res` at step `n`, may have become `after`.
pub open spec fn stops_at<S: TextSink>(
    before: S,
    steps: Seq<FeedStep>,
    n: int,
    encoding: Encoding,
    after: S,
    res: Result<(), RewritingError>,
) -> bool {
    steps[n].delivery matches Some(delivery) && exists|between: S|
        {
            &&& takes_all(before, steps.take(n), encoding, between)
            &&& #[trigger] S::taken(between, delivery, encoding, after, res)
        }
}

/// The texts that some steps hand on, one after the other.
pub open spec fn handed_on(steps: Seq<FeedStep>) -> Seq<char>
    decreases steps.len(),
{
    if steps.len() == 0 {
        Seq::empty()
    } else {
        handed_on(steps.drop_last()) + match steps.last().delivery {
            Some(delivery) => delivery.text,
            None => Seq::empty(),
        }
    }
}

/// The text that the encoding of a name makes of a whole text node.
pub open spec fn whole_text(name: Seq<char>, bytes: Seq<u8>) -> Seq<char> {
    if is_plain_start(name, bytes) {
        decode_utf8(bytes)
    } else {
        decoded(name, bytes)
    }
}

/// What becomes of the text that a decoder wrote in one call.
#[derive(Debug, Clone, PartialEq, Eq)]
pub struct Piece {
    /// Whether the text is handed on. An empty text is only at the end of a text node, so that the
    /// end gets known.
    pub is_handed_on: bool,
    /// Whether it is the last of the text node. Of all the pieces of a text node only one can be.
    pub really_last: bool,
    /// Where its bytes are in the document.
    pub location: SourceLocation,
}

/// What becomes of the text after a call of a decoder: whether the decoder took all input, how many
/// bytes it took, and how many bytes of text it wrote.
pub fn piece_of_call(
    finished: bool,
    read: usize,
    written: usize,
    start: usize,
    last_in_text_node: bool,
) -> (piece: Piece)
    requires
        start + read <= usize::MAX,
    ensures
        piece.is_handed_on == (written > 0 || last_in_text_node),
        piece.really_last == (last_in_text_node && finished),
        piece.location.spec_start() == start,
        piece.location.spec_end() == start + read,
{
    Piece {
        is_handed_on: written > 0 || last_in_text_node,
        really_last: last_in_text_node && finished,
        location: SourceLocation::from_start_len(start, read),
    }
}

/// Whether the first `plain_len` bytes of `input_len` bytes, which are their own text, are handed on
/// without a decoder: if they are all of the input, or would fill a buffer.
pub fn is_fast_start(plain_len: usize, input_len: usize) -> (fast: bool)
    ensures
        fast == (plain_len == input_len || plain_len >= DEFAULT_BUFFER_LEN),
{
    plain_len == input_len || plain_len >= DEFAULT_BUFFER_LEN
}

} // verus!
