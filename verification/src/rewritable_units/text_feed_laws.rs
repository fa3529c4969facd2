use super::text_decoder::{is_fed, is_resumed, is_stopped_at, TextDecoderView};
use super::text_feed::{
    calls_or_none, fast_step, feed_steps, handed_on, has_fast_start, loop_call, loop_step,
    loop_steps, resumed_steps, stops_at, takes_all, whole_text, Delivery, FeedStep, TextSink,
};
use crate::base::encoding::{is_ascii_compatible_name, stream_of, text_of, DecodeCall};
use crate::rewriter::errors::RewritingError;
use encoding_rs::Encoding;
use vstd::prelude::*;

verus! {

proof fn lemma_loop_goes_on(
    name: Seq<char>,
    calls: Seq<DecodeCall>,
    input: Seq<u8>,
    start: nat,
    last: bool,
    n: int,
)
    requires
        0 <= n < loop_steps(name, calls, input, start, last).len() - 1,
    ensures
        ({
            let steps = loop_steps(name, calls, input, start, last);
            &&& !steps[n].position.finished
            &&& steps[n].calls is Some
            &&& loop_steps(
                name,
                calls_or_none(steps[n].calls),
                steps[n].position.remaining,
                steps[n].position.next_start,
                steps[n].position.last,
            ) == steps.skip(n + 1)
        }),
    decreases input.len(),
{
    let steps = loop_steps(name, calls, input, start, last);
    let step = loop_step(name, calls, input, start, last);
    let rest = loop_steps(
        name,
        calls.push(loop_call(input, last)),
        step.position.remaining,
        step.position.next_start,
        last,
    );
    assert(steps == seq![step] + rest);
    if n == 0 {
        assert(steps.skip(1) =~= rest);
    } else {
        lemma_loop_goes_on(
            name,
            calls.push(loop_call(input, last)),
            step.position.remaining,
            step.position.next_start,
            last,
            n - 1,
        );
        assert(steps[n] == rest[n - 1]);
        assert(steps.skip(n + 1) =~= rest.skip(n));
    }
}

/// Behind a step that is not the last one, the feed goes on with the steps that follow.
proof fn lemma_rest_of_feed(
    name: Seq<char>,
    pending: Option<Seq<DecodeCall>>,
    input: Seq<u8>,
    start: nat,
    last: bool,
    n: int,
)
    requires
        0 <= n < feed_steps(name, pending, input, start, last).len() - 1,
    ensures
        ({
            let steps = feed_steps(name, pending, input, start, last);
            &&& !steps[n].position.finished
            &&& resumed_steps(name, steps[n].calls, steps[n].position) == steps.skip(n + 1)
        }),
{
    let steps = feed_steps(name, pending, input, start, last);
    if has_fast_start(name, pending, input) {
        let step = fast_step(name, input, start, last);
        let rest = loop_steps(
            name,
            Seq::empty(),
            step.position.remaining,
            step.position.next_start,
            last,
        );
        assert(steps == seq![step] + rest);
        if n == 0 {
            assert(steps.skip(1) =~= rest);
        } else {
            lemma_loop_goes_on(
                name,
                Seq::empty(),
                step.position.remaining,
                step.position.next_start,
                last,
                n - 1,
            );
            assert(steps[n] == rest[n - 1]);
            assert(steps.skip(n + 1) =~= rest.skip(n));
        }
    } else {
        lemma_loop_goes_on(name, calls_or_none(pending), input, start, last, n);
    }
}

/// A feed that was stopped, at whatever piece, and is resumed has those steps left that follow, as if
/// it had never been stopped. Where it was stopped at the last piece, nothing is left.
pub proof fn law_resumed_feed_goes_on(
    before: TextDecoderView,
    input: Seq<u8>,
    start: nat,
    last: bool,
    n: int,
    after: TextDecoderView,
)
    requires
        0 <= n < feed_steps(before.name(), before.calls(), input, start, last).len(),
        after.encoding == before.encoding,
        is_stopped_at(
            before,
            input,
            start,
            last,
            feed_steps(before.name(), before.calls(), input, start, last),
            n,
            after,
        ),
    ensures
        ({
            let steps = feed_steps(before.name(), before.calls(), input, start, last);
            &&& resumed_steps(after.name(), after.calls(), steps[n].position) == steps.skip(n + 1)
            &&& after.name() == before.name()
            &&& steps[n].position.last == last
        }),
{
    let name = before.name();
    let steps = feed_steps(name, before.calls(), input, start, last);
    law_pieces_follow_each_other(name, before.calls(), input, start, last);
    if n < steps.len() - 1 {
        lemma_rest_of_feed(name, before.calls(), input, start, last, n);
    } else {
        assert(steps.skip(n + 1) =~= Seq::<FeedStep>::empty());
    }
    if steps[n].calls is None {
        assert(before.pending is None) by {
            if !has_fast_start(name, before.calls(), input) {
                lemma_loop_has_calls(name, calls_or_none(before.calls()), input, start, last, n);
            }
        }
    }
}

/// Every step of the streaming decoder has calls.
pub proof fn lemma_loop_has_calls(
    name: Seq<char>,
    calls: Seq<DecodeCall>,
    input: Seq<u8>,
    start: nat,
    last: bool,
    n: int,
)
    requires
        0 <= n < loop_steps(name, calls, input, start, last).len(),
    ensures
        loop_steps(name, calls, input, start, last)[n].calls is Some,
    decreases input.len(),
{
    let step = loop_step(name, calls, input, start, last);
    if n > 0 {
        lemma_loop_has_calls(
            name,
            calls.push(loop_call(input, last)),
            step.position.remaining,
            step.position.next_start,
            last,
            n - 1,
        );
    }
}

/// Where step `n` of some steps begins in the document.
pub open spec fn begin_of(steps: Seq<FeedStep>, start: nat, n: int) -> nat {
    if n == 0 {
        start
    } else {
        steps[n - 1].position.next_start
    }
}

/// Whether each step begins where the one before ended, what a step hands on covers its bytes, only
/// the last step may be finished, and only what it hands on is marked as the last of a text node.
pub open spec fn is_in_order(steps: Seq<FeedStep>, start: nat, last: bool) -> bool {
    &&& steps.len() > 0
    &&& forall|n: int|
        #![trigger steps[n]]
        0 <= n < steps.len() ==> {
            &&& steps[n].position.finished ==> n == steps.len() - 1
            &&& steps[n].position.last == last
            &&& steps[n].delivery matches Some(delivery) ==> {
                &&& delivery.start == begin_of(steps, start, n)
                &&& delivery.end == steps[n].position.next_start
                &&& delivery.last == (last && steps[n].position.finished)
            }
            &&& last ==> steps[n].delivery is Some
        }
}

proof fn lemma_loop_is_in_order(
    name: Seq<char>,
    calls: Seq<DecodeCall>,
    input: Seq<u8>,
    start: nat,
    last: bool,
)
    ensures
        is_in_order(loop_steps(name, calls, input, start, last), start, last),
    decreases input.len(),
{
    let step = loop_step(name, calls, input, start, last);
    if !(step.position.finished || step.position.remaining.len() >= input.len()) {
        let rest = loop_steps(
            name,
            calls.push(loop_call(input, last)),
            step.position.remaining,
            step.position.next_start,
            last,
        );
        lemma_loop_is_in_order(
            name,
            calls.push(loop_call(input, last)),
            step.position.remaining,
            step.position.next_start,
            last,
        );
        lemma_order_after(step, rest, start, last);
    }
}

proof fn lemma_order_after(step: FeedStep, rest: Seq<FeedStep>, start: nat, last: bool)
    requires
        is_in_order(rest, step.position.next_start, last),
        !step.position.finished,
        step.position.last == last,
        step.delivery matches Some(delivery) ==> delivery.start == start && delivery.end
            == step.position.next_start && !delivery.last,
        last ==> step.delivery is Some,
    ensures
        is_in_order(seq![step] + rest, start, last),
{
    let steps = seq![step] + rest;
    assert forall|n: int|
        #![trigger steps[n]]
        0 < n < steps.len() implies steps[n] == rest[n - 1] && begin_of(steps, start, n)
        == begin_of(rest, step.position.next_start, n - 1) by {
    }
}

/// The steps of a feed follow each other in the document without a gap, and a piece of text is where
/// the bytes of its step are. A feed that ends a text node hands on a piece at each step. It marks
/// one as the last of the text node only at its last step, exactly if all input was taken then; a
/// feed that does not end the text node marks none.
pub proof fn law_pieces_follow_each_other(
    name: Seq<char>,
    pending: Option<Seq<DecodeCall>>,
    input: Seq<u8>,
    start: nat,
    last: bool,
)
    ensures
        is_in_order(feed_steps(name, pending, input, start, last), start, last),
{
    if has_fast_start(name, pending, input) {
        let step = fast_step(name, input, start, last);
        if !step.position.finished {
            let rest = step.position.remaining;
            lemma_loop_is_in_order(name, Seq::empty(), rest, step.position.next_start, last);
            lemma_order_after(
                step,
                loop_steps(name, Seq::empty(), rest, step.position.next_start, last),
                start,
                last,
            );
        }
    } else {
        lemma_loop_is_in_order(name, calls_or_none(pending), input, start, last);
    }
}


/// Some byte sequences one after the other.
pub open spec fn all_bytes(parts: Seq<Seq<u8>>) -> Seq<u8>
    decreases parts.len(),
{
    if parts.len() == 0 {
        Seq::empty()
    } else {
        all_bytes(parts.drop_last()) + parts.last()
    }
}

/// What some steps hand on.
pub open spec fn deliveries(steps: Seq<FeedStep>) -> Seq<Delivery>
    decreases steps.len(),
{
    if steps.len() == 0 {
        Seq::empty()
    } else {
        match steps.last().delivery {
            Some(delivery) => deliveries(steps.drop_last()).push(delivery),
            None => deliveries(steps.drop_last()),
        }
    }
}

/// The texts of some pieces one after the other.
pub open spec fn texts(pieces: Seq<Delivery>) -> Seq<char>
    decreases pieces.len(),
{
    if pieces.len() == 0 {
        Seq::empty()
    } else {
        texts(pieces.drop_last()) + pieces.last().text
    }
}

/// Whether a sink notes down whatever it is handed, and nothing else.
pub open spec fn notes_down<S: TextSink>(log: spec_fn(S) -> Seq<Delivery>) -> bool {
    forall|before: S, delivery: Delivery, encoding: Encoding, after: S, res: Result<(), RewritingError>|
        #[trigger]
        S::taken(before, delivery, encoding, after, res) ==> log(after) == log(before).push(
            delivery,
        )
}

proof fn lemma_texts_of_deliveries(steps: Seq<FeedStep>)
    ensures
        texts(deliveries(steps)) == handed_on(steps),
    decreases steps.len(),
{
    if steps.len() > 0 {
        lemma_texts_of_deliveries(steps.drop_last());
        let earlier = deliveries(steps.drop_last());
        match steps.last().delivery {
            Some(delivery) => {
                assert(earlier.push(delivery).drop_last() =~= earlier);
            },
            None => {
                assert(handed_on(steps) =~= handed_on(steps.drop_last()));
            },
        }
    }
}

proof fn lemma_texts_in_parts(first: Seq<Delivery>, second: Seq<Delivery>)
    ensures
        texts(first + second) == texts(first) + texts(second),
    decreases second.len(),
{
    if second.len() == 0 {
        assert(first + second =~= first);
        assert(texts(first) + texts(second) =~= texts(first));
    } else {
        assert((first + second).drop_last() =~= first + second.drop_last());
        lemma_texts_in_parts(first, second.drop_last());
        assert(texts(first + second) =~= texts(first) + texts(second));
    }
}

proof fn lemma_deliveries_in_parts(first: Seq<FeedStep>, second: Seq<FeedStep>)
    ensures
        deliveries(first + second) == deliveries(first) + deliveries(second),
    decreases second.len(),
{
    if second.len() == 0 {
        assert(first + second =~= first);
        assert(deliveries(first) + deliveries(second) =~= deliveries(first));
    } else {
        assert((first + second).drop_last() =~= first + second.drop_last());
        assert((first + second).last() == second.last());
        lemma_deliveries_in_parts(first, second.drop_last());
        assert(deliveries(first + second) =~= deliveries(first) + deliveries(second));
    }
}

/// A sink that takes all is handed each piece of the steps once, in order, and nothing else.
pub proof fn law_sink_is_handed_each_piece_once<S: TextSink>(
    log: spec_fn(S) -> Seq<Delivery>,
    before: S,
    steps: Seq<FeedStep>,
    encoding: Encoding,
    after: S,
)
    requires
        notes_down(log),
        takes_all(before, steps, encoding, after),
    ensures
        log(after) == log(before) + deliveries(steps),
    decreases steps.len(),
{
    if steps.len() == 0 {
        assert(log(before) + deliveries(steps) =~= log(before));
    } else {
        let shorter = steps.drop_last();
        match steps.last().delivery {
            None => {
                law_sink_is_handed_each_piece_once(log, before, shorter, encoding, after);
            },
            Some(delivery) => {
                let between: S = choose|between: S|
                    {
                        &&& takes_all(before, shorter, encoding, between)
                        &&& #[trigger] S::taken(between, delivery, encoding, after, Ok(()))
                    };
                law_sink_is_handed_each_piece_once(log, before, shorter, encoding, between);
                assert(log(before) + deliveries(steps) =~= (log(before) + deliveries(
                    shorter,
                )).push(delivery));
            },
        }
    }
}

/// A sink that refuses the piece of a step was handed each piece up to that one once, in order, and
/// none after it.
pub proof fn law_nothing_is_handed_on_after_a_refusal<S: TextSink>(
    log: spec_fn(S) -> Seq<Delivery>,
    before: S,
    steps: Seq<FeedStep>,
    n: int,
    encoding: Encoding,
    after: S,
    res: Result<(), RewritingError>,
)
    requires
        notes_down(log),
        0 <= n < steps.len(),
        stops_at(before, steps, n, encoding, after, res),
    ensures
        log(after) == log(before) + deliveries(steps.take(n + 1)),
{
    let delivery = steps[n].delivery->0;
    let between: S = choose|between: S|
        {
            &&& takes_all(before, steps.take(n), encoding, between)
            &&& #[trigger] S::taken(between, delivery, encoding, after, res)
        };
    law_sink_is_handed_each_piece_once(log, before, steps.take(n), encoding, between);
    assert(steps.take(n + 1).drop_last() =~= steps.take(n));
    assert(steps.take(n + 1).last() == steps[n]);
    assert(log(before) + deliveries(steps.take(n + 1)) =~= (log(before) + deliveries(
        steps.take(n),
    )).push(delivery));
}

/// A feed fails only if the sink refuses a piece, with the error of the sink, and leaves what it
/// takes to resume it then.
pub proof fn law_feed_fails_only_by_its_sink<S: TextSink>(
    before: TextDecoderView,
    input: Seq<u8>,
    start: nat,
    last: bool,
    steps: Seq<FeedStep>,
    sink_before: S,
    after: TextDecoderView,
    sink_after: S,
    res: Result<(), RewritingError>,
)
    requires
        is_fed(before, input, start, last, steps, sink_before, after, sink_after, res),
    ensures
        res is Err ==> after.suspended is Some && exists|sink: S, delivery: Delivery|
            #[trigger]
            S::taken(sink, delivery, before.encoding, sink_after, res),
{
    if res is Err {
        let n: int = choose|n: int|
            {
                &&& 0 <= n < steps.len()
                &&& stops_at(sink_before, steps, n, before.encoding, sink_after, res)
                &&& #[trigger] is_stopped_at(before, input, start, last, steps, n, after)
            };
        let delivery = steps[n].delivery->0;
        let sink: S = choose|sink: S|
            {
                &&& takes_all(sink_before, steps.take(n), before.encoding, sink)
                &&& #[trigger] S::taken(sink, delivery, before.encoding, sink_after, res)
            };
        assert(S::taken(sink, delivery, before.encoding, sink_after, res));
    }
}

/// A feed that is refused at some piece, the last one or another, and then resumed hands on the same
/// pieces as the feed that is not refused: none twice, and none left out. It leaves the decoder as
/// that feed does, for whatever comes next. The sink that takes the rest may be another one.
pub proof fn law_refused_and_resumed_feed_hands_on_the_same<S: TextSink, T: TextSink>(
    log: spec_fn(S) -> Seq<Delivery>,
    resumed_log: spec_fn(T) -> Seq<Delivery>,
    before: TextDecoderView,
    input: Seq<u8>,
    start: nat,
    last: bool,
    sink: S,
    stopped: TextDecoderView,
    refusing: S,
    error: RewritingError,
    resumed: T,
    after: TextDecoderView,
    sink_after: T,
) -> (parts: (Seq<Delivery>, Seq<Delivery>))
    requires
        notes_down(log),
        notes_down(resumed_log),
        is_fed(
            before,
            input,
            start,
            last,
            feed_steps(before.name(), before.calls(), input, start, last),
            sink,
            stopped,
            refusing,
            Err(error),
        ),
        is_resumed(
            TextDecoderView { suspended: None, ..stopped },
            stopped.suspended->0,
            resumed,
            after,
            sink_after,
            Ok(()),
        ),
    ensures
        ({
            let steps = feed_steps(before.name(), before.calls(), input, start, last);
            &&& parts.0 + parts.1 == deliveries(steps)
            &&& log(refusing) == log(sink) + parts.0
            &&& resumed_log(sink_after) == resumed_log(resumed) + parts.1
            &&& steps.last().position.finished
            &&& after.encoding == before.encoding
            &&& after.suspended is None
            &&& !after.ended
            &&& if last {
                after.pending is None && after.pending_start == before.pending_start
            } else {
                &&& after.pending == Some((before.name(), calls_or_none(steps.last().calls)))
                &&& after.pending_start == steps.last().position.next_start
            }
        }),
{
    let name = before.name();
    let steps = feed_steps(name, before.calls(), input, start, last);
    let res = Err::<(), RewritingError>(error);
    let n: int = choose|n: int|
        {
            &&& 0 <= n < steps.len()
            &&& stops_at(sink, steps, n, before.encoding, refusing, res)
            &&& #[trigger] is_stopped_at(before, input, start, last, steps, n, stopped)
        };
    let taken = TextDecoderView { suspended: None, ..stopped };
    let position = steps[n].position;
    law_resumed_feed_goes_on(before, input, start, last, n, stopped);
    law_nothing_is_handed_on_after_a_refusal(log, sink, steps, n, before.encoding, refusing, res);
    lemma_deliveries_in_parts(steps.take(n + 1), steps.skip(n + 1));
    assert(steps.take(n + 1) + steps.skip(n + 1) =~= steps);
    assert(taken.name() == name);
    if position.finished {
        assert(deliveries(steps.skip(n + 1)) =~= Seq::<Delivery>::empty());
        assert(resumed_log(resumed) + Seq::<Delivery>::empty() =~= resumed_log(resumed));
        assert(steps.last() == steps[n]);
        if !last {
            assert(steps[n].calls is Some) by {
                if has_fast_start(name, before.calls(), input) {
                    assert(steps[0] == fast_step(name, input, start, last));
                    lemma_loop_has_calls(
                        name,
                        Seq::empty(),
                        steps[0].position.remaining,
                        steps[0].position.next_start,
                        last,
                        n - 1,
                    );
                    assert(steps == seq![steps[0]] + loop_steps(
                        name,
                        Seq::empty(),
                        steps[0].position.remaining,
                        steps[0].position.next_start,
                        last,
                    ));
                } else {
                    lemma_loop_has_calls(
                        name,
                        calls_or_none(before.calls()),
                        input,
                        start,
                        last,
                        n,
                    );
                }
            }
        }
    } else {
        law_sink_is_handed_each_piece_once(
            resumed_log,
            resumed,
            steps.skip(n + 1),
            taken.encoding,
            sink_after,
        );
        assert(steps.skip(n + 1).last() == steps.last());
    }
    (deliveries(steps.take(n + 1)), deliveries(steps.skip(n + 1)))
}

proof fn lemma_every_step_delivers(steps: Seq<FeedStep>)
    requires
        forall|n: int| 0 <= n < steps.len() ==> (#[trigger] steps[n]).delivery is Some,
    ensures
        deliveries(steps).len() == steps.len(),
        forall|n: int|
            0 <= n < steps.len() ==> Some(#[trigger] deliveries(steps)[n]) == steps[n].delivery,
    decreases steps.len(),
{
    if steps.len() > 0 {
        let shorter = steps.drop_last();
        assert forall|n: int| 0 <= n < shorter.len() implies (
        #[trigger] shorter[n]).delivery is Some by {
            assert(steps[n].delivery is Some);
        }
        lemma_every_step_delivers(shorter);
        assert(steps[steps.len() - 1].delivery is Some);
        assert forall|n: int| 0 <= n < steps.len() implies Some(
            #[trigger] deliveries(steps)[n],
        ) == steps[n].delivery by {
            if n < shorter.len() {
                assert(deliveries(steps)[n] == deliveries(shorter)[n]);
                assert(shorter[n] == steps[n]);
            }
        }
    }
}

/// The pieces of a feed that ends a text node are next to each other in the document, together they
/// cover exactly the input, and exactly the last one is marked as the last of the text node. Said of
/// steps that have gone through all of the input, as those of every feed that was taken have.
pub proof fn law_last_feed_covers_its_input(
    name: Seq<char>,
    pending: Option<Seq<DecodeCall>>,
    input: Seq<u8>,
    start: nat,
)
    requires
        ({
            let end = feed_steps(name, pending, input, start, true).last().position;
            end.finished && end.next_start == start + input.len()
        }),
    ensures
        ({
            let pieces = deliveries(feed_steps(name, pending, input, start, true));
            &&& pieces.len() > 0
            &&& pieces[0].start == start
            &&& pieces.last().end == start + input.len()
            &&& forall|i: int|
                #![trigger pieces[i]]
                0 < i < pieces.len() ==> pieces[i].start == pieces[i - 1].end
            &&& forall|i: int|
                #![trigger pieces[i]]
                0 <= i < pieces.len() ==> pieces[i].last == (i == pieces.len() - 1)
        }),
{
    let steps = feed_steps(name, pending, input, start, true);
    let pieces = deliveries(steps);
    law_pieces_follow_each_other(name, pending, input, start, true);
    lemma_every_step_delivers(steps);
    assert forall|i: int|
        #![trigger pieces[i]]
        0 < i < pieces.len() implies pieces[i].start == pieces[i - 1].end by {
        assert(Some(pieces[i]) == steps[i].delivery);
        assert(Some(pieces[i - 1]) == steps[i - 1].delivery);
    }
    assert forall|i: int|
        #![trigger pieces[i]]
        0 <= i < pieces.len() implies pieces[i].last == (i == pieces.len() - 1) by {
        assert(Some(pieces[i]) == steps[i].delivery);
    }
    assert(Some(pieces[0]) == steps[0].delivery);
    assert(Some(pieces[pieces.len() - 1]) == steps[steps.len() - 1].delivery);
}

proof fn lemma_no_step_is_last(steps: Seq<FeedStep>)
    requires
        forall|n: int|
            0 <= n < steps.len() ==> ((#[trigger] steps[n]).delivery matches Some(delivery)
                ==> !delivery.last),
    ensures
        forall|i: int|
            0 <= i < deliveries(steps).len() ==> !(#[trigger] deliveries(steps)[i]).last,
    decreases steps.len(),
{
    if steps.len() > 0 {
        let shorter = steps.drop_last();
        assert forall|n: int| 0 <= n < shorter.len() implies ((
        #[trigger] shorter[n]).delivery matches Some(delivery) ==> !delivery.last) by {
            assert(steps[n] == shorter[n]);
        }
        lemma_no_step_is_last(shorter);
        assert(steps[steps.len() - 1] == steps.last());
        assert forall|i: int| 0 <= i < deliveries(steps).len() implies !(
        #[trigger] deliveries(steps)[i]).last by {
            if i < deliveries(shorter).len() {
                assert(deliveries(steps)[i] == deliveries(shorter)[i]);
            }
        }
    }
}

/// A feed that does not end a text node marks no piece as the last one.
pub proof fn law_other_feeds_have_no_last_piece(
    name: Seq<char>,
    pending: Option<Seq<DecodeCall>>,
    input: Seq<u8>,
    start: nat,
)
    ensures
        ({
            let pieces = deliveries(feed_steps(name, pending, input, start, false));
            forall|i: int| 0 <= i < pieces.len() ==> !(#[trigger] pieces[i]).last
        }),
{
    law_pieces_follow_each_other(name, pending, input, start, false);
    lemma_no_step_is_last(feed_steps(name, pending, input, start, false));
}

/// The steps of feed `i` of a text node.
pub open spec fn feed_at(
    states: Seq<TextDecoderView>,
    inputs: Seq<Seq<u8>>,
    starts: Seq<nat>,
    i: int,
) -> Seq<FeedStep> {
    feed_steps(
        states[i].name(),
        states[i].calls(),
        inputs[i],
        starts[i],
        i == inputs.len() - 1,
    )
}

/// Whether the states of a text decoder and of a sink are those before, between and after some
/// feeds, all of them taken by the sink, of which the last ends the text node.
pub open spec fn is_text_node<S: TextSink>(
    states: Seq<TextDecoderView>,
    inputs: Seq<Seq<u8>>,
    starts: Seq<nat>,
    sinks: Seq<S>,
) -> bool {
    &&& inputs.len() > 0
    &&& states.len() == inputs.len() + 1
    &&& starts.len() == inputs.len()
    &&& sinks.len() == inputs.len() + 1
    &&& forall|i: int|
        #![trigger inputs[i]]
        0 <= i < inputs.len() ==> is_fed(
            states[i],
            inputs[i],
            starts[i],
            i == inputs.len() - 1,
            feed_at(states, inputs, starts, i),
            sinks[i],
            states[i + 1],
            sinks[i + 1],
            Ok(()),
        )
}

proof fn lemma_text_node_so_far<S: TextSink>(
    log: spec_fn(S) -> Seq<Delivery>,
    states: Seq<TextDecoderView>,
    inputs: Seq<Seq<u8>>,
    starts: Seq<nat>,
    sinks: Seq<S>,
    k: int,
) -> (pieces: Seq<Delivery>)
    requires
        notes_down(log),
        is_text_node(states, inputs, starts, sinks),
        states[0].pending is None,
        states[0].plain_start == Seq::<u8>::empty(),
        is_ascii_compatible_name(states[0].name()),
        0 <= k < inputs.len(),
    ensures
        states[k].name() == states[0].name(),
        states[k].node_bytes() == all_bytes(inputs.take(k)),
        log(sinks[k]) == log(sinks[0]) + pieces,
        states[k].node_text() == texts(pieces),
        forall|next: Seq<u8>, last: bool| #[trigger] states[k].goes_on_with(next, last),
    decreases k,
{
    let name = states[0].name();
    if k == 0 {
        let none = Seq::<DecodeCall>::empty();
        let nothing = Seq::<Delivery>::empty();
        assert(stream_of(name, none) =~= Seq::<u8>::empty());
        assert(text_of(name, none) =~= Seq::<char>::empty());
        assert(states[0].node_bytes() =~= all_bytes(inputs.take(0)));
        assert(states[0].node_text() =~= texts(nothing));
        assert(log(sinks[0]) + nothing =~= log(sinks[0]));
        nothing
    } else {
        let earlier = lemma_text_node_so_far(log, states, inputs, starts, sinks, k - 1);
        let input = inputs[k - 1];
        let steps = feed_at(states, inputs, starts, k - 1);
        let more = deliveries(steps);
        assert(states[k - 1].goes_on_with(input, false));
        assert(inputs.take(k).drop_last() =~= inputs.take(k - 1));
        law_sink_is_handed_each_piece_once(
            log,
            sinks[k - 1],
            steps,
            states[k - 1].encoding,
            sinks[k],
        );
        lemma_texts_of_deliveries(steps);
        lemma_texts_in_parts(earlier, more);
        assert(log(sinks[0]) + (earlier + more) =~= (log(sinks[0]) + earlier) + more);
        earlier + more
    }
}

/// However a text node is cut into feeds, what the sink is handed for it is together the text that
/// its encoding makes of all its bytes.
pub proof fn law_text_node_is_decoded<S: TextSink>(
    log: spec_fn(S) -> Seq<Delivery>,
    states: Seq<TextDecoderView>,
    inputs: Seq<Seq<u8>>,
    starts: Seq<nat>,
    sinks: Seq<S>,
) -> (pieces: Seq<Delivery>)
    requires
        notes_down(log),
        is_text_node(states, inputs, starts, sinks),
        states[0].pending is None,
        states[0].plain_start == Seq::<u8>::empty(),
        is_ascii_compatible_name(states[0].name()),
    ensures
        log(sinks.last()) == log(sinks[0]) + pieces,
        texts(pieces) == whole_text(states[0].name(), all_bytes(inputs)),
        states.last().pending is None,
        states.last().plain_start == Seq::<u8>::empty(),
{
    let k = inputs.len() - 1;
    let earlier = lemma_text_node_so_far(log, states, inputs, starts, sinks, k);
    let input = inputs[k];
    let steps = feed_at(states, inputs, starts, k);
    let more = deliveries(steps);
    assert(states[k].goes_on_with(input, true));
    assert(inputs.drop_last() =~= inputs.take(k));
    law_sink_is_handed_each_piece_once(log, sinks[k], steps, states[k].encoding, sinks[k + 1]);
    lemma_texts_of_deliveries(steps);
    lemma_texts_in_parts(earlier, more);
    assert(log(sinks[0]) + (earlier + more) =~= (log(sinks[0]) + earlier) + more);
    earlier + more
}

/// A feed that was taken leaves the decoder behind its input: the bytes that are decoded next follow
/// those that were fed. With the end of the text node nothing of it is left.
pub proof fn law_next_bytes_follow_those_that_were_fed<S: TextSink>(
    before: TextDecoderView,
    input: Seq<u8>,
    start: nat,
    last: bool,
    sink: S,
    after: TextDecoderView,
    sink_after: S,
)
    requires
        before.suspended is None,
        is_fed(
            before,
            input,
            start,
            last,
            feed_steps(before.name(), before.calls(), input, start, last),
            sink,
            after,
            sink_after,
            Ok(()),
        ),
    ensures
        !last ==> after.pending_start == start + input.len() && after.pending is Some
            && after.name() == before.name(),
        last ==> after.pending is None && after.plain_start.len() == 0,
        after.encoding == before.encoding,
        after.suspended is None,
        !after.ended,
{
}

/// A feed that was refused can be resumed: what is left of it is the end of its input, in its place.
pub proof fn law_refused_feed_can_be_resumed<S: TextSink>(
    before: TextDecoderView,
    input: Seq<u8>,
    start: nat,
    last: bool,
    sink: S,
    after: TextDecoderView,
    sink_after: S,
    error: RewritingError,
)
    requires
        is_fed(
            before,
            input,
            start,
            last,
            feed_steps(before.name(), before.calls(), input, start, last),
            sink,
            after,
            sink_after,
            Err(error),
        ),
    ensures
        after.suspended matches Some(position) && {
            &&& position.next_start + position.remaining.len() == start + input.len()
            &&& position.last == last
            &&& position.finished ==> position.remaining.len() == 0
        },
        after.encoding == before.encoding,
{
    let steps = feed_steps(before.name(), before.calls(), input, start, last);
    law_pieces_follow_each_other(before.name(), before.calls(), input, start, last);
    let n: int = choose|n: int|
        {
            &&& 0 <= n < steps.len()
            &&& stops_at(sink, steps, n, before.encoding, sink_after, Err(error))
            &&& #[trigger] is_stopped_at(before, input, start, last, steps, n, after)
        };
    assert(steps[n].position.last == last);
}

} // verus!
