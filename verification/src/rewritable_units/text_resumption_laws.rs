use super::text_decoder::{fits_buffer, is_fed, is_resumed, is_stopped_at, TextDecoderView};
use super::text_feed::{
    calls_or_none, fast_step, feed_steps, handed_on, has_fast_start, loop_steps, resumed_steps,
    stops_at, takes_all, Delivery, FeedStep, TextSink,
};
use super::text_feed_laws::{law_resumed_feed_goes_on, lemma_loop_has_calls};
use crate::rewriter::errors::RewritingError;
use encoding_rs::Encoding;
use vstd::prelude::*;

verus! {

/// Whether a sink that refused a piece with an error could as well have taken it, and become what the
/// feed is resumed with.
pub open spec fn could_take<S: TextSink>(
    refusing: S,
    resumed: S,
    encoding: Encoding,
    error: RewritingError,
) -> bool {
    forall|before: S, delivery: Delivery|
        S::taken(before, delivery, encoding, refusing, Err(error)) ==> #[trigger] S::taken(
            before,
            delivery,
            encoding,
            resumed,
            Ok(()),
        )
}

proof fn lemma_takes_in_parts<S: TextSink>(
    before: S,
    first: Seq<FeedStep>,
    encoding: Encoding,
    between: S,
    second: Seq<FeedStep>,
    after: S,
)
    requires
        takes_all(before, first, encoding, between),
        takes_all(between, second, encoding, after),
    ensures
        takes_all(before, first + second, encoding, after),
    decreases second.len(),
{
    let all = first + second;
    if second.len() == 0 {
        assert(all =~= first);
    } else {
        let shorter = second.drop_last();
        assert(all.drop_last() =~= first + shorter);
        assert(all.last() == second.last());
        match second.last().delivery {
            None => {
                lemma_takes_in_parts(before, first, encoding, between, shorter, after);
            },
            Some(delivery) => {
                let sink: S = choose|sink: S|
                    {
                        &&& takes_all(between, shorter, encoding, sink)
                        &&& #[trigger] S::taken(sink, delivery, encoding, after, Ok(()))
                    };
                lemma_takes_in_parts(before, first, encoding, between, shorter, sink);
                assert(S::taken(sink, delivery, encoding, after, Ok(())));
            },
        }
    }
}

proof fn lemma_handed_on_in_parts(first: Seq<FeedStep>, second: Seq<FeedStep>)
    ensures
        handed_on(first + second) == handed_on(first) + handed_on(second),
    decreases second.len(),
{
    if second.len() == 0 {
        assert(first + second =~= first);
        assert(handed_on(first) + handed_on(second) =~= handed_on(first));
    } else {
        assert((first + second).drop_last() =~= first + second.drop_last());
        lemma_handed_on_in_parts(first, second.drop_last());
        assert(handed_on(first + second) =~= handed_on(first) + handed_on(second));
    }
}

/// A feed that does not end a text node comes to its end with a decoder.
proof fn lemma_open_end_has_calls(before: TextDecoderView, input: Seq<u8>, start: nat)
    requires
        feed_steps(before.name(), before.calls(), input, start, false).last().position.finished,
    ensures
        feed_steps(before.name(), before.calls(), input, start, false).last().calls is Some,
{
    let name = before.name();
    let steps = feed_steps(name, before.calls(), input, start, false);
    if has_fast_start(name, before.calls(), input) {
        let step = fast_step(name, input, start, false);
        let rest = loop_steps(
            name,
            Seq::empty(),
            step.position.remaining,
            step.position.next_start,
            false,
        );
        assert(steps == seq![step] + rest);
        assert(steps.last() == rest.last());
        lemma_loop_has_calls(
            name,
            Seq::empty(),
            step.position.remaining,
            step.position.next_start,
            false,
            rest.len() - 1,
        );
    } else {
        lemma_loop_has_calls(
            name,
            calls_or_none(before.calls()),
            input,
            start,
            false,
            steps.len() - 1,
        );
    }
}

/// A feed that was stopped at its last piece, which was taken after all.
proof fn lemma_resumed_at_the_end<S: TextSink>(
    before: TextDecoderView,
    input: Seq<u8>,
    start: nat,
    last: bool,
    n: int,
    sink: S,
    stopped: TextDecoderView,
    resumed: S,
    after: TextDecoderView,
    sink_after: S,
    res: Result<(), RewritingError>,
)
    requires
        before.suspended is None,
        stopped.encoding == before.encoding,
        ({
            let steps = feed_steps(before.name(), before.calls(), input, start, last);
            &&& 0 <= n < steps.len()
            &&& is_stopped_at(before, input, start, last, steps, n, stopped)
            &&& steps[n].position.finished
            &&& steps[n].position.last == last
            &&& takes_all(sink, steps.take(n + 1), before.encoding, resumed)
            &&& is_resumed(
                TextDecoderView { suspended: None, ..stopped },
                steps[n].position,
                resumed,
                after,
                sink_after,
                res,
            )
        }),
    ensures
        is_fed(
            before,
            input,
            start,
            last,
            feed_steps(before.name(), before.calls(), input, start, last),
            sink,
            after,
            sink_after,
            res,
        ),
{
    let steps = feed_steps(before.name(), before.calls(), input, start, last);
    let position = steps[n].position;
    assert(steps.take(n + 1) =~= steps);
    assert(steps.last() == steps[n]);
    if !last {
        lemma_open_end_has_calls(before, input, start);
    }
    if before.goes_on_with(input, last) {
        assert(stopped.node_bytes() + position.remaining =~= stopped.node_bytes());
        if !last {
            assert(after.node_text() == stopped.node_text());
            assert(after.node_bytes() == stopped.node_bytes());
            assert forall|next: Seq<u8>, next_last: bool| #[trigger]
                after.goes_on_with(next, next_last) by {
                assert(stopped.goes_on_with(next, next_last));
            }
        }
    }
}

/// A feed that was stopped before its last piece, and of which the rest was taken.
proof fn lemma_resumed_to_the_end<S: TextSink>(
    before: TextDecoderView,
    input: Seq<u8>,
    start: nat,
    last: bool,
    steps: Seq<FeedStep>,
    n: int,
    sink: S,
    stopped: TextDecoderView,
    resumed: S,
    after: TextDecoderView,
    sink_after: S,
)
    requires
        before.suspended is None,
        stopped.encoding == before.encoding,
        0 <= n < steps.len() - 1,
        is_stopped_at(before, input, start, last, steps, n, stopped),
        stopped.name() == before.name(),
        takes_all(sink, steps.take(n + 1), before.encoding, resumed),
        is_fed(
            TextDecoderView { suspended: None, ..stopped },
            steps[n].position.remaining,
            steps[n].position.next_start,
            last,
            steps.skip(n + 1),
            resumed,
            after,
            sink_after,
            Ok(()),
        ),
    ensures
        is_fed(before, input, start, last, steps, sink, after, sink_after, Ok(())),
{
    let position = steps[n].position;
    let taken = TextDecoderView { suspended: None, ..stopped };
    let front = steps.take(n + 1);
    let rest = steps.skip(n + 1);
    assert(front + rest =~= steps);
    assert(rest.last() == steps.last());
    lemma_handed_on_in_parts(front, rest);
    lemma_takes_in_parts(sink, front, before.encoding, resumed, rest, sink_after);
    assert forall|i: int| 0 <= i < steps.len() implies fits_buffer(#[trigger] steps[i]) by {
        if i > n {
            assert(fits_buffer(rest[i - n - 1]));
        }
    }
    if before.goes_on_with(input, last) {
        assert(taken.node_text() == stopped.node_text());
        assert(taken.node_bytes() == stopped.node_bytes());
        assert(stopped.goes_on_with(position.remaining, last));
        assert(taken.goes_on_with(position.remaining, last));
        assert(before.node_text() + handed_on(steps) =~= taken.node_text() + handed_on(rest));
    }
}

/// A feed that was stopped before its last piece, and once more among the rest.
proof fn lemma_resumed_and_stopped<S: TextSink>(
    before: TextDecoderView,
    input: Seq<u8>,
    start: nat,
    last: bool,
    steps: Seq<FeedStep>,
    n: int,
    sink: S,
    stopped: TextDecoderView,
    resumed: S,
    m: int,
    after: TextDecoderView,
    sink_after: S,
    res: Result<(), RewritingError>,
)
    requires
        0 <= n < steps.len() - 1,
        is_stopped_at(before, input, start, last, steps, n, stopped),
        stopped.name() == before.name(),
        takes_all(sink, steps.take(n + 1), before.encoding, resumed),
        0 <= m < steps.skip(n + 1).len(),
        stops_at(resumed, steps.skip(n + 1), m, before.encoding, sink_after, res),
        is_stopped_at(
            TextDecoderView { suspended: None, ..stopped },
            steps[n].position.remaining,
            steps[n].position.next_start,
            last,
            steps.skip(n + 1),
            m,
            after,
        ),
    ensures
        stops_at(sink, steps, n + 1 + m, before.encoding, sink_after, res),
        is_stopped_at(before, input, start, last, steps, n + 1 + m, after),
{
    let position = steps[n].position;
    let taken = TextDecoderView { suspended: None, ..stopped };
    let front = steps.take(n + 1);
    let rest = steps.skip(n + 1);
    let k = n + 1 + m;
    let encoding = before.encoding;
    assert(rest[m] == steps[k]);
    assert(stops_at(sink, steps, k, encoding, sink_after, res)) by {
        let delivery = rest[m].delivery->0;
        let between: S = choose|between: S|
            {
                &&& takes_all(resumed, rest.take(m), encoding, between)
                &&& #[trigger] S::taken(between, delivery, encoding, sink_after, res)
            };
        lemma_takes_in_parts(sink, front, encoding, resumed, rest.take(m), between);
        assert(front + rest.take(m) =~= steps.take(k));
        assert(S::taken(between, delivery, encoding, sink_after, res));
    }
    assert forall|i: int| 0 <= i <= k implies fits_buffer(#[trigger] steps[i]) by {
        if i > n {
            assert(fits_buffer(rest[i - n - 1]));
        }
    }
    if before.goes_on_with(input, last) {
        assert(taken.node_text() == stopped.node_text());
        assert(taken.node_bytes() == stopped.node_bytes());
        assert(stopped.goes_on_with(position.remaining, last));
        assert(taken.goes_on_with(position.remaining, last));
        lemma_handed_on_in_parts(front, rest.take(m + 1));
        assert(front + rest.take(m + 1) =~= steps.take(k + 1));
        assert(before.node_text() + handed_on(steps.take(k + 1)) =~= taken.node_text()
            + handed_on(rest.take(m + 1)));
    }
}

/// A feed that the sink refused at some piece, and that is resumed with a sink that could have taken
/// the piece, goes as a feed at which the sink took it: decoder, sink and result are those of a feed
/// that was not interrupted there.
pub proof fn law_resumed_feed_is_an_uninterrupted_one<S: TextSink>(
    before: TextDecoderView,
    input: Seq<u8>,
    start: nat,
    last: bool,
    sink: S,
    stopped: TextDecoderView,
    refusing: S,
    error: RewritingError,
    resumed: S,
    after: TextDecoderView,
    sink_after: S,
    res: Result<(), RewritingError>,
)
    requires
        before.suspended is None,
        is_fed(
            before,
            input,
            start,
            last,
            feed_steps(before.name(), before.calls(), input, start, last),
            sink,
            stopped,
            refusing,
            Err(error),
        ),
        could_take(refusing, resumed, before.encoding, error),
        is_resumed(
            TextDecoderView { suspended: None, ..stopped },
            stopped.suspended->0,
            resumed,
            after,
            sink_after,
            res,
        ),
    ensures
        is_fed(
            before,
            input,
            start,
            last,
            feed_steps(before.name(), before.calls(), input, start, last),
            sink,
            after,
            sink_after,
            res,
        ),
{
    let name = before.name();
    let steps = feed_steps(name, before.calls(), input, start, last);
    let encoding = before.encoding;
    let refusal = Err::<(), RewritingError>(error);
    let n: int = choose|n: int|
        {
            &&& 0 <= n < steps.len()
            &&& stops_at(sink, steps, n, encoding, refusing, refusal)
            &&& #[trigger] is_stopped_at(before, input, start, last, steps, n, stopped)
        };
    let position = steps[n].position;
    let front = steps.take(n + 1);
    let rest = steps.skip(n + 1);
    let taken = TextDecoderView { suspended: None, ..stopped };
    law_resumed_feed_goes_on(before, input, start, last, n, stopped);
    assert(resumed_steps(taken.name(), taken.calls(), position) == rest);
    assert(takes_all(sink, front, encoding, resumed)) by {
        let delivery = steps[n].delivery->0;
        let between: S = choose|between: S|
            {
                &&& takes_all(sink, steps.take(n), encoding, between)
                &&& #[trigger] S::taken(between, delivery, encoding, refusing, refusal)
            };
        assert(front.drop_last() =~= steps.take(n));
        assert(front.last() == steps[n]);
        assert(S::taken(between, delivery, encoding, resumed, Ok(())));
    }
    if position.finished {
        lemma_resumed_at_the_end(
            before,
            input,
            start,
            last,
            n,
            sink,
            stopped,
            resumed,
            after,
            sink_after,
            res,
        );
    } else if res is Ok {
        assert(res->Ok_0 == ());
        lemma_resumed_to_the_end(
            before,
            input,
            start,
            last,
            steps,
            n,
            sink,
            stopped,
            resumed,
            after,
            sink_after,
        );
    } else {
        let m: int = choose|m: int|
            {
                &&& 0 <= m < rest.len()
                &&& stops_at(resumed, rest, m, encoding, sink_after, res)
                &&& #[trigger] is_stopped_at(
                    taken,
                    position.remaining,
                    position.next_start,
                    last,
                    rest,
                    m,
                    after,
                )
            };
        lemma_resumed_and_stopped(
            before,
            input,
            start,
            last,
            steps,
            n,
            sink,
            stopped,
            resumed,
            m,
            after,
            sink_after,
            res,
        );
    }
}

/// Where a sink refused a piece of a feed: the decoder and the sink then, the error, and the sink with
/// which the feed was resumed.
pub struct FeedPause<S> {
    pub stopped: TextDecoderView,
    pub refusing: S,
    pub error: RewritingError,
    pub resumed: S,
}

/// What may come of a feed that was refused some times and resumed each time, with a sink that could
/// have taken the piece. Without a pause that is what comes of the feed.
pub open spec fn is_paused_feed<S: TextSink>(
    before: TextDecoderView,
    input: Seq<u8>,
    start: nat,
    last: bool,
    sink: S,
    pauses: Seq<FeedPause<S>>,
    after: TextDecoderView,
    sink_after: S,
    res: Result<(), RewritingError>,
) -> bool
    decreases pauses.len(),
{
    if pauses.len() == 0 {
        is_fed(
            before,
            input,
            start,
            last,
            feed_steps(before.name(), before.calls(), input, start, last),
            sink,
            after,
            sink_after,
            res,
        )
    } else {
        let pause = pauses.last();
        &&& is_paused_feed(
            before,
            input,
            start,
            last,
            sink,
            pauses.drop_last(),
            pause.stopped,
            pause.refusing,
            Err(pause.error),
        )
        &&& could_take(pause.refusing, pause.resumed, before.encoding, pause.error)
        &&& is_resumed(
            TextDecoderView { suspended: None, ..pause.stopped },
            pause.stopped.suspended->0,
            pause.resumed,
            after,
            sink_after,
            res,
        )
    }
}

/// However often a feed is refused and resumed, it goes as a feed that was not interrupted.
pub proof fn law_paused_feed_is_an_uninterrupted_one<S: TextSink>(
    before: TextDecoderView,
    input: Seq<u8>,
    start: nat,
    last: bool,
    sink: S,
    pauses: Seq<FeedPause<S>>,
    after: TextDecoderView,
    sink_after: S,
    res: Result<(), RewritingError>,
)
    requires
        before.suspended is None,
        is_paused_feed(before, input, start, last, sink, pauses, after, sink_after, res),
    ensures
        is_paused_feed(before, input, start, last, sink, Seq::empty(), after, sink_after, res),
    decreases pauses.len(),
{
    if pauses.len() > 0 {
        let pause = pauses.last();
        law_paused_feed_is_an_uninterrupted_one(
            before,
            input,
            start,
            last,
            sink,
            pauses.drop_last(),
            pause.stopped,
            pause.refusing,
            Err(pause.error),
        );
        law_resumed_feed_is_an_uninterrupted_one(
            before,
            input,
            start,
            last,
            sink,
            pause.stopped,
            pause.refusing,
            pause.error,
            pause.resumed,
            after,
            sink_after,
            res,
        );
    } else {
        assert(pauses =~= Seq::<FeedPause<S>>::empty());
    }
}

} // verus!
