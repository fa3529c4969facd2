use super::transform_stream::{left_of, Awaited, StreamView, SuspendedPhase};
use crate::rewritable_units::text_decoder::TextDecoderView;
use crate::rewritable_units::text_feed::TextSink;
use crate::rewritable_units::text_resumption_laws::{
    is_paused_feed, law_paused_feed_is_an_uninterrupted_one, FeedPause,
};
use crate::rewriter::dispatcher_model::{DescriptorView, DispatcherView, Outcome};
use crate::rewriter::errors::RewritingError;
use crate::rewriter::resumption_laws::{
    is_paused_outcome, law_paused_token_is_an_uninterrupted_one, Pause,
};
use crate::rewriter::units::{HandlerTypes, Token};
use vstd::prelude::*;

verus! {

/// What a state machine finds in the input: a token, or a part of a text node.
#[verifier::reject_recursive_types(H)]
pub enum Lexeme<H: HandlerTypes> {
    Token(Token<H>),
    Text { input: Seq<u8>, start: nat, last: bool },
}

/// A lexeme, and what came of it, with the pauses where handlers were suspended on it: the token went
/// through the dispatcher, the text through a text decoder and to a sink.
#[verifier::reject_recursive_types(H)]
#[verifier::reject_recursive_types(S)]
pub enum Report<H: HandlerTypes, S> {
    Token {
        before: DispatcherView<H>,
        token: Token<H>,
        descriptor: Option<DescriptorView>,
        pauses: Seq<Pause<H>>,
        after: DispatcherView<H>,
        descriptor_after: Option<DescriptorView>,
        res: Outcome<Token<H>, H>,
    },
    Text {
        before: TextDecoderView,
        input: Seq<u8>,
        start: nat,
        last: bool,
        sink: S,
        pauses: Seq<FeedPause<S>>,
        after: TextDecoderView,
        sink_after: S,
        res: Result<(), RewritingError>,
    },
}

impl<H: HandlerTypes, S: TextSink> Report<H, S> {
    /// What was reported.
    pub open spec fn lexeme(self) -> Lexeme<H> {
        match self {
            Report::Token { token, .. } => Lexeme::Token(token),
            Report::Text { input, start, last, .. } => Lexeme::Text { input, start, last },
        }
    }

    /// Whether this may come of the lexeme.
    pub open spec fn is_possible(self) -> bool {
        match self {
            Report::Token { before, token, descriptor, pauses, after, descriptor_after, res } => {
                &&& before.suspended is None
                &&& is_paused_outcome(
                    before,
                    token,
                    descriptor,
                    pauses,
                    after,
                    descriptor_after,
                    res,
                )
            },
            Report::Text { before, input, start, last, sink, pauses, after, sink_after, res } => {
                &&& before.suspended is None
                &&& is_paused_feed(
                    before,
                    input,
                    start,
                    last,
                    sink,
                    pauses,
                    after,
                    sink_after,
                    res,
                )
            },
        }
    }

    /// The same lexeme with the same outcome, and without a pause.
    pub open spec fn at_once(self) -> Self {
        match self {
            Report::Token { before, token, descriptor, after, descriptor_after, res, .. } =>
                Report::Token {
                    before,
                    token,
                    descriptor,
                    pauses: Seq::empty(),
                    after,
                    descriptor_after,
                    res,
                },
            Report::Text { before, input, start, last, sink, after, sink_after, res, .. } =>
                Report::Text {
                    before,
                    input,
                    start,
                    last,
                    sink,
                    pauses: Seq::empty(),
                    after,
                    sink_after,
                    res,
                },
        }
    }
}

/// A lexeme with pauses has the outcome of one without.
proof fn lemma_report_at_once<H: HandlerTypes, S: TextSink>(report: Report<H, S>)
    requires
        report.is_possible(),
    ensures
        report.at_once().is_possible(),
        report.at_once().lexeme() == report.lexeme(),
{
    match report {
        Report::Token { before, token, descriptor, pauses, after, descriptor_after, res } => {
            law_paused_token_is_an_uninterrupted_one(
                before,
                token,
                descriptor,
                pauses,
                after,
                descriptor_after,
                res,
            );
        },
        Report::Text { before, input, start, last, sink, pauses, after, sink_after, res } => {
            law_paused_feed_is_an_uninterrupted_one(
                before,
                input,
                start,
                last,
                sink,
                pauses,
                after,
                sink_after,
                res,
            );
        },
    }
}

/// The lexemes of some reports.
pub open spec fn lexemes<H: HandlerTypes, S: TextSink>(reports: Seq<Report<H, S>>) -> Seq<
    Lexeme<H>,
> {
    Seq::new(reports.len(), |i: int| reports[i].lexeme())
}

/// The reports of some parses, one after the other, each without its pauses.
pub open spec fn all_at_once<H: HandlerTypes, S: TextSink>(
    reports: Seq<Seq<Report<H, S>>>,
) -> Seq<Report<H, S>>
    decreases reports.len(),
{
    if reports.len() == 0 {
        Seq::empty()
    } else {
        all_at_once(reports.drop_last()) + Seq::new(
            reports.last().len(),
            |i: int| reports.last()[i].at_once(),
        )
    }
}

/// A sum.
pub open spec fn sum(terms: Seq<nat>) -> nat
    decreases terms.len(),
{
    if terms.len() == 0 {
        0
    } else {
        sum(terms.drop_last()) + terms.last()
    }
}

/// The rewrite of a chunk of input: the new input, and of each parse of it (the first one, and the
/// resumed ones) how many bytes it consumed, what it reported, and the stream afterwards.
#[verifier::reject_recursive_types(H)]
#[verifier::reject_recursive_types(S)]
pub struct ChunkRewrite<H: HandlerTypes, S> {
    pub data: Seq<u8>,
    pub consumed: Seq<nat>,
    pub reports: Seq<Seq<Report<H, S>>>,
    pub states: Seq<StreamView>,
}

impl<H: HandlerTypes, S: TextSink> ChunkRewrite<H, S> {
    /// How many bytes the first `n` parses consumed.
    pub open spec fn consumed_by(self, n: int) -> nat {
        sum(self.consumed.take(n))
    }

    /// Whether the parses report what there is to be found in the chunk. `found` is what the state
    /// machines find in a chunk between two places in it, and where they were suspended they go on:
    /// what they find then is what was left to be found.
    pub open spec fn reports_all(
        self,
        found: spec_fn(Seq<u8>, nat, nat) -> Seq<Lexeme<H>>,
        chunk: Seq<u8>,
    ) -> bool {
        &&& forall|i: int|
            #![trigger self.reports[i]]
            0 <= i < self.reports.len() ==> lexemes(self.reports[i]) == found(
                chunk,
                self.consumed_by(i),
                self.consumed_by(i + 1),
            )
        &&& forall|i: int|
            #![trigger self.reports[i]]
            0 < i < self.reports.len() ==> found(chunk, 0, self.consumed_by(i)) + found(
                chunk,
                self.consumed_by(i),
                self.consumed_by(i + 1),
            ) == found(chunk, 0, self.consumed_by(i + 1))
        &&& forall|i: int, j: int|
            #![trigger self.reports[i][j]]
            0 <= i < self.reports.len() && 0 <= j < self.reports[i].len()
                ==> self.reports[i][j].is_possible()
    }

    /// Whether the parses and the states of the stream belong together: there is at least one parse,
    /// and none consumed more of the chunk than was left.
    pub open spec fn has_parses_of(self, chunk: Seq<u8>) -> bool {
        &&& self.consumed.len() > 0
        &&& self.reports.len() == self.consumed.len()
        &&& self.states.len() == self.consumed.len()
        &&& sum(self.consumed) <= chunk.len()
    }

    /// Whether each parse but the first is the resumption of the one before, of which each but the
    /// last was suspended.
    pub open spec fn is_resumed(self) -> bool {
        forall|i: int|
            #![trigger self.consumed[i]]
            0 < i < self.consumed.len() ==> self.states[i] == (StreamView {
                awaited: Awaited::Resumption,
                ..self.states[i - 1]
            }).after_resume_parsed(self.consumed[i], i < self.consumed.len() - 1)
    }

    /// Whether a stream may go through this when new input is written.
    pub open spec fn is_write(
        self,
        found: spec_fn(Seq<u8>, nat, nat) -> Seq<Lexeme<H>>,
        before: StreamView,
    ) -> bool {
        let chunk = before.pending + self.data;
        &&& before.awaited == Awaited::Input
        &&& before.phase == SuspendedPhase::NotSuspended
        &&& self.has_parses_of(chunk)
        &&& self.states[0] == before.after_write(self.data).after_write_parsed(
            self.consumed[0],
            self.consumed.len() > 1,
        )
        &&& self.is_resumed()
        &&& self.reports_all(found, chunk)
    }

    /// Whether a stream may go through this when the input ends.
    pub open spec fn is_end(
        self,
        found: spec_fn(Seq<u8>, nat, nat) -> Seq<Lexeme<H>>,
        before: StreamView,
    ) -> bool {
        let chunk = before.pending;
        &&& before.awaited == Awaited::Input
        &&& before.phase == SuspendedPhase::NotSuspended
        &&& self.data.len() == 0
        &&& self.has_parses_of(chunk)
        &&& self.states[0] == (StreamView {
            awaited: Awaited::FinalParse,
            ..before
        }).after_end_parsed(self.consumed[0], self.consumed.len() > 1)
        &&& self.is_resumed()
        &&& self.reports_all(found, chunk)
    }

    /// The rewrite of the same chunk in one parse, with no handler suspended, that ends in a state.
    pub open spec fn at_once(self, state: StreamView) -> Self {
        ChunkRewrite {
            data: self.data,
            consumed: seq![sum(self.consumed)],
            reports: seq![all_at_once(self.reports)],
            states: seq![state],
        }
    }
}

proof fn lemma_sum_grows(terms: Seq<nat>, n: int)
    requires
        0 <= n <= terms.len(),
    ensures
        sum(terms.take(n)) <= sum(terms),
        n < terms.len() ==> sum(terms.take(n + 1)) == sum(terms.take(n)) + terms[n],
    decreases terms.len(),
{
    if n == terms.len() {
        assert(terms.take(n) =~= terms);
    } else {
        assert(terms.take(n + 1).drop_last() =~= terms.take(n));
        let shorter = terms.drop_last();
        if n < shorter.len() {
            lemma_sum_grows(shorter, n);
        } else {
            lemma_sum_grows(shorter, shorter.len() as int);
        }
        assert(shorter.take(n) =~= terms.take(n));
    }
}

/// All of some parses report what is to be found up to where they have come, and each lexeme has an
/// outcome without a pause.
proof fn lemma_reports_so_far<H: HandlerTypes, S: TextSink>(
    run: ChunkRewrite<H, S>,
    found: spec_fn(Seq<u8>, nat, nat) -> Seq<Lexeme<H>>,
    chunk: Seq<u8>,
    n: int,
)
    requires
        run.reports_all(found, chunk),
        0 < n <= run.reports.len(),
    ensures
        lexemes(all_at_once(run.reports.take(n))) == found(chunk, 0, run.consumed_by(n)),
        forall|k: int|
            0 <= k < all_at_once(run.reports.take(n)).len() ==> (#[trigger] all_at_once(
                run.reports.take(n),
            )[k]).is_possible(),
    decreases n,
{
    let now = run.reports.take(n);
    let earlier = run.reports.take(n - 1);
    let last = run.reports[n - 1];
    let added = Seq::new(last.len(), |i: int| last[i].at_once());
    assert(now.drop_last() =~= earlier);
    assert(now.last() == last);
    assert(all_at_once(now) == all_at_once(earlier) + added);
    assert forall|i: int| 0 <= i < last.len() implies (#[trigger] added[i]).is_possible()
        && added[i].lexeme() == last[i].lexeme() by {
        assert(run.reports[n - 1][i].is_possible());
        lemma_report_at_once(last[i]);
    }
    assert(lexemes(added) =~= lexemes(last));
    assert(lexemes(all_at_once(now)) =~= lexemes(all_at_once(earlier)) + lexemes(added));
    if n == 1 {
        assert(earlier =~= Seq::empty());
        assert(lexemes(all_at_once(earlier)) =~= Seq::empty());
        assert(lexemes(all_at_once(now)) =~= lexemes(last));
        assert(run.consumed.take(0) =~= Seq::empty());
    } else {
        lemma_reports_so_far(run, found, chunk, n - 1);
    }
    assert forall|k: int| 0 <= k < all_at_once(now).len() implies (#[trigger] all_at_once(
        now,
    )[k]).is_possible() by {
        if k >= all_at_once(earlier).len() {
            let i = k - all_at_once(earlier).len();
            assert(added[i].is_possible());
        }
    }
}

/// Where a stream is after some parses of a chunk: behind all that they consumed.
proof fn lemma_write_so_far<H: HandlerTypes, S: TextSink>(
    run: ChunkRewrite<H, S>,
    found: spec_fn(Seq<u8>, nat, nat) -> Seq<Lexeme<H>>,
    before: StreamView,
    n: int,
)
    requires
        run.is_write(found, before),
        0 < n <= run.consumed.len(),
    ensures
        run.states[n - 1] == before.after_write(run.data).after_write_parsed(
            run.consumed_by(n),
            n < run.consumed.len(),
        ),
    decreases n,
{
    let chunk = before.pending + run.data;
    lemma_sum_grows(run.consumed, n);
    lemma_sum_grows(run.consumed, n - 1);
    if n == 1 {
        assert(run.consumed.take(0) =~= Seq::empty());
    } else {
        lemma_write_so_far(run, found, before, n - 1);
        let behind = left_of(chunk, run.consumed_by(n - 1));
        assert(run.consumed[n - 1] == run.consumed[n - 1]);
        assert(left_of(behind, run.consumed[n - 1]) =~= left_of(chunk, run.consumed_by(n)));
    }
}

/// Where a stream is after some parses of the last of the input, if the first of them was suspended:
/// behind all that they consumed.
proof fn lemma_end_so_far<H: HandlerTypes, S: TextSink>(
    run: ChunkRewrite<H, S>,
    found: spec_fn(Seq<u8>, nat, nat) -> Seq<Lexeme<H>>,
    before: StreamView,
    n: int,
)
    requires
        run.is_end(found, before),
        run.consumed.len() > 1,
        0 < n <= run.consumed.len(),
    ensures
        run.states[n - 1] == before.with_left(
            left_of(before.pending, run.consumed_by(n)),
            if n < run.consumed.len() {
                SuspendedPhase::EndParse
            } else {
                SuspendedPhase::NotSuspended
            },
            if n < run.consumed.len() {
                Awaited::Input
            } else {
                Awaited::Finish
            },
        ),
    decreases n,
{
    lemma_sum_grows(run.consumed, n);
    lemma_sum_grows(run.consumed, n - 1);
    if n == 1 {
        assert(run.consumed.take(0) =~= Seq::empty());
    } else {
        lemma_end_so_far(run, found, before, n - 1);
        let behind = left_of(before.pending, run.consumed_by(n - 1));
        assert(run.consumed[n - 1] == run.consumed[n - 1]);
        assert(left_of(behind, run.consumed[n - 1]) =~= left_of(
            before.pending,
            run.consumed_by(n),
        ));
    }
}

/// What is in one parse in place of several: the same lexemes with the same outcomes.
proof fn lemma_reports_at_once<H: HandlerTypes, S: TextSink>(
    run: ChunkRewrite<H, S>,
    found: spec_fn(Seq<u8>, nat, nat) -> Seq<Lexeme<H>>,
    chunk: Seq<u8>,
    state: StreamView,
)
    requires
        run.has_parses_of(chunk),
        run.reports_all(found, chunk),
    ensures
        run.at_once(state).has_parses_of(chunk),
        run.at_once(state).reports_all(found, chunk),
{
    let once = run.at_once(state);
    let n = run.consumed.len() as int;
    lemma_reports_so_far(run, found, chunk, n);
    assert(run.reports.take(n) =~= run.reports);
    assert(run.consumed.take(n) =~= run.consumed);
    assert(once.consumed.take(0) =~= Seq::empty());
    assert(once.consumed.take(1) =~= once.consumed);
    assert(once.consumed.drop_last() =~= Seq::empty());
    assert(sum(once.consumed) == sum(run.consumed)) by {
        assert(sum(once.consumed.drop_last()) == 0);
    }
    assert forall|i: int, j: int|
        #![trigger once.reports[i][j]]
        0 <= i < once.reports.len() && 0 <= j
            < once.reports[i].len() implies once.reports[i][j].is_possible() by {
        assert(all_at_once(run.reports)[j].is_possible());
    }
}

/// A write on which handlers were suspended, each time resumed, goes as a write on which none was:
/// the machines find the same tokens and parts of text, each with the same outcome, and the stream is
/// left in the same state.
pub proof fn law_suspended_write_is_an_uninterrupted_one<H: HandlerTypes, S: TextSink>(
    run: ChunkRewrite<H, S>,
    found: spec_fn(Seq<u8>, nat, nat) -> Seq<Lexeme<H>>,
    before: StreamView,
)
    requires
        run.is_write(found, before),
    ensures
        run.at_once(run.states.last()).is_write(found, before),
{
    let n = run.consumed.len() as int;
    lemma_write_so_far(run, found, before, n);
    lemma_reports_at_once(run, found, before.pending + run.data, run.states.last());
    assert(run.consumed.take(n) =~= run.consumed);
}

/// The end of the input on which handlers were suspended, each time resumed, goes as one on which
/// none was: the machines find the same tokens and parts of text, each with the same outcome, and
/// the document can be finished then. Of the rest of the input only what was not consumed is left
/// for that; without a suspension it is the rest as a whole.
pub proof fn law_suspended_end_is_an_uninterrupted_one<H: HandlerTypes, S: TextSink>(
    run: ChunkRewrite<H, S>,
    found: spec_fn(Seq<u8>, nat, nat) -> Seq<Lexeme<H>>,
    before: StreamView,
)
    requires
        run.is_end(found, before),
    ensures
        ({
            let finishing = StreamView { awaited: Awaited::Finish, ..before };
            &&& run.at_once(finishing).is_end(found, before)
            &&& run.states.last().awaited == Awaited::Finish
            &&& run.states.last().phase == SuspendedPhase::NotSuspended
            &&& run.states.last().pending == (if run.consumed.len() > 1 {
                left_of(before.pending, sum(run.consumed))
            } else {
                before.pending
            })
        }),
{
    let n = run.consumed.len() as int;
    let finishing = StreamView { awaited: Awaited::Finish, ..before };
    if n > 1 {
        lemma_end_so_far(run, found, before, n);
    }
    lemma_reports_at_once(run, found, before.pending, finishing);
    assert(run.consumed.take(n) =~= run.consumed);
}

/// Whether a stream may go through some writes, one after the other. `states` are those before,
/// between and after them.
pub open spec fn is_rewrite<H: HandlerTypes, S: TextSink>(
    found: spec_fn(Seq<u8>, nat, nat) -> Seq<Lexeme<H>>,
    states: Seq<StreamView>,
    writes: Seq<ChunkRewrite<H, S>>,
) -> bool {
    &&& states.len() == writes.len() + 1
    &&& forall|i: int|
        #![trigger writes[i]]
        0 <= i < writes.len() ==> writes[i].is_write(found, states[i]) && states[i + 1]
            == writes[i].states.last()
}

/// However often the rewrite of a document is suspended and resumed, it goes as one that never was:
/// write by write the stream goes through the same states, and the machines find the same tokens and
/// parts of text, with the same outcomes for the dispatcher, the text decoder and what they hand
/// on to.
pub proof fn law_suspended_rewrite_is_an_uninterrupted_one<H: HandlerTypes, S: TextSink>(
    found: spec_fn(Seq<u8>, nat, nat) -> Seq<Lexeme<H>>,
    states: Seq<StreamView>,
    writes: Seq<ChunkRewrite<H, S>>,
)
    requires
        is_rewrite(found, states, writes),
    ensures
        is_rewrite(
            found,
            states,
            Seq::new(writes.len(), |i: int| writes[i].at_once(states[i + 1])),
        ),
{
    let once = Seq::new(writes.len(), |i: int| writes[i].at_once(states[i + 1]));
    assert forall|i: int| #![trigger once[i]] 0 <= i < once.len() implies once[i].is_write(
        found,
        states[i],
    ) && states[i + 1] == once[i].states.last() by {
        assert(writes[i].is_write(found, states[i]));
        law_suspended_write_is_an_uninterrupted_one(writes[i], found, states[i]);
    }
}

} // verus!
