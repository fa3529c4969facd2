use super::text_feed::{
    calls_or_none, fast_step, feed_steps, handed_on, has_fast_start, is_fast_start, is_plain_len,
    loop_call, loop_step, loop_steps, piece_of_call, plain_len, resumed_steps, stops_at, takes_all,
    whole_text, FeedStep, SuspensionView, TextSink, DEFAULT_BUFFER_LEN,
};
use crate::base::bytes::Bytes;
use crate::base::encoding::{
    decode_outcome, decode_to_str, decoded, decoder_calls, decoder_encoding, encoding_name,
    is_ascii_compatible_name, is_one_stream, is_over, is_plain_start, is_utf8, keeps_plain_starts,
    may_follow, stream_of, text_of, AsciiCompatibleEncoding, DecodeCall, SharedEncoding,
};
use crate::base::spanned::{SourceLocation, Spanned};
use crate::base::utf8::{from_utf8, lemma_ascii_is_utf8};
use crate::rewriter::errors::RewritingError;
use encoding_rs::{Decoder, Encoding};
use vstd::prelude::*;
use vstd::slice::{slice_subrange, slice_to_vec};
use vstd::utf8::{
    decode_utf8, decode_utf8_encode_utf8, encode_utf8, encode_utf8_decode_utf8,
    encode_utf8_valid_utf8, is_ascii_chars, is_ascii_chars_encode_utf8, valid_utf8,
    valid_utf8_concat, valid_utf8_split,
};

verus! {

/// Turns the bytes of text nodes into text, piece by piece, and hands the pieces on.
pub struct TextDecoder {
    encoding: SharedEncoding,
    pending_source_location_bytes_start: usize,
    pending_text_streaming_decoder: Option<Decoder>,
    text_buffer: String,
    /// Where the current feed was when a handler stopped it.
    suspended: Option<TextFeedSuspension>,
    /// The bytes of the current text node that were handed on without a decoder.
    plain_start: Ghost<Seq<u8>>,
    /// Whether the decoder has come to the end of the text node.
    ended: bool,
}

/// Where a feed was when the handler for one of its pieces stopped it. The bytes that were not
/// decoded yet are copied, because the input may be gone by the time the feed is resumed.
pub struct TextFeedSuspension {
    remaining: Vec<u8>,
    next_source_location_bytes_start: usize,
    last_in_text_node: bool,
    /// Whether the piece was the final one of the feed.
    finished: bool,
}

impl View for TextFeedSuspension {
    type V = SuspensionView;

    closed spec fn view(&self) -> SuspensionView {
        SuspensionView {
            remaining: self.remaining@,
            next_start: self.next_source_location_bytes_start as nat,
            last: self.last_in_text_node,
            finished: self.finished,
        }
    }
}

/// What a text decoder holds.
pub struct TextDecoderView {
    /// The encoding that decoders are made for.
    pub encoding: Encoding,
    /// The encoding of the decoder of the current text node and the calls that it has had, if there
    /// is a decoder.
    pub pending: Option<(Seq<char>, Seq<DecodeCall>)>,
    /// Where the bytes that the decoder takes next are in the document.
    pub pending_start: nat,
    /// Where the feed was that a handler stopped.
    pub suspended: Option<SuspensionView>,
    /// The bytes of the current text node that were handed on without a decoder.
    pub plain_start: Seq<u8>,
    /// Whether the decoder has come to the end of the text node.
    pub ended: bool,
}

impl TextDecoderView {
    /// The name of the encoding of the current text node.
    pub open spec fn name(self) -> Seq<char> {
        match self.pending {
            Some(pending) => pending.0,
            None => encoding_name(self.encoding),
        }
    }

    /// The calls that the decoder of the current text node has had, if there is a decoder.
    pub open spec fn calls(self) -> Option<Seq<DecodeCall>> {
        match self.pending {
            Some(pending) => Some(pending.1),
            None => None,
        }
    }

    /// The bytes of the current text node that were taken so far.
    pub open spec fn node_bytes(self) -> Seq<u8> {
        self.plain_start + stream_of(self.name(), calls_or_none(self.calls()))
    }

    /// The text of the current text node that was made so far.
    pub open spec fn node_text(self) -> Seq<char> {
        decode_utf8(self.plain_start) + text_of(self.name(), calls_or_none(self.calls()))
    }

    /// Whether the text node goes on with these bytes: what a stopped feed left comes first.
    pub open spec fn goes_on_with(self, input: Seq<u8>, last: bool) -> bool {
        let calls = calls_or_none(self.calls());
        &&& is_plain_start(self.name(), self.plain_start)
        &&& is_one_stream(self.name(), calls)
        &&& may_follow(self.name(), calls, loop_call(input, last))
    }
}

/// Whether the text of a step fits the buffer, if it went through the streaming decoder.
pub open spec fn fits_buffer(step: FeedStep) -> bool {
    step.calls is Some ==> (step.delivery matches Some(delivery) ==> encode_utf8(
        delivery.text,
    ).len() <= DEFAULT_BUFFER_LEN)
}

/// Whether `after` is what a feed leaves that was stopped at step `n`: the position behind the step
/// is kept for a resumption, and of the text node exactly the bytes up to there were taken, and all
/// of their text was handed on.
pub open spec fn is_stopped_at(
    before: TextDecoderView,
    input: Seq<u8>,
    start: nat,
    last: bool,
    steps: Seq<FeedStep>,
    n: int,
    after: TextDecoderView,
) -> bool {
    let step = steps[n];
    &&& forall|i: int| 0 <= i <= n ==> fits_buffer(#[trigger] steps[i])
    &&& step.position.next_start + step.position.remaining.len() == start + input.len()
    &&& step.position.finished ==> step.position.remaining.len() == 0
    &&& step.position.finished <==> n == steps.len() - 1
    &&& after.suspended == Some(step.position)
    &&& after.pending_start == before.pending_start
    &&& after.pending == match step.calls {
        Some(calls) => Some((before.name(), calls)),
        None => None,
    }
    &&& after.ended == (step.calls is Some && step.position.finished && last)
    &&& before.goes_on_with(input, last) ==> {
        &&& after.node_text() == before.node_text() + handed_on(steps.take(n + 1))
        &&& after.node_bytes() + step.position.remaining == before.node_bytes() + input
        &&& !step.position.finished ==> after.goes_on_with(step.position.remaining, last)
        &&& step.position.finished && last ==> after.node_text() == whole_text(
            before.name(),
            after.node_bytes(),
        )
        &&& step.position.finished && !last ==> forall|next: Seq<u8>, next_last: bool|
            #[trigger] after.goes_on_with(next, next_last)
    }
}

/// Whether `after`, `sink_after` and `res` may come of the steps of a feed. The sink is handed what
/// the steps hand on, each piece once and in order, up to the first that it refuses. When it took
/// them all, the steps have gone through all of the input, and the whole of the text that was handed
/// on for the text node is the text of the bytes that were fed.
pub open spec fn is_fed<S: TextSink>(
    before: TextDecoderView,
    input: Seq<u8>,
    start: nat,
    last: bool,
    steps: Seq<FeedStep>,
    sink_before: S,
    after: TextDecoderView,
    sink_after: S,
    res: Result<(), RewritingError>,
) -> bool {
    &&& after.encoding == before.encoding
    &&& match res {
        Ok(_) => {
            &&& takes_all(sink_before, steps, before.encoding, sink_after)
            &&& forall|i: int| 0 <= i < steps.len() ==> fits_buffer(#[trigger] steps[i])
            &&& steps.last().position.next_start == start + input.len()
            &&& steps.last().position.remaining.len() == 0
            &&& steps.last().position.finished
            &&& after.suspended == before.suspended
            &&& !after.ended
            &&& if last {
                &&& after.pending is None
                &&& after.pending_start == before.pending_start
                &&& after.plain_start == Seq::<u8>::empty()
            } else {
                &&& after.pending == Some((before.name(), calls_or_none(steps.last().calls)))
                &&& after.pending_start == steps.last().position.next_start
            }
            &&& before.goes_on_with(input, last) ==> if last {
                before.node_text() + handed_on(steps) == whole_text(
                    before.name(),
                    before.node_bytes() + input,
                )
            } else {
                &&& after.node_text() == before.node_text() + handed_on(steps)
                &&& after.node_bytes() == before.node_bytes() + input
                &&& forall|next: Seq<u8>, next_last: bool| #[trigger]
                    after.goes_on_with(next, next_last)
            }
        },
        Err(_) => exists|n: int|
            {
                &&& 0 <= n < steps.len()
                &&& stops_at(sink_before, steps, n, before.encoding, sink_after, res)
                &&& #[trigger] is_stopped_at(before, input, start, last, steps, n, after)
            },
    }
}

/// Whether `after`, `sink_after` and `res` may come of resuming a feed from where it was stopped.
/// Where nothing was left of it, nothing is handed on, and it is only brought to its end.
pub open spec fn is_resumed<S: TextSink>(
    before: TextDecoderView,
    position: SuspensionView,
    sink_before: S,
    after: TextDecoderView,
    sink_after: S,
    res: Result<(), RewritingError>,
) -> bool {
    if position.finished {
        &&& res is Ok
        &&& sink_after == sink_before
        &&& after == (if position.last {
            TextDecoderView { pending: None, ended: false, plain_start: Seq::empty(), ..before }
        } else {
            TextDecoderView { pending_start: position.next_start, ..before }
        })
    } else {
        is_fed(
            before,
            position.remaining,
            position.next_start,
            position.last,
            resumed_steps(before.name(), before.calls(), position),
            sink_before,
            after,
            sink_after,
            res,
        )
    }
}

impl View for TextDecoder {
    type V = TextDecoderView;

    closed spec fn view(&self) -> TextDecoderView {
        TextDecoderView {
            encoding: self.encoding.spec_encoding(),
            pending: match self.pending_text_streaming_decoder {
                Some(decoder) => Some((decoder_encoding(decoder), decoder_calls(decoder))),
                None => None,
            },
            pending_start: self.pending_source_location_bytes_start as nat,
            suspended: match self.suspended {
                Some(suspension) => Some(suspension@),
                None => None,
            },
            plain_start: self.plain_start@,
            ended: self.ended,
        }
    }
}

/// The state of a call of the streaming decoder within a feed.
spec fn is_under_way(
    before: TextDecoderView,
    input: Seq<u8>,
    last: bool,
    done: Seq<FeedStep>,
    calls: Seq<DecodeCall>,
    remaining: Seq<u8>,
) -> bool {
    let name = before.name();
    before.goes_on_with(input, last) ==> {
        &&& decode_utf8(before.plain_start) + text_of(name, calls) == before.node_text()
            + handed_on(done)
        &&& before.plain_start + stream_of(name, calls) + remaining == before.node_bytes() + input
        &&& is_one_stream(name, calls)
        &&& may_follow(name, calls, loop_call(remaining, last))
    }
}

/// A call takes the feed one step further.
proof fn lemma_one_step(
    before: TextDecoderView,
    input: Seq<u8>,
    last: bool,
    done: Seq<FeedStep>,
    calls: Seq<DecodeCall>,
    remaining: Seq<u8>,
    start: nat,
)
    requires
        is_under_way(before, input, last, done, calls, remaining),
        ({
            let step = loop_step(before.name(), calls, remaining, start, last);
            &&& step.position.next_start - start <= remaining.len()
            &&& step.position.finished ==> step.position.next_start - start == remaining.len()
        }),
    ensures
        ({
            let name = before.name();
            let step = loop_step(name, calls, remaining, start, last);
            let made = calls.push(loop_call(remaining, last));
            let rest = step.position.remaining;
            before.goes_on_with(input, last) ==> {
                &&& decode_utf8(before.plain_start) + text_of(name, made) == before.node_text()
                    + handed_on(done.push(step))
                &&& before.plain_start + stream_of(name, made) + rest == before.node_bytes()
                    + input
                &&& is_one_stream(name, made)
                &&& !step.position.finished ==> may_follow(name, made, loop_call(rest, last))
                &&& step.position.finished && !last ==> forall|next: DecodeCall|
                    #[trigger] may_follow(name, made, next)
            }
        }),
{
    let name = before.name();
    let step = loop_step(name, calls, remaining, start, last);
    let made = calls.push(loop_call(remaining, last));
    let rest = step.position.remaining;
    if before.goes_on_with(input, last) {
        assert(made.drop_last() =~= calls);
        assert(done.push(step).drop_last() =~= done);
        let read = decode_outcome(name, made).read as int;
        let taken = remaining.take(read);
        assert(taken + rest =~= remaining);
        assert(before.plain_start + stream_of(name, made) + rest =~= before.plain_start
            + stream_of(name, calls) + remaining);
        assert(decode_utf8(before.plain_start) + text_of(name, made) =~= decode_utf8(
            before.plain_start,
        ) + text_of(name, calls) + decode_outcome(name, made).text);
        assert(before.node_text() + handed_on(done.push(step)) =~= before.node_text() + handed_on(
            done,
        ) + decode_outcome(name, made).text);
    }
}

/// At the end of the stream, the text so far is the text of the text node.
proof fn lemma_whole_text(
    name: Seq<char>,
    plain: Seq<u8>,
    calls: Seq<DecodeCall>,
)
    requires
        keeps_plain_starts(name),
        is_plain_start(name, plain),
        text_of(name, calls) == decoded(name, stream_of(name, calls)),
    ensures
        decode_utf8(plain) + text_of(name, calls) == whole_text(
            name,
            plain + stream_of(name, calls),
        ),
{
    let bytes = plain + stream_of(name, calls);
    assert(decoded(name, bytes) == decode_utf8(plain) + decoded(name, stream_of(name, calls)));
    if is_plain_start(name, bytes) {
        assert(bytes + Seq::<u8>::empty() =~= bytes);
        assert(decoded(name, bytes + Seq::<u8>::empty()) == decode_utf8(bytes) + decoded(
            name,
            Seq::empty(),
        ));
        assert(decode_utf8(bytes) + Seq::<char>::empty() =~= decode_utf8(bytes));
    }
}

impl TextDecoder {
    /// The buffer has its size whenever there is a decoder, and no decoder is used behind the end of
    /// its text node.
    pub closed spec fn is_well_formed(&self) -> bool {
        &&& self.text_buffer@.len() == 0 || encode_utf8(self.text_buffer@).len()
            == DEFAULT_BUFFER_LEN
        &&& match self.pending_text_streaming_decoder {
            Some(decoder) => {
                &&& encode_utf8(self.text_buffer@).len() == DEFAULT_BUFFER_LEN
                &&& keeps_plain_starts(decoder_encoding(decoder))
                &&& is_ascii_compatible_name(decoder_encoding(decoder))
                &&& is_over(decoder_encoding(decoder), decoder_calls(decoder)) ==> self.ended
            },
            None => !self.ended,
        }
    }

    /// A decoder for text nodes in an encoding.
    #[must_use]
    pub fn new(encoding: SharedEncoding) -> (decoder: Self)
        ensures
            decoder.is_well_formed(),
            decoder@ == (TextDecoderView {
                encoding: encoding.spec_encoding(),
                pending: None,
                pending_start: 0,
                suspended: None,
                plain_start: Seq::empty(),
                ended: false,
            }),
            is_ascii_compatible_name(decoder@.name()),
    {
        proof {
            use_type_invariant(&encoding);
        }
        TextDecoder {
            pending_source_location_bytes_start: 0,
            encoding,
            pending_text_streaming_decoder: None,
            text_buffer: String::new(),
            suspended: None,
            plain_start: Ghost(Seq::empty()),
            ended: false,
        }
    }

    /// Whether the decoder has come to the end of the text node, and its last piece was not taken.
    /// The feed must be resumed then, before another one begins.
    pub fn has_ended(&self) -> (ended: bool)
        ensures
            ended == self@.ended,
    {
        self.ended
    }

    /// Where the feed was that a handler stopped, if any.
    pub fn take_suspended(&mut self) -> (suspension: Option<TextFeedSuspension>)
        requires
            old(self).is_well_formed(),
        ensures
            final(self).is_well_formed(),
            final(self)@ == (TextDecoderView { suspended: None, ..old(self)@ }),
            old(self)@.suspended == match suspension {
                Some(s) => Some(s@),
                None => None,
            },
    {
        self.suspended.take()
    }

    /// The part of a feed that goes through the streaming decoder.
    fn feed_decoder_loop<S: TextSink>(
        &mut self,
        input: &[u8],
        start: usize,
        last_in_text_node: bool,
        output_handler: &mut S,
    ) -> (res: Result<(), RewritingError>)
        requires
            old(self).is_well_formed(),
            !old(self)@.ended,
            start + input@.len() <= usize::MAX,
        ensures
            final(self).is_well_formed(),
            is_fed(
                old(self)@,
                input@,
                start as nat,
                last_in_text_node,
                loop_steps(
                    old(self)@.name(),
                    calls_or_none(old(self)@.calls()),
                    input@,
                    start as nat,
                    last_in_text_node,
                ),
                *old(output_handler),
                final(self)@,
                *final(output_handler),
                res,
            ),
    {
        let encoding = self.encoding.get();
        let ghost before = self@;
        let ghost name = before.name();
        let ghost steps = loop_steps(
            name,
            calls_or_none(before.calls()),
            input@,
            start as nat,
            last_in_text_node,
        );
        if self.text_buffer.as_str().is_empty() {
            self.text_buffer = blank_text();
        }
        let taken = self.pending_text_streaming_decoder.take();
        let mut decoder = match taken {
            Some(decoder) => decoder,
            None => encoding.new_decoder_without_bom_handling(),
        };
        let mut raw_input = input;
        let mut next_start: usize = start;
        let ghost mut done: Seq<FeedStep> = Seq::empty();
        proof {
            assert(before.node_text() + handed_on(done) =~= before.node_text());
            assert(done + steps =~= steps);
        }
        loop
            invariant
                self.encoding.spec_encoding() == *encoding,
                self@ == (TextDecoderView { pending: None, ..before }),
                before == old(self)@,
                !before.ended,
                name == before.name(),
                decoder_encoding(decoder) == name,
                is_ascii_compatible_name(name),
                keeps_plain_starts(name),
                encode_utf8(self.text_buffer@).len() == DEFAULT_BUFFER_LEN,
                !is_over(name, decoder_calls(decoder)),
                next_start + raw_input@.len() == start + input@.len(),
                start + input@.len() <= usize::MAX,
                steps == loop_steps(
                    name,
                    calls_or_none(before.calls()),
                    input@,
                    start as nat,
                    last_in_text_node,
                ),
                steps == done + loop_steps(
                    name,
                    decoder_calls(decoder),
                    raw_input@,
                    next_start as nat,
                    last_in_text_node,
                ),
                takes_all(*old(output_handler), done, before.encoding, *output_handler),
                forall|i: int| 0 <= i < done.len() ==> fits_buffer(#[trigger] done[i]),
                is_under_way(
                    before,
                    input@,
                    last_in_text_node,
                    done,
                    decoder_calls(decoder),
                    raw_input@,
                ),
            decreases raw_input@.len(),
        {
            let ghost calls = decoder_calls(decoder);
            let ghost step = loop_step(
                name,
                calls,
                raw_input@,
                next_start as nat,
                last_in_text_node,
            );
            let (finished, read, written) = decode_to_str(
                &mut decoder,
                raw_input,
                &mut self.text_buffer,
                last_in_text_node,
            );
            let rest = slice_subrange(raw_input, read, raw_input.len());
            let piece = piece_of_call(finished, read, written, next_start, last_in_text_node);
            let ghost step_start = next_start as nat;
            next_start = piece.location.bytes().end;
            proof {
                lemma_one_step(
                    before,
                    input@,
                    last_in_text_node,
                    done,
                    calls,
                    raw_input@,
                    step_start,
                );
                assert(rest@ =~= step.position.remaining);
                assert(steps[done.len() as int] == step);
                assert(steps.take(done.len() as int + 1) =~= done.push(step));
            }
            proof {
                let bytes = encode_utf8(self.text_buffer@);
                assert(bytes.take(written as int) =~= bytes.subrange(0, written as int));
                encode_utf8_valid_utf8(self.text_buffer@);
                valid_utf8_split(bytes, written as int);
                assert(written > 0 <==> decode_utf8(bytes.take(written as int)).len() > 0);
                decode_utf8_encode_utf8(bytes.take(written as int));
                assert(fits_buffer(step));
                assert(done.push(step).drop_last() =~= done);
            }
            if piece.is_handed_on {
                let really_last = piece.really_last;
                let location = piece.location;
                let text = self.text_buffer.as_str().split_at(written).0;
                proof {
                    encode_utf8_decode_utf8(text@);
                }
                let ghost sink = *output_handler;
                let ghost delivery = step.delivery->0;
                let res = output_handler.take_text(text, really_last, encoding, location);
                proof {
                    assert(text@ == delivery.text);
                    assert(S::taken(sink, delivery, before.encoding, *output_handler, res));
                }
                if res.is_err() {
                    self.suspended = Some(
                        TextFeedSuspension {
                            remaining: slice_to_vec(rest),
                            next_source_location_bytes_start: next_start,
                            last_in_text_node,
                            finished,
                        },
                    );
                    self.pending_text_streaming_decoder = Some(decoder);
                    self.ended = last_in_text_node && finished;
                    proof {
                        let n = done.len() as int;
                        if finished && last_in_text_node && before.goes_on_with(
                            input@,
                            last_in_text_node,
                        ) {
                            lemma_whole_text(name, before.plain_start, decoder_calls(decoder));
                        }
                        assert(steps.take(n) =~= done);
                        assert(stops_at(
                            *old(output_handler),
                            steps,
                            n,
                            before.encoding,
                            *output_handler,
                            res,
                        ));
                        assert forall|i: int| 0 <= i <= n implies fits_buffer(
                            #[trigger] steps[i],
                        ) by {
                            if i < n {
                                assert(steps[i] == done[i]);
                            }
                        }
                        if !finished {
                            lemma_loop_has_a_step(
                                name,
                                decoder_calls(decoder),
                                rest@,
                                next_start as nat,
                                last_in_text_node,
                            );
                        }
                        assert(is_stopped_at(
                            before,
                            input@,
                            start as nat,
                            last_in_text_node,
                            steps,
                            n,
                            self@,
                        ));
                    }
                    return res;
                }
                assert(res->Ok_0 == ());
            }
            assert(takes_all(
                *old(output_handler),
                done.push(step),
                before.encoding,
                *output_handler,
            ));
            if finished {
                proof {
                    assert(steps =~= done.push(step));
                    if last_in_text_node && before.goes_on_with(input@, last_in_text_node) {
                        lemma_whole_text(name, before.plain_start, decoder_calls(decoder));
                    }
                }
                if last_in_text_node {
                    self.pending_text_streaming_decoder = None;
                    self.plain_start = Ghost(Seq::empty());
                } else {
                    self.pending_text_streaming_decoder = Some(decoder);
                    self.pending_source_location_bytes_start = next_start;
                }
                return Ok(());
            }
            raw_input = rest;
            proof {
                done = done.push(step);
            }
        }
    }

    /// The start of the input that can be handed on as it is, and the rest, if that can be.
    fn split_utf8_start<'i>(&self, raw_input: &'i [u8], encoding: &'static Encoding) -> (split: Option<
        (&'i str, &'i [u8]),
    >)
        requires
            is_ascii_compatible_name(encoding_name(*encoding)),
        ensures
            split is Some <==> has_fast_start(
                encoding_name(*encoding),
                self@.calls(),
                raw_input@,
            ),
            split matches Some(parts) ==> {
                let len = plain_len(encoding_name(*encoding), raw_input@);
                &&& is_plain_len(encoding_name(*encoding), raw_input@, len)
                &&& encode_utf8(parts.0@) == raw_input@.take(len as int)
                &&& parts.1@ == raw_input@.skip(len as int)
            },
    {
        let ghost name = encoding_name(*encoding);
        // A decoder may have bytes of an earlier feed.
        if self.pending_text_streaming_decoder.is_some() {
            return None;
        }
        let text_or_len = if is_utf8(encoding) {
            from_utf8(raw_input)
        } else {
            let len: usize = Encoding::ascii_valid_up_to(raw_input);
            proof {
                lemma_ascii_is_utf8(raw_input@.take(len as int));
                assert forall|longer: int|
                    len < longer <= raw_input@.len() implies !is_plain_start(
                    name,
                    #[trigger] raw_input@.take(longer),
                ) by {
                    assert(raw_input@.take(longer)[len as int] >= 0x80);
                }
                assert(is_plain_len(name, raw_input@, len as nat));
            }
            Err(len)
        };
        match text_or_len {
            Ok(text) => {
                proof {
                    assert(raw_input@.take(raw_input@.len() as int) =~= raw_input@);
                    lemma_plain_len(name, raw_input@, raw_input@.len());
                }
                Some((text, slice_subrange(raw_input, raw_input.len(), raw_input.len())))
            },
            Err(valid_up_to) => {
                proof {
                    lemma_plain_len(name, raw_input@, valid_up_to as nat);
                }
                if !is_fast_start(valid_up_to, raw_input.len()) {
                    return None;
                }
                let rest = slice_subrange(raw_input, valid_up_to, raw_input.len());
                match from_utf8(slice_subrange(raw_input, 0, valid_up_to)) {
                    Ok(text) => Some((text, rest)),
                    Err(_) => None,
                }
            },
        }
    }

    /// Decodes the next bytes of a text node, and hands the text on piece by piece.
    pub fn feed_text<S: TextSink>(
        &mut self,
        input_span: Spanned<Bytes<'_>>,
        last_in_text_node: bool,
        output_handler: &mut S,
    ) -> (res: Result<(), RewritingError>)
        requires
            old(self).is_well_formed(),
            !old(self)@.ended,
            input_span.spec_start() + input_span.spec_bytes()@.len() <= usize::MAX,
        ensures
            final(self).is_well_formed(),
            is_fed(
                old(self)@,
                input_span.spec_bytes()@,
                input_span.spec_start(),
                last_in_text_node,
                feed_steps(
                    old(self)@.name(),
                    old(self)@.calls(),
                    input_span.spec_bytes()@,
                    input_span.spec_start(),
                    last_in_text_node,
                ),
                *old(output_handler),
                final(self)@,
                *final(output_handler),
                res,
            ),
    {
        let raw_input = input_span.as_slice();
        let start: usize = input_span.source_location().bytes().start;
        let encoding = self.encoding.get();
        let ghost before = self@;
        let ghost name = before.name();
        let ghost sink = *output_handler;
        match self.split_utf8_start(raw_input, encoding) {
            Some((utf8_text, rest)) => {
                let really_last = last_in_text_node && rest.len() == 0;
                let location = SourceLocation::from_start_len(start, utf8_text.len());
                let next_start: usize = location.bytes().end;
                let ghost step = fast_step(name, raw_input@, start as nat, last_in_text_node);
                let ghost plain = raw_input@.take(plain_len(name, raw_input@) as int);
                let ghost steps = feed_steps(
                    name,
                    before.calls(),
                    raw_input@,
                    start as nat,
                    last_in_text_node,
                );
                let ghost delivery = step.delivery->0;
                let res = output_handler.take_text(utf8_text, really_last, encoding, location);
                proof {
                    encode_utf8_decode_utf8(utf8_text@);
                    assert(utf8_text@ == delivery.text);
                    assert(S::taken(sink, delivery, before.encoding, *output_handler, res));
                    assert(steps[0] == step);
                    lemma_plain_start_grows(name, before.plain_start, plain);
                }
                let ghost longer = self.plain_start@ + plain;
                self.plain_start = Ghost(longer);
                if res.is_err() {
                    self.suspended = Some(
                        TextFeedSuspension {
                            remaining: slice_to_vec(rest),
                            next_source_location_bytes_start: next_start,
                            last_in_text_node,
                            finished: really_last,
                        },
                    );
                    proof {
                        lemma_fast_step_is_text(
                            before,
                            raw_input@,
                            start as nat,
                            last_in_text_node,
                            self@,
                        );
                        assert(steps.take(1) =~= seq![step]);
                        assert(rest@ =~= step.position.remaining);
                        assert(takes_all(sink, steps.take(0), before.encoding, sink));
                        assert(stops_at(sink, steps, 0, before.encoding, *output_handler, res));
                        assert(is_stopped_at(
                            before,
                            raw_input@,
                            start as nat,
                            last_in_text_node,
                            steps,
                            0,
                            self@,
                        ));
                    }
                    return res;
                }
                assert(res->Ok_0 == ());
                let ghost between = self@;
                let ghost sink_between = *output_handler;
                proof {
                    lemma_fast_step_is_text(
                        before,
                        raw_input@,
                        start as nat,
                        last_in_text_node,
                        between,
                    );
                    assert(rest@ =~= step.position.remaining);
                }
                if really_last {
                    self.plain_start = Ghost(Seq::empty());
                    proof {
                        assert(steps =~= seq![step]);
                        lemma_takes_one(sink, step, before.encoding, sink_between);
                    }
                    return Ok(());
                }
                let res = self.feed_decoder_loop(
                    rest,
                    next_start,
                    last_in_text_node,
                    output_handler,
                );
                proof {
                    lemma_fast_start_then_loop(
                        before,
                        raw_input@,
                        start as nat,
                        last_in_text_node,
                        between,
                        sink,
                        sink_between,
                        self@,
                        *output_handler,
                        res,
                    );
                }
                res
            },
            None => self.feed_decoder_loop(raw_input, start, last_in_text_node, output_handler),
        }
    }

    /// Hands on what the decoder still has of a text node that turns out to have ended.
    pub fn flush_pending<S: TextSink>(&mut self, output_handler: &mut S) -> (res: Result<
        (),
        RewritingError,
    >)
        requires
            old(self).is_well_formed(),
            !old(self)@.ended,
        ensures
            final(self).is_well_formed(),
            old(self)@.pending is None ==> res is Ok && final(self)@ == old(self)@
                && *final(output_handler) == *old(output_handler),
            old(self)@.pending is Some ==> is_fed(
                old(self)@,
                Seq::empty(),
                old(self)@.pending_start,
                true,
                feed_steps(
                    old(self)@.name(),
                    old(self)@.calls(),
                    Seq::empty(),
                    old(self)@.pending_start,
                    true,
                ),
                *old(output_handler),
                final(self)@,
                *final(output_handler),
                res,
            ),
    {
        if self.pending_text_streaming_decoder.is_some() {
            let nothing: [u8; 0] = [];
            assert(nothing@ =~= Seq::<u8>::empty());
            return self.feed_text(
                Spanned::new(
                    self.pending_source_location_bytes_start,
                    Bytes::new(nothing.as_slice()),
                ),
                true,
                output_handler,
            );
        }
        Ok(())
    }

    /// Goes on with a feed that a handler stopped, right behind the piece that it was stopped at.
    pub fn resume_feed<S: TextSink>(
        &mut self,
        suspension: TextFeedSuspension,
        output_handler: &mut S,
    ) -> (res: Result<(), RewritingError>)
        requires
            old(self).is_well_formed(),
            !suspension@.finished ==> !old(self)@.ended,
            suspension@.next_start + suspension@.remaining.len() <= usize::MAX,
        ensures
            final(self).is_well_formed(),
            is_resumed(
                old(self)@,
                suspension@,
                *old(output_handler),
                final(self)@,
                *final(output_handler),
                res,
            ),
    {
        if suspension.finished {
            if suspension.last_in_text_node {
                self.pending_text_streaming_decoder = None;
                self.plain_start = Ghost(Seq::empty());
                self.ended = false;
            } else {
                self.pending_source_location_bytes_start =
                suspension.next_source_location_bytes_start;
            }
            return Ok(());
        }
        self.feed_decoder_loop(
            suspension.remaining.as_slice(),
            suspension.next_source_location_bytes_start,
            suspension.last_in_text_node,
            output_handler,
        )
    }

    /// Goes over to another encoding. A decoder that has begun a text node stays with its own.
    pub fn set_encoding(&mut self, encoding: AsciiCompatibleEncoding)
        requires
            old(self).is_well_formed(),
        ensures
            final(self).is_well_formed(),
            final(self)@ == (TextDecoderView { encoding: encoding.spec_encoding(), ..old(self)@ }),
    {
        self.encoding.set(encoding);
    }
}

/// Handing on the start of the input as it is keeps text and bytes of the text node together.
proof fn lemma_fast_step_is_text(
    before: TextDecoderView,
    input: Seq<u8>,
    start: nat,
    last: bool,
    after: TextDecoderView,
)
    requires
        before.pending is None,
        has_fast_start(before.name(), before.calls(), input),
        is_plain_len(before.name(), input, plain_len(before.name(), input)),
        after.encoding == before.encoding,
        after.pending is None,
        after.plain_start == before.plain_start + input.take(
            plain_len(before.name(), input) as int,
        ),
    ensures
        ({
            let step = fast_step(before.name(), input, start, last);
            &&& after.name() == before.name()
            &&& handed_on(seq![step]) == step.delivery->0.text
            &&& before.goes_on_with(input, last) ==> {
                &&& after.node_text() == before.node_text() + step.delivery->0.text
                &&& after.node_bytes() + step.position.remaining == before.node_bytes() + input
                &&& forall|next: Seq<u8>, next_last: bool| #[trigger]
                    after.goes_on_with(next, next_last)
                &&& step.position.finished ==> after.node_text() == whole_text(
                    before.name(),
                    after.node_bytes(),
                )
                &&& step.position.finished ==> after.node_bytes() == before.node_bytes() + input
            }
        }),
{
    let name = before.name();
    let step = fast_step(name, input, start, last);
    let plain = input.take(plain_len(name, input) as int);
    reveal_with_fuel(handed_on, 2);
    assert(seq![step].last() == step);
    assert(handed_on(seq![step]) =~= step.delivery->0.text);
    lemma_plain_start_grows(name, before.plain_start, plain);
    if before.goes_on_with(input, last) {
        let none = Seq::<DecodeCall>::empty();
        assert(text_of(name, none) =~= Seq::<char>::empty());
        assert(stream_of(name, none) =~= Seq::<u8>::empty());
        assert(before.node_text() =~= decode_utf8(before.plain_start));
        assert(after.node_text() =~= decode_utf8(after.plain_start));
        assert(before.node_bytes() =~= before.plain_start);
        assert(after.node_bytes() =~= after.plain_start);
        assert(plain + step.position.remaining =~= input);
        assert(after.node_bytes() + step.position.remaining =~= before.node_bytes() + input);
        if step.position.finished {
            assert(plain =~= input);
        }
    }
}

/// The texts of steps that follow a step are handed on behind its text.
proof fn lemma_handed_on_after(step: FeedStep, steps: Seq<FeedStep>)
    ensures
        handed_on(seq![step] + steps) == handed_on(seq![step]) + handed_on(steps),
    decreases steps.len(),
{
    if steps.len() == 0 {
        assert(seq![step] + steps =~= seq![step]);
        assert(handed_on(seq![step]) + handed_on(steps) =~= handed_on(seq![step]));
    } else {
        assert((seq![step] + steps).drop_last() =~= seq![step] + steps.drop_last());
        lemma_handed_on_after(step, steps.drop_last());
        assert(handed_on(seq![step] + steps) =~= handed_on(seq![step]) + handed_on(steps));
    }
}

/// The streaming decoder is called at least once.
proof fn lemma_loop_has_a_step(
    name: Seq<char>,
    calls: Seq<DecodeCall>,
    input: Seq<u8>,
    start: nat,
    last: bool,
)
    ensures
        loop_steps(name, calls, input, start, last).len() >= 1,
{
}

/// A sink that takes what a step hands on takes all of that step.
proof fn lemma_takes_one<S: TextSink>(before: S, step: FeedStep, encoding: Encoding, after: S)
    requires
        step.delivery matches Some(delivery) && S::taken(before, delivery, encoding, after, Ok(())),
    ensures
        takes_all(before, seq![step], encoding, after),
{
    let steps = seq![step];
    assert(steps.drop_last() =~= Seq::<FeedStep>::empty());
    assert(takes_all(before, steps.drop_last(), encoding, before));
    assert(steps.last() == step);
}

/// A sink that takes what a step hands on, and then what other steps hand on, takes all of it.
proof fn lemma_takes_after<S: TextSink>(
    before: S,
    step: FeedStep,
    between: S,
    steps: Seq<FeedStep>,
    encoding: Encoding,
    after: S,
)
    requires
        step.delivery matches Some(delivery) && S::taken(
            before,
            delivery,
            encoding,
            between,
            Ok(()),
        ),
        takes_all(between, steps, encoding, after),
    ensures
        takes_all(before, seq![step] + steps, encoding, after),
    decreases steps.len(),
{
    let all = seq![step] + steps;
    if steps.len() == 0 {
        assert(all =~= seq![step]);
        lemma_takes_one(before, step, encoding, between);
    } else {
        assert(all.drop_last() =~= seq![step] + steps.drop_last());
        assert(all.last() == steps.last());
        match steps.last().delivery {
            None => {
                lemma_takes_after(before, step, between, steps.drop_last(), encoding, after);
            },
            Some(delivery) => {
                let earlier: S = choose|earlier: S|
                    {
                        &&& takes_all(between, steps.drop_last(), encoding, earlier)
                        &&& #[trigger] S::taken(earlier, delivery, encoding, after, Ok(()))
                    };
                lemma_takes_after(before, step, between, steps.drop_last(), encoding, earlier);
            },
        }
    }
}

/// A feed that hands on its start as it is and the rest through the decoder is a feed.
proof fn lemma_fast_start_then_loop<S: TextSink>(
    before: TextDecoderView,
    input: Seq<u8>,
    start: nat,
    last: bool,
    between: TextDecoderView,
    sink: S,
    sink_between: S,
    after: TextDecoderView,
    sink_after: S,
    res: Result<(), RewritingError>,
)
    requires
        before.pending is None,
        has_fast_start(before.name(), before.calls(), input),
        is_plain_len(before.name(), input, plain_len(before.name(), input)),
        between == (TextDecoderView {
            plain_start: before.plain_start + input.take(plain_len(before.name(), input) as int),
            ..before
        }),
        ({
            let step = fast_step(before.name(), input, start, last);
            &&& !step.position.finished
            &&& S::taken(sink, step.delivery->0, before.encoding, sink_between, Ok(()))
            &&& is_fed(
                between,
                step.position.remaining,
                step.position.next_start,
                last,
                loop_steps(
                    before.name(),
                    Seq::empty(),
                    step.position.remaining,
                    step.position.next_start,
                    last,
                ),
                sink_between,
                after,
                sink_after,
                res,
            )
        }),
    ensures
        is_fed(
            before,
            input,
            start,
            last,
            feed_steps(before.name(), before.calls(), input, start, last),
            sink,
            after,
            sink_after,
            res,
        ),
{
    let name = before.name();
    let step = fast_step(name, input, start, last);
    let rest = step.position.remaining;
    let later = loop_steps(name, Seq::empty(), rest, step.position.next_start, last);
    let steps = feed_steps(name, before.calls(), input, start, last);
    lemma_fast_step_is_text(before, input, start, last, between);
    lemma_handed_on_after(step, later);
    assert(steps == seq![step] + later);
    if before.goes_on_with(input, last) {
        assert(between.goes_on_with(rest, last));
        assert(before.node_text() + handed_on(steps) =~= between.node_text() + handed_on(later));
    }
    match res {
        Ok(_) => {
            lemma_takes_after(sink, step, sink_between, later, before.encoding, sink_after);
            assert forall|i: int| 0 <= i < steps.len() implies fits_buffer(#[trigger] steps[i]) by {
                if i > 0 {
                    assert(steps[i] == later[i - 1]);
                }
            }
            assert(steps.last() == later.last());
        },
        Err(_) => {
            let m: int = choose|m: int|
                {
                    &&& 0 <= m < later.len()
                    &&& stops_at(sink_between, later, m, between.encoding, sink_after, res)
                    &&& #[trigger] is_stopped_at(
                        between,
                        rest,
                        step.position.next_start,
                        last,
                        later,
                        m,
                        after,
                    )
                };
            let n: int = m + 1;
            assert(steps[n] == later[m]);
            let delivery = steps[n].delivery->0;
            let refused: S = choose|refused: S|
                {
                    &&& takes_all(sink_between, later.take(m), before.encoding, refused)
                    &&& #[trigger] S::taken(refused, delivery, before.encoding, sink_after, res)
                };
            assert(steps.take(n) =~= seq![step] + later.take(m));
            lemma_takes_after(sink, step, sink_between, later.take(m), before.encoding, refused);
            assert forall|i: int| 0 <= i <= n implies fits_buffer(#[trigger] steps[i]) by {
                if i > 0 {
                    assert(steps[i] == later[i - 1]);
                }
            }
            assert(steps.take(n + 1) =~= seq![step] + later.take(m + 1));
            lemma_handed_on_after(step, later.take(m + 1));
            if before.goes_on_with(input, last) {
                assert(before.node_text() + handed_on(steps.take(n + 1)) =~= between.node_text()
                    + handed_on(later.take(m + 1)));
            }
            assert(stops_at(sink, steps, n, before.encoding, sink_after, res));
            assert(is_stopped_at(before, input, start, last, steps, n, after));
        },
    }
}

/// The length of the longest start that is its own text is the only one of its kind.
proof fn lemma_plain_len(name: Seq<char>, input: Seq<u8>, len: nat)
    requires
        is_plain_len(name, input, len),
    ensures
        plain_len(name, input) == len,
{
    let chosen = plain_len(name, input);
    assert(is_plain_len(name, input, chosen));
    if chosen < len {
        assert(!is_plain_start(name, input.take(len as int)));
    } else if len < chosen {
        assert(!is_plain_start(name, input.take(chosen as int)));
    }
}

/// More bytes that are their own text go behind those that were handed on before.
proof fn lemma_plain_start_grows(name: Seq<char>, plain: Seq<u8>, more: Seq<u8>)
    requires
        is_plain_start(name, more),
    ensures
        is_plain_start(name, plain) ==> is_plain_start(name, plain + more) && decode_utf8(
            plain + more,
        ) == decode_utf8(plain) + decode_utf8(more),
{
    if is_plain_start(name, plain) {
        valid_utf8_concat(plain, more);
        lemma_decode_concat(plain, more);
    }
}

proof fn lemma_decode_concat(first: Seq<u8>, second: Seq<u8>)
    requires
        valid_utf8(first),
        valid_utf8(second),
    ensures
        decode_utf8(first + second) == decode_utf8(first) + decode_utf8(second),
    decreases first.len(),
{
    valid_utf8_concat(first, second);
    let chars = decode_utf8(first) + decode_utf8(second);
    lemma_encode_concat(decode_utf8(first), decode_utf8(second));
    decode_utf8_encode_utf8(first);
    decode_utf8_encode_utf8(second);
    encode_utf8_decode_utf8(chars);
}

proof fn lemma_encode_concat(first: Seq<char>, second: Seq<char>)
    ensures
        encode_utf8(first + second) == encode_utf8(first) + encode_utf8(second),
    decreases first.len(),
{
    if first.len() == 0 {
        assert(first + second =~= second);
        assert(encode_utf8(first) + encode_utf8(second) =~= encode_utf8(second));
    } else {
        assert((first + second).drop_first() =~= first.drop_first() + second);
        lemma_encode_concat(first.drop_first(), second);
        assert(encode_utf8(first + second) =~= encode_utf8(first) + encode_utf8(second));
    }
}

/// As many characters as the buffer has bytes.
fn blank_text() -> (text: String)
    ensures
        encode_utf8(text@).len() == DEFAULT_BUFFER_LEN,
{
    let mut text = String::new();
    let mut len: usize = 0;
    while len < DEFAULT_BUFFER_LEN
        invariant
            len <= DEFAULT_BUFFER_LEN,
            text@.len() == len,
            is_ascii_chars(text@),
        decreases DEFAULT_BUFFER_LEN - len,
    {
        proof {
            reveal_strlit("\0");
        }
        text.append("\0");
        len = len + 1;
    }
    proof {
        is_ascii_chars_encode_utf8(text@);
    }
    text
}

} // verus!
