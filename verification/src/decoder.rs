use crate::decode::{
    attempt, continuation_need, continue_attempt, finish_bytes, init_state,
    lemma_continue_attempt_unfold, lemma_run_from_extend, run_from, Attempt, DecSt, DecodeResult,
    ErrorKind, Span,
};
use crate::source::{ByteSource, PullEvent};
use vstd::prelude::*;
use vstd::utf8::*;

verus! {

/// The default capacity of the internal prefetch queue.
pub const DEFAULT_CAPACITY: usize = 16;

/// Relies on char::from_u32: it returns the character with the given
/// numerical value exactly when that value is a Unicode scalar value (at
/// most 0x10FFFF and not a surrogate), and nothing otherwise.
pub assume_specification[ char::from_u32 ](v: u32) -> (r: Option<char>)
    ensures
        r is Some <==> (v < 0xD800 || (0xE000 <= v && v <= 0x10FFFF)),
        (r matches Some(c) ==> c as u32 == v),
;

/// A streaming UTF-8 decoder over a [`ByteSource`]. Each request for the
/// next item either serves one already-decoded item from a bounded
/// prefetch queue or drives the source to refill the queue, decoding one
/// character (or one failure) per attempt and recording the half-open
/// byte span each character was decoded from.
///
/// The decoder is verified against the abstract model [`run_from`]: the
/// items handed out, followed by the items still queued, are exactly what
/// the model produces on the pull events the decoder has processed. What
/// the source chooses to yield is outside the proof: the decoder is
/// correct for every possible outcome of every pull.
pub struct ReadChars<S: ByteSource> {
    source: S,
    current: usize,
    queue: Vec<DecodeResult>,
    capacity: usize,
    pending: Option<u8>,
    finished: bool,
    hist: Ghost<Seq<PullEvent>>,
    taken: Ghost<Seq<DecodeResult>>,
}

impl<S: ByteSource> ReadChars<S> {
    /// The pull events the decoder has decoded through so far (a byte that
    /// failed as a continuation byte appears again when it is retried as a
    /// lead byte).
    pub closed spec fn history(self) -> Seq<PullEvent> {
        self.hist@
    }

    /// The items already handed to the caller, in order.
    pub closed spec fn delivered(self) -> Seq<DecodeResult> {
        self.taken@
    }

    /// The items decoded ahead of the caller and still queued, in order.
    pub closed spec fn buffered(self) -> Seq<DecodeResult> {
        self.queue@
    }

    /// The configured queue capacity.
    pub closed spec fn cap(self) -> nat {
        self.capacity as nat
    }

    /// How many bytes have been consumed from the source so far.
    pub closed spec fn position(self) -> nat {
        self.current as nat
    }

    /// Whether the stream has ended, cleanly or by truncation.
    pub closed spec fn done(self) -> bool {
        self.finished
    }

    /// The decoder's visible state agrees with the abstract decoder run on
    /// the events it has processed: everything handed out, followed by
    /// everything still queued, in that order.
    pub open spec fn tracks_model(self) -> bool {
        run_from(init_state(), self.history()) == Some(
            (DecSt { pos: self.position(), ended: self.done() }, self.delivered() + self.buffered()),
        )
    }

    /// Well-formedness: the queue respects its capacity, the position
    /// counter and queue agree with the abstract model, and a byte held
    /// back from a failed continuation exists only while the stream is
    /// live.
    pub closed spec fn wf(self) -> bool {
        &&& 1 <= self.capacity
        &&& 4 * self.capacity <= usize::MAX
        &&& self.queue@.len() <= self.capacity
        &&& self.tracks_model()
        &&& (self.pending is Some ==> !self.finished)
    }

    /// Creates a decoder that owns `source` and prefetches at most
    /// `capacity` decoded items at a time.
    pub fn new(source: S, capacity: usize) -> (r: ReadChars<S>)
        requires
            1 <= capacity,
            4 * capacity <= usize::MAX,
        ensures
            r.wf(),
            r.cap() == capacity,
            r.history() == Seq::<PullEvent>::empty(),
            r.delivered() == Seq::<DecodeResult>::empty(),
            r.buffered() == Seq::<DecodeResult>::empty(),
            r.position() == 0,
            !r.done(),
    {
        let r = ReadChars {
            source,
            current: 0,
            queue: Vec::new(),
            capacity,
            pending: None,
            finished: false,
            hist: Ghost(Seq::empty()),
            taken: Ghost(Seq::empty()),
        };
        proof {
            assert(r.taken@ + r.queue@ =~= Seq::<DecodeResult>::empty());
        }
        r
    }

    /// One decode attempt: drives the source until one more item can be
    /// enqueued or the input ends.
    fn refill_step(&mut self)
        requires
            old(self).wf(),
            !old(self).done(),
            old(self).buffered().len() < old(self).cap(),
            old(self).position() + 4 <= usize::MAX,
        ensures
            final(self).wf(),
            final(self).cap() == old(self).cap(),
            final(self).delivered() == old(self).delivered(),
            old(self).history().is_prefix_of(final(self).history()),
            old(self).buffered().is_prefix_of(final(self).buffered()),
            final(self).buffered().len() <= old(self).buffered().len() + 1,
            final(self).buffered().len() > old(self).buffered().len() || (final(self).done()
                && final(self).position() == old(self).position() && final(self).buffered()
                == old(self).buffered()),
            final(self).position() <= old(self).position() + 4 * (final(self).buffered().len()
                - old(self).buffered().len()),
    {
        let ghost pre_hist = self.hist@;
        let ghost pre_pos = self.current as nat;
        let ghost pre_out = self.taken@ + self.queue@;
        let ghost mut evs: Seq<PullEvent> = Seq::empty();

        // step 1: obtain the lead byte, from the held-back byte of a
        // failed continuation if there is one, else from the source
        let lead: u8;
        match self.pending {
            Some(b) => {
                self.pending = None;
                proof {
                    evs = evs.push(PullEvent::Byte(b));
                }
                lead = b;
            },
            None => {
                let ev = self.source.pull();
                match ev {
                    PullEvent::End => {
                        proof {
                            evs = evs.push(PullEvent::End);
                        }
                        self.finished = true;
                        self.hist = Ghost(pre_hist + evs);
                        proof {
                            let a = Attempt { used: 1, out: seq![], pos: pre_pos, ended: true };
                            assert(evs =~= seq![PullEvent::End]);
                            assert(attempt(pre_pos, evs) == Some(a));
                            lemma_run_from_extend(init_state(), pre_hist, evs, a);
                            assert(self.taken@ + self.queue@ =~= pre_out + a.out);
                        }
                        return;
                    },
                    PullEvent::IoError => {
                        proof {
                            evs = evs.push(PullEvent::IoError);
                        }
                        self.queue.push(DecodeResult::Failed { kind: ErrorKind::UnderlyingIOError });
                        self.hist = Ghost(pre_hist + evs);
                        proof {
                            let a = Attempt {
                                used: 1,
                                out: seq![DecodeResult::Failed { kind: ErrorKind::UnderlyingIOError }],
                                pos: pre_pos,
                                ended: false,
                            };
                            assert(evs =~= seq![PullEvent::IoError]);
                            assert(attempt(pre_pos, evs) == Some(a));
                            lemma_run_from_extend(init_state(), pre_hist, evs, a);
                            assert(self.taken@ + self.queue@ =~= pre_out + a.out);
                        }
                        return;
                    },
                    PullEvent::Byte(b) => {
                        proof {
                            evs = evs.push(PullEvent::Byte(b));
                        }
                        lead = b;
                    },
                }
            },
        }
        proof {
            assert(evs =~= seq![PullEvent::Byte(lead)]);
        }

        // step 2: classify the lead byte's high bits
        if lead <= 0x7F {
            // a 1-byte sequence: the byte is the character
            let ch = lead as char;
            self.queue.push(
                DecodeResult::Decoded {
                    ch,
                    span: Span { start: self.current, end: self.current + 1 },
                },
            );
            self.current = self.current + 1;
            self.hist = Ghost(pre_hist + evs);
            proof {
                assert(lead & 0x7F == lead) by (bit_vector)
                    requires
                        lead <= 0x7F,
                ;
                assert(valid_first_scalar(seq![lead]));
                let item = finish_bytes(seq![lead], pre_pos);
                assert(item == DecodeResult::Decoded {
                    ch,
                    span: Span { start: pre_pos as usize, end: (pre_pos + 1) as usize },
                });
                let a = Attempt { used: 1, out: seq![item], pos: pre_pos + 1, ended: false };
                assert(attempt(pre_pos, evs) == Some(a));
                lemma_run_from_extend(init_state(), pre_hist, evs, a);
                assert(self.taken@ + self.queue@ =~= pre_out + a.out);
            }
            return;
        }
        let need: usize;
        if 0xC0 <= lead && lead <= 0xDF {
            need = 1;
        } else if 0xE0 <= lead && lead <= 0xEF {
            need = 2;
        } else if 0xF0 <= lead && lead <= 0xF7 {
            need = 3;
        } else {
            // a stray continuation byte or 11111xxx: no lead pattern fits
            self.queue.push(DecodeResult::Failed { kind: ErrorKind::InvalidLeadByte });
            self.current = self.current + 1;
            self.hist = Ghost(pre_hist + evs);
            proof {
                let a = Attempt {
                    used: 1,
                    out: seq![DecodeResult::Failed { kind: ErrorKind::InvalidLeadByte }],
                    pos: pre_pos + 1,
                    ended: false,
                };
                assert(continuation_need(lead) is None);
                assert(attempt(pre_pos, evs) == Some(a));
                lemma_run_from_extend(init_state(), pre_hist, evs, a);
                assert(self.taken@ + self.queue@ =~= pre_out + a.out);
            }
            return;
        }

        // step 3: pull the continuation bytes
        let mut conts: Vec<u8> = Vec::new();
        let mut i: usize = 0;
        while i < need
            invariant
                1 <= need <= 3,
                i == conts@.len(),
                i <= need,
                forall|j: int| 0 <= j < conts@.len() ==> is_continuation_byte(#[trigger] conts@[j]),
                evs.len() == 1 + i,
                evs[0] == PullEvent::Byte(lead),
                forall|j: int| 0 <= j < conts@.len() ==> evs[1 + j] == PullEvent::Byte(
                    #[trigger] conts@[j],
                ),
                continuation_need(lead) == Some(need as nat),
                self.current == old(self).current,
                self.capacity == old(self).capacity,
                self.queue@ == old(self).queue@,
                self.taken@ == old(self).taken@,
                self.hist@ == old(self).hist@,
                self.pending is None,
                !self.finished,
                old(self).wf(),
                !old(self).done(),
                old(self).buffered().len() < old(self).cap(),
                old(self).position() + 4 <= usize::MAX,
                pre_hist == old(self).hist@,
                pre_pos == old(self).current as nat,
                pre_out == old(self).taken@ + old(self).queue@,
            decreases need - i,
        {
            let ev = self.source.pull();
            match ev {
                PullEvent::Byte(c) => {
                    if 0x80 <= c && c <= 0xBF {
                        proof {
                            evs = evs.push(PullEvent::Byte(c));
                        }
                        conts.push(c);
                        i = i + 1;
                    } else {
                        // not a continuation byte: report, and hold the
                        // byte back to retry it as the next lead byte
                        proof {
                            evs = evs.push(PullEvent::Byte(c));
                        }
                        self.pending = Some(c);
                        self.queue.push(
                            DecodeResult::Failed { kind: ErrorKind::InvalidContinuationByte },
                        );
                        self.current = self.current + 1 + i;
                        self.hist = Ghost(pre_hist + evs);
                        proof {
                            let a = Attempt {
                                used: (2 + i) as nat,
                                out: seq![DecodeResult::Failed { kind: ErrorKind::InvalidContinuationByte }],
                                pos: (pre_pos + 1 + i) as nat,
                                ended: false,
                            };
                            lemma_continue_attempt_unfold(
                                seq![lead],
                                need as nat,
                                1,
                                evs,
                                pre_pos,
                                conts@,
                            );
                            assert(evs[(1 + i) as int] == PullEvent::Byte(c));
                            assert((seq![lead] + conts@).len() == 1 + i);
                            assert(continue_attempt(
                                seq![lead] + conts@,
                                (need - i) as nat,
                                (1 + i) as nat,
                                evs,
                                pre_pos,
                            ) == Some(a));
                            assert(attempt(pre_pos, evs) == Some(a));
                            lemma_run_from_extend(init_state(), pre_hist, evs, a);
                            assert(self.taken@ + self.queue@ =~= pre_out + a.out);
                        }
                        return;
                    }
                },
                PullEvent::End => {
                    // the source is exhausted mid-sequence: truncated input
                    proof {
                        evs = evs.push(PullEvent::End);
                    }
                    self.finished = true;
                    self.queue.push(DecodeResult::Failed { kind: ErrorKind::UnexpectedEndOfInput });
                    self.current = self.current + 1 + i;
                    self.hist = Ghost(pre_hist + evs);
                    proof {
                        let a = Attempt {
                            used: (2 + i) as nat,
                            out: seq![DecodeResult::Failed { kind: ErrorKind::UnexpectedEndOfInput }],
                            pos: (pre_pos + 1 + i) as nat,
                            ended: true,
                        };
                        lemma_continue_attempt_unfold(
                            seq![lead],
                            need as nat,
                            1,
                            evs,
                            pre_pos,
                            conts@,
                        );
                        assert(evs[(1 + i) as int] == PullEvent::End);
                        assert((seq![lead] + conts@).len() == 1 + i);
                        assert(attempt(pre_pos, evs) == Some(a));
                        lemma_run_from_extend(init_state(), pre_hist, evs, a);
                        assert(self.taken@ + self.queue@ =~= pre_out + a.out);
                    }
                    return;
                },
                PullEvent::IoError => {
                    proof {
                        evs = evs.push(PullEvent::IoError);
                    }
                    self.queue.push(DecodeResult::Failed { kind: ErrorKind::UnderlyingIOError });
                    self.current = self.current + 1 + i;
                    self.hist = Ghost(pre_hist + evs);
                    proof {
                        let a = Attempt {
                            used: (2 + i) as nat,
                            out: seq![DecodeResult::Failed { kind: ErrorKind::UnderlyingIOError }],
                            pos: (pre_pos + 1 + i) as nat,
                            ended: false,
                        };
                        lemma_continue_attempt_unfold(
                            seq![lead],
                            need as nat,
                            1,
                            evs,
                            pre_pos,
                            conts@,
                        );
                        assert(evs[(1 + i) as int] == PullEvent::IoError);
                        assert((seq![lead] + conts@).len() == 1 + i);
                        assert(attempt(pre_pos, evs) == Some(a));
                        lemma_run_from_extend(init_state(), pre_hist, evs, a);
                        assert(self.taken@ + self.queue@ =~= pre_out + a.out);
                    }
                    return;
                },
            }
        }

        // step 4: validate the assembled pattern as a minimal, in-range,
        // non-surrogate encoding
        let ghost all = seq![lead] + conts@;
        let c0 = conts[0];
        let cp: u32;
        if need == 1 {
            cp = (((lead & 0x1F) as u32) << 6) | ((c0 & 0x3F) as u32);
            proof {
                assert(all[1] == conts@[0]);
                assert(cp == codepoint_width_2(lead, conts@[0]));
                assert(cp <= 0x7FF) by (bit_vector)
                    requires
                        cp == (((lead & 0x1F) as u32) << 6) | ((c0 & 0x3F) as u32),
                ;
            }
        } else if need == 2 {
            let c1 = conts[1];
            cp = (((lead & 0x0F) as u32) << 12) | (((c0 & 0x3F) as u32) << 6) | ((c1 & 0x3F)
                as u32);
            proof {
                assert(all[1] == conts@[0] && all[2] == conts@[1]);
                assert(cp == codepoint_width_3(lead, conts@[0], conts@[1]));
                assert(cp <= 0xFFFF) by (bit_vector)
                    requires
                        cp == (((lead & 0x0F) as u32) << 12) | (((c0 & 0x3F) as u32) << 6) | ((c1
                            & 0x3F) as u32),
                ;
            }
        } else {
            let c1 = conts[1];
            let c2 = conts[2];
            cp = (((lead & 0x07) as u32) << 18) | (((c0 & 0x3F) as u32) << 12) | (((c1 & 0x3F)
                as u32) << 6) | ((c2 & 0x3F) as u32);
            proof {
                assert(all[1] == conts@[0] && all[2] == conts@[1] && all[3] == conts@[2]);
                assert(cp == codepoint_width_4(lead, conts@[0], conts@[1], conts@[2]));
            }
        }
        proof {
            assert(all[0] == lead);
            assert(valid_leading_and_continuation_bytes_first_codepoint(all));
            assert(length_of_first_codepoint(all) == 1 + need);
            assert(decode_first_codepoint(all) == cp);
        }
        let overlong_ok: bool = if need == 1 {
            0x80 <= cp
        } else if need == 2 {
            0x800 <= cp
        } else {
            0x10000 <= cp && cp <= 0x10FFFF
        };
        let ok: bool = overlong_ok && !(0xD800 <= cp && cp <= 0xDFFF);
        proof {
            assert(ok == valid_first_scalar(all));
        }
        let item: DecodeResult;
        if ok {
            let ch = char::from_u32(cp).unwrap();
            proof {
                char_u32_cast(ch, cp);
            }
            item = DecodeResult::Decoded {
                ch,
                span: Span { start: self.current, end: self.current + 1 + need },
            };
        } else {
            item = DecodeResult::Failed { kind: ErrorKind::InvalidEncoding };
        }
        self.queue.push(item);
        self.current = self.current + 1 + need;
        self.hist = Ghost(pre_hist + evs);
        proof {
            assert(item == finish_bytes(all, pre_pos));
            let a = Attempt {
                used: (1 + need) as nat,
                out: seq![item],
                pos: (pre_pos + 1 + need) as nat,
                ended: false,
            };
            lemma_continue_attempt_unfold(seq![lead], need as nat, 1, evs, pre_pos, conts@);
            assert(all.len() == 1 + need);
            assert(continue_attempt(all, 0, (1 + need) as nat, evs, pre_pos) == Some(a));
            assert(attempt(pre_pos, evs) == Some(a));
            lemma_run_from_extend(init_state(), pre_hist, evs, a);
            assert(self.taken@ + self.queue@ =~= pre_out + a.out);
        }
    }

    /// Produces the next decoded item, or `None` once the source is
    /// exhausted and every decoded item has been handed out. Serves from
    /// the prefetch queue; only when the queue is empty does it drive the
    /// source, decoding until the queue is full or the input ends, and
    /// then hands out the oldest queued item, in input order.
    pub fn next(&mut self) -> (r: Option<DecodeResult>)
        requires
            old(self).wf(),
            old(self).position() + 4 * old(self).cap() <= usize::MAX,
        ensures
            final(self).wf(),
            final(self).tracks_model(),
            final(self).cap() == old(self).cap(),
            final(self).buffered().len() <= final(self).cap(),
            final(self).position() <= old(self).position() + 4 * old(self).cap(),
            old(self).history().is_prefix_of(final(self).history()),
            old(self).buffered().len() > 0 ==> final(self).history() == old(self).history(),
            old(self).done() ==> final(self).done() && final(self).history() == old(self).history()
                && final(self).position() == old(self).position(),
            (match r {
                Some(item) => final(self).delivered() == old(self).delivered().push(item),
                None => {
                    &&& final(self).delivered() == old(self).delivered()
                    &&& final(self).done()
                    &&& final(self).buffered().len() == 0
                },
            }),
    {
        if self.queue.len() == 0 {
            while self.queue.len() < self.capacity && !self.finished
                invariant
                    self.wf(),
                    self.capacity == old(self).capacity,
                    self.taken@ == old(self).taken@,
                    old(self).hist@.is_prefix_of(self.hist@),
                    self.current <= old(self).current + 4 * self.queue@.len(),
                    old(self).current + 4 * old(self).capacity <= usize::MAX,
                    old(self).finished ==> (self.finished && self.hist@ == old(self).hist@
                        && self.current == old(self).current),
                decreases self.capacity - self.queue@.len() + (if self.finished {
                    0int
                } else {
                    1int
                }),
            {
                self.refill_step();
            }
        }
        if self.queue.len() > 0 {
            let ghost pre_taken = self.taken@;
            let ghost pre_queue = self.queue@;
            let item = self.queue.remove(0);
            self.taken = Ghost(self.taken@.push(item));
            proof {
                assert(self.taken@ + self.queue@ =~= pre_taken + pre_queue);
            }
            Some(item)
        } else {
            None
        }
    }
}

} // verus!
