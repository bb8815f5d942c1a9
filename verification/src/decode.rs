use crate::source::PullEvent;
use vstd::prelude::*;
use vstd::utf8::*;

verus! {

/// The ways a single decode attempt can fail.
#[derive(Clone, Copy, PartialEq, Eq, Structural, Debug)]
pub enum ErrorKind {
    /// The first byte of an attempted sequence matches no UTF-8 lead-byte
    /// pattern.
    InvalidLeadByte,
    /// A byte that had to match `10xxxxxx` does not.
    InvalidContinuationByte,
    /// The source ended before a started multi-byte sequence was complete.
    UnexpectedEndOfInput,
    /// A structurally plausible byte pattern decodes to an overlong form,
    /// a surrogate, or an out-of-range value.
    InvalidEncoding,
    /// The byte source itself reported an I/O failure.
    UnderlyingIOError,
}

/// A half-open range `[start, end)` of byte offsets in the consumed input.
#[derive(Clone, Copy, PartialEq, Eq, Structural, Debug)]
pub struct Span {
    pub start: usize,
    pub end: usize,
}

/// One item of the decoded stream: a character together with the byte
/// offsets it was decoded from, or one of the failure kinds. Never both.
#[derive(Clone, Copy, PartialEq, Eq, Structural, Debug)]
pub enum DecodeResult {
    Decoded { ch: char, span: Span },
    Failed { kind: ErrorKind },
}

/// The decoder's abstract state: how many bytes it has consumed so far,
/// and whether the stream has ended (cleanly or by truncation).
pub ghost struct DecSt {
    pub pos: nat,
    pub ended: bool,
}

/// The state a decoder starts in.
pub open spec fn init_state() -> DecSt {
    DecSt { pos: 0, ended: false }
}

/// The outcome of one finished decode attempt on a sequence of pull
/// events: how many events it consumed, the item it produced (none only
/// for a clean end of the input), and the state it leaves behind.
pub ghost struct Attempt {
    pub used: nat,
    pub out: Seq<DecodeResult>,
    pub pos: nat,
    pub ended: bool,
}

/// The item produced for a fully assembled byte pattern (lead byte plus
/// its continuation bytes) that began at byte offset `pos`: the scalar the
/// bytes encode, unless the pattern is overlong, a surrogate, or out of
/// range.
pub open spec fn finish_bytes(bytes: Seq<u8>, pos: nat) -> DecodeResult {
    if valid_first_scalar(bytes) {
        DecodeResult::Decoded {
            ch: decode_first_scalar(bytes) as char,
            span: Span { start: pos as usize, end: (pos + bytes.len()) as usize },
        }
    } else {
        DecodeResult::Failed { kind: ErrorKind::InvalidEncoding }
    }
}

/// How many continuation bytes a lead byte calls for; no value for a byte
/// that matches no lead pattern (a stray continuation byte, or `11111xxx`).
pub open spec fn continuation_need(lead: u8) -> Option<nat> {
    if is_leading_byte_width_1(lead) {
        Some(0nat)
    } else if is_leading_byte_width_2(lead) {
        Some(1nat)
    } else if is_leading_byte_width_3(lead) {
        Some(2nat)
    } else if is_leading_byte_width_4(lead) {
        Some(3nat)
    } else {
        None
    }
}

/// Walks the continuation bytes of one attempt. `acc` holds the bytes
/// assembled so far (the lead byte included), `need` says how many more
/// continuation bytes are required, `used` how many events of `evs` the
/// attempt has consumed so far, and `pos` the byte offset at which the
/// attempt began. `None` means the events run out before the attempt could
/// finish. A byte that fails the continuation pattern ends the attempt; it
/// is not counted into the position, and the decoder processes it again as
/// the next attempt's lead byte.
pub open spec fn continue_attempt(
    acc: Seq<u8>,
    need: nat,
    used: nat,
    evs: Seq<PullEvent>,
    pos: nat,
) -> Option<Attempt>
    decreases need,
{
    if need == 0 {
        Some(
            Attempt {
                used,
                out: seq![finish_bytes(acc, pos)],
                pos: pos + acc.len(),
                ended: false,
            },
        )
    } else if used >= evs.len() {
        None
    } else {
        match evs[used as int] {
            PullEvent::Byte(c) => {
                if is_continuation_byte(c) {
                    continue_attempt(acc.push(c), (need - 1) as nat, used + 1, evs, pos)
                } else {
                    Some(
                        Attempt {
                            used: used + 1,
                            out: seq![DecodeResult::Failed { kind: ErrorKind::InvalidContinuationByte }],
                            pos: pos + acc.len(),
                            ended: false,
                        },
                    )
                }
            },
            PullEvent::End => Some(
                Attempt {
                    used: used + 1,
                    out: seq![DecodeResult::Failed { kind: ErrorKind::UnexpectedEndOfInput }],
                    pos: pos + acc.len(),
                    ended: true,
                },
            ),
            PullEvent::IoError => Some(
                Attempt {
                    used: used + 1,
                    out: seq![DecodeResult::Failed { kind: ErrorKind::UnderlyingIOError }],
                    pos: pos + acc.len(),
                    ended: false,
                },
            ),
        }
    }
}

/// One attempt whose lead byte is `lead`, after `used` events of `evs`
/// were already consumed to obtain it.
pub open spec fn lead_attempt(lead: u8, used: nat, evs: Seq<PullEvent>, pos: nat) -> Option<
    Attempt,
> {
    match continuation_need(lead) {
        Some(need) => continue_attempt(seq![lead], need, used, evs, pos),
        None => Some(
            Attempt {
                used,
                out: seq![DecodeResult::Failed { kind: ErrorKind::InvalidLeadByte }],
                pos: pos + 1,
                ended: false,
            },
        ),
    }
}

/// One decode attempt at byte offset `pos` on the pull events `evs`: read
/// a lead byte, classify it, collect its continuation bytes, validate the
/// assembled pattern. `None` means the events run out before the attempt
/// could finish. An I/O failure in place of the lead byte produces its
/// item without advancing the position: no byte was consumed for it.
pub open spec fn attempt(pos: nat, evs: Seq<PullEvent>) -> Option<Attempt> {
    if evs.len() == 0 {
        None
    } else {
        match evs[0] {
            PullEvent::Byte(b) => lead_attempt(b, 1, evs, pos),
            PullEvent::End => Some(Attempt { used: 1, out: seq![], pos, ended: true }),
            PullEvent::IoError => Some(
                Attempt {
                    used: 1,
                    out: seq![DecodeResult::Failed { kind: ErrorKind::UnderlyingIOError }],
                    pos,
                    ended: false,
                },
            ),
        }
    }
}

/// Bounds on the events one continuation walk consumes.
pub proof fn lemma_continue_attempt_bounds(
    acc: Seq<u8>,
    need: nat,
    used: nat,
    evs: Seq<PullEvent>,
    pos: nat,
)
    requires
        used <= evs.len(),
    ensures
        (match continue_attempt(acc, need, used, evs, pos) {
            Some(a) => used <= a.used <= evs.len(),
            None => true,
        }),
    decreases need,
{
    if need == 0 {
    } else if used >= evs.len() {
    } else {
        match evs[used as int] {
            PullEvent::Byte(c) => {
                if is_continuation_byte(c) {
                    lemma_continue_attempt_bounds(acc.push(c), (need - 1) as nat, used + 1, evs, pos);
                }
            },
            PullEvent::End => {},
            PullEvent::IoError => {},
        }
    }
}

/// Bounds on the events one attempt consumes: at least the lead event,
/// and never more than there are.
pub proof fn lemma_attempt_bounds(pos: nat, evs: Seq<PullEvent>)
    ensures
        (match attempt(pos, evs) {
            Some(a) => 1 <= a.used <= evs.len(),
            None => true,
        }),
{
    if evs.len() > 0 {
        match evs[0] {
            PullEvent::Byte(b) => {
                match continuation_need(b) {
                    Some(need) => lemma_continue_attempt_bounds(seq![b], need, 1, evs, pos),
                    None => {},
                }
            },
            PullEvent::End => {},
            PullEvent::IoError => {},
        }
    }
}

/// The decoder's whole behaviour on a sequence of pull events: the state
/// it reaches and the items it produces, in order. `None` when the events
/// do not end at an attempt boundary, or go on after the stream ended.
/// The sequence is the history of events the decoder processed: a byte
/// that ended one attempt as an invalid continuation byte is processed
/// again as the next attempt's lead byte, and so appears in the history
/// once for each of the two attempts.
pub open spec fn run_from(st: DecSt, evs: Seq<PullEvent>) -> Option<(DecSt, Seq<DecodeResult>)>
    decreases evs.len(),
    via run_from_decreases
{
    if evs.len() == 0 {
        Some((st, seq![]))
    } else if st.ended {
        None
    } else {
        match attempt(st.pos, evs) {
            None => None,
            Some(a) => {
                match run_from(DecSt { pos: a.pos, ended: a.ended }, evs.skip(a.used as int)) {
                    None => None,
                    Some((st2, rest)) => Some((st2, a.out + rest)),
                }
            },
        }
    }
}

#[via_fn]
proof fn run_from_decreases(st: DecSt, evs: Seq<PullEvent>) {
    lemma_attempt_bounds(st.pos, evs);
}

/// A continuation walk that has already accepted the continuation bytes
/// `goods` equals the walk continued past them.
pub proof fn lemma_continue_attempt_unfold(
    acc: Seq<u8>,
    need: nat,
    used: nat,
    evs: Seq<PullEvent>,
    pos: nat,
    goods: Seq<u8>,
)
    requires
        goods.len() <= need,
        used + goods.len() <= evs.len(),
        forall|j: int| 0 <= j < goods.len() ==> evs[used + j] == PullEvent::Byte(
            #[trigger] goods[j],
        ) && is_continuation_byte(goods[j]),
    ensures
        continue_attempt(acc, need, used, evs, pos) == continue_attempt(
            acc + goods,
            (need - goods.len()) as nat,
            (used + goods.len()) as nat,
            evs,
            pos,
        ),
    decreases goods.len(),
{
    if goods.len() == 0 {
        assert(acc + goods =~= acc);
    } else {
        let c = goods[0];
        assert(evs[used as int] == PullEvent::Byte(c) && is_continuation_byte(c));
        let rest = goods.drop_first();
        assert forall|j: int| 0 <= j < rest.len() implies evs[used + 1 + j] == PullEvent::Byte(
            #[trigger] rest[j],
        ) && is_continuation_byte(rest[j]) by {
            assert(rest[j] == goods[j + 1]);
        }
        lemma_continue_attempt_unfold(acc.push(c), (need - 1) as nat, used + 1, evs, pos, rest);
        assert(acc.push(c) + rest =~= acc + goods);
    }
}

/// A continuation walk reads only the events up to the ones it consumes;
/// appending further events changes nothing once it has finished.
pub proof fn lemma_continue_attempt_prefix(
    acc: Seq<u8>,
    need: nat,
    used: nat,
    evs: Seq<PullEvent>,
    more: Seq<PullEvent>,
    pos: nat,
)
    requires
        continue_attempt(acc, need, used, evs, pos) is Some,
    ensures
        continue_attempt(acc, need, used, evs + more, pos) == continue_attempt(
            acc,
            need,
            used,
            evs,
            pos,
        ),
    decreases need,
{
    if need == 0 {
    } else if used >= evs.len() {
    } else {
        assert((evs + more)[used as int] == evs[used as int]);
        match evs[used as int] {
            PullEvent::Byte(c) => {
                if is_continuation_byte(c) {
                    lemma_continue_attempt_prefix(
                        acc.push(c),
                        (need - 1) as nat,
                        used + 1,
                        evs,
                        more,
                        pos,
                    );
                }
            },
            PullEvent::End => {},
            PullEvent::IoError => {},
        }
    }
}

/// A finished attempt reads only the events it consumes; appending further
/// events changes nothing.
pub proof fn lemma_attempt_prefix(pos: nat, evs: Seq<PullEvent>, more: Seq<PullEvent>)
    requires
        attempt(pos, evs) is Some,
    ensures
        attempt(pos, evs + more) == attempt(pos, evs),
{
    if evs.len() > 0 {
        assert((evs + more)[0] == evs[0]);
        match evs[0] {
            PullEvent::Byte(b) => {
                match continuation_need(b) {
                    Some(need) => lemma_continue_attempt_prefix(seq![b], need, 1, evs, more, pos),
                    None => {},
                }
            },
            PullEvent::End => {},
            PullEvent::IoError => {},
        }
    }
}

/// Running on `evs + more` equals running on `evs` and then performing,
/// on `more`, one further attempt that consumes all of it.
pub proof fn lemma_run_from_extend(
    st: DecSt,
    evs: Seq<PullEvent>,
    more: Seq<PullEvent>,
    a: Attempt,
)
    requires
        run_from(st, evs) is Some,
        !run_from(st, evs).unwrap().0.ended,
        attempt(run_from(st, evs).unwrap().0.pos, more) == Some(a),
        a.used == more.len(),
    ensures
        run_from(st, evs + more) == Some(
            (DecSt { pos: a.pos, ended: a.ended }, run_from(st, evs).unwrap().1 + a.out),
        ),
    decreases evs.len(),
{
    lemma_attempt_bounds(run_from(st, evs).unwrap().0.pos, more);
    let mid = run_from(st, evs).unwrap().0;
    let out1 = run_from(st, evs).unwrap().1;
    if evs.len() == 0 {
        assert(mid == st && out1 == Seq::<DecodeResult>::empty());
        assert(evs + more =~= more);
        assert(more.len() >= 1);
        assert(more.skip(a.used as int) =~= Seq::<PullEvent>::empty());
        assert(run_from(DecSt { pos: a.pos, ended: a.ended }, more.skip(a.used as int))
            == Some((DecSt { pos: a.pos, ended: a.ended }, Seq::<DecodeResult>::empty())));
        assert(run_from(st, more) == Some((DecSt { pos: a.pos, ended: a.ended }, a.out + Seq::<DecodeResult>::empty())));
        assert(a.out + Seq::<DecodeResult>::empty() =~= a.out);
        assert(out1 + a.out =~= a.out);
    } else {
        let a0 = attempt(st.pos, evs).unwrap();
        lemma_attempt_bounds(st.pos, evs);
        lemma_attempt_prefix(st.pos, evs, more);
        let st1 = DecSt { pos: a0.pos, ended: a0.ended };
        let tail = evs.skip(a0.used as int);
        assert((evs + more).skip(a0.used as int) =~= tail + more);
        let r1 = run_from(st1, tail).unwrap();
        assert(run_from(st1, tail) == Some(r1));
        lemma_run_from_extend(st1, tail, more, a);
        assert(run_from(st1, tail + more) == Some(
            (DecSt { pos: a.pos, ended: a.ended }, r1.1 + a.out),
        ));
        assert(run_from(st, evs + more) == Some(
            (DecSt { pos: a.pos, ended: a.ended }, a0.out + (r1.1 + a.out)),
        ));
        assert(a0.out + (r1.1 + a.out) =~= (a0.out + r1.1) + a.out);
        assert(out1 == a0.out + r1.1);
    }
}

} // verus!
