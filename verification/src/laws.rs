use crate::decode::{
    attempt, continuation_need, continue_attempt, finish_bytes, lemma_continue_attempt_unfold,
    run_from, Attempt, DecSt, DecodeResult, Span,
};
use crate::source::PullEvent;
use vstd::prelude::*;
use vstd::utf8::*;

verus! {

/// The pull events of an in-memory byte sequence: its bytes in order,
/// then a clean end of input.
pub open spec fn events_of_bytes(bytes: Seq<u8>) -> Seq<PullEvent> {
    bytes.map_values(|b: u8| PullEvent::Byte(b)).push(PullEvent::End)
}

/// The items a decode of the valid UTF-8 sequence `bytes` produces when
/// it begins at byte offset `pos`: one `Decoded` item per encoded scalar,
/// in order, with contiguous spans.
pub open spec fn decoded_items(bytes: Seq<u8>, pos: nat) -> Seq<DecodeResult>
    recommends
        valid_utf8(bytes),
    decreases bytes.len(),
    when valid_utf8(bytes)
    via decoded_items_decreases
{
    if bytes.len() == 0 {
        Seq::<DecodeResult>::empty()
    } else {
        let k = length_of_first_scalar(bytes);
        seq![
            (DecodeResult::Decoded {
                ch: decode_first_scalar(bytes) as char,
                span: Span { start: pos as usize, end: (pos + k) as usize },
            }),
        ] + decoded_items(pop_first_scalar(bytes), (pos + k) as nat)
    }
}

#[via_fn]
proof fn decoded_items_decreases(bytes: Seq<u8>, pos: nat) {
    if valid_utf8(bytes) && bytes.len() > 0 {
        assert(valid_first_scalar(bytes));
        assert(1 <= length_of_first_scalar(bytes) <= bytes.len());
    }
}

/// The characters of a sequence of decoded items; meaningful where every
/// item is `Decoded`.
pub open spec fn chars_of(items: Seq<DecodeResult>) -> Seq<char> {
    items.map_values(
        |it: DecodeResult|
            match it {
                DecodeResult::Decoded { ch, .. } => ch,
                DecodeResult::Failed { .. } => '\0',
            },
    )
}

/// The validity, value and length of the first scalar depend only on its
/// own bytes.
proof fn lemma_first_scalar_take(bytes: Seq<u8>, k: int)
    requires
        valid_first_scalar(bytes),
        k == length_of_first_scalar(bytes),
    ensures
        valid_first_scalar(bytes.take(k)),
        decode_first_scalar(bytes.take(k)) == decode_first_scalar(bytes),
        length_of_first_scalar(bytes.take(k)) == k,
{
    let t = bytes.take(k);
    assert(1 <= k <= bytes.len());
    assert(forall|i: int| 0 <= i < k ==> t[i] == bytes[i]);
    if is_leading_byte_width_1(bytes[0]) {
    } else if is_leading_byte_width_2(bytes[0]) {
        assert(k == 2 && is_continuation_byte(bytes[1]));
    } else if is_leading_byte_width_3(bytes[0]) {
        assert(k == 3 && is_continuation_byte(bytes[1]) && is_continuation_byte(bytes[2]));
    } else {
        assert(k == 4 && is_continuation_byte(bytes[1]) && is_continuation_byte(bytes[2])
            && is_continuation_byte(bytes[3]));
    }
}

/// On a source whose events are exactly a valid UTF-8 byte sequence
/// followed by a clean end of input, the decoder produces one `Decoded`
/// item per encoded scalar, in order, with contiguous spans, and ends
/// cleanly with every byte consumed.
pub proof fn lemma_decode_valid_utf8(bytes: Seq<u8>, pos: nat)
    requires
        valid_utf8(bytes),
        pos + bytes.len() <= usize::MAX,
    ensures
        run_from(DecSt { pos, ended: false }, events_of_bytes(bytes)) == Some(
            (DecSt { pos: (pos + bytes.len()) as nat, ended: true }, decoded_items(bytes, pos)),
        ),
    decreases bytes.len(),
{
    let evs = events_of_bytes(bytes);
    if bytes.len() == 0 {
        assert(evs =~= seq![PullEvent::End]);
        let a = Attempt { used: 1, out: seq![], pos, ended: true };
        assert(attempt(pos, evs) == Some(a));
        assert(evs.skip(1) =~= Seq::<PullEvent>::empty());
        assert(run_from(DecSt { pos, ended: true }, evs.skip(1)) == Some(
            (DecSt { pos, ended: true }, Seq::<DecodeResult>::empty()),
        ));
        assert(run_from(DecSt { pos, ended: false }, evs) == Some(
            (DecSt { pos, ended: true }, a.out + Seq::<DecodeResult>::empty()),
        ));
        assert(a.out + Seq::<DecodeResult>::empty() =~= decoded_items(bytes, pos));
    } else {
        assert(valid_first_scalar(bytes));
        let k = length_of_first_scalar(bytes);
        assert(1 <= k <= bytes.len());
        assert(evs.len() == bytes.len() + 1);
        assert(forall|i: int| 0 <= i < bytes.len() ==> evs[i] == PullEvent::Byte(bytes[i]));

        let lead = bytes[0];
        let goods = bytes.subrange(1, k);
        if is_leading_byte_width_1(lead) {
            assert(k == 1);
        } else if is_leading_byte_width_2(lead) {
            assert(k == 2 && is_continuation_byte(bytes[1]));
        } else if is_leading_byte_width_3(lead) {
            assert(k == 3 && is_continuation_byte(bytes[1]) && is_continuation_byte(bytes[2]));
        } else {
            assert(k == 4 && is_continuation_byte(bytes[1]) && is_continuation_byte(bytes[2])
                && is_continuation_byte(bytes[3]));
        }
        let need = (k - 1) as nat;
        assert(continuation_need(lead) == Some(need));
        let acc_full = seq![lead] + goods;
        assert(acc_full =~= bytes.take(k));
        assert forall|j: int| 0 <= j < goods.len() implies evs[1 + j] == PullEvent::Byte(
            #[trigger] goods[j],
        ) && is_continuation_byte(goods[j]) by {
            assert(goods[j] == bytes[1 + j]);
        }
        lemma_continue_attempt_unfold(seq![lead], need, 1, evs, pos, goods);
        lemma_first_scalar_take(bytes, k);
        assert(valid_first_scalar(acc_full));
        let item = DecodeResult::Decoded {
            ch: decode_first_scalar(bytes) as char,
            span: Span { start: pos as usize, end: (pos + k) as usize },
        };
        assert(acc_full.len() == k);
        assert(finish_bytes(acc_full, pos) == item);
        let a = Attempt { used: k as nat, out: seq![item], pos: (pos + k) as nat, ended: false };
        assert(continue_attempt(acc_full, 0, k as nat, evs, pos) == Some(a));
        assert(attempt(pos, evs) == Some(a));

        let rest_bytes = pop_first_scalar(bytes);
        assert(rest_bytes =~= bytes.skip(k));
        assert forall|i: int| 0 <= i < evs.skip(k).len() implies evs.skip(k)[i]
            == events_of_bytes(rest_bytes)[i] by {
            if i < rest_bytes.len() {
                assert(evs.skip(k)[i] == evs[k + i]);
                assert(rest_bytes[i] == bytes[k + i]);
            }
        }
        assert(evs.skip(k) =~= events_of_bytes(rest_bytes));
        assert(valid_utf8(rest_bytes));
        lemma_decode_valid_utf8(rest_bytes, (pos + k) as nat);
        assert(run_from(DecSt { pos, ended: false }, evs) == Some(
            (
                DecSt { pos: (pos + bytes.len()) as nat, ended: true },
                a.out + decoded_items(rest_bytes, (pos + k) as nat),
            ),
        ));
        assert(a.out + decoded_items(rest_bytes, (pos + k) as nat) =~= decoded_items(bytes, pos));
    }
}

/// Every item of `decoded_items` is `Decoded`, and its characters are
/// exactly the characters the bytes encode.
pub proof fn lemma_decoded_items_shape(bytes: Seq<u8>, pos: nat)
    requires
        valid_utf8(bytes),
    ensures
        decoded_items(bytes, pos).len() == decode_utf8(bytes).len(),
        forall|i: int|
            0 <= i < decoded_items(bytes, pos).len() ==> decoded_items(bytes, pos)[i] is Decoded,
        chars_of(decoded_items(bytes, pos)) == decode_utf8(bytes),
    decreases bytes.len(),
{
    if bytes.len() == 0 {
        assert(chars_of(decoded_items(bytes, pos)) =~= decode_utf8(bytes));
    } else {
        let k = length_of_first_scalar(bytes);
        lemma_decoded_items_shape(pop_first_scalar(bytes), (pos + k) as nat);
        assert(chars_of(decoded_items(bytes, pos)) =~= decode_utf8(bytes));
    }
}

/// Round-trip law: on an input made solely of valid, minimal UTF-8
/// encodings of scalar values, every produced item is `Decoded`, and the
/// decoded characters, re-encoded in UTF-8, reproduce the input bytes
/// exactly.
pub proof fn lemma_round_trip(bytes: Seq<u8>, pos: nat)
    requires
        valid_utf8(bytes),
        pos + bytes.len() <= usize::MAX,
    ensures
        run_from(DecSt { pos, ended: false }, events_of_bytes(bytes)) == Some(
            (DecSt { pos: (pos + bytes.len()) as nat, ended: true }, decoded_items(bytes, pos)),
        ),
        forall|i: int|
            0 <= i < decoded_items(bytes, pos).len() ==> decoded_items(bytes, pos)[i] is Decoded,
        chars_of(decoded_items(bytes, pos)) == decode_utf8(bytes),
        encode_utf8(chars_of(decoded_items(bytes, pos))) == bytes,
{
    lemma_decode_valid_utf8(bytes, pos);
    lemma_decoded_items_shape(bytes, pos);
    decode_utf8_encode_utf8(bytes);
}

/// ASCII identity law: an all-ASCII input of length n decodes into
/// exactly n items, in input order: the i-th item is the i-th byte as a
/// character, with the 1-byte span [pos + i, pos + i + 1).
pub proof fn lemma_ascii_identity(bytes: Seq<u8>, pos: nat)
    requires
        forall|i: int| 0 <= i < bytes.len() ==> bytes[i] < 0x80,
        pos + bytes.len() <= usize::MAX,
    ensures
        valid_utf8(bytes),
        run_from(DecSt { pos, ended: false }, events_of_bytes(bytes)) == Some(
            (DecSt { pos: (pos + bytes.len()) as nat, ended: true }, decoded_items(bytes, pos)),
        ),
        decoded_items(bytes, pos).len() == bytes.len(),
        forall|i: int|
            0 <= i < bytes.len() ==> decoded_items(bytes, pos)[i] == (DecodeResult::Decoded {
                ch: bytes[i] as char,
                span: Span { start: (pos + i) as usize, end: (pos + i + 1) as usize },
            }),
    decreases bytes.len(),
{
    if bytes.len() == 0 {
        lemma_decode_valid_utf8(bytes, pos);
    } else {
        let b0 = bytes[0];
        assert(b0 < 0x80);
        assert(b0 & 0x7F == b0) by (bit_vector)
            requires
                b0 < 0x80,
        ;
        assert(is_leading_byte_width_1(b0));
        assert(valid_first_scalar(bytes));
        assert(length_of_first_scalar(bytes) == 1);
        let rest = bytes.drop_first();
        assert(pop_first_scalar(bytes) =~= rest);
        assert forall|i: int| 0 <= i < rest.len() implies #[trigger] rest[i] < 0x80 by {
            assert(rest[i] == bytes[i + 1]);
        }
        lemma_ascii_identity(rest, pos + 1);
        assert(valid_utf8(bytes));
        lemma_decode_valid_utf8(bytes, pos);
        assert(decode_first_scalar(bytes) == (b0 & 0x7F) as u32);
        assert(decoded_items(bytes, pos) == seq![
            (DecodeResult::Decoded {
                ch: decode_first_scalar(bytes) as char,
                span: Span { start: pos as usize, end: (pos + 1) as usize },
            }),
        ] + decoded_items(rest, pos + 1));
        assert forall|i: int| 0 <= i < bytes.len() implies decoded_items(bytes, pos)[i] == (
        DecodeResult::Decoded {
            ch: bytes[i] as char,
            span: Span { start: (pos + i) as usize, end: (pos + i + 1) as usize },
        }) by {
            if i == 0 {
                assert((b0 as u32) as char == b0 as char);
            } else {
                assert(decoded_items(bytes, pos)[i] == decoded_items(rest, pos + 1)[i - 1]);
                assert(rest[i - 1] == bytes[i]);
            }
        }
    }
}

/// Empty-input law: a source that reports the end of its input at once
/// yields no items at all; the decoder just ends at its current position.
pub proof fn lemma_empty_input(pos: nat)
    ensures
        run_from(DecSt { pos, ended: false }, seq![PullEvent::End]) == Some(
            (DecSt { pos, ended: true }, Seq::<DecodeResult>::empty()),
        ),
{
    let evs = seq![PullEvent::End];
    let a = Attempt { used: 1, out: seq![], pos, ended: true };
    assert(attempt(pos, evs) == Some(a));
    assert(evs.skip(1) =~= Seq::<PullEvent>::empty());
    assert(run_from(DecSt { pos, ended: true }, evs.skip(1)) == Some(
        (DecSt { pos, ended: true }, Seq::<DecodeResult>::empty()),
    ));
    assert(a.out + Seq::<DecodeResult>::empty() =~= Seq::<DecodeResult>::empty());
}

} // verus!
