//! The law of the alter edits read back: after
//! [`crate::alters::set_emotion`] or [`crate::alters::set_radiation`] the
//! alters read from the body are the old ones with the written values.
use vstd::prelude::*;
use vstd::utf8::{
    decode_utf8, is_leading_byte_width_1, partial_valid_utf8, partial_valid_utf8_extend_ascii_block,
    valid_utf8,
};

use crate::alters::{
    emotion_needle, spec_float_after_marker, spec_record_content_after, spec_set_emotions,
    spec_set_radiation, emotion_name, emotion_scan, emotion_step, emotions_from, index_named,
    display_names, owner_before, owner_name_at, owners_among, JAN_DISPLAY, radiation_scan, radiation_step, spec_alters,
    spec_owners, with_emotion, with_owner, with_radiation,
    AlterModel, EmotionModel, JAN_INSTANCE, RADIATION_PATH,
};
use crate::bytes::{spec_first_stop, stops, Stop, lstr_bytes, spec_read_i32, spec_read_lstr, spec_read_u32, spec_write_i32};
use crate::elb::FLOAT_MARKER;
use crate::search::{occurrences, occurs_at, spec_find};
use crate::text::lossy_decode;
use crate::error::ErrorModel;
use crate::edit_laws::{apart, lemma_read_same_bytes, lemma_write_bits_effect};
use crate::time_laws::in_field;

verus! {

/// Position `i` lies in one of the four-byte fields at the offsets `w`.
pub open spec fn covered(w: Seq<int>, i: int) -> bool {
    exists|k: int| 0 <= k < w.len() && in_field(i, #[trigger] w[k])
}

/// `b2` is `b` with the bits `bits` stored at every offset of `w` and
/// nothing else changed.
pub open spec fn bits_written(b: Seq<u8>, b2: Seq<u8>, w: Seq<int>, bits: u32) -> bool {
    &&& b2.len() == b.len()
    &&& forall|i: int| 0 <= i < b.len() && !covered(w, i) ==> #[trigger] b2[i] == b[i]
    &&& forall|k: int| 0 <= k < w.len() ==> spec_read_u32(b2, #[trigger] w[k]) == Some(bits as int)
}

/// Any two of the offsets `w` are equal or their four-byte fields do not
/// overlap.
pub open spec fn offsets_apart(w: Seq<int>) -> bool {
    forall|j: int, k: int| 0 <= j < w.len() && 0 <= k < w.len() ==> #[trigger] w[j] == #[trigger] w[k] || apart(w[j], w[k])
}

/// The offsets `w` lie inside a body of `len` bytes, and any two of them
/// are equal or their fields do not overlap.
pub open spec fn fields_ok(w: Seq<int>, len: int) -> bool {
    &&& forall|k: int| 0 <= k < w.len() ==> 0 <= #[trigger] w[k] && w[k] + 4 <= len
    &&& offsets_apart(w)
}

/// `b` with the bits `bits` written at each offset of `w`, in order.
pub open spec fn write_all(b: Seq<u8>, w: Seq<int>, bits: u32) -> Seq<u8>
    decreases w.len(),
{
    if w.len() == 0 {
        b
    } else {
        write_all(spec_write_i32(b, w[0], bits as int), w.drop_first(), bits)
    }
}

/// Writing the same bits at each offset of `w` stores them at every one
/// and changes nothing else.
#[verifier::rlimit(60)]
proof fn lemma_write_all(b: Seq<u8>, w: Seq<int>, bits: u32)
    requires
        fields_ok(w, b.len() as int),
    ensures
        bits_written(b, write_all(b, w, bits), w, bits),
    decreases w.len(),
{
    if w.len() > 0 {
        let o = w[0];
        let t = w.drop_first();
        let b1 = spec_write_i32(b, o, bits as int);
        lemma_write_bits_effect(b, o, bits);
        assert(fields_ok(t, b.len() as int)) by {
            assert forall|k: int| 0 <= k < t.len() implies 0 <= #[trigger] t[k] && t[k] + 4 <= b.len() by {
                assert(t[k] == w[k + 1]);
            }
            assert forall|j: int, k: int| 0 <= j < t.len() && 0 <= k < t.len() implies #[trigger] t[j]
                == #[trigger] t[k] || apart(t[j], t[k]) by {
                assert(t[j] == w[j + 1] && t[k] == w[k + 1]);
            }
        }
        lemma_write_all(b1, t, bits);
        let b2 = write_all(b1, t, bits);
        assert forall|i: int| 0 <= i < b.len() && !covered(w, i) implies #[trigger] b2[i] == b[i] by {
            if covered(t, i) {
                let k = choose|k: int| 0 <= k < t.len() && in_field(i, #[trigger] t[k]);
                assert(w[k + 1] == t[k]);
                assert(covered(w, i));
            }
            if in_field(i, o) {
                assert(w[0] == o);
                assert(covered(w, i));
            }
        }
        assert forall|k: int| 0 <= k < w.len() implies spec_read_u32(b2, #[trigger] w[k]) == Some(bits as int) by {
            if k > 0 {
                assert(w[k] == t[k - 1]);
            } else if exists|j: int| 0 <= j < t.len() && t[j] == o {
                let j = choose|j: int| 0 <= j < t.len() && t[j] == o;
                assert(spec_read_u32(b2, t[j]) == Some(bits as int));
            } else {
                assert forall|x: int| o <= x < o + 4 implies #[trigger] b2[x] == b1[x] by {
                    if covered(t, x) {
                        let j = choose|j: int| 0 <= j < t.len() && in_field(x, #[trigger] t[j]);
                        assert(w[j + 1] == t[j]);
                        assert(w[0] == o);
                        assert(w[0] == w[j + 1] || apart(w[0], w[j + 1]));
                    }
                }
                assert(b2.subrange(o, o + 4) =~= b1.subrange(o, o + 4));
                lemma_read_same_bytes(b2, o, b1, o);
            }
        }
    }
}

/// The offsets of radiation fields.
pub open spec fn radiation_offsets(rad: Seq<(u32, int)>) -> Seq<int> {
    rad.map_values(|v: (u32, int)| v.1)
}

/// The value offsets of the emotions of `es[i..]` named `name`.
pub open spec fn emotion_offsets(es: Seq<EmotionModel>, name: Seq<char>, i: int) -> Seq<int>
    decreases es.len() - i,
{
    if i < 0 || i >= es.len() {
        Seq::empty()
    } else if es[i].name != name {
        emotion_offsets(es, name, i + 1)
    } else {
        seq![es[i].value_offset] + emotion_offsets(es, name, i + 1)
    }
}

#[verifier::rlimit(30)]
proof fn lemma_set_radiation_all(b: Seq<u8>, rad: Seq<(u32, int)>, bits: u32, i: int)
    requires
        0 <= i <= rad.len(),
        forall|k: int| 0 <= k < rad.len() ==> 0 <= (#[trigger] rad[k]).1 && rad[k].1 + 4 <= b.len(),
    ensures
        spec_set_radiation(b, rad, bits, i) == (
            write_all(b, radiation_offsets(rad).subrange(i, rad.len() as int), bits),
            Ok::<(), ErrorModel>(()),
        ),
    decreases rad.len() - i,
{
    let w = radiation_offsets(rad).subrange(i, rad.len() as int);
    if i == rad.len() {
        assert(w.len() == 0);
    } else {
        let next = spec_write_i32(b, rad[i].1, bits as int);
        lemma_write_bits_effect(b, rad[i].1, bits);
        lemma_set_radiation_all(next, rad, bits, i + 1);
        assert(w[0] == rad[i].1);
        assert(w.drop_first() =~= radiation_offsets(rad).subrange(i + 1, rad.len() as int));
    }
}

#[verifier::rlimit(30)]
proof fn lemma_set_emotions_all(b: Seq<u8>, es: Seq<EmotionModel>, name: Seq<char>, bits: u32, i: int)
    requires
        0 <= i <= es.len(),
        forall|k: int| 0 <= k < es.len() ==> 0 <= (#[trigger] es[k]).value_offset && es[k].value_offset + 4 <= b.len(),
    ensures
        spec_set_emotions(b, es, name, bits, i) == (
            write_all(b, emotion_offsets(es, name, i), bits),
            Ok::<(), ErrorModel>(()),
        ),
    decreases es.len() - i,
{
    if i < es.len() {
        if es[i].name != name {
            lemma_set_emotions_all(b, es, name, bits, i + 1);
        } else {
            let next = spec_write_i32(b, es[i].value_offset, bits as int);
            lemma_write_bits_effect(b, es[i].value_offset, bits);
            lemma_set_emotions_all(next, es, name, bits, i + 1);
            let w = emotion_offsets(es, name, i);
            assert(w[0] == es[i].value_offset);
            assert(w.drop_first() =~= emotion_offsets(es, name, i + 1));
        }
    }
}

/// None of the fields at the offsets `w` overlaps the bytes from `lo` up
/// to `hi`.
pub open spec fn clear(w: Seq<int>, lo: int, hi: int) -> bool {
    forall|k: int| 0 <= k < w.len() ==> #[trigger] w[k] + 4 <= lo || hi <= w[k]
}

/// The value bits and offset of the record whose class `lstr` `n` starts
/// at `c`: the `f32` after the first float marker of its content.
pub open spec fn record_value(body: Seq<u8>, n: Seq<u8>, c: int) -> Option<(u32, int)> {
    match spec_record_content_after(body, c + n.len()) {
        None => None,
        Some((cs, size)) => spec_float_after_marker(body, cs, size),
    }
}

/// The record at `c` is read apart from the fields `w`, but for its own
/// value.
pub open spec fn record_apart(body: Seq<u8>, n: Seq<u8>, c: int, w: Seq<int>) -> bool {
    forall|k: int|
        0 <= k < w.len() ==> #[trigger] w[k] + 4 <= c || (record_value(body, n, c) matches Some((_, off)) && (
        w[k] == off || off + 4 <= w[k]))
}

/// The class-path `lstr`s the alters are read from: the eight emotions,
/// then radiation.
pub open spec fn alter_needle(q: int) -> Seq<u8> {
    if q < 8 {
        emotion_needle(q)
    } else {
        lstr_bytes(RADIATION_PATH@)
    }
}

/// `v` as read back after the bits `bits` were written at the offsets `w`.
pub open spec fn value_after(v: u32, off: int, w: Seq<int>, bits: u32) -> u32 {
    if w.contains(off) {
        bits
    } else {
        v
    }
}

#[verifier::rlimit(30)]
proof fn lemma_i32_agree(b: Seq<u8>, b2: Seq<u8>, lo: int, hi: int, off: int)
    requires
        b2.len() == b.len(),
        forall|i: int| lo <= i < hi ==> #[trigger] b2[i] == b[i],
        lo <= off,
        off + 4 <= hi || hi >= b.len(),
    ensures
        spec_read_i32(b2, off) == spec_read_i32(b, off),
        spec_read_u32(b2, off) == spec_read_u32(b, off),
{
    if 0 <= off && off + 4 <= b.len() {
        assert(b.subrange(off, off + 4) =~= b2.subrange(off, off + 4));
        lemma_read_same_bytes(b, off, b2, off);
    }
}

#[verifier::rlimit(30)]
proof fn lemma_lstr_agree(b: Seq<u8>, b2: Seq<u8>, lo: int, hi: int, off: int)
    requires
        b2.len() == b.len(),
        forall|i: int| lo <= i < hi ==> #[trigger] b2[i] == b[i],
        lo <= off,
        hi >= b.len() || (spec_read_lstr(b, off) matches Some((_, e)) && e <= hi),
    ensures
        spec_read_lstr(b2, off) == spec_read_lstr(b, off),
{
    lemma_i32_agree(b, b2, lo, hi, off);
    match spec_read_i32(b, off) {
        Some(len) => {
            let end = off + 4 + len;
            if len >= 1 && end <= b.len() {
                assert(b[end - 1] == b2[end - 1]);
                assert(b.subrange(off + 4, end - 1) =~= b2.subrange(off + 4, end - 1));
            }
        },
        None => {},
    }
}

/// The content span of a record reads the same from a body that agrees
/// on its header (or on everything from the record on).
#[verifier::rlimit(30)]
proof fn lemma_record_content_frame(b: Seq<u8>, b2: Seq<u8>, n: Seq<u8>, c: int, hi: int)
    requires
        b2.len() == b.len(),
        0 <= c,
        forall|i: int| c <= i < hi ==> #[trigger] b2[i] == b[i],
        hi >= b.len() || (spec_record_content_after(b, c + n.len()) matches Some((cs, _)) && cs <= hi),
    ensures
        spec_record_content_after(b2, c + n.len()) == spec_record_content_after(b, c + n.len()),
{
    let a = c + n.len();
    lemma_lstr_agree(b, b2, c, hi, a);
    match spec_read_lstr(b, a) {
        None => {},
        Some((_, cursor)) => {
            lemma_i32_agree(b, b2, c, hi, cursor);
            match spec_read_i32(b, cursor) {
                None => {},
                Some(kind) => {
                    if kind == 0 {
                        lemma_i32_agree(b, b2, c, hi, cursor + 4);
                    } else if kind == 1 {
                        lemma_lstr_agree(b, b2, c, hi, cursor + 4);
                        match spec_read_lstr(b, cursor + 4) {
                            Some((_, after_tag)) => {
                                lemma_i32_agree(b, b2, c, hi, after_tag);
                            },
                            None => {},
                        }
                    }
                },
            }
        },
    }
}

/// The first float marker of a content span and the value after it read
/// the same from a body that agrees from the span on.
#[verifier::rlimit(30)]
proof fn lemma_float_frame(b: Seq<u8>, b2: Seq<u8>, cs: int, size: int, hi: int)
    requires
        b2.len() == b.len(),
        hi == b.len(),
        0 <= cs,
        0 <= size,
        forall|i: int| cs <= i < hi ==> #[trigger] b2[i] == b[i],
    ensures
        spec_float_after_marker(b2, cs, size) == spec_float_after_marker(b, cs, size),
{
    if cs + size <= b.len() {
        assert(b.subrange(cs, cs + size) =~= b2.subrange(cs, cs + size));
        match spec_find(b.subrange(cs, cs + size), FLOAT_MARKER@) {
            None => {},
            Some(m) => {
                crate::search::lemma_find_some(b.subrange(cs, cs + size), FLOAT_MARKER@);
                lemma_i32_agree(b, b2, cs, hi, cs + m + 8);
            },
        }
    }
}

/// The first float marker of a content span is found where it was in a
/// body that agrees on the span up to the value after it.
#[verifier::rlimit(30)]
proof fn lemma_float_value_frame(b: Seq<u8>, b2: Seq<u8>, cs: int, size: int, off: int)
    requires
        b2.len() == b.len(),
        0 <= cs,
        0 <= size,
        spec_float_after_marker(b, cs, size) matches Some((_, o)) && o == off,
        forall|i: int| cs <= i < off ==> #[trigger] b2[i] == b[i],
    ensures
        spec_float_after_marker(b2, cs, size) == match spec_read_u32(b2, off) {
            None => None,
            Some(x) => Some((x as u32, off)),
        },
{
    let h = b.subrange(cs, cs + size);
    let h2 = b2.subrange(cs, cs + size);
    let m = spec_find(h, FLOAT_MARKER@)->Some_0;
    crate::search::lemma_find_some(h, FLOAT_MARKER@);
    assert(off == cs + m + 8);
    assert forall|i: int| 0 <= i < m + 8 implies #[trigger] h2[i] == h[i] by {
        assert(h2[i] == b2[cs + i]);
        assert(h[i] == b[cs + i]);
        assert(b2[cs + i] == b[cs + i]);
    }
    crate::search::lemma_find_frame(h, h2, FLOAT_MARKER@, m);
}

/// The record reads the same from `b2`, the body with `bits` written at
/// `w`, but for its value, which reads as written when it lies at one of
/// the offsets.
#[verifier::rlimit(60)]
proof fn lemma_record_value_after(b: Seq<u8>, b2: Seq<u8>, w: Seq<int>, bits: u32, n: Seq<u8>, c: int)
    requires
        bits_written(b, b2, w, bits),
        0 <= c,
        record_apart(b, n, c, w),
    ensures
        record_value(b2, n, c) == match record_value(b, n, c) {
            None => None,
            Some((v, off)) => Some((value_after(v, off, w, bits), off)),
        },
{
    match record_value(b, n, c) {
        None => {
            assert forall|i: int| c <= i < b.len() implies #[trigger] b2[i] == b[i] by {
                if covered(w, i) {
                    let k = choose|k: int| 0 <= k < w.len() && in_field(i, #[trigger] w[k]);
                    assert(record_apart(b, n, c, w));
                    assert(w[k] + 4 <= c || (record_value(b, n, c) matches Some((_, o)) && (w[k] == o || o
                        + 4 <= w[k])));
                    assert(w[k] + 4 <= c);
                }
            }
            lemma_record_content_frame(b, b2, n, c, b.len() as int);
            match spec_record_content_after(b, c + n.len()) {
                None => {},
                Some((cs, size)) => {
                    lemma_float_frame(b, b2, cs, size, b.len() as int);
                },
            }
        },
        Some((v, off)) => {
            let (cs, size) = spec_record_content_after(b, c + n.len())->Some_0;
            crate::search::lemma_find_some(b.subrange(cs, cs + size), FLOAT_MARKER@);
            assert(cs <= off);
            assert forall|i: int| c <= i < off implies #[trigger] b2[i] == b[i] by {
                if covered(w, i) {
                    let k = choose|k: int| 0 <= k < w.len() && in_field(i, #[trigger] w[k]);
                    assert(w[k] + 4 <= c || (record_value(b, n, c) matches Some((_, o)) && (w[k] == o || o
                        + 4 <= w[k])));
                }
            }
            lemma_record_content_frame(b, b2, n, c, off);
            lemma_float_value_frame(b, b2, cs, size, off);
            if w.contains(off) {
                let k = choose|k: int| 0 <= k < w.len() && w[k] == off;
                assert(spec_read_u32(b2, w[k]) == Some(bits as int));
            } else {
                assert forall|i: int| off <= i < off + 4 implies #[trigger] b2[i] == b[i] by {
                    if covered(w, i) {
                        let k = choose|k: int| 0 <= k < w.len() && in_field(i, #[trigger] w[k]);
                        assert(w[k] + 4 <= c || (record_value(b, n, c) matches Some((_, o)) && (w[k] == o || o
                            + 4 <= w[k])));
                        if w[k] == off {
                            assert(w.contains(off));
                        }
                    }
                }
                assert(b2.subrange(off, off + 4) =~= b.subrange(off, off + 4));
                lemma_read_same_bytes(b2, off, b, off);
            }
        },
    }
}

/// `e` as read back after the bits `bits` were written at the offsets `w`.
pub open spec fn emotion_after(e: EmotionModel, w: Seq<int>, bits: u32) -> EmotionModel {
    EmotionModel {
        name: e.name,
        value_bits: value_after(e.value_bits, e.value_offset, w, bits),
        value_offset: e.value_offset,
    }
}

/// A radiation field as read back after the bits `bits` were written at
/// the offsets `w`.
pub open spec fn radiation_after(v: (u32, int), w: Seq<int>, bits: u32) -> (u32, int) {
    (value_after(v.0, v.1, w, bits), v.1)
}

/// An alter as read back after the bits `bits` were written at the
/// offsets `w`: every emotion and radiation value stored at one of them
/// reads as `bits`.
pub open spec fn alter_after(a: AlterModel, w: Seq<int>, bits: u32) -> AlterModel {
    AlterModel {
        name: a.name,
        radiation: a.radiation.map_values(|v: (u32, int)| radiation_after(v, w, bits)),
        emotions: a.emotions.map_values(|e: EmotionModel| emotion_after(e, w, bits)),
    }
}

/// The alters as read back after the bits `bits` were written at the
/// offsets `w`.
pub open spec fn alters_after(r: Seq<AlterModel>, w: Seq<int>, bits: u32) -> Seq<AlterModel> {
    r.map_values(|a: AlterModel| alter_after(a, w, bits))
}

#[verifier::rlimit(30)]
proof fn lemma_index_after(r: Seq<AlterModel>, owner: Seq<char>, w: Seq<int>, bits: u32)
    ensures
        index_named(alters_after(r, w, bits), owner) == index_named(r, owner),
    decreases r.len(),
{
    if r.len() > 0 {
        assert(alters_after(r, w, bits).drop_first() =~= alters_after(r.drop_first(), w, bits));
        lemma_index_after(r.drop_first(), owner, w, bits);
    }
}

#[verifier::rlimit(30)]
proof fn lemma_with_owner_after(r: Seq<AlterModel>, owner: Seq<char>, w: Seq<int>, bits: u32)
    ensures
        with_owner(alters_after(r, w, bits), owner) == alters_after(with_owner(r, owner), w, bits),
{
    lemma_index_after(r, owner, w, bits);
    let fresh = AlterModel { name: owner, radiation: Seq::empty(), emotions: Seq::empty() };
    assert(alter_after(fresh, w, bits).radiation =~= Seq::<(u32, int)>::empty());
    assert(alter_after(fresh, w, bits).emotions =~= Seq::<EmotionModel>::empty());
    assert(alters_after(r.push(fresh), w, bits) =~= alters_after(r, w, bits).push(alter_after(fresh, w, bits)));
}

#[verifier::rlimit(30)]
proof fn lemma_with_emotion_after(r: Seq<AlterModel>, owner: Seq<char>, e: EmotionModel, w: Seq<int>, bits: u32)
    ensures
        with_emotion(alters_after(r, w, bits), owner, emotion_after(e, w, bits)) == alters_after(
            with_emotion(r, owner, e),
            w,
            bits,
        ),
{
    lemma_with_owner_after(r, owner, w, bits);
    lemma_index_after(r, owner, w, bits);
    crate::edit_laws::lemma_index_named_bound(r, owner);
    let grown = with_owner(r, owner);
    let i = index_named(r, owner);
    assert(0 <= i < grown.len());
    let a = grown[i];
    let updated = AlterModel { name: a.name, radiation: a.radiation, emotions: a.emotions.push(e) };
    assert(alter_after(updated, w, bits).emotions =~= alter_after(a, w, bits).emotions.push(emotion_after(e, w, bits)));
    assert(alters_after(grown.update(i, updated), w, bits) =~= alters_after(grown, w, bits).update(
        i,
        alter_after(updated, w, bits),
    ));
}

#[verifier::rlimit(30)]
proof fn lemma_with_radiation_after(r: Seq<AlterModel>, owner: Seq<char>, v: (u32, int), w: Seq<int>, bits: u32)
    ensures
        with_radiation(alters_after(r, w, bits), owner, radiation_after(v, w, bits)) == alters_after(
            with_radiation(r, owner, v),
            w,
            bits,
        ),
{
    lemma_with_owner_after(r, owner, w, bits);
    lemma_index_after(r, owner, w, bits);
    crate::edit_laws::lemma_index_named_bound(r, owner);
    let grown = with_owner(r, owner);
    let i = index_named(r, owner);
    assert(0 <= i < grown.len());
    let a = grown[i];
    let updated = AlterModel { name: a.name, radiation: a.radiation.push(v), emotions: a.emotions };
    assert(alter_after(updated, w, bits).radiation =~= alter_after(a, w, bits).radiation.push(radiation_after(v, w, bits)));
    assert(alters_after(grown.update(i, updated), w, bits) =~= alters_after(grown, w, bits).update(
        i,
        alter_after(updated, w, bits),
    ));
}

/// What the alters are read from lies apart from the fields `w`, in `b`
/// and in `b2`: no alter instance name, with the 48 bytes its name is read
/// from, and no class-path `lstr` a record is found by overlaps a field in
/// either; and every record found in `b` is read apart from the fields but
/// for its own value.
pub open spec fn alters_apart(b: Seq<u8>, b2: Seq<u8>, w: Seq<int>) -> bool {
    &&& forall|s: int|
        #![trigger occurs_at(b, JAN_INSTANCE@, s)]
        #![trigger occurs_at(b2, JAN_INSTANCE@, s)]
        occurs_at(b, JAN_INSTANCE@, s) || occurs_at(b2, JAN_INSTANCE@, s) ==> clear(w, s, s + 48)
    &&& forall|q: int, i: int|
        #![trigger occurs_at(b, alter_needle(q), i)]
        #![trigger occurs_at(b2, alter_needle(q), i)]
        0 <= q < 9 && (occurs_at(b, alter_needle(q), i) || occurs_at(b2, alter_needle(q), i)) ==> clear(
            w,
            i,
            i + alter_needle(q).len(),
        )
    &&& forall|q: int, c: int|
        #![trigger occurs_at(b, alter_needle(q), c)]
        0 <= q < 9 && occurs_at(b, alter_needle(q), c) ==> record_apart(b, alter_needle(q), c, w)
}

/// An outcome of reading the alters, as read back after the bits `bits`
/// were written at the offsets `w`.
pub open spec fn outcome_after(x: std::result::Result<Seq<AlterModel>, ErrorModel>, w: Seq<int>, bits: u32) -> std::result::Result<
    Seq<AlterModel>,
    ErrorModel,
> {
    match x {
        Ok(r) => Ok(alters_after(r, w, bits)),
        Err(e) => Err(e),
    }
}

/// Bytes that no field covers read the same.
#[verifier::rlimit(30)]
proof fn lemma_clear_same(b: Seq<u8>, b2: Seq<u8>, w: Seq<int>, bits: u32, lo: int, hi: int)
    requires
        bits_written(b, b2, w, bits),
        clear(w, lo, hi),
    ensures
        forall|i: int| lo <= i < hi && 0 <= i < b.len() ==> #[trigger] b2[i] == b[i],
{
    assert forall|i: int| lo <= i < hi && 0 <= i < b.len() implies #[trigger] b2[i] == b[i] by {
        if covered(w, i) {
            let k = choose|k: int| 0 <= k < w.len() && in_field(i, #[trigger] w[k]);
        }
    }
}

#[verifier::rlimit(30)]
proof fn lemma_occurrences_after(b: Seq<u8>, b2: Seq<u8>, w: Seq<int>, bits: u32, n: Seq<u8>)
    requires
        bits_written(b, b2, w, bits),
        forall|i: int|
            #![trigger occurs_at(b, n, i)]
            #![trigger occurs_at(b2, n, i)]
            occurs_at(b, n, i) || occurs_at(b2, n, i) ==> clear(w, i, i + n.len()),
    ensures
        occurrences(b2, n) == occurrences(b, n),
{
    assert forall|i: int| #[trigger] occurs_at(b, n, i) == occurs_at(b2, n, i) by {
        if occurs_at(b, n, i) || occurs_at(b2, n, i) {
            lemma_clear_same(b, b2, w, bits, i, i + n.len());
            assert(b.subrange(i, i + n.len()) =~= b2.subrange(i, i + n.len()));
        }
    }
    crate::search::lemma_occurrences_same(b, b2, n, 0);
}

#[verifier::rlimit(30)]
proof fn lemma_owners_after(b: Seq<u8>, b2: Seq<u8>, w: Seq<int>, bits: u32, cands: Seq<int>)
    requires
        bits_written(b, b2, w, bits),
        forall|x: int|
            0 <= x < cands.len() ==> 0 <= #[trigger] cands[x] && cands[x] <= b.len() && clear(
                w,
                cands[x],
                cands[x] + 48,
            ),
    ensures
        owners_among(b2, cands) == owners_among(b, cands),
    decreases cands.len(),
{
    if cands.len() > 0 {
        let t = cands.drop_first();
        assert forall|x: int| 0 <= x < t.len() implies 0 <= #[trigger] t[x] && t[x] <= b.len() && clear(
            w,
            t[x],
            t[x] + 48,
        ) by {
            assert(t[x] == cands[x + 1]);
        }
        lemma_owners_after(b, b2, w, bits, t);
        let s0 = cands[0];
        lemma_clear_same(b, b2, w, bits, s0, s0 + 48);
        let to = if s0 + 48 < b.len() {
            s0 + 48
        } else {
            b.len() as int
        };
        assert(b.subrange(s0, to) =~= b2.subrange(s0, to));
        assert(owner_name_at(b2, s0) == owner_name_at(b, s0));
    }
}

#[verifier::rlimit(30)]
proof fn lemma_emotion_scan_after(
    b: Seq<u8>,
    b2: Seq<u8>,
    w: Seq<int>,
    bits: u32,
    owners: Seq<(int, Seq<char>)>,
    r: Seq<AlterModel>,
    which: int,
    cands: Seq<int>,
)
    requires
        bits_written(b, b2, w, bits),
        forall|x: int|
            0 <= x < cands.len() ==> 0 <= #[trigger] cands[x] && record_apart(b, emotion_needle(which), cands[x], w),
    ensures
        emotion_scan(b2, owners, alters_after(r, w, bits), which, cands) == outcome_after(
            emotion_scan(b, owners, r, which, cands),
            w,
            bits,
        ),
    decreases cands.len(),
{
    if cands.len() > 0 {
        let c = cands[0];
        let n = emotion_needle(which);
        lemma_record_value_after(b, b2, w, bits, n, c);
        match record_value(b, n, c) {
            None => {
                assert(emotion_step(b, owners, r, which, c) == Ok::<Seq<AlterModel>, ErrorModel>(r));
                assert(emotion_step(b2, owners, alters_after(r, w, bits), which, c) == Ok::<
                    Seq<AlterModel>,
                    ErrorModel,
                >(alters_after(r, w, bits)));
            },
            Some((v, off)) => {
                match owner_before(owners, c) {
                    None => {},
                    Some(owner) => {
                        let e = EmotionModel { name: emotion_name(which), value_bits: v, value_offset: off };
                        lemma_with_emotion_after(r, owner, e, w, bits);
                    },
                }
            },
        }
        let t = cands.drop_first();
        assert forall|x: int| 0 <= x < t.len() implies 0 <= #[trigger] t[x] && record_apart(b, emotion_needle(which), t[x], w) by {
            assert(t[x] == cands[x + 1]);
        }
        match emotion_step(b, owners, r, which, c) {
            Err(_) => {},
            Ok(next) => {
                lemma_emotion_scan_after(b, b2, w, bits, owners, next, which, t);
            },
        }
    }
}

#[verifier::rlimit(30)]
proof fn lemma_radiation_scan_after(
    b: Seq<u8>,
    b2: Seq<u8>,
    w: Seq<int>,
    bits: u32,
    owners: Seq<(int, Seq<char>)>,
    r: Seq<AlterModel>,
    cands: Seq<int>,
)
    requires
        bits_written(b, b2, w, bits),
        forall|x: int|
            0 <= x < cands.len() ==> 0 <= #[trigger] cands[x] && record_apart(b, lstr_bytes(RADIATION_PATH@), cands[x], w),
    ensures
        radiation_scan(b2, owners, alters_after(r, w, bits), cands) == alters_after(
            radiation_scan(b, owners, r, cands),
            w,
            bits,
        ),
    decreases cands.len(),
{
    if cands.len() > 0 {
        let c = cands[0];
        let n = lstr_bytes(RADIATION_PATH@);
        lemma_record_value_after(b, b2, w, bits, n, c);
        match record_value(b, n, c) {
            None => {},
            Some((v, off)) => {
                match owner_before(owners, c) {
                    None => {},
                    Some(owner) => {
                        lemma_with_radiation_after(r, owner, (v, off), w, bits);
                    },
                }
            },
        }
        let t = cands.drop_first();
        assert forall|x: int| 0 <= x < t.len() implies 0 <= #[trigger] t[x] && record_apart(b, lstr_bytes(RADIATION_PATH@), t[x], w) by {
            assert(t[x] == cands[x + 1]);
        }
        lemma_radiation_scan_after(b, b2, w, bits, owners, radiation_step(b, owners, r, c), t);
    }
}

#[verifier::rlimit(30)]
proof fn lemma_emotions_from_after(
    b: Seq<u8>,
    b2: Seq<u8>,
    w: Seq<int>,
    bits: u32,
    owners: Seq<(int, Seq<char>)>,
    r: Seq<AlterModel>,
    which: int,
)
    requires
        bits_written(b, b2, w, bits),
        alters_apart(b, b2, w),
    ensures
        emotions_from(b2, owners, alters_after(r, w, bits), which) == outcome_after(
            emotions_from(b, owners, r, which),
            w,
            bits,
        ),
    decreases 8 - which,
{
    if 0 <= which < 8 {
        let n = emotion_needle(which);
        assert(alter_needle(which) == n);
        lemma_occurrences_after(b, b2, w, bits, n);
        let occ = occurrences(b, n);
        crate::search::lemma_occurrences_are_matches(b, n, 0);
        assert forall|x: int| 0 <= x < occ.len() implies 0 <= #[trigger] occ[x] && record_apart(b, n, occ[x], w) by {
            assert(occurs_at(b, alter_needle(which), occ[x]));
        }
        lemma_emotion_scan_after(b, b2, w, bits, owners, r, which, occ);
        match emotion_scan(b, owners, r, which, occ) {
            Err(_) => {},
            Ok(next) => {
                lemma_emotions_from_after(b, b2, w, bits, owners, next, which + 1);
            },
        }
    }
}

/// The alters read from `b2`, the body with the bits `bits` written at the
/// offsets `w`, are those read from `b` with the values at those offsets
/// read as `bits`, when what they are read from lies apart from the
/// fields.
#[verifier::rlimit(60)]
proof fn lemma_alters_after(b: Seq<u8>, b2: Seq<u8>, w: Seq<int>, bits: u32)
    requires
        bits_written(b, b2, w, bits),
        alters_apart(b, b2, w),
    ensures
        spec_alters(b2) == outcome_after(spec_alters(b), w, bits),
{
    let jan = JAN_INSTANCE@;
    assert forall|i: int|
        #![trigger occurs_at(b, jan, i)]
        #![trigger occurs_at(b2, jan, i)]
        occurs_at(b, jan, i) || occurs_at(b2, jan, i) implies clear(w, i, i + jan.len()) by {
        assert(clear(w, i, i + 48));
    }
    lemma_occurrences_after(b, b2, w, bits, jan);
    let cands = occurrences(b, jan);
    crate::search::lemma_occurrences_are_matches(b, jan, 0);
    assert forall|x: int| 0 <= x < cands.len() implies 0 <= #[trigger] cands[x] && cands[x] <= b.len()
        && clear(w, cands[x], cands[x] + 48) by {
        assert(occurs_at(b, jan, cands[x]));
    }
    lemma_owners_after(b, b2, w, bits, cands);
    let owners = spec_owners(b);
    assert(spec_owners(b2) == owners);
    let empty = Seq::<AlterModel>::empty();
    assert(alters_after(empty, w, bits) =~= empty);
    lemma_emotions_from_after(b, b2, w, bits, owners, empty, 0);
    match emotions_from(b, owners, empty, 0) {
        Err(_) => {},
        Ok(r) => {
            let n = lstr_bytes(RADIATION_PATH@);
            assert(alter_needle(8) == n);
            lemma_occurrences_after(b, b2, w, bits, n);
            let occ = occurrences(b, n);
            crate::search::lemma_occurrences_are_matches(b, n, 0);
            assert forall|x: int| 0 <= x < occ.len() implies 0 <= #[trigger] occ[x] && record_apart(b, n, occ[x], w) by {
                assert(occurs_at(b, alter_needle(8), occ[x]));
            }
            lemma_radiation_scan_after(b, b2, w, bits, owners, r, occ);
        },
    }
}


#[verifier::rlimit(30)]
proof fn lemma_emotion_offsets_within(es: Seq<EmotionModel>, name: Seq<char>, i: int, len: int)
    requires
        0 <= i,
        forall|j: int| 0 <= j < es.len() ==> 0 <= (#[trigger] es[j]).value_offset && es[j].value_offset + 4 <= len,
    ensures
        forall|x: int|
            0 <= x < emotion_offsets(es, name, i).len() ==> 0 <= #[trigger] emotion_offsets(es, name, i)[x]
                && emotion_offsets(es, name, i)[x] + 4 <= len,
    decreases es.len() - i,
{
    if i < es.len() {
        lemma_emotion_offsets_within(es, name, i + 1, len);
        let rest = emotion_offsets(es, name, i + 1);
        let all = emotion_offsets(es, name, i);
        if es[i].name == name {
            assert forall|x: int| 0 <= x < all.len() implies 0 <= #[trigger] all[x] && all[x] + 4 <= len by {
                if x > 0 {
                    assert(all[x] == rest[x - 1]);
                }
            }
        }
    }
}

/// Setting an emotion of an alter and reading the alters of the result
/// again gives the old alters with every emotion or radiation value stored
/// at a written offset (each record of that emotion on that alter) read as
/// the written bits; names, order and offsets stay.
///
/// This holds when the written fields are pairwise equal or apart and what
/// the alters are read from lies apart from them ([`alters_apart`]): no
/// instance name or class path overlaps a field before or after the write,
/// and every record is read apart from the fields but for its own value.
#[verifier::rlimit(60)]
pub proof fn lemma_set_emotion_reads_back(body: Seq<u8>, k: int, emotion: Seq<char>, bits: u32)
    requires
        spec_alters(body) is Ok,
        0 <= k < spec_alters(body)->Ok_0.len(),
        ({
            let a = spec_alters(body)->Ok_0[k];
            let w = emotion_offsets(a.emotions, emotion, 0);
            let after = spec_set_emotions(body, a.emotions, emotion, bits, 0).0;
            &&& offsets_apart(w)
            &&& alters_apart(body, after, w)
        }),
    ensures
        ({
            let a = spec_alters(body)->Ok_0[k];
            let w = emotion_offsets(a.emotions, emotion, 0);
            let (after, outcome) = spec_set_emotions(body, a.emotions, emotion, bits, 0);
            &&& outcome is Ok
            &&& spec_alters(after) == Ok::<Seq<AlterModel>, ErrorModel>(
                alters_after(spec_alters(body)->Ok_0, w, bits),
            )
        }),
{
    let r = spec_alters(body)->Ok_0;
    let a = r[k];
    let w = emotion_offsets(a.emotions, emotion, 0);
    crate::edit_laws::lemma_alters_within(body);
    assert forall|j: int| 0 <= j < a.emotions.len() implies 0 <= (#[trigger] a.emotions[j]).value_offset
        && a.emotions[j].value_offset + 4 <= body.len() by {
        assert(r[k].emotions[j] == a.emotions[j]);
    }
    lemma_set_emotions_all(body, a.emotions, emotion, bits, 0);
    lemma_emotion_offsets_within(a.emotions, emotion, 0, body.len() as int);
    lemma_write_all(body, w, bits);
    lemma_alters_after(body, write_all(body, w, bits), w, bits);
}

/// Setting the radiation of an alter and reading the alters of the result
/// again gives the old alters with every emotion or radiation value stored
/// at a written offset (each radiation field of that alter) read as the
/// written bits; names, order and offsets stay.
///
/// This holds under the same conditions as
/// [`lemma_set_emotion_reads_back`].
#[verifier::rlimit(60)]
pub proof fn lemma_set_radiation_reads_back(body: Seq<u8>, k: int, bits: u32)
    requires
        spec_alters(body) is Ok,
        0 <= k < spec_alters(body)->Ok_0.len(),
        ({
            let a = spec_alters(body)->Ok_0[k];
            let w = radiation_offsets(a.radiation);
            let after = spec_set_radiation(body, a.radiation, bits, 0).0;
            &&& offsets_apart(w)
            &&& alters_apart(body, after, w)
        }),
    ensures
        ({
            let a = spec_alters(body)->Ok_0[k];
            let w = radiation_offsets(a.radiation);
            let (after, outcome) = spec_set_radiation(body, a.radiation, bits, 0);
            &&& outcome is Ok
            &&& spec_alters(after) == Ok::<Seq<AlterModel>, ErrorModel>(
                alters_after(spec_alters(body)->Ok_0, w, bits),
            )
        }),
{
    let r = spec_alters(body)->Ok_0;
    let a = r[k];
    let w = radiation_offsets(a.radiation);
    crate::edit_laws::lemma_alters_within(body);
    assert forall|j: int| 0 <= j < a.radiation.len() implies 0 <= (#[trigger] a.radiation[j]).1
        && a.radiation[j].1 + 4 <= body.len() by {
        assert(r[k].radiation[j] == a.radiation[j]);
    }
    lemma_set_radiation_all(body, a.radiation, bits, 0);
    assert(radiation_offsets(a.radiation).subrange(0, a.radiation.len() as int) =~= w);
    lemma_write_all(body, w, bits);
    lemma_alters_after(body, write_all(body, w, bits), w, bits);
}

/// Owners listed in increasing position.
pub open spec fn owners_increasing(owners: Seq<(int, Seq<char>)>) -> bool {
    forall|a: int, b: int| 0 <= a < b < owners.len() ==> owners[a].0 < owners[b].0
}

/// A record at `position` belongs to the nearest owner before it: among
/// owners listed in increasing position, the last one that starts before
/// `position`; to none when no owner starts before it.
#[verifier::rlimit(30)]
pub proof fn lemma_owner_is_nearest_before(owners: Seq<(int, Seq<char>)>, position: int)
    requires
        owners_increasing(owners),
    ensures
        owners.len() == 0 || owners[0].0 >= position ==> owner_before(owners, position) is None,
        forall|k: int|
            0 <= k < owners.len() && owners[k].0 < position && (k + 1 == owners.len() || owners[k
                + 1].0 >= position) ==> owner_before(owners, position) == Some(#[trigger] owners[k].1),
    decreases owners.len(),
{
    if owners.len() > 0 {
        let t = owners.drop_first();
        assert(owners_increasing(t)) by {
            assert forall|a: int, b: int| 0 <= a < b < t.len() implies t[a].0 < t[b].0 by {
                assert(t[a] == owners[a + 1] && t[b] == owners[b + 1]);
            }
        }
        lemma_owner_is_nearest_before(t, position);
        assert forall|k: int|
            0 <= k < owners.len() && owners[k].0 < position && (k + 1 == owners.len() || owners[k
                + 1].0 >= position) implies owner_before(owners, position) == Some(#[trigger] owners[k].1) by {
            if k == 0 {
                if t.len() > 0 {
                    assert(t[0] == owners[1]);
                }
            } else {
                assert(t[k - 1] == owners[k]);
                if k < t.len() {
                    assert(t[k] == owners[k + 1]);
                }
                assert(owners[0].0 < owners[k].0);
            }
        }
    }
}

/// The owners found in a body are listed in increasing position.
pub proof fn lemma_owners_increasing(body: Seq<u8>)
    ensures
        owners_increasing(spec_owners(body)),
{
    let occ = occurrences(body, JAN_INSTANCE@);
    crate::items::lemma_occurrences_increasing(body, JAN_INSTANCE@, 0);
    lemma_owners_among_increasing(body, occ);
}

proof fn lemma_owners_among_increasing(body: Seq<u8>, cands: Seq<int>)
    requires
        forall|a: int, b: int| 0 <= a < b < cands.len() ==> cands[a] < cands[b],
    ensures
        owners_increasing(owners_among(body, cands)),
        forall|x: int|
            0 <= x < owners_among(body, cands).len() ==> exists|y: int|
                0 <= y < cands.len() && cands[y] == (#[trigger] owners_among(body, cands)[x]).0,
    decreases cands.len(),
{
    if cands.len() > 0 {
        let t = cands.drop_first();
        assert forall|a: int, b: int| 0 <= a < b < t.len() implies t[a] < t[b] by {
            assert(t[a] == cands[a + 1] && t[b] == cands[b + 1]);
        }
        lemma_owners_among_increasing(body, t);
        let rest = owners_among(body, t);
        let all = owners_among(body, cands);
        assert forall|x: int| 0 <= x < rest.len() implies cands[0] < (#[trigger] rest[x]).0 by {
            let y = choose|y: int| 0 <= y < t.len() && t[y] == rest[x].0;
            assert(t[y] == cands[y + 1]);
        }
        match owner_name_at(body, cands[0]) {
            Some(name) => {
                assert(all == seq![(cands[0], name)] + rest);
                assert forall|a: int, b: int| 0 <= a < b < all.len() implies all[a].0 < all[b].0 by {
                    assert(all[b] == rest[b - 1]);
                    if a > 0 {
                        assert(all[a] == rest[a - 1]);
                    }
                }
                assert forall|x: int| 0 <= x < all.len() implies exists|y: int|
                    0 <= y < cands.len() && cands[y] == (#[trigger] all[x]).0 by {
                    if x == 0 {
                        assert(cands[0] == all[0].0);
                    } else {
                        assert(all[x] == rest[x - 1]);
                        let y = choose|y: int| 0 <= y < t.len() && t[y] == rest[x - 1].0;
                        assert(cands[y + 1] == all[x].0);
                    }
                }
            },
            None => {
                assert forall|x: int| 0 <= x < all.len() implies exists|y: int|
                    0 <= y < cands.len() && cands[y] == (#[trigger] all[x]).0 by {
                    let y = choose|y: int| 0 <= y < t.len() && t[y] == rest[x].0;
                    assert(cands[y + 1] == all[x].0);
                }
            },
        }
    }
}

/// Display-name bytes (ASCII letters and spaces) decode to as many
/// characters, at least one when there is a byte.
proof fn lemma_display_bytes_decode(b: Seq<u8>)
    requires
        forall|i: int| 0 <= i < b.len() ==> !stops(#[trigger] b[i], Stop::NotDisplayNameByte),
    ensures
        b.len() > 0 ==> lossy_decode(b).len() > 0,
{
    if b.len() > 0 {
        assert(partial_valid_utf8(b, 0)) by {
            assert(b.subrange(0, 0) =~= Seq::<u8>::empty());
        }
        assert forall|i: int| 0 <= 0 <= i < b.len() <= b.len() implies #[trigger] is_leading_byte_width_1(b[i]) by {
            assert(!stops(b[i], Stop::NotDisplayNameByte));
        }
        partial_valid_utf8_extend_ascii_block(b, 0, b.len() as int);
        assert(b.subrange(0, b.len() as int) =~= b);
        assert(valid_utf8(b));
        assert(decode_utf8(b).len() > 0);
    }
}

/// A candidate where the region holds the `J` of `Jan ` gives one name.
proof fn lemma_display_name_at(region: Seq<u8>, c: int)
    requires
        0 <= c < region.len(),
        region[c] == 0x4a,
    ensures
        ({
            let to = if c + 36 < region.len() {
                c + 36
            } else {
                region.len() as int
            };
            let tail = region.subrange(c, to);
            let end = match spec_first_stop(tail, Stop::NotDisplayNameByte) {
                Some(e) => e,
                None => tail.len() as int,
            };
            lossy_decode(tail.subrange(0, end)).len() > 0
        }),
{
    let to = if c + 36 < region.len() {
        c + 36
    } else {
        region.len() as int
    };
    let tail = region.subrange(c, to);
    assert(tail[0] == 0x4a);
    reveal(spec_first_stop);
    let end = match spec_first_stop(tail, Stop::NotDisplayNameByte) {
        Some(e) => e,
        None => tail.len() as int,
    };
    match spec_first_stop(tail, Stop::NotDisplayNameByte) {
        Some(e) => {
            crate::bytes::lemma_first_stop_some(tail, Stop::NotDisplayNameByte);
            assert(e != 0);
        },
        None => {},
    }
    let name = tail.subrange(0, end);
    assert forall|i: int| 0 <= i < name.len() implies !stops(#[trigger] name[i], Stop::NotDisplayNameByte) by {
        assert(name[i] == tail[i]);
    }
    lemma_display_bytes_decode(name);
}

/// Every candidate where the region holds the `J` of a `Jan ` display name
/// gives exactly one name, in order: as many names as candidates.
pub proof fn lemma_display_names_one_each(region: Seq<u8>, cands: Seq<int>)
    requires
        forall|x: int| 0 <= x < cands.len() ==> 0 <= #[trigger] cands[x] < region.len() && region[cands[x]] == 0x4a,
    ensures
        display_names(region, cands).len() == cands.len(),
    decreases cands.len(),
{
    if cands.len() > 0 {
        let t = cands.drop_first();
        assert forall|x: int| 0 <= x < t.len() implies 0 <= #[trigger] t[x] < region.len() && region[t[x]] == 0x4a by {
            assert(t[x] == cands[x + 1]);
        }
        lemma_display_names_one_each(region, t);
        lemma_display_name_at(region, cands[0]);
    }
}

/// The dead alters are one name per `Jan ` occurrence in the `DeadAlters`
/// payload: as many names as occurrences.
pub proof fn lemma_dead_alters_one_per_occurrence(region: Seq<u8>)
    ensures
        display_names(region, occurrences(region, JAN_DISPLAY@)).len() == occurrences(
            region,
            JAN_DISPLAY@,
        ).len(),
{
    let occ = occurrences(region, JAN_DISPLAY@);
    crate::search::lemma_occurrences_are_matches(region, JAN_DISPLAY@, 0);
    assert forall|x: int| 0 <= x < occ.len() implies 0 <= #[trigger] occ[x] < region.len() && region[occ[x]] == 0x4a by {
        assert(region.subrange(occ[x], occ[x] + 4)[0] == region[occ[x]]);
        assert(JAN_DISPLAY@[0] == 0x4a);
    }
    lemma_display_names_one_each(region, occ);
}

} // verus!
