//! What rebuilding a save guarantees about parsing it again.
use vstd::prelude::*;

use crate::bytes::{
    i32_le_bytes, lemma_i32_roundtrip, lemma_u64_roundtrip, spec_read_i32, spec_read_u64,
    spec_write_i32, u32_le, u64_le, u64_le_bytes,
};
use crate::error::ErrorModel;
use crate::sav::{
    blocks_roundtrip, chunk_bytes, first_block_len, frame_wf, rebuild_fits, spec_chunk_header,
    spec_chunk_start, spec_chunks, spec_eof_fields, spec_parse, spec_payload, spec_rebuild,
    spec_version_at, unpatched_file, zlib_deflate, SaveFrame, CHUNK_BLOCK, CHUNK_TAG,
};

verus! {

proof fn lemma_u64_at(b: Seq<u8>, o: int, v: int)
    requires
        0 <= o,
        o + 8 <= b.len(),
        0 <= v < 0x1_0000_0000_0000_0000,
        b.subrange(o, o + 8) == u64_le_bytes(v),
    ensures
        spec_read_u64(b, o) == Some(v),
{
    lemma_u64_roundtrip(v);
    let w = u64_le_bytes(v);
    assert(forall|k: int| 0 <= k < 8 ==> b[o + k] == #[trigger] w[k]) by {
        assert forall|k: int| 0 <= k < 8 implies b[o + k] == #[trigger] w[k] by {
            assert(b.subrange(o, o + 8)[k] == b[o + k]);
        }
    }
    reveal(u64_le);
    reveal(u32_le);
    assert(b[o] == w[0] && b[o + 1] == w[1] && b[o + 2] == w[2] && b[o + 3] == w[3]);
    assert(b[o + 4] == w[4] && b[o + 5] == w[5] && b[o + 6] == w[6] && b[o + 7] == w[7]);
}

proof fn lemma_i32_at(b: Seq<u8>, o: int, v: int)
    requires
        0 <= o,
        o + 4 <= b.len(),
        -0x8000_0000 <= v < 0x8000_0000,
        b.subrange(o, o + 4) == i32_le_bytes(v),
    ensures
        spec_read_i32(b, o) == Some(v),
{
    lemma_i32_roundtrip(v);
    let w = i32_le_bytes(v);
    assert forall|k: int| 0 <= k < 4 implies b[o + k] == #[trigger] w[k] by {
        assert(b.subrange(o, o + 4)[k] == b[o + k]);
    }
    reveal(u32_le);
    assert(b[o] == w[0] && b[o + 1] == w[1] && b[o + 2] == w[2] && b[o + 3] == w[3]);
}

proof fn lemma_header_of_chunk(b: Seq<u8>, o: int, comp: Seq<u8>, n: int)
    requires
        0 <= o,
        0 < n <= CHUNK_BLOCK,
        o + 49 + comp.len() <= b.len(),
        b.len() <= usize::MAX,
        b.subrange(o, o + 49 + comp.len()) == chunk_bytes(comp, n),
    ensures
        spec_chunk_header(b, o) == Ok::<(u8, int, int), Seq<char>>((3u8, comp.len() as int, n)),
        b.subrange(o + 49, o + 49 + comp.len()) == comp,
{
    let c = chunk_bytes(comp, n);
    let clen = comp.len() as int;
    lemma_u64_roundtrip(CHUNK_TAG as int);
    lemma_u64_roundtrip(CHUNK_BLOCK as int);
    lemma_u64_roundtrip(clen);
    lemma_u64_roundtrip(n);
    assert(c.subrange(0, 8) =~= u64_le_bytes(CHUNK_TAG as int));
    assert(c.subrange(8, 16) =~= u64_le_bytes(CHUNK_BLOCK as int));
    assert(c[16] == 3u8);
    assert(c.subrange(17, 25) =~= u64_le_bytes(clen));
    assert(c.subrange(25, 33) =~= u64_le_bytes(n));
    assert(c.subrange(33, 41) =~= u64_le_bytes(clen));
    assert(c.subrange(41, 49) =~= u64_le_bytes(n));
    assert(c.subrange(49, 49 + clen) =~= comp);
    assert(b.subrange(o, o + 8) =~= c.subrange(0, 8));
    assert(b.subrange(o + 8, o + 16) =~= c.subrange(8, 16));
    assert(b[o + 16] == c[16]);
    assert(b.subrange(o + 17, o + 25) =~= c.subrange(17, 25));
    assert(b.subrange(o + 25, o + 33) =~= c.subrange(25, 33));
    assert(b.subrange(o + 33, o + 41) =~= c.subrange(33, 41));
    assert(b.subrange(o + 41, o + 49) =~= c.subrange(41, 49));
    assert(b.subrange(o + 49, o + 49 + clen) =~= c.subrange(49, 49 + clen));
    reveal(spec_chunk_header);
    lemma_u64_at(b, o, CHUNK_TAG as int);
    lemma_u64_at(b, o + 8, CHUNK_BLOCK as int);
    lemma_u64_at(b, o + 17, clen);
    lemma_u64_at(b, o + 25, n);
    lemma_u64_at(b, o + 33, clen);
    lemma_u64_at(b, o + 41, n);
}

/// Parsing chunk by chunk from `o` gives back `body` when the bytes from
/// `o` on are the chunk stream built for `body`.
proof fn lemma_chunks_of_payload(b: Seq<u8>, o: int, body: Seq<u8>)
    requires
        0 <= o <= b.len(),
        b.len() <= usize::MAX,
        b.subrange(o, b.len() as int) == spec_payload(body),
        blocks_roundtrip(body),
    ensures
        spec_chunks(b, o) == Ok::<Seq<u8>, ErrorModel>(body),
    decreases body.len(),
{
    if body.len() == 0 {
        assert(b.subrange(o, b.len() as int).len() == 0);
        assert(body =~= Seq::<u8>::empty());
    } else {
        let n = first_block_len(body.len() as int);
        let block = body.subrange(0, n);
        let rest = body.subrange(n, body.len() as int);
        let comp = zlib_deflate(block);
        let c = chunk_bytes(comp, n);
        assert(c.len() == 49 + comp.len());
        assert(spec_payload(body) == c + spec_payload(rest));
        let end = o + c.len();
        assert(end <= b.len());
        assert(b.subrange(o, end) =~= spec_payload(body).subrange(0, c.len() as int));
        assert(spec_payload(body).subrange(0, c.len() as int) =~= c);
        lemma_header_of_chunk(b, o, comp, n);
        assert(b.subrange(end, b.len() as int) =~= spec_payload(body).subrange(
            c.len() as int,
            spec_payload(body).len() as int,
        ));
        assert(spec_payload(body).subrange(c.len() as int, spec_payload(body).len() as int)
            =~= spec_payload(rest));
        lemma_chunks_of_payload(b, end, rest);
        assert(block + rest =~= body);
    }
}

/// The two byte sequences agree everywhere except possibly in the four
/// bytes of each size field.
pub open spec fn equal_outside_fields(a: Seq<u8>, b: Seq<u8>, fields: (usize, usize)) -> bool {
    &&& a.len() == b.len()
    &&& forall|i: int|
        0 <= i < a.len() && !(fields.0 <= i < fields.0 + 4) && !(fields.1 <= i < fields.1 + 4)
            ==> a[i] == b[i]
}

/// Rebuilding writes both size fields as "bytes from just after the field
/// to the end of the file", and changes nothing else of the prefix.
pub proof fn lemma_rebuild_fields_eof_relative(frame: SaveFrame, body: Seq<u8>)
    requires
        frame_wf(frame),
        rebuild_fits(frame, body),
        frame.fields.0 + 4 <= frame.fields.1,
    ensures
        ({
            let out = spec_rebuild(frame, body);
            let f0 = frame.fields.0 as int;
            let f1 = frame.fields.1 as int;
            &&& out.len() == frame.prefix.len() + spec_payload(body).len()
            &&& spec_read_i32(out, f0) == Some(out.len() - f0 - 4)
            &&& spec_read_i32(out, f1) == Some(out.len() - f1 - 4)
            &&& equal_outside_fields(
                out.subrange(0, frame.prefix.len() as int),
                frame.prefix,
                frame.fields,
            )
            &&& out.subrange(frame.prefix.len() as int, out.len() as int) == spec_payload(body)
        }),
{
    let u = unpatched_file(frame, body);
    let f0 = frame.fields.0 as int;
    let f1 = frame.fields.1 as int;
    let v0 = u.len() - f0 - 4;
    let v1 = u.len() - f1 - 4;
    lemma_i32_roundtrip(v0);
    lemma_i32_roundtrip(v1);
    let m = spec_write_i32(u, f0, v0);
    let out = spec_write_i32(m, f1, v1);
    assert(m.len() == u.len());
    assert(out.len() == u.len());
    assert(out.subrange(f1, f1 + 4) =~= i32_le_bytes(v1));
    assert(out.subrange(f0, f0 + 4) =~= i32_le_bytes(v0));
    lemma_i32_at(out, f0, v0);
    lemma_i32_at(out, f1, v1);
    let plen = frame.prefix.len() as int;
    assert forall|i: int|
        0 <= i < plen && !(f0 <= i < f0 + 4) && !(f1 <= i < f1 + 4) implies out.subrange(
        0,
        plen,
    )[i] == frame.prefix[i] by {
        assert(out[i] == m[i]);
        assert(m[i] == u[i]);
    }
    assert(out.subrange(plen, out.len() as int) =~= spec_payload(body)) by {
        assert forall|i: int| 0 <= i < spec_payload(body).len() implies out.subrange(
            plen,
            out.len() as int,
        )[i] == spec_payload(body)[i] by {
            assert(out[plen + i] == m[plen + i]);
            assert(m[plen + i] == u[plen + i]);
        }
    }
}

/// Rebuilding a save and parsing the result gives back the same body, the
/// same size-field offsets and the same archive version, with a prefix that
/// differs from the old one only inside the two size fields.
///
/// This holds whenever the rebuilt file's framing is found where it was
/// written: its chunk stream is detected right after the prefix, and the
/// prefix's size fields are detected at the same offsets (which can fail,
/// for instance, when the new compressed payload is shorter than 1000
/// bytes, the smallest value a size field may hold).
pub proof fn lemma_rebuild_parses_back(frame: SaveFrame, body: Seq<u8>)
    requires
        frame_wf(frame),
        rebuild_fits(frame, body),
        unpatched_file(frame, body).len() <= usize::MAX,
        blocks_roundtrip(body),
        frame.fields.0 + 12 <= frame.fields.1,
        frame.version == spec_version_at(frame.prefix, frame.fields.0 as int),
        spec_chunk_start(spec_rebuild(frame, body)) == Some(frame.prefix.len() as int),
        spec_eof_fields(
            spec_rebuild(frame, body).subrange(0, frame.prefix.len() as int),
            spec_rebuild(frame, body).len() as int,
        ) == Ok::<(usize, usize), ErrorModel>(frame.fields),
    ensures
        ({
            let out = spec_rebuild(frame, body);
            let new_prefix = out.subrange(0, frame.prefix.len() as int);
            &&& spec_parse(out) == Ok::<(SaveFrame, Seq<u8>), ErrorModel>(
                (SaveFrame { prefix: new_prefix, fields: frame.fields, version: frame.version }, body),
            )
            &&& equal_outside_fields(new_prefix, frame.prefix, frame.fields)
        }),
{
    lemma_rebuild_fields_eof_relative(frame, body);
    let out = spec_rebuild(frame, body);
    let plen = frame.prefix.len() as int;
    let new_prefix = out.subrange(0, plen);
    let f0 = frame.fields.0 as int;
    assert(out.len() <= usize::MAX);
    lemma_chunks_of_payload(out, plen, body);
    assert(spec_read_i32(new_prefix, f0 + 4) == spec_read_i32(frame.prefix, f0 + 4)) by {
        reveal(u32_le);
        assert(new_prefix[f0 + 4] == frame.prefix[f0 + 4]);
        assert(new_prefix[f0 + 5] == frame.prefix[f0 + 5]);
        assert(new_prefix[f0 + 6] == frame.prefix[f0 + 6]);
        assert(new_prefix[f0 + 7] == frame.prefix[f0 + 7]);
    }
}

} // verus!
