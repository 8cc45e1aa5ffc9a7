//! The pack codec: the binary pack reader and writer, with per-object
//! variable-length type+size headers, zlib-compressed payloads, delta
//! instruction streams, and the whole-pack SHA-1 trailer.

use vstd::prelude::*;
use crate::{GitError, GitObject, GitObjectV, ObjectType, PackEntry, PackEntryV, spec_type_code};
use crate::digest::{sha1_of, sha1_digest, hex_encode};
use crate::encoding::{spec_be32, spec_read_be32, push_be32, read_be32, spec_hex_encode, lemma_be32_round_trip};
use crate::zlib::{deflate_of, inflate_prefix, zlib_compress, zlib_decompress_prefix};

verus! {

/// A little-endian base-128 rendering of `n`: seven value bits per byte,
/// the high bit of each byte flagging a following byte.
pub open spec fn spec_varint7(n: nat) -> Seq<u8>
    decreases n,
{
    if n < 128 {
        seq![n as u8]
    } else {
        seq![(128 + n % 128) as u8] + spec_varint7(n / 128)
    }
}

/// Reads a little-endian base-128 number at `pos`; `None` on a truncated
/// encoding.  The value is unbounded.
pub open spec fn spec_read_varint7(data: Seq<u8>, pos: int) -> Option<(nat, int)>
    decreases data.len() - pos,
{
    if pos < 0 || pos >= data.len() {
        None
    } else {
        let b = data[pos];
        if b < 128 {
            Some((b as nat, pos + 1))
        } else {
            match spec_read_varint7(data, pos + 1) {
                None => None,
                Some((v, p)) => Some(((b - 128) as nat + 128 * v, p)),
            }
        }
    }
}

/// Reading a rendered number out of any surrounding buffer gives the
/// number back and stops right after it.
pub proof fn lemma_varint7_round_trip(data: Seq<u8>, pos: int, n: nat)
    requires
        0 <= pos,
        pos + spec_varint7(n).len() <= data.len(),
        data.subrange(pos, pos + spec_varint7(n).len() as int) == spec_varint7(n),
    ensures
        spec_read_varint7(data, pos) == Some((n, pos + spec_varint7(n).len() as int)),
    decreases n,
{
    let enc = spec_varint7(n);
    assert(data[pos] == enc[0]);
    if n < 128 {
    } else {
        let rest = spec_varint7(n / 128);
        assert(enc == seq![(128 + n % 128) as u8] + rest);
        assert(data.subrange(pos + 1, pos + 1 + rest.len() as int) =~= rest) by {
            assert(forall|i: int|
                0 <= i < rest.len() ==> data.subrange(
                    pos,
                    pos + enc.len() as int,
                )[i + 1] == #[trigger] rest[i]);
        }
        lemma_varint7_round_trip(data, pos + 1, n / 128);
        assert(data[pos] == (128 + n % 128) as u8);
        assert((data[pos] - 128) as nat + 128 * (n / 128) == n);
    }
}

/// Reads a little-endian base-128 number, or `None` on a truncated
/// encoding or a value beyond `u64`.
pub fn read_varint7_at(data: &[u8], pos: usize) -> (r: Option<(u64, usize)>)
    ensures
        r matches Some(p) ==> spec_read_varint7(data@, pos as int) == Some(
            (p.0 as nat, p.1 as int),
        ) && pos < p.1 <= data@.len(),
        r is None ==> (spec_read_varint7(data@, pos as int) is None || spec_read_varint7(
            data@,
            pos as int,
        ).unwrap().0 > u64::MAX as nat),
    decreases data@.len() - pos,
{
    if pos >= data.len() {
        return None;
    }
    let b = data[pos];
    if b < 128 {
        Some((b as u64, pos + 1))
    } else {
        match read_varint7_at(data, pos + 1) {
            None => None,
            Some((v, p)) => {
                let low = (b - 128) as u64;
                if v > (u64::MAX - low) / 128 {
                    proof {
                        assert(low + 128 * v > u64::MAX) by (nonlinear_arith)
                            requires
                                v > (u64::MAX - low) / 128,
                                low <= 127,
                        ;
                    }
                    None
                } else {
                    proof {
                        assert(low + 128 * v <= u64::MAX) by (nonlinear_arith)
                            requires
                                v <= (u64::MAX - low) / 128,
                                low <= 127,
                        ;
                    }
                    Some((low + 128 * v, p))
                }
            },
        }
    }
}

/// Appends the little-endian base-128 rendering of `n` to `out`.
pub fn push_varint7(out: &mut Vec<u8>, n: u64)
    ensures
        final(out)@ == old(out)@ + spec_varint7(n as nat),
    decreases n,
{
    if n < 128 {
        out.push(n as u8);
        assert(out@ =~= old(out)@ + spec_varint7(n as nat));
    } else {
        out.push(128 + (n % 128) as u8);
        push_varint7(out, n / 128);
        assert(out@ =~= old(out)@ + spec_varint7(n as nat));
    }
}

/// The pack entry header for type id `t` and payload size `size`: the
/// first byte carries the type in bits 4..6 and the low four size bits,
/// its high bit flagging base-128 continuation bytes for the rest of the
/// size.
pub open spec fn spec_type_size_header(t: u8, size: nat) -> Seq<u8>
    recommends
        t < 8,
{
    if size < 16 {
        seq![(t * 16 + size) as u8]
    } else {
        seq![(128 + t * 16 + size % 16) as u8] + spec_varint7(size / 16)
    }
}

/// Reads a pack entry header at `pos`: the type id, the payload size
/// (unbounded), and the position after the header.
pub open spec fn spec_read_type_size(data: Seq<u8>, pos: int) -> Option<(u8, nat, int)> {
    if pos < 0 || pos >= data.len() {
        None
    } else {
        let b = data[pos];
        let t = ((b as int / 16) % 8) as u8;
        let low = (b as int % 16) as nat;
        if b < 128 {
            Some((t, low, pos + 1))
        } else {
            match spec_read_varint7(data, pos + 1) {
                None => None,
                Some((v, p)) => Some((t, low + 16 * v, p)),
            }
        }
    }
}

/// Header symmetry: decoding an encoded type and size out of any
/// surrounding buffer recovers exactly the type and size that were
/// written, for every type id below 8 and every size.
pub proof fn lemma_type_size_round_trip(data: Seq<u8>, pos: int, t: u8, size: nat)
    requires
        t < 8,
        0 <= pos,
        pos + spec_type_size_header(t, size).len() <= data.len(),
        data.subrange(pos, pos + spec_type_size_header(t, size).len() as int)
            == spec_type_size_header(t, size),
    ensures
        spec_read_type_size(data, pos) == Some(
            (t, size, pos + spec_type_size_header(t, size).len() as int),
        ),
{
    let enc = spec_type_size_header(t, size);
    assert(data[pos] == enc[0]);
    if size < 16 {
        let b = (t * 16 + size) as u8;
        assert(b < 128);
        assert((b as int / 16) % 8 == t && b as int % 16 == size) by (nonlinear_arith)
            requires
                t < 8,
                size < 16,
                b == t * 16 + size,
        ;
    } else {
        let b = (128 + t * 16 + size % 16) as u8;
        assert(b >= 128);
        assert((b as int / 16) % 8 == t && b as int % 16 == size % 16) by (nonlinear_arith)
            requires
                t < 8,
                b == 128 + t * 16 + size % 16,
        ;
        let rest = spec_varint7(size / 16);
        assert(enc == seq![b] + rest);
        assert(data.subrange(pos + 1, pos + 1 + rest.len() as int) =~= rest) by {
            assert(forall|i: int|
                0 <= i < rest.len() ==> data.subrange(
                    pos,
                    pos + enc.len() as int,
                )[i + 1] == #[trigger] rest[i]);
        }
        lemma_varint7_round_trip(data, pos + 1, size / 16);
        assert((size % 16) + 16 * (size / 16) == size);
    }
}

/// Continues a backward base-128 offset whose bytes seen so far amount to
/// `acc`: each further byte folds in as `(acc + 1) * 128 + low7`.
pub open spec fn spec_read_offset_rec(data: Seq<u8>, pos: int, acc: nat) -> Option<(nat, int)>
    decreases data.len() - pos,
{
    if pos < 0 || pos >= data.len() {
        None
    } else {
        let b = data[pos];
        let acc2 = (acc + 1) * 128 + (b % 128) as nat;
        if b < 128 {
            Some((acc2, pos + 1))
        } else {
            spec_read_offset_rec(data, pos + 1, acc2)
        }
    }
}

/// Reads the backward byte offset that follows an OFS_DELTA header.
pub open spec fn spec_read_offset(data: Seq<u8>, pos: int) -> Option<(nat, int)> {
    if pos < 0 || pos >= data.len() {
        None
    } else {
        let b = data[pos];
        if b < 128 {
            Some(((b % 128) as nat, pos + 1))
        } else {
            spec_read_offset_rec(data, pos + 1, (b % 128) as nat)
        }
    }
}

/// The folded offset only grows as more continuation bytes arrive.
proof fn lemma_offset_rec_grows(data: Seq<u8>, pos: int, acc: nat)
    ensures
        spec_read_offset_rec(data, pos, acc) matches Some(p) ==> p.0 > acc && pos < p.1
            <= data.len(),
    decreases data.len() - pos,
{
    if 0 <= pos < data.len() {
        let b = data[pos];
        let low = (b % 128) as nat;
        let acc2 = (acc + 1) * 128 + low;
        assert((acc + 1) * 128 + low > acc) by (nonlinear_arith);
        if b >= 128 {
            lemma_offset_rec_grows(data, pos + 1, acc2);
        }
    }
}

/// Continues reading a backward offset, with `acc` already folded in.
fn read_offset_rec(data: &[u8], pos: usize, acc: u64) -> (r: Option<(u64, usize)>)
    ensures
        r matches Some(p) ==> spec_read_offset_rec(data@, pos as int, acc as nat) == Some(
            (p.0 as nat, p.1 as int),
        ) && pos < p.1 <= data@.len(),
        r is None ==> (spec_read_offset_rec(data@, pos as int, acc as nat) is None
            || spec_read_offset_rec(data@, pos as int, acc as nat).unwrap().0 > u64::MAX as nat),
    decreases data@.len() - pos,
{
    if pos >= data.len() {
        return None;
    }
    let b = data[pos];
    let low = (b % 128) as u64;
    if acc > (u64::MAX - 128 - low) / 128 {
        proof {
            assert((acc + 1) * 128 + low > u64::MAX) by (nonlinear_arith)
                requires
                    acc > (u64::MAX - 128 - low) / 128,
                    low <= 127,
            ;
            lemma_offset_rec_grows(data@, pos as int + 1, ((acc + 1) * 128 + low) as nat);
        }
        return None;
    }
    proof {
        assert((acc + 1) * 128 + low <= u64::MAX) by (nonlinear_arith)
            requires
                acc <= (u64::MAX - 128 - low) / 128,
                low <= 127,
        ;
    }
    let acc2 = (acc + 1) * 128 + low;
    if b < 128 {
        Some((acc2, pos + 1))
    } else {
        read_offset_rec(data, pos + 1, acc2)
    }
}

/// The object kind a pack type id denotes, if any; ids 6 and 7 are the
/// delta encodings and have no kind of their own.
pub open spec fn spec_object_type_of(id: u8) -> Option<ObjectType> {
    if id == 1 {
        Some(ObjectType::Commit)
    } else if id == 2 {
        Some(ObjectType::Tree)
    } else if id == 3 {
        Some(ObjectType::Blob)
    } else if id == 4 {
        Some(ObjectType::Tag)
    } else {
        None
    }
}

/// Reads one pack entry at `pos`: its header, any delta preamble, and its
/// zlib payload, which must decompress to exactly the declared size.
/// Delta entries keep the decoded delta stream as their data and stand as
/// blobs until resolved against their base.
pub open spec fn spec_parse_entry(data: Seq<u8>, pos: int) -> Result<(PackEntryV, int), GitError> {
    match spec_read_type_size(data, pos) {
        None => Err(GitError::Format),
        Some((t, size, p)) => {
            if size > usize::MAX as nat {
                Err(GitError::Format)
            } else if t == 6 {
                match spec_read_offset(data, p) {
                    None => Err(GitError::Format),
                    Some((off, p2)) => {
                        if off > u64::MAX as nat {
                            Err(GitError::Format)
                        } else {
                            spec_parse_payload(data, p2, ObjectType::Blob, size)
                        }
                    },
                }
            } else if t == 7 {
                if p + 20 > data.len() {
                    Err(GitError::Format)
                } else {
                    spec_parse_payload(data, p + 20, ObjectType::Blob, size)
                }
            } else {
                match spec_object_type_of(t) {
                    None => Err(GitError::UnknownType),
                    Some(ot) => spec_parse_payload(data, p, ot, size),
                }
            }
        },
    }
}

/// Decompresses an entry payload starting at `pos` and checks it against
/// the declared size.
pub open spec fn spec_parse_payload(data: Seq<u8>, pos: int, ot: ObjectType, size: nat) -> Result<
    (PackEntryV, int),
    GitError,
> {
    match inflate_prefix(data.skip(pos)) {
        None => Err(GitError::Format),
        Some((payload, used)) => {
            if payload.len() == size {
                Ok((PackEntryV { object_type: ot, size, data: payload }, pos + used))
            } else {
                Err(GitError::Format)
            }
        },
    }
}

/// Reads `n` consecutive entries starting at `pos`.
pub open spec fn spec_parse_entries(data: Seq<u8>, pos: int, n: nat) -> Result<
    Seq<PackEntryV>,
    GitError,
>
    decreases n,
{
    if n == 0 {
        Ok(seq![])
    } else {
        match spec_parse_entry(data, pos) {
            Err(e) => Err(e),
            Ok((e, p)) => match spec_parse_entries(data, p, (n - 1) as nat) {
                Err(er) => Err(er),
                Ok(rest) => Ok(seq![e] + rest),
            },
        }
    }
}

/// Parses a whole pack: length floor, trailer digest, magic, version 2,
/// then the declared number of entries.
pub open spec fn spec_parse_pack(data: Seq<u8>) -> Result<Seq<PackEntryV>, GitError> {
    if data.len() < 32 {
        Err(GitError::Format)
    } else {
        let body = data.take(data.len() - 20);
        if sha1_of(body) != data.skip(data.len() - 20) {
            Err(GitError::Checksum)
        } else if !(body[0] == 80 && body[1] == 65 && body[2] == 67 && body[3] == 75) {
            Err(GitError::Format)
        } else if spec_read_be32(body[4], body[5], body[6], body[7]) != 2 {
            Err(GitError::UnsupportedVersion)
        } else {
            spec_parse_entries(
                body,
                12,
                spec_read_be32(body[8], body[9], body[10], body[11]) as nat,
            )
        }
    }
}

/// The views of a sequence of pack entries.
pub open spec fn entry_views(s: Seq<PackEntry>) -> Seq<PackEntryV> {
    s.map_values(|e: PackEntry| e@)
}

/// The views of a sequence of objects.
pub open spec fn obj_views(s: Seq<GitObject>) -> Seq<GitObjectV> {
    s.map_values(|o: GitObject| o@)
}

/// The entries that reading back a pack of these objects yields: the same
/// type and content, with the size taken from the content.
pub open spec fn pack_entries_of(objs: Seq<GitObjectV>) -> Seq<PackEntryV> {
    objs.map_values(
        |o: GitObjectV| PackEntryV { object_type: o.obj_type, size: o.size, data: o.content },
    )
}

/// The bytes one object contributes to a pack: its type+size header
/// followed by its compressed content.
pub open spec fn spec_entry_bytes(o: GitObjectV) -> Seq<u8> {
    spec_type_size_header(spec_type_code(o.obj_type), o.size) + deflate_of(o.content)
}

/// The concatenated entry records of a pack.
pub open spec fn spec_entries_bytes(objs: Seq<GitObjectV>) -> Seq<u8>
    decreases objs.len(),
{
    if objs.len() == 0 {
        seq![]
    } else {
        spec_entry_bytes(objs[0]) + spec_entries_bytes(objs.drop_first())
    }
}

/// Everything a pack holds before its trailer: magic, version 2, object
/// count, entry records.
pub open spec fn spec_pack_body(objs: Seq<GitObjectV>) -> Seq<u8> {
    seq![80u8, 65u8, 67u8, 75u8] + spec_be32(2) + spec_be32(objs.len() as u32)
        + spec_entries_bytes(objs)
}

/// A whole pack: the body followed by the SHA-1 digest of the body.
pub open spec fn spec_create_pack(objs: Seq<GitObjectV>) -> Seq<u8> {
    spec_pack_body(objs) + sha1_of(spec_pack_body(objs))
}

/// The compressed content of an object decompresses back to the content,
/// whatever follows it in the buffer.  [`zlib_compress`] establishes this
/// for every content it is called on.
pub open spec fn deflate_round_trips(content: Seq<u8>) -> bool {
    forall|rest: Seq<u8>|
        #[trigger] inflate_prefix(deflate_of(content) + rest) == Some(
            (content, deflate_of(content).len() as nat),
        )
}

/// Reading entry records written for `objs` out of any surrounding buffer
/// yields exactly their (type, size, content) triples.
proof fn lemma_parse_created_entries(objs: Seq<GitObjectV>, data: Seq<u8>, pos: int)
    requires
        0 <= pos,
        pos + spec_entries_bytes(objs).len() <= data.len(),
        data.subrange(pos, pos + spec_entries_bytes(objs).len() as int) == spec_entries_bytes(objs),
        forall|j: int| 0 <= j < objs.len() ==> (#[trigger] objs[j]).wf(),
        forall|j: int| 0 <= j < objs.len() ==> (#[trigger] objs[j]).size <= usize::MAX as nat,
        forall|j: int| 0 <= j < objs.len() ==> deflate_round_trips((#[trigger] objs[j]).content),
    ensures
        spec_parse_entries(data, pos, objs.len() as nat) == Ok::<Seq<PackEntryV>, GitError>(
            pack_entries_of(objs),
        ),
    decreases objs.len(),
{
    if objs.len() == 0 {
        assert(pack_entries_of(objs) =~= seq![]);
    } else {
        let o = objs[0];
        let code = spec_type_code(o.obj_type);
        let hdr = spec_type_size_header(code, o.size);
        let comp = deflate_of(o.content);
        let all = spec_entries_bytes(objs);
        let tail = spec_entries_bytes(objs.drop_first());
        assert(all == (hdr + comp) + tail);
        assert(all.len() == hdr.len() + comp.len() + tail.len());
        // The header reads back as written.
        assert(data.subrange(pos, pos + hdr.len() as int) =~= hdr) by {
            assert(forall|i: int|
                0 <= i < hdr.len() ==> data.subrange(pos, pos + all.len() as int)[i]
                    == #[trigger] hdr[i]);
        }
        lemma_type_size_round_trip(data, pos, code, o.size);
        let p = pos + hdr.len() as int;
        assert(spec_read_type_size(data, pos) == Some((code, o.size, p)));
        // The payload decompresses back to the content.
        assert(data.skip(p) =~= comp + data.skip(p + comp.len() as int)) by {
            assert(forall|i: int|
                0 <= i < comp.len() ==> data.subrange(pos, pos + all.len() as int)[hdr.len() + i]
                    == #[trigger] comp[i]);
        }
        assert(inflate_prefix(data.skip(p)) == Some((o.content, comp.len() as nat)));
        assert(spec_parse_payload(data, p, o.obj_type, o.size) == Ok::<(PackEntryV, int), GitError>(
            (PackEntryV { object_type: o.obj_type, size: o.size, data: o.content }, p
                + comp.len()),
        ));
        assert(code == 1 || code == 2 || code == 3 || code == 4);
        assert(spec_object_type_of(code) == Some(o.obj_type));
        assert(spec_parse_entry(data, pos) == Ok::<(PackEntryV, int), GitError>(
            (PackEntryV { object_type: o.obj_type, size: o.size, data: o.content }, p
                + comp.len()),
        ));
        // The remaining entries follow by induction.
        let pos2 = p + comp.len() as int;
        assert(data.subrange(pos2, pos2 + tail.len() as int) =~= tail) by {
            assert(forall|i: int|
                0 <= i < tail.len() ==> data.subrange(pos, pos + all.len() as int)[hdr.len()
                    + comp.len() + i] == #[trigger] tail[i]);
        }
        assert(forall|j: int|
            0 <= j < objs.drop_first().len() ==> #[trigger] objs.drop_first()[j] == objs[j + 1]);
        lemma_parse_created_entries(objs.drop_first(), data, pos2);
        assert(pack_entries_of(objs) =~= seq![
            PackEntryV { object_type: o.obj_type, size: o.size, data: o.content },
        ] + pack_entries_of(objs.drop_first()));
    }
}

/// Appending one object extends the entry records by its bytes.
proof fn lemma_entries_bytes_push(s: Seq<GitObjectV>, x: GitObjectV)
    ensures
        spec_entries_bytes(s.push(x)) == spec_entries_bytes(s) + spec_entry_bytes(x),
    decreases s.len(),
{
    if s.len() == 0 {
        assert(s.push(x).drop_first() =~= Seq::<GitObjectV>::empty());
        assert(spec_entries_bytes(Seq::<GitObjectV>::empty()) == Seq::<u8>::empty());
        assert(s.push(x)[0] == x);
        assert(spec_entries_bytes(s.push(x)) == spec_entry_bytes(x) + Seq::<u8>::empty());
        assert(spec_entries_bytes(s.push(x)) =~= spec_entries_bytes(s) + spec_entry_bytes(x));
    } else {
        assert(s.push(x).drop_first() =~= s.drop_first().push(x));
        lemma_entries_bytes_push(s.drop_first(), x);
        assert(s.push(x)[0] == s[0]);
        assert(spec_entries_bytes(s.push(x)) == spec_entry_bytes(s[0]) + spec_entries_bytes(
            s.drop_first().push(x),
        ));
        assert(spec_entries_bytes(s.push(x)) =~= spec_entries_bytes(s) + spec_entry_bytes(x));
    }
}

/// Reads the operand bytes of a copy instruction at `pos`: the low four
/// instruction bits select offset bytes, bits 4..6 select size bytes,
/// each present byte contributing eight bits little-endian.  `None` when
/// the operands run past the end of the delta.
pub open spec fn spec_copy_fields(instr: u8, delta: Seq<u8>, pos: int) -> Option<(nat, nat, int)> {
    let c0 = (instr as int / 1) % 2;
    let c1 = (instr as int / 2) % 2;
    let c2 = (instr as int / 4) % 2;
    let c3 = (instr as int / 8) % 2;
    let c4 = (instr as int / 16) % 2;
    let c5 = (instr as int / 32) % 2;
    let c6 = (instr as int / 64) % 2;
    let cnt = c0 + c1 + c2 + c3 + c4 + c5 + c6;
    if pos < 0 || pos + cnt > delta.len() {
        None
    } else {
        let p1 = pos + c0;
        let p2 = p1 + c1;
        let p3 = p2 + c2;
        let p4 = p3 + c3;
        let p5 = p4 + c4;
        let p6 = p5 + c5;
        let p7 = p6 + c6;
        let v0: nat = if c0 == 1 { delta[pos] as nat } else { 0nat };
        let v1: nat = if c1 == 1 { delta[p1] as nat } else { 0nat };
        let v2: nat = if c2 == 1 { delta[p2] as nat } else { 0nat };
        let v3: nat = if c3 == 1 { delta[p3] as nat } else { 0nat };
        let v4: nat = if c4 == 1 { delta[p4] as nat } else { 0nat };
        let v5: nat = if c5 == 1 { delta[p5] as nat } else { 0nat };
        let v6: nat = if c6 == 1 { delta[p6] as nat } else { 0nat };
        Some((v0 + 256 * v1 + 65536 * v2 + 16777216 * v3, v4 + 256 * v5 + 65536 * v6, p7))
    }
}

/// Runs the delta instruction stream from `pos` with output built so far
/// in `acc`.  A zero instruction byte, a truncated operand or literal, or
/// a copy outside the base makes the whole stream invalid.
pub open spec fn spec_delta_instrs(base: Seq<u8>, delta: Seq<u8>, pos: int, acc: Seq<u8>) -> Option<
    Seq<u8>,
>
    decreases delta.len() - pos,
{
    if pos < 0 {
        None
    } else if pos >= delta.len() {
        Some(acc)
    } else {
        let instr = delta[pos];
        if instr == 0 {
            None
        } else if instr >= 128 {
            match spec_copy_fields(instr, delta, pos + 1) {
                None => None,
                Some((off, sz0, p)) => {
                    let sz = if sz0 == 0 {
                        65536nat
                    } else {
                        sz0
                    };
                    if off + sz <= base.len() && pos + 1 <= p {
                        spec_delta_instrs(base, delta, p, acc + base.subrange(
                            off as int,
                            off as int + sz as int,
                        ))
                    } else {
                        None
                    }
                },
            }
        } else {
            if pos + 1 + instr as int <= delta.len() {
                spec_delta_instrs(base, delta, pos + 1 + instr as int, acc + delta.subrange(
                    pos + 1,
                    pos + 1 + instr as int,
                ))
            } else {
                None
            }
        }
    }
}

/// Applies a delta: base-size varint, result-size varint, then the
/// instruction stream; the output must come to exactly the declared
/// result size.
pub open spec fn spec_apply_delta(base: Seq<u8>, delta: Seq<u8>) -> Result<Seq<u8>, GitError> {
    match spec_read_varint7(delta, 0) {
        None => Err(GitError::Format),
        Some((bsize, p1)) => {
            if bsize > u64::MAX as nat {
                Err(GitError::Format)
            } else {
                match spec_read_varint7(delta, p1) {
                    None => Err(GitError::Format),
                    Some((rsize, p2)) => {
                        if rsize > u64::MAX as nat {
                            Err(GitError::Format)
                        } else {
                            match spec_delta_instrs(base, delta, p2, seq![]) {
                                None => Err(GitError::Format),
                                Some(out) => {
                                    if out.len() == rsize {
                                        Ok(out)
                                    } else {
                                        Err(GitError::Format)
                                    }
                                },
                            }
                        }
                    },
                }
            }
        },
    }
}

/// Reads one optional operand byte: present when `c` is 1.
fn opt_byte(delta: &[u8], p: usize, c: usize) -> (r: (u64, usize))
    requires
        c == 1 ==> p < delta@.len(),
        c == 0 || c == 1,
        p <= delta@.len(),
    ensures
        r.0 as nat == (if c == 1 {
            delta@[p as int] as nat
        } else {
            0nat
        }),
        r.1 == p + c,
        r.0 <= 255,
{
    if c == 1 {
        (delta[p] as u64, p + 1)
    } else {
        (0, p)
    }
}

/// Reads the operand bytes of a copy instruction.
#[verifier::rlimit(100)]
fn copy_fields(instr: u8, delta: &[u8], pos: usize) -> (r: Option<(u64, u64, usize)>)
    requires
        pos <= delta@.len(),
    ensures
        r matches Some(p) ==> spec_copy_fields(instr, delta@, pos as int) == Some(
            (p.0 as nat, p.1 as nat, p.2 as int),
        ) && pos <= p.2 <= delta@.len(),
        r is None ==> spec_copy_fields(instr, delta@, pos as int) is None,
{
    let c0: usize = (instr as usize / 1) % 2;
    let c1: usize = (instr as usize / 2) % 2;
    let c2: usize = (instr as usize / 4) % 2;
    let c3: usize = (instr as usize / 8) % 2;
    let c4: usize = (instr as usize / 16) % 2;
    let c5: usize = (instr as usize / 32) % 2;
    let c6: usize = (instr as usize / 64) % 2;
    let cnt = c0 + c1 + c2 + c3 + c4 + c5 + c6;
    if cnt > delta.len() - pos {
        return None;
    }
    let (v0, p1) = opt_byte(delta, pos, c0);
    let (v1, p2) = opt_byte(delta, p1, c1);
    let (v2, p3) = opt_byte(delta, p2, c2);
    let (v3, p4) = opt_byte(delta, p3, c3);
    let (v4, p5) = opt_byte(delta, p4, c4);
    let (v5, p6) = opt_byte(delta, p5, c5);
    let (v6, p7) = opt_byte(delta, p6, c6);
    Some((v0 + 256 * v1 + 65536 * v2 + 16777216 * v3, v4 + 256 * v5 + 65536 * v6, p7))
}

/// The numeric type id written for an object kind.
fn type_code(t: ObjectType) -> (r: u8)
    ensures
        r == spec_type_code(t),
{
    match t {
        ObjectType::Commit => 1,
        ObjectType::Tree => 2,
        ObjectType::Blob => 3,
        ObjectType::Tag => 4,
    }
}

/// Compares two byte slices.
fn bytes_eq(a: &[u8], b: &[u8]) -> (r: bool)
    ensures
        r == (a@ == b@),
{
    if a.len() != b.len() {
        assert(a@ != b@) by {
            assert(a@.len() != b@.len());
        }
        return false;
    }
    let n = a.len();
    let mut i: usize = 0;
    while i < n
        invariant
            i <= n,
            n == a@.len() == b@.len(),
            forall|j: int| 0 <= j < i ==> a@[j] == b@[j],
        decreases n - i,
    {
        if a[i] != b[i] {
            return false;
        }
        i += 1;
    }
    assert(a@ =~= b@);
    true
}

/// Pack file header fields.
#[derive(Debug)]
pub struct PackHeader {
    /// The four magic bytes, `"PACK"` when well formed.
    pub signature: [u8; 4],
    /// The format version; only 2 is supported.
    pub version: u32,
    /// How many object records follow.
    pub num_objects: u32,
}

/// The pack reader and writer.
pub struct PackParser;

impl Default for PackParser {
    fn default() -> (r: Self)
        ensures
            r == (PackParser {  }),
    {
        Self::new()
    }
}

impl PackParser {
    pub fn new() -> Self {
        Self
    }

    /// Reads the variable-length backward offset that follows an
    /// OFS_DELTA entry header, returning the offset and the position
    /// after it.
    pub fn parse_offset(&self, data: &[u8], pos: usize) -> (r: Result<(u64, usize), GitError>)
        ensures
            r matches Ok(p) ==> spec_read_offset(data@, pos as int) == Some(
                (p.0 as nat, p.1 as int),
            ) && pos < p.1 <= data@.len(),
            r is Err ==> (spec_read_offset(data@, pos as int) is None || spec_read_offset(
                data@,
                pos as int,
            ).unwrap().0 > u64::MAX as nat),
            r is Err ==> r == Err::<(u64, usize), GitError>(GitError::Format),
    {
        if pos >= data.len() {
            return Err(GitError::Format);
        }
        let b = data[pos];
        let low = (b % 128) as u64;
        if b < 128 {
            Ok((low, pos + 1))
        } else {
            match read_offset_rec(data, pos + 1, low) {
                Some(p) => Ok(p),
                None => Err(GitError::Format),
            }
        }
    }

    /// Reads a pack entry header: the raw type id, the declared payload
    /// size, and the position after the header.  Fails on a truncated
    /// header or a size beyond the machine word.
    pub fn parse_type_and_size(&self, data: &[u8], pos: usize) -> (r: Result<
        (u8, usize, usize),
        GitError,
    >)
        ensures
            r matches Ok(p) ==> spec_read_type_size(data@, pos as int) == Some(
                (p.0, p.1 as nat, p.2 as int),
            ) && pos < p.2 <= data@.len() && p.0 < 8,
            r is Err ==> r == Err::<(u8, usize, usize), GitError>(GitError::Format)
                && (spec_read_type_size(data@, pos as int) is None || spec_read_type_size(
                data@,
                pos as int,
            ).unwrap().1 > usize::MAX as nat),
    {
        if pos >= data.len() {
            return Err(GitError::Format);
        }
        let b = data[pos];
        let t = (b / 16) % 8;
        let low = (b % 16) as u64;
        if b < 128 {
            Ok((t, low as usize, pos + 1))
        } else {
            match read_varint7_at(data, pos + 1) {
                None => {
                    proof {
                        let s7 = spec_read_varint7(data@, pos as int + 1);
                        if s7 is Some {
                            let v0 = s7.unwrap().0;
                            assert(low as nat + 16 * v0 >= v0) by (nonlinear_arith);
                        }
                    }
                    Err(GitError::Format)
                },
                Some((v, p)) => {
                    if v > ((u64::MAX - low) / 16) {
                        proof {
                            assert(low + 16 * v > u64::MAX) by (nonlinear_arith)
                                requires
                                    v > (u64::MAX - low) / 16,
                                    low <= 15,
                            ;
                        }
                        Err(GitError::Format)
                    } else {
                        proof {
                            assert(low + 16 * v <= u64::MAX) by (nonlinear_arith)
                                requires
                                    v <= (u64::MAX - low) / 16,
                                    low <= 15,
                            ;
                        }
                        let size = low + 16 * v;
                        if size > usize::MAX as u64 {
                            Err(GitError::Format)
                        } else {
                            Ok((t, size as usize, p))
                        }
                    }
                },
            }
        }
    }

    /// Appends the variable-length type+size header for one pack entry.
    pub fn write_type_and_size(&self, data: &mut Vec<u8>, type_id: u8, size: usize) -> (r: Result<
        (),
        GitError,
    >)
        requires
            type_id < 8,
        ensures
            r is Ok,
            final(data)@ == old(data)@ + spec_type_size_header(type_id, size as nat),
    {
        if size < 16 {
            data.push(type_id * 16 + size as u8);
            assert(data@ =~= old(data)@ + spec_type_size_header(type_id, size as nat));
        } else {
            data.push(128 + type_id * 16 + (size % 16) as u8);
            push_varint7(data, (size / 16) as u64);
            assert(data@ =~= old(data)@ + spec_type_size_header(type_id, size as nat));
        }
        Ok(())
    }

    /// Reads 20 raw digest bytes at `pos` and renders them in
    /// hexadecimal; fails when fewer than 20 bytes remain.
    pub fn read_sha1(&self, data: &[u8], pos: usize) -> (r: Result<(String, usize), GitError>)
        ensures
            r matches Ok(p) ==> pos + 20 <= data@.len() && p.0@ == spec_hex_encode(
                data@.subrange(pos as int, pos as int + 20),
            ) && p.1 == pos + 20,
            r is Err <==> pos + 20 > data@.len(),
            r is Err ==> r == Err::<(String, usize), GitError>(GitError::Format),
    {
        if pos > data.len() || data.len() - pos < 20 {
            return Err(GitError::Format);
        }
        let raw = &data[pos..pos + 20];
        let s = hex_encode(raw);
        Ok((s, pos + 20))
    }

    /// Parses the 12-byte pack header: the `"PACK"` magic, the version,
    /// and the object count, returning the position after it.  The
    /// version is reported as read; [`PackParser::parse_pack`] enforces
    /// that it is 2.
    pub fn parse_header(&self, data: &[u8]) -> (r: Result<(PackHeader, usize), GitError>)
        ensures
            r matches Ok(p) ==> data@.len() >= 12 && data@[0] == 80 && data@[1] == 65 && data@[2]
                == 67 && data@[3] == 75 && p.0.signature@ =~= data@.take(4) && p.0.version
                == spec_read_be32(data@[4], data@[5], data@[6], data@[7]) && p.0.num_objects
                == spec_read_be32(data@[8], data@[9], data@[10], data@[11]) && p.1 == 12,
            r is Err <==> !(data@.len() >= 12 && data@[0] == 80 && data@[1] == 65 && data@[2] == 67
                && data@[3] == 75),
            r is Err ==> r == Err::<(PackHeader, usize), GitError>(GitError::Format),
    {
        if data.len() < 12 {
            return Err(GitError::Format);
        }
        if !(data[0] == 80 && data[1] == 65 && data[2] == 67 && data[3] == 75) {
            return Err(GitError::Format);
        }
        let signature = [data[0], data[1], data[2], data[3]];
        let version = read_be32(data, 4);
        let num_objects = read_be32(data, 8);
        Ok((PackHeader { signature, version, num_objects }, 12))
    }

    /// Maps a pack type id to its object kind; delta ids and unknown ids
    /// have none.
    pub fn get_object_type(&self, type_id: u8) -> (r: Result<ObjectType, GitError>)
        ensures
            match spec_object_type_of(type_id) {
                Some(t) => r == Ok::<ObjectType, GitError>(t),
                None => r == Err::<ObjectType, GitError>(GitError::UnknownType),
            },
    {
        if type_id == 1 {
            Ok(ObjectType::Commit)
        } else if type_id == 2 {
            Ok(ObjectType::Tree)
        } else if type_id == 3 {
            Ok(ObjectType::Blob)
        } else if type_id == 4 {
            Ok(ObjectType::Tag)
        } else {
            Err(GitError::UnknownType)
        }
    }

    /// Decompresses one entry payload at `pos` and checks the declared
    /// size.
    fn parse_payload(&self, data: &[u8], pos: usize, ot: ObjectType, size: usize) -> (r: Result<
        (PackEntry, usize),
        GitError,
    >)
        requires
            pos <= data@.len(),
        ensures
            r matches Ok(p) ==> spec_parse_payload(data@, pos as int, ot, size as nat) == Ok::<
                _,
                GitError,
            >((p.0@, p.1 as int)) && pos <= p.1 <= data@.len(),
            r matches Err(e) ==> spec_parse_payload(data@, pos as int, ot, size as nat) == Err::<
                (PackEntryV, int),
                GitError,
            >(e),
    {
        let rest = &data[pos..data.len()];
        assert(rest@ =~= data@.skip(pos as int));
        match zlib_decompress_prefix(rest) {
            None => Err(GitError::Format),
            Some((payload, used)) => {
                if payload.len() == size {
                    Ok((PackEntry { object_type: ot, size, data: payload }, pos + used))
                } else {
                    Err(GitError::Format)
                }
            },
        }
    }

    /// Reads one pack entry at `pos`: type+size header, any delta
    /// preamble, then the compressed payload, locating the exact
    /// compressed-stream boundary so that entries can be read in
    /// sequence.  Delta entries keep the decoded delta stream as their
    /// data.
    pub fn parse_object(&self, data: &[u8], pos: usize) -> (r: Result<(PackEntry, usize), GitError>)
        ensures
            r matches Ok(p) ==> spec_parse_entry(data@, pos as int) == Ok::<_, GitError>(
                (p.0@, p.1 as int),
            ) && pos <= p.1 <= data@.len(),
            r matches Err(e) ==> spec_parse_entry(data@, pos as int) == Err::<
                (PackEntryV, int),
                GitError,
            >(e),
    {
        let (t, size, p) = match self.parse_type_and_size(data, pos) {
            Ok(x) => x,
            Err(e) => return Err(e),
        };
        if t == 6 {
            let (_off, p2) = match self.parse_offset(data, p) {
                Ok(x) => x,
                Err(e) => return Err(e),
            };
            self.parse_payload(data, p2, ObjectType::Blob, size)
        } else if t == 7 {
            if p > data.len() || data.len() - p < 20 {
                return Err(GitError::Format);
            }
            self.parse_payload(data, p + 20, ObjectType::Blob, size)
        } else {
            let ot = match self.get_object_type(t) {
                Ok(x) => x,
                Err(e) => return Err(e),
            };
            self.parse_payload(data, p, ot, size)
        }
    }

    /// Reads one pack entry with full delta support: identical to
    /// [`PackParser::parse_object`], which handles OFS_DELTA and
    /// REF_DELTA entries as well as the four plain kinds.
    pub fn parse_object_with_delta_support(&self, data: &[u8], pos: usize) -> (r: Result<
        (PackEntry, usize),
        GitError,
    >)
        ensures
            r matches Ok(p) ==> spec_parse_entry(data@, pos as int) == Ok::<_, GitError>(
                (p.0@, p.1 as int),
            ) && pos <= p.1 <= data@.len(),
            r matches Err(e) ==> spec_parse_entry(data@, pos as int) == Err::<
                (PackEntryV, int),
                GitError,
            >(e),
    {
        self.parse_object(data, pos)
    }

    /// Parses a complete pack: verifies the 20-byte SHA-1 trailer over
    /// everything before it, rejects a corrupt pack outright, checks the
    /// magic and that the version is 2, then reads the declared number of
    /// entries.
    pub fn parse_pack(&self, data: &[u8]) -> (r: Result<Vec<PackEntry>, GitError>)
        ensures
            r matches Ok(v) ==> spec_parse_pack(data@) == Ok::<_, GitError>(entry_views(v@)),
            r matches Err(e) ==> spec_parse_pack(data@) == Err::<Seq<PackEntryV>, GitError>(e),
    {
        if data.len() < 32 {
            return Err(GitError::Format);
        }
        let body_len = data.len() - 20;
        let body = &data[0..body_len];
        let trailer = &data[body_len..data.len()];
        assert(body@ =~= data@.take(body_len as int));
        assert(trailer@ =~= data@.skip(body_len as int));
        let digest = sha1_digest(body);
        if !bytes_eq(digest.as_slice(), trailer) {
            return Err(GitError::Checksum);
        }
        let (header, mut pos) = match self.parse_header(body) {
            Ok(x) => x,
            Err(e) => return Err(e),
        };
        if header.version != 2 {
            return Err(GitError::UnsupportedVersion);
        }
        let num = header.num_objects;
        let mut entries: Vec<PackEntry> = Vec::new();
        let mut i: u32 = 0;
        while i < num
            invariant
                i <= num,
                pos <= body@.len(),
                body@ =~= data@.take(data@.len() - 20),
                data@.len() >= 32,
                sha1_of(body@) == data@.skip(data@.len() - 20),
                body@[0] == 80 && body@[1] == 65 && body@[2] == 67 && body@[3] == 75,
                spec_read_be32(body@[4], body@[5], body@[6], body@[7]) == 2,
                spec_read_be32(body@[8], body@[9], body@[10], body@[11]) == num,
                match spec_parse_entries(body@, pos as int, (num - i) as nat) {
                    Ok(rest) => spec_parse_pack(data@) == Ok::<_, GitError>(
                        entry_views(entries@) + rest,
                    ),
                    Err(e) => spec_parse_pack(data@) == Err::<Seq<PackEntryV>, GitError>(e),
                },
            decreases num - i,
        {
            let ghost entries_old = entries@;
            let (entry, new_pos) = match self.parse_object(body, pos) {
                Ok(x) => x,
                Err(e) => {
                    proof {
                        assert(spec_parse_entries(body@, pos as int, (num - i) as nat) == Err::<
                            Seq<PackEntryV>,
                            GitError,
                        >(e));
                    }
                    return Err(e);
                },
            };
            entries.push(entry);
            proof {
                assert(entry_views(entries@) =~= entry_views(entries_old) + seq![entry@]);
                assert forall|rest: Seq<PackEntryV>|
                    entry_views(entries_old) + (seq![entry@] + rest) =~= entry_views(entries@)
                        + rest by {}
            }
            pos = new_pos;
            i += 1;
        }
        proof {
            assert(spec_parse_entries(body@, pos as int, 0) == Ok::<Seq<PackEntryV>, GitError>(
                seq![],
            ));
            assert(entry_views(entries@) + seq![] =~= entry_views(entries@));
        }
        Ok(entries)
    }

    /// Parses a complete pack held in an owned buffer; identical to
    /// [`PackParser::parse_pack`].
    pub fn parse_pack_file_simple(&mut self, data: Vec<u8>) -> (r: Result<Vec<PackEntry>, GitError>)
        ensures
            r matches Ok(v) ==> spec_parse_pack(data@) == Ok::<_, GitError>(entry_views(v@)),
            r matches Err(e) ==> spec_parse_pack(data@) == Err::<Seq<PackEntryV>, GitError>(e),
    {
        self.parse_pack(data.as_slice())
    }

    /// Builds a pack over the objects: `"PACK"`, version 2, the object
    /// count, each object's type+size header and compressed content, and
    /// the SHA-1 trailer over everything written.  Fails only when the
    /// object count does not fit the 32-bit count field.
    ///
    /// Reading the result back with [`PackParser::parse_pack`] yields
    /// exactly the objects' (type, size, content) triples, provided each
    /// object's declared size agrees with its content.
    pub fn create_pack(&self, objects: &[GitObject]) -> (r: Result<Vec<u8>, GitError>)
        ensures
            r is Ok <==> objects@.len() <= u32::MAX as nat,
            r matches Ok(v) ==> v@ == spec_create_pack(obj_views(objects@)),
            r matches Ok(v) ==> ((forall|j: int|
                0 <= j < objects@.len() ==> (#[trigger] objects@[j])@.wf()) ==> spec_parse_pack(v@)
                == Ok::<Seq<PackEntryV>, GitError>(pack_entries_of(obj_views(objects@)))),
    {
        let ghost views = obj_views(objects@);
        if objects.len() > (u32::MAX as usize) {
            return Err(GitError::Format);
        }
        let mut pack: Vec<u8> = Vec::new();
        pack.push(80);
        pack.push(65);
        pack.push(67);
        pack.push(75);
        push_be32(&mut pack, 2);
        let n32 = objects.len() as u32;
        push_be32(&mut pack, n32);
        let ghost prefix = seq![80u8, 65u8, 67u8, 75u8] + spec_be32(2) + spec_be32(
            objects@.len() as u32,
        );
        assert(pack@ =~= prefix + spec_entries_bytes(views.take(0)));
        let mut i: usize = 0;
        while i < objects.len()
            invariant
                i <= objects@.len(),
                objects@.len() <= u32::MAX as nat,
                views == obj_views(objects@),
                prefix == seq![80u8, 65u8, 67u8, 75u8] + spec_be32(2) + spec_be32(
                    objects@.len() as u32,
                ),
                pack@ == prefix + spec_entries_bytes(views.take(i as int)),
                forall|j: int| 0 <= j < i ==> deflate_round_trips((#[trigger] views[j]).content),
            decreases objects@.len() - i,
        {
            let o = &objects[i];
            proof {
                assert(views[i as int] == objects@[i as int]@);
            }
            let code = type_code(o.obj_type);
            let _ = self.write_type_and_size(&mut pack, code, o.size);
            let comp = zlib_compress(o.content.as_slice());
            pack.extend_from_slice(comp.as_slice());
            proof {
                lemma_entries_bytes_push(views.take(i as int), views[i as int]);
                assert(views.take(i as int + 1) =~= views.take(i as int).push(views[i as int]));
                assert(pack@ =~= prefix + spec_entries_bytes(views.take(i as int + 1)));
            }
            i += 1;
        }
        proof {
            assert(views.take(objects@.len() as int) =~= views);
        }
        let digest = sha1_digest(pack.as_slice());
        let ghost body = pack@;
        pack.extend_from_slice(digest.as_slice());
        proof {
            assert(body == spec_pack_body(views));
            assert(pack@ =~= spec_create_pack(views));
            if forall|j: int| 0 <= j < objects@.len() ==> (#[trigger] objects@[j])@.wf() {
                let data = pack@;
                let ents = spec_entries_bytes(views);
                assert(data.len() == body.len() + 20 && body.len() == 12 + ents.len());
                assert(data.take(data.len() - 20) =~= body);
                assert(data.skip(data.len() - 20) =~= sha1_of(body));
                assert(body[0] == 80 && body[1] == 65 && body[2] == 67 && body[3] == 75);
                assert(body[4] == spec_be32(2)[0] && body[5] == spec_be32(2)[1] && body[6]
                    == spec_be32(2)[2] && body[7] == spec_be32(2)[3]);
                assert(body[8] == spec_be32(n32)[0] && body[9] == spec_be32(n32)[1] && body[10]
                    == spec_be32(n32)[2] && body[11] == spec_be32(n32)[3]);
                lemma_be32_round_trip(2);
                lemma_be32_round_trip(n32);
                assert(body.subrange(12, 12 + ents.len() as int) =~= ents);
                assert forall|j: int| 0 <= j < views.len() implies (#[trigger] views[j]).wf() && (
                views[j]).size <= usize::MAX as nat && deflate_round_trips((views[j]).content) by {
                    assert(views[j] == objects@[j]@);
                }
                lemma_parse_created_entries(views, body, 12);
                assert(spec_parse_pack(data) == Ok::<Seq<PackEntryV>, GitError>(
                    pack_entries_of(views),
                ));
            }
        }
        Ok(pack)
    }

    /// Reads the variable-length integer that opens a delta stream,
    /// returning the value and how many bytes it occupied.  Fails on a
    /// truncated encoding or a value beyond the machine word.
    pub fn read_varint(&self, data: &[u8]) -> (r: Result<(usize, usize), GitError>)
        ensures
            r matches Ok(p) ==> spec_read_varint7(data@, 0) == Some((p.0 as nat, p.1 as int)),
            r is Err ==> r == Err::<(usize, usize), GitError>(GitError::Format) && (
            spec_read_varint7(data@, 0) is None || spec_read_varint7(data@, 0).unwrap().0
                > usize::MAX as nat),
    {
        match read_varint7_at(data, 0) {
            None => Err(GitError::Format),
            Some((v, p)) => {
                if v > usize::MAX as u64 {
                    Err(GitError::Format)
                } else {
                    Ok((v as usize, p))
                }
            },
        }
    }

    /// Reconstructs an object from a base and a delta: reads the two
    /// size varints, then runs the copy/insert instruction stream, and
    /// checks that the output length equals the declared result size
    /// exactly; any malformed instruction or a length mismatch fails.
    #[verifier::rlimit(100)]
    pub fn apply_delta(&self, base: &[u8], delta: &[u8]) -> (r: Result<Vec<u8>, GitError>)
        ensures
            r matches Ok(v) ==> spec_apply_delta(base@, delta@) == Ok::<Seq<u8>, GitError>(v@),
            r matches Err(e) ==> spec_apply_delta(base@, delta@) == Err::<Seq<u8>, GitError>(e),
    {
        let (_base_size, p1) = match read_varint7_at(delta, 0) {
            Some(x) => x,
            None => return Err(GitError::Format),
        };
        let (result_size, p2) = match read_varint7_at(delta, p1) {
            Some(x) => x,
            None => return Err(GitError::Format),
        };
        let mut out: Vec<u8> = Vec::new();
        let mut pos: usize = p2;
        while pos < delta.len()
            invariant
                pos <= delta@.len(),
                spec_read_varint7(delta@, 0) == Some((_base_size as nat, p1 as int)),
                spec_read_varint7(delta@, p1 as int) == Some((result_size as nat, p2 as int)),
                spec_delta_instrs(base@, delta@, p2 as int, seq![]) == spec_delta_instrs(
                    base@,
                    delta@,
                    pos as int,
                    out@,
                ),
            decreases delta@.len() - pos,
        {
            let instr = delta[pos];
            if instr == 0 {
                return Err(GitError::Format);
            }
            if instr >= 128 {
                let (off, sz0, p) = match copy_fields(instr, delta, pos + 1) {
                    Some(x) => x,
                    None => return Err(GitError::Format),
                };
                let sz: u64 = if sz0 == 0 {
                    65536
                } else {
                    sz0
                };
                if off > base.len() as u64 || sz > base.len() as u64 - off {
                    return Err(GitError::Format);
                }
                let start = off as usize;
                let end = start + sz as usize;
                let ghost out_old = out@;
                out.extend_from_slice(&base[start..end]);
                proof {
                    assert(out@ =~= out_old + base@.subrange(start as int, end as int));
                }
                pos = p;
            } else {
                let l = instr as usize;
                if l > delta.len() - (pos + 1) {
                    return Err(GitError::Format);
                }
                let ghost out_old = out@;
                out.extend_from_slice(&delta[pos + 1..pos + 1 + l]);
                proof {
                    assert(out@ =~= out_old + delta@.subrange(
                        pos as int + 1,
                        pos as int + 1 + l as int,
                    ));
                }
                pos = pos + 1 + l;
            }
        }
        if out.len() as u64 == result_size {
            Ok(out)
        } else {
            Err(GitError::Format)
        }
    }

    /// Builds a pack intended to use delta compression between similar
    /// objects.  Choosing delta bases is deliberately left open; this
    /// builds a plain pack, which [`PackParser::parse_pack`] reads back.
    pub fn create_pack_with_deltas(&self, objects: &[GitObject]) -> (r: Result<Vec<u8>, GitError>)
        ensures
            r is Ok <==> objects@.len() <= u32::MAX as nat,
            r matches Ok(v) ==> v@ == spec_create_pack(obj_views(objects@)),
    {
        self.create_pack(objects)
    }

    /// Builds a thin pack against a set of objects the receiver already
    /// has.  Choosing delta bases is deliberately left open; this builds
    /// a plain self-contained pack, which [`PackParser::parse_pack`]
    /// reads back.
    pub fn create_thin_pack(&self, objects: &[GitObject], _have_objects: &[String]) -> (r: Result<
        Vec<u8>,
        GitError,
    >)
        ensures
            r is Ok <==> objects@.len() <= u32::MAX as nat,
            r matches Ok(v) ==> v@ == spec_create_pack(obj_views(objects@)),
    {
        self.create_pack(objects)
    }
}

} // verus!
