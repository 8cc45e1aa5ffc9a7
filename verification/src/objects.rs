//! The object model and hasher: typed records for commits, trees, blobs
//! and tags, their byte serializations, and SHA-1 content addressing.

use vstd::prelude::*;
use vstd::slice::slice_to_vec;
use vstd::string::*;
use vstd::utf8::encode_utf8;
use crate::{GitObject, GitObjectV, ObjectType, GitError};
use crate::digest::{sha1_of, sha1_digest, hex_encode, hex_decode, lemma_sha1_len};
use crate::text::{lossy_decode, bytes_to_string_lossy, spec_has_prefix, substring, str_starts_with};
use crate::encoding::{spec_dec_bytes, dec_bytes, spec_hex_encode, spec_hex_decode, is_hex_char, lemma_hex_decode_encode, spec_hex_decode_ok};

verus! {

/// The ASCII name of an object kind, as written in the hashed header.
pub open spec fn spec_type_name(t: ObjectType) -> Seq<u8> {
    match t {
        ObjectType::Commit => seq![99u8, 111u8, 109u8, 109u8, 105u8, 116u8],
        ObjectType::Tree => seq![116u8, 114u8, 101u8, 101u8],
        ObjectType::Blob => seq![98u8, 108u8, 111u8, 98u8],
        ObjectType::Tag => seq![116u8, 97u8, 103u8],
    }
}

/// The header every object id hashes over: `"<type> <decimal size>\0"`.
pub open spec fn spec_object_header(t: ObjectType, len: nat) -> Seq<u8> {
    spec_type_name(t) + seq![32u8] + spec_dec_bytes(len) + seq![0u8]
}

/// The id of an object: 40 lowercase hexadecimal characters of the SHA-1
/// digest of its header followed by its content.
pub open spec fn spec_object_id(t: ObjectType, content: Seq<u8>) -> Seq<char> {
    spec_hex_encode(sha1_of(spec_object_header(t, content.len()) + content))
}

/// Content addressing is a function: the id of an object is determined by
/// its type and content alone, and is always 40 hexadecimal characters.
pub proof fn lemma_object_id_form(t: ObjectType, content: Seq<u8>)
    ensures
        spec_object_id(t, content).len() == 40,
        forall|i: int| 0 <= i < 40 ==> is_hex_char(#[trigger] spec_object_id(t, content)[i]),
{
    let hashed = spec_object_header(t, content.len()) + content;
    lemma_sha1_len(hashed);
    lemma_hex_decode_encode(sha1_of(hashed));
    assert(spec_hex_decode_ok(spec_object_id(t, content)));
}

/// Appends the ASCII name of `t` to `out`.
fn push_type_name(out: &mut Vec<u8>, t: ObjectType)
    ensures
        final(out)@ == old(out)@ + spec_type_name(t),
{
    match t {
        ObjectType::Commit => {
            out.push(99);
            out.push(111);
            out.push(109);
            out.push(109);
            out.push(105);
            out.push(116);
        },
        ObjectType::Tree => {
            out.push(116);
            out.push(114);
            out.push(101);
            out.push(101);
        },
        ObjectType::Blob => {
            out.push(98);
            out.push(108);
            out.push(111);
            out.push(98);
        },
        ObjectType::Tag => {
            out.push(116);
            out.push(97);
            out.push(103);
        },
    }
    assert(out@ =~= old(out)@ + spec_type_name(t));
}

/// A point in time as a commit records it: seconds since the Unix epoch
/// and the recorded zone offset in minutes.
#[derive(Debug, Clone, Copy, PartialEq, Eq, Structural)]
pub struct GitTime {
    pub seconds: i64,
    pub offset_minutes: i32,
}

/// A commit record.  The author and committer identity lines are kept
/// verbatim; the timestamps they embed are parsed out and preserved
/// beside them, when present.
#[derive(Debug, Clone)]
pub struct Commit {
    pub tree: String,
    pub parents: Vec<String>,
    pub author: String,
    pub committer: String,
    pub message: String,
    pub author_date: Option<GitTime>,
    pub commit_date: Option<GitTime>,
}

/// The mathematical value of a [`Commit`].
pub ghost struct CommitV {
    pub tree: Seq<char>,
    pub parents: Seq<Seq<char>>,
    pub author: Seq<char>,
    pub committer: Seq<char>,
    pub message: Seq<char>,
    pub author_date: Option<GitTime>,
    pub commit_date: Option<GitTime>,
}

impl View for Commit {
    type V = CommitV;

    open spec fn view(&self) -> CommitV {
        CommitV {
            tree: self.tree@,
            parents: self.parents.deep_view(),
            author: self.author@,
            committer: self.committer@,
            message: self.message@,
            author_date: self.author_date,
            commit_date: self.commit_date,
        }
    }
}

/// One tree entry: a mode, a name, and the entry's object id in
/// hexadecimal.
#[derive(Debug, Clone)]
pub struct TreeEntry {
    /// For example `100644` or `040000`.
    pub mode: String,
    pub name: String,
    /// 40 hexadecimal characters.
    pub hash: String,
}

/// The mathematical value of a [`TreeEntry`].
pub ghost struct TreeEntryV {
    pub mode: Seq<char>,
    pub name: Seq<char>,
    pub hash: Seq<char>,
}

impl View for TreeEntry {
    type V = TreeEntryV;

    open spec fn view(&self) -> TreeEntryV {
        TreeEntryV { mode: self.mode@, name: self.name@, hash: self.hash@ }
    }
}

/// A tree record: its entries in on-disk order.
#[derive(Debug, Clone)]
pub struct Tree {
    pub entries: Vec<TreeEntry>,
}

/// A blob record: raw content.
#[derive(Debug, Clone)]
pub struct Blob {
    pub content: Vec<u8>,
}

/// An annotated tag record.
#[derive(Debug, Clone)]
pub struct Tag {
    pub object: String,
    pub obj_type: String,
    pub tag_name: String,
    pub tagger: String,
    pub message: String,
    pub tagger_date: Option<GitTime>,
}

/// The views of a tree's entries.
pub open spec fn tree_entry_views(entries: Seq<TreeEntry>) -> Seq<TreeEntryV> {
    entries.map_values(|e: TreeEntry| e@)
}

/// The `parent` header lines of a commit, one per parent.
pub open spec fn spec_parent_lines(parents: Seq<Seq<char>>) -> Seq<u8>
    decreases parents.len(),
{
    if parents.len() == 0 {
        seq![]
    } else {
        encode_utf8("parent "@) + encode_utf8(parents[0]) + seq![10u8] + spec_parent_lines(
            parents.drop_first(),
        )
    }
}

/// The byte serialization of a commit: the `tree` line, one `parent`
/// line per parent, the `author` and `committer` lines, a blank line,
/// then the message.  This exact layout is what the commit's id hashes
/// over.
pub open spec fn spec_serialize_commit(c: CommitV) -> Seq<u8> {
    encode_utf8("tree "@) + encode_utf8(c.tree) + seq![10u8] + spec_parent_lines(c.parents)
        + encode_utf8("author "@) + encode_utf8(c.author) + seq![10u8] + encode_utf8(
        "committer "@,
    ) + encode_utf8(c.committer) + seq![10u8] + seq![10u8] + encode_utf8(c.message)
}

/// The bytes of one serialized tree entry:
/// `"<mode> <name>\0"` followed by the 20 raw hash bytes; a hash that is
/// not valid hexadecimal contributes no bytes.
pub open spec fn spec_tree_entry_bytes(e: TreeEntryV) -> Seq<u8> {
    encode_utf8(e.mode) + seq![32u8] + encode_utf8(e.name) + seq![0u8] + (if spec_hex_decode_ok(
        e.hash,
    ) {
        spec_hex_decode(e.hash)
    } else {
        seq![]
    })
}

/// The byte serialization of a tree: its entries' bytes in order.
pub open spec fn spec_serialize_tree(entries: Seq<TreeEntryV>) -> Seq<u8>
    decreases entries.len(),
{
    if entries.len() == 0 {
        seq![]
    } else {
        spec_tree_entry_bytes(entries[0]) + spec_serialize_tree(entries.drop_first())
    }
}

/// Appending a parent extends the parent lines by one line.
proof fn lemma_parent_lines_push(parents: Seq<Seq<char>>, p: Seq<char>)
    ensures
        spec_parent_lines(parents.push(p)) == spec_parent_lines(parents) + (encode_utf8(
            "parent "@,
        ) + encode_utf8(p) + seq![10u8]),
    decreases parents.len(),
{
    if parents.len() == 0 {
        assert(parents.push(p).drop_first() =~= Seq::<Seq<char>>::empty());
        assert(parents.push(p)[0] == p);
        assert(spec_parent_lines(Seq::<Seq<char>>::empty()) == Seq::<u8>::empty());
        assert(spec_parent_lines(parents.push(p)) == encode_utf8("parent "@) + encode_utf8(p)
            + seq![10u8] + Seq::<u8>::empty());
        assert(spec_parent_lines(parents.push(p)) =~= spec_parent_lines(parents) + (encode_utf8(
            "parent "@,
        ) + encode_utf8(p) + seq![10u8]));
    } else {
        assert(parents.push(p).drop_first() =~= parents.drop_first().push(p));
        lemma_parent_lines_push(parents.drop_first(), p);
        assert(parents.push(p)[0] == parents[0]);
        assert(spec_parent_lines(parents.push(p)) == encode_utf8("parent "@) + encode_utf8(
            parents[0],
        ) + seq![10u8] + spec_parent_lines(parents.drop_first().push(p)));
        assert(spec_parent_lines(parents.push(p)) =~= spec_parent_lines(parents) + (encode_utf8(
            "parent "@,
        ) + encode_utf8(p) + seq![10u8]));
    }
}

/// Appending an entry extends the tree bytes by its record.
proof fn lemma_tree_bytes_push(entries: Seq<TreeEntryV>, e: TreeEntryV)
    ensures
        spec_serialize_tree(entries.push(e)) == spec_serialize_tree(entries)
            + spec_tree_entry_bytes(e),
    decreases entries.len(),
{
    if entries.len() == 0 {
        assert(entries.push(e).drop_first() =~= Seq::<TreeEntryV>::empty());
        assert(entries.push(e)[0] == e);
        assert(spec_serialize_tree(Seq::<TreeEntryV>::empty()) == Seq::<u8>::empty());
        assert(spec_serialize_tree(entries.push(e)) == spec_tree_entry_bytes(e)
            + Seq::<u8>::empty());
        assert(spec_serialize_tree(entries.push(e)) =~= spec_serialize_tree(entries)
            + spec_tree_entry_bytes(e));
    } else {
        assert(entries.push(e).drop_first() =~= entries.drop_first().push(e));
        lemma_tree_bytes_push(entries.drop_first(), e);
        assert(entries.push(e)[0] == entries[0]);
        assert(spec_serialize_tree(entries.push(e)) == spec_tree_entry_bytes(entries[0])
            + spec_serialize_tree(entries.drop_first().push(e)));
        assert(spec_serialize_tree(entries.push(e)) =~= spec_serialize_tree(entries)
            + spec_tree_entry_bytes(e));
    }
}

/// The position of the first occurrence of `b` at or after `pos`.
pub open spec fn spec_find_byte(data: Seq<u8>, pos: int, b: u8) -> Option<int>
    decreases data.len() - pos,
{
    if pos < 0 || pos >= data.len() {
        None
    } else if data[pos] == b {
        Some(pos)
    } else {
        spec_find_byte(data, pos + 1, b)
    }
}

/// What the first-occurrence position means, spelled out.
proof fn lemma_find_byte(data: Seq<u8>, pos: int, b: u8)
    requires
        0 <= pos,
    ensures
        match spec_find_byte(data, pos, b) {
            None => forall|j: int| pos <= j < data.len() ==> data[j] != b,
            Some(i) => pos <= i < data.len() && data[i] == b && (forall|j: int|
                pos <= j < i ==> data[j] != b),
        },
    decreases data.len() - pos,
{
    if pos < data.len() && data[pos] != b {
        lemma_find_byte(data, pos + 1, b);
    }
}

/// Finds the first occurrence of `b` at or after `pos`.
fn find_byte(data: &[u8], pos: usize, b: u8) -> (r: Option<usize>)
    ensures
        match r {
            None => spec_find_byte(data@, pos as int, b) is None,
            Some(i) => spec_find_byte(data@, pos as int, b) == Some(i as int) && pos <= i
                < data@.len(),
        },
{
    let n = data.len();
    if pos >= n {
        proof {
            lemma_find_byte(data@, pos as int, b);
        }
        return None;
    }
    let mut i: usize = pos;
    while i < n
        invariant
            i >= pos,
            i <= n,
            n == data@.len(),
            forall|j: int| pos <= j < i ==> data@[j] != b,
        decreases n - i,
    {
        if data[i] == b {
            proof {
                lemma_find_byte(data@, pos as int, b);
            }
            return Some(i);
        }
        i += 1;
    }
    proof {
        lemma_find_byte(data@, pos as int, b);
    }
    None
}

/// Reads tree entries from `pos` to the end of the buffer:
/// `"<mode> <name>\0"` then 20 raw hash bytes, repeatedly; a missing
/// delimiter or a truncated hash is a format failure.
pub open spec fn spec_parse_tree(content: Seq<u8>, pos: int) -> Result<Seq<TreeEntryV>, GitError>
    decreases content.len() - pos,
    via spec_parse_tree_dec
{
    if pos < 0 {
        Err(GitError::Format)
    } else if pos >= content.len() {
        Ok(seq![])
    } else {
        match spec_find_byte(content, pos, 32) {
            None => Err(GitError::Format),
            Some(sp) => {
                let mode = lossy_decode(content.subrange(pos, sp));
                match spec_find_byte(content, sp + 1, 0) {
                    None => Err(GitError::Format),
                    Some(nul) => {
                        let name = lossy_decode(content.subrange(sp + 1, nul));
                        if nul + 21 > content.len() {
                            Err(GitError::Format)
                        } else {
                            let hash = spec_hex_encode(content.subrange(nul + 1, nul + 21));
                            match spec_parse_tree(content, nul + 21) {
                                Err(e) => Err(e),
                                Ok(rest) => Ok(seq![TreeEntryV { mode, name, hash }] + rest),
                            }
                        }
                    },
                }
            },
        }
    }
}

#[via_fn]
proof fn spec_parse_tree_dec(content: Seq<u8>, pos: int) {
    if 0 <= pos < content.len() {
        lemma_find_byte(content, pos, 32);
        let sp = spec_find_byte(content, pos, 32);
        if sp is Some {
            lemma_find_byte(content, sp.unwrap() + 1, 0);
        }
    }
}

/// A line with one trailing carriage return removed.
pub open spec fn spec_strip_cr(l: Seq<char>) -> Seq<char> {
    if l.len() > 0 && l[l.len() - 1] == '\r' {
        l.drop_last()
    } else {
        l
    }
}

/// The lines of a text: split at newlines, each with one trailing
/// carriage return removed; a trailing newline closes the last line.
pub open spec fn spec_split_lines(s: Seq<char>) -> Seq<Seq<char>>
    decreases s.len(),
    via spec_split_lines_dec
{
    if s.len() == 0 {
        seq![]
    } else {
        match crate::text::spec_find_char(s, '\n') {
            None => seq![spec_strip_cr(s)],
            Some(i) => seq![spec_strip_cr(s.take(i))] + spec_split_lines(s.skip(i + 1)),
        }
    }
}

#[via_fn]
proof fn spec_split_lines_dec(s: Seq<char>) {
    if s.len() > 0 {
        crate::text::lemma_find_char(s, '\n');
    }
}

/// Splits a text into its lines.
fn split_lines(s: &str) -> (r: Vec<String>)
    ensures
        r.deep_view() == spec_split_lines(s@),
    decreases s@.len(),
{
    let n = s.unicode_len();
    if n == 0 {
        let r: Vec<String> = Vec::new();
        assert(r.deep_view() =~= spec_split_lines(s@));
        return r;
    }
    match crate::text::find_char(s, '\n') {
        None => {
            let mut line = String::from_str(s);
            if n > 0 && s.get_char(n - 1) == '\r' {
                line = substring(s, 0, n - 1);
                assert(s@.subrange(0, n as int - 1) =~= spec_strip_cr(s@));
            }
            let mut r: Vec<String> = Vec::new();
            r.push(line);
            assert(r.deep_view() =~= spec_split_lines(s@));
            r
        },
        Some(i) => {
            proof {
                crate::text::lemma_find_char(s@, '\n');
            }
            let head = s.substring_char(0, i);
            let hn = head.unicode_len();
            let mut line = String::from_str(head);
            if hn > 0 && head.get_char(hn - 1) == '\r' {
                line = substring(head, 0, hn - 1);
            }
            proof {
                assert(head@ == s@.subrange(0, i as int));
                assert(s@.subrange(0, i as int) =~= s@.take(i as int));
                if hn > 0 && head@[hn - 1] == '\r' {
                    assert(head@.subrange(0, hn as int - 1) =~= spec_strip_cr(s@.take(i as int)));
                } else {
                    assert(head@ == spec_strip_cr(s@.take(i as int)));
                }
            }
            let mut r: Vec<String> = Vec::new();
            r.push(line);
            let mut rest = split_lines(s.substring_char(i + 1, n));
            let ghost rest_view = rest.deep_view();
            proof {
                assert(s@.subrange(i as int + 1, n as int) =~= s@.skip(i as int + 1));
            }
            r.append(&mut rest);
            proof {
                assert forall|j: int| 0 <= j < r@.len() implies r.deep_view()[j] == (seq![
                    spec_strip_cr(s@.take(i as int)),
                ] + rest_view)[j] by {
                    if j > 0 {
                        assert(r@[j]@ == rest_view[j - 1]);
                    }
                }
                assert(r.deep_view() =~= spec_split_lines(s@));
            }
            r
        },
    }
}

/// The header fields gathered while scanning a commit's lines.
#[verifier::ext_equal]
pub ghost struct ScanAcc {
    pub tree: Seq<char>,
    pub parents: Seq<Seq<char>>,
    pub author: Seq<char>,
    pub committer: Seq<char>,
    pub msg_start: int,
}

/// Scans commit lines from `i`: `tree`, `parent`, `author` and
/// `committer` headers fill the record, a blank line ends the header and
/// starts the message.
pub open spec fn spec_scan_headers(lines: Seq<Seq<char>>, i: int, acc: ScanAcc) -> ScanAcc
    decreases lines.len() - i,
{
    if i < 0 || i >= lines.len() {
        acc
    } else {
        let l = lines[i];
        if spec_has_prefix(l, "tree "@) {
            spec_scan_headers(lines, i + 1, ScanAcc { tree: l.skip("tree "@.len() as int), ..acc })
        } else if spec_has_prefix(l, "parent "@) {
            spec_scan_headers(
                lines,
                i + 1,
                ScanAcc { parents: acc.parents.push(l.skip("parent "@.len() as int)), ..acc },
            )
        } else if spec_has_prefix(l, "author "@) {
            spec_scan_headers(
                lines,
                i + 1,
                ScanAcc { author: l.skip("author "@.len() as int), ..acc },
            )
        } else if spec_has_prefix(l, "committer "@) {
            spec_scan_headers(
                lines,
                i + 1,
                ScanAcc { committer: l.skip("committer "@.len() as int), ..acc },
            )
        } else if l.len() == 0 {
            ScanAcc { msg_start: i + 1, ..acc }
        } else {
            spec_scan_headers(lines, i + 1, acc)
        }
    }
}

/// Lines from `start` joined back with newlines.
pub open spec fn spec_join_nl(ls: Seq<Seq<char>>) -> Seq<char>
    decreases ls.len(),
{
    if ls.len() == 0 {
        seq![]
    } else if ls.len() == 1 {
        ls[0]
    } else {
        ls[0] + "\n"@ + spec_join_nl(ls.drop_first())
    }
}

/// Joins `lines[start..]` with newlines.
fn join_lines(lines: &Vec<String>, start: usize) -> (r: String)
    requires
        start <= lines@.len(),
    ensures
        r@ == spec_join_nl(lines.deep_view().skip(start as int)),
    decreases lines@.len() - start,
{
    let n = lines.len();
    if start >= n {
        let r = String::new();
        assert(lines.deep_view().skip(start as int) =~= Seq::<Seq<char>>::empty());
        r
    } else if start == n - 1 {
        assert(lines.deep_view().skip(start as int).len() == 1);
        assert(lines.deep_view().skip(start as int)[0] == lines@[start as int]@);
        lines[start].clone()
    } else {
        let rest = join_lines(lines, start + 1);
        let mut r = lines[start].clone();
        r.append("\n");
        r.append(rest.as_str());
        proof {
            assert(lines.deep_view().skip(start as int)[0] == lines@[start as int]@);
            assert(lines.deep_view().skip(start as int).drop_first() =~= lines.deep_view().skip(
                start as int + 1,
            ));
        }
        r
    }
}

/// Ten to the `n`.
pub open spec fn pow10(n: nat) -> int
    decreases n,
{
    if n == 0 {
        1
    } else {
        10 * pow10((n - 1) as nat)
    }
}

/// Whether every character is a decimal digit, and there is at least
/// one.
pub open spec fn spec_all_digits(s: Seq<char>) -> bool {
    s.len() > 0 && (forall|i: int| 0 <= i < s.len() ==> 48 <= (#[trigger] s[i]) as int <= 57)
}

/// The number the decimal digits denote.
pub open spec fn spec_dec_val(s: Seq<char>) -> int
    decreases s.len(),
{
    if s.len() == 0 {
        0
    } else {
        spec_dec_val(s.drop_last()) * 10 + (s[s.len() - 1] as int - 48)
    }
}

/// A digit string denotes less than ten to its length.
proof fn lemma_dec_val_bound(s: Seq<char>)
    requires
        forall|i: int| 0 <= i < s.len() ==> 48 <= (#[trigger] s[i]) as int <= 57,
    ensures
        0 <= spec_dec_val(s) < pow10(s.len()),
    decreases s.len(),
{
    if s.len() > 0 {
        assert(forall|i: int| 0 <= i < s.len() - 1 ==> #[trigger] s.drop_last()[i] == s[i]);
        lemma_dec_val_bound(s.drop_last());
    }
}

/// The zone offset in minutes a `+HHMM`/`-HHMM` token denotes, if well
/// formed.
pub open spec fn spec_parse_tz(s: Seq<char>) -> Option<int> {
    if s.len() == 5 && (s[0] == '+' || s[0] == '-') && (forall|i: int|
        1 <= i < 5 ==> 48 <= (#[trigger] s[i]) as int <= 57) {
        let hh = (s[1] as int - 48) * 10 + (s[2] as int - 48);
        let mm = (s[3] as int - 48) * 10 + (s[4] as int - 48);
        if s[0] == '+' {
            Some(hh * 60 + mm)
        } else {
            Some(-(hh * 60 + mm))
        }
    } else {
        None
    }
}

/// The timestamp an identity line embeds: its second-to-last
/// space-separated token as epoch seconds (at most 18 digits) and its
/// last as a zone offset, when both are well formed.
pub open spec fn spec_ident_time(line: Seq<char>) -> Option<GitTime> {
    let toks = crate::text::spec_tokens(line);
    if toks.len() >= 2 && spec_all_digits(toks[toks.len() - 2]) && toks[toks.len() - 2].len() <= 18
        && spec_parse_tz(toks[toks.len() - 1]) is Some {
        Some(
            GitTime {
                seconds: spec_dec_val(toks[toks.len() - 2]) as i64,
                offset_minutes: spec_parse_tz(toks[toks.len() - 1]).unwrap() as i32,
            },
        )
    } else {
        None
    }
}

/// Reads the embedded timestamp and zone offset out of an identity
/// line.
fn parse_ident_time(line: &str) -> (r: Option<GitTime>)
    ensures
        r == spec_ident_time(line@),
{
    let tokens = crate::text::split_tokens(line);
    let ghost toks = crate::text::spec_tokens(line@);
    let tn = tokens.len();
    if tn < 2 {
        return None;
    }
    let ts = &tokens[tn - 2];
    let tz = &tokens[tn - 1];
    proof {
        assert(ts@ == toks[toks.len() - 2]);
        assert(tz@ == toks[toks.len() - 1]);
    }
    let ts_str = ts.as_str();
    let m = ts_str.unicode_len();
    if m == 0 || m > 18 {
        return None;
    }
    let mut value: i64 = 0;
    let mut i: usize = 0;
    while i < m
        invariant
            i <= m,
            m == ts_str@.len(),
            1 <= m <= 18,
            toks == crate::text::spec_tokens(line@),
            toks.len() >= 2,
            ts_str@ == toks[toks.len() - 2],
            tz@ == toks[toks.len() - 1],
            forall|j: int| 0 <= j < i ==> 48 <= (#[trigger] ts_str@[j]) as int <= 57,
            value == spec_dec_val(ts_str@.take(i as int)),
            0 <= value < pow10(i as nat),
        decreases m - i,
    {
        let c = ts_str.get_char(i);
        let cv = c as u32;
        if !(48 <= cv && cv <= 57) {
            proof {
                assert(!(48 <= ts_str@[i as int] as int && ts_str@[i as int] as int <= 57));
                assert(!spec_all_digits(ts_str@));
            }
            return None;
        }
        proof {
            lemma_pow10_17();
            lemma_pow10_mono(i as nat, 17);
            assert(ts_str@.take(i as int + 1).drop_last() =~= ts_str@.take(i as int));
            assert(ts_str@.take(i as int + 1)[i as int] == ts_str@[i as int]);
        }
        value = value * 10 + ((cv - 48) as i64);
        i += 1;
    }
    proof {
        assert(ts_str@.take(m as int) =~= ts_str@);
        assert(spec_all_digits(ts_str@));
    }
    let tz_str = tz.as_str();
    let zn = tz_str.unicode_len();
    if zn != 5 {
        return None;
    }
    let sign = tz_str.get_char(0);
    if !(sign == '+' || sign == '-') {
        return None;
    }
    let c1 = tz_str.get_char(1) as u32;
    let c2 = tz_str.get_char(2) as u32;
    let c3 = tz_str.get_char(3) as u32;
    let c4 = tz_str.get_char(4) as u32;
    if !(48 <= c1 && c1 <= 57 && 48 <= c2 && c2 <= 57 && 48 <= c3 && c3 <= 57 && 48 <= c4 && c4
        <= 57) {
        return None;
    }
    let hh = (c1 - 48) * 10 + (c2 - 48);
    let mm = (c3 - 48) * 10 + (c4 - 48);
    let magnitude = (hh * 60 + mm) as i32;
    let offset_minutes: i32 = if sign == '+' {
        magnitude
    } else {
        -magnitude
    };
    Some(GitTime { seconds: value, offset_minutes })
}

/// The concrete value of ten to the seventeenth.
proof fn lemma_pow10_17()
    ensures
        pow10(17) == 100000000000000000,
{
    assert(pow10(0) == 1);
    assert(pow10(1) == 10);
    assert(pow10(2) == 100);
    assert(pow10(3) == 1000);
    assert(pow10(4) == 10000);
    assert(pow10(5) == 100000);
    assert(pow10(6) == 1000000);
    assert(pow10(7) == 10000000);
    assert(pow10(8) == 100000000);
    assert(pow10(9) == 1000000000);
    assert(pow10(10) == 10000000000);
    assert(pow10(11) == 100000000000);
    assert(pow10(12) == 1000000000000);
    assert(pow10(13) == 10000000000000);
    assert(pow10(14) == 100000000000000);
    assert(pow10(15) == 1000000000000000);
    assert(pow10(16) == 10000000000000000);
    assert(pow10(17) == 100000000000000000);
}

/// Ten-to-the grows with the exponent.
proof fn lemma_pow10_mono(a: nat, b: nat)
    requires
        a <= b,
    ensures
        pow10(a) <= pow10(b),
        pow10(a) >= 1,
    decreases b,
{
    if a < b {
        lemma_pow10_mono(a, (b - 1) as nat);
    } else if b > 0 {
        lemma_pow10_mono((a - 1) as nat, (b - 1) as nat);
    }
}

/// The commit record a byte buffer denotes: its lines are scanned for
/// the header fields, the remainder after the first blank line is the
/// message, and the author and committer timestamps are parsed out of
/// their lines.
pub open spec fn spec_parse_commit(content: Seq<u8>) -> CommitV {
    let lines = spec_split_lines(lossy_decode(content));
    let acc0 = ScanAcc {
        tree: seq![],
        parents: seq![],
        author: seq![],
        committer: seq![],
        msg_start: 0,
    };
    let acc = spec_scan_headers(lines, 0, acc0);
    CommitV {
        tree: acc.tree,
        parents: acc.parents,
        author: acc.author,
        committer: acc.committer,
        message: spec_join_nl(lines.skip(acc.msg_start)),
        author_date: spec_ident_time(acc.author),
        commit_date: spec_ident_time(acc.committer),
    }
}

/// Parses and serializes the typed object records.
pub struct ObjectHandler;

impl Default for ObjectHandler {
    fn default() -> (r: Self)
        ensures
            r == (ObjectHandler {  }),
    {
        Self::new()
    }
}

impl ObjectHandler {
    pub fn new() -> Self {
        Self
    }

    /// Computes the content address of an object: SHA-1 over
    /// `"<type> <size>\0"` plus the content, rendered in hexadecimal.
    /// Hashing itself never fails.
    pub fn calculate_hash(&self, obj_type: ObjectType, content: &[u8]) -> (r: Result<
        String,
        GitError,
    >)
        ensures
            r matches Ok(id) && id@ == spec_object_id(obj_type, content@),
    {
        let mut hashed: Vec<u8> = Vec::new();
        push_type_name(&mut hashed, obj_type);
        hashed.push(32);
        let mut dec = dec_bytes(content.len());
        hashed.append(&mut dec);
        hashed.push(0);
        let ghost header = spec_object_header(obj_type, content@.len());
        assert(hashed@ =~= header);
        let mut body = slice_to_vec(content);
        hashed.append(&mut body);
        assert(hashed@ =~= header + content@);
        let digest = sha1_digest(hashed.as_slice());
        let id = hex_encode(digest.as_slice());
        Ok(id)
    }

    /// Wraps raw content of a known type as a content-addressed object.
    pub fn parse_object(&self, obj_type: ObjectType, content: &[u8]) -> (r: Result<
        GitObject,
        GitError,
    >)
        ensures
            r matches Ok(o) && o@ == (GitObjectV {
                id: spec_object_id(obj_type, content@),
                obj_type,
                size: content@.len(),
                content: content@,
            }),
    {
        let id = match self.calculate_hash(obj_type, content) {
            Ok(id) => id,
            Err(e) => return Err(e),
        };
        Ok(GitObject { id, obj_type, size: content.len(), content: slice_to_vec(content) })
    }

    /// Creates a content-addressed blob object.
    pub fn create_blob(&self, content: &[u8]) -> (r: Result<GitObject, GitError>)
        ensures
            r matches Ok(o) && o@ == (GitObjectV {
                id: spec_object_id(ObjectType::Blob, content@),
                obj_type: ObjectType::Blob,
                size: content@.len(),
                content: content@,
            }),
    {
        self.parse_object(ObjectType::Blob, content)
    }

    /// Wraps raw content as a blob record.
    pub fn parse_blob(&self, content: &[u8]) -> (r: Result<Blob, GitError>)
        ensures
            r matches Ok(b) && b.content@ == content@,
    {
        Ok(Blob { content: slice_to_vec(content) })
    }

    /// Serializes a commit to the exact byte layout its id hashes over.
    pub fn serialize_commit(&self, commit: &Commit) -> (r: Vec<u8>)
        ensures
            r@ == spec_serialize_commit(commit@),
    {
        let mut out: Vec<u8> = Vec::new();
        let mut part = "tree ".as_bytes_vec();
        out.append(&mut part);
        let mut part = commit.tree.as_str().as_bytes_vec();
        out.append(&mut part);
        out.push(10);
        let ghost prefix = encode_utf8("tree "@) + encode_utf8(commit@.tree) + seq![10u8];
        assert(out@ =~= prefix);
        let n = commit.parents.len();
        let mut i: usize = 0;
        proof {
            assert(commit@.parents.take(0) =~= Seq::<Seq<char>>::empty());
            assert(out@ =~= prefix + spec_parent_lines(commit@.parents.take(0)));
        }
        while i < n
            invariant
                i <= n,
                n == commit.parents@.len(),
                commit@.parents.len() == commit.parents@.len(),
                prefix == encode_utf8("tree "@) + encode_utf8(commit@.tree) + seq![10u8],
                forall|j: int|
                    0 <= j < n ==> (#[trigger] commit@.parents[j]) == commit.parents@[j]@,
                out@ == prefix + spec_parent_lines(commit@.parents.take(i as int)),
            decreases n - i,
        {
            let mut part = "parent ".as_bytes_vec();
            out.append(&mut part);
            let mut part = commit.parents[i].as_str().as_bytes_vec();
            out.append(&mut part);
            out.push(10);
            proof {
                lemma_parent_lines_push(commit@.parents.take(i as int), commit@.parents[i as int]);
                assert(commit@.parents.take(i as int + 1) =~= commit@.parents.take(
                    i as int,
                ).push(commit@.parents[i as int]));
                assert(out@ =~= prefix + spec_parent_lines(commit@.parents.take(i as int + 1)));
            }
            i += 1;
        }
        proof {
            assert(commit@.parents.take(n as int) =~= commit@.parents);
        }
        let mut part = "author ".as_bytes_vec();
        out.append(&mut part);
        let mut part = commit.author.as_str().as_bytes_vec();
        out.append(&mut part);
        out.push(10);
        let mut part = "committer ".as_bytes_vec();
        out.append(&mut part);
        let mut part = commit.committer.as_str().as_bytes_vec();
        out.append(&mut part);
        out.push(10);
        out.push(10);
        let mut part = commit.message.as_str().as_bytes_vec();
        out.append(&mut part);
        assert(out@ =~= spec_serialize_commit(commit@));
        out
    }

    /// Serializes a tree: `"<mode> <name>\0"` then the 20 raw hash
    /// bytes, for each entry in order; an entry whose hash is not valid
    /// hexadecimal contributes no hash bytes.
    pub fn serialize_tree(&self, tree: &Tree) -> (r: Vec<u8>)
        ensures
            r@ == spec_serialize_tree(tree_entry_views(tree.entries@)),
    {
        let ghost views = tree_entry_views(tree.entries@);
        let mut out: Vec<u8> = Vec::new();
        let n = tree.entries.len();
        let mut i: usize = 0;
        proof {
            assert(views.take(0) =~= Seq::<TreeEntryV>::empty());
            assert(out@ =~= spec_serialize_tree(views.take(0)));
        }
        while i < n
            invariant
                i <= n,
                n == tree.entries@.len(),
                views == tree_entry_views(tree.entries@),
                views.len() == n,
                forall|j: int| 0 <= j < n ==> (#[trigger] views[j]) == tree.entries@[j]@,
                out@ == spec_serialize_tree(views.take(i as int)),
            decreases n - i,
        {
            let entry = &tree.entries[i];
            let mut part = entry.mode.as_str().as_bytes_vec();
            out.append(&mut part);
            out.push(32);
            let mut part = entry.name.as_str().as_bytes_vec();
            out.append(&mut part);
            out.push(0);
            match hex_decode(entry.hash.as_str()) {
                Some(mut raw) => {
                    out.append(&mut raw);
                },
                None => {},
            }
            proof {
                lemma_tree_bytes_push(views.take(i as int), views[i as int]);
                assert(views.take(i as int + 1) =~= views.take(i as int).push(views[i as int]));
                assert(out@ =~= spec_serialize_tree(views.take(i as int + 1)));
            }
            i += 1;
        }
        proof {
            assert(views.take(n as int) =~= views);
        }
        out
    }

    /// Parses a tree's byte serialization into its entries, tracking the
    /// byte offset exactly and failing on a missing delimiter or a
    /// truncated hash.
    pub fn parse_tree(&self, content: &[u8]) -> (r: Result<Tree, GitError>)
        ensures
            r matches Ok(t) ==> spec_parse_tree(content@, 0) == Ok::<Seq<TreeEntryV>, GitError>(
                tree_entry_views(t.entries@),
            ),
            r matches Err(e) ==> spec_parse_tree(content@, 0) == Err::<Seq<TreeEntryV>, GitError>(
                e,
            ),
    {
        let mut entries: Vec<TreeEntry> = Vec::new();
        let mut pos: usize = 0;
        while pos < content.len()
            invariant
                pos <= content@.len(),
                match spec_parse_tree(content@, pos as int) {
                    Ok(rest) => spec_parse_tree(content@, 0) == Ok::<Seq<TreeEntryV>, GitError>(
                        tree_entry_views(entries@) + rest,
                    ),
                    Err(e) => spec_parse_tree(content@, 0) == Err::<Seq<TreeEntryV>, GitError>(e),
                },
            decreases content@.len() - pos,
        {
            let sp = match find_byte(content, pos, 32) {
                Some(x) => x,
                None => return Err(GitError::Format),
            };
            let mode = bytes_to_string_lossy(&content[pos..sp]);
            let nul = match find_byte(content, sp + 1, 0) {
                Some(x) => x,
                None => return Err(GitError::Format),
            };
            let name = bytes_to_string_lossy(&content[sp + 1..nul]);
            if content.len() - (nul + 1) < 20 {
                return Err(GitError::Format);
            }
            let hash = hex_encode(&content[nul + 1..nul + 21]);
            let ghost entries_old = entries@;
            let ghost ev = TreeEntryV {
                mode: lossy_decode(content@.subrange(pos as int, sp as int)),
                name: lossy_decode(content@.subrange(sp as int + 1, nul as int)),
                hash: spec_hex_encode(content@.subrange(nul as int + 1, nul as int + 21)),
            };
            entries.push(TreeEntry { mode, name, hash });
            proof {
                assert(tree_entry_views(entries@) =~= tree_entry_views(entries_old).push(ev));
            }
            pos = nul + 21;
            proof {
                let after = spec_parse_tree(content@, pos as int);
                if after is Ok {
                    let rest = after.unwrap();
                    assert(tree_entry_views(entries_old) + (seq![ev] + rest) =~= tree_entry_views(
                        entries@,
                    ) + rest);
                }
            }
        }
        proof {
            assert(spec_parse_tree(content@, pos as int) == Ok::<Seq<TreeEntryV>, GitError>(
                seq![],
            ));
            assert(tree_entry_views(entries@) + seq![] =~= tree_entry_views(entries@));
        }
        Ok(Tree { entries })
    }

    /// Parses a commit's byte serialization: `tree`, `parent`, `author`
    /// and `committer` header lines up to the first blank line, the
    /// remainder as the message, and the timestamps embedded in the
    /// identity lines parsed out and preserved.  Malformed header lines
    /// are skipped, so parsing itself never fails.
    pub fn parse_commit(&self, content: &[u8]) -> (r: Result<Commit, GitError>)
        ensures
            r matches Ok(c) && c@ == spec_parse_commit(content@),
    {
        let text = bytes_to_string_lossy(content);
        let lines = split_lines(text.as_str());
        let ghost lv = spec_split_lines(lossy_decode(content@));
        let ghost acc0 = ScanAcc {
            tree: seq![],
            parents: seq![],
            author: seq![],
            committer: seq![],
            msg_start: 0,
        };
        let mut tree = String::new();
        let mut parents: Vec<String> = Vec::new();
        let mut author = String::new();
        let mut committer = String::new();
        let mut msg_start: usize = 0;
        let mut broke = false;
        let n = lines.len();
        let mut i: usize = 0;
        proof {
            assert(parents.deep_view() =~= Seq::<Seq<char>>::empty());
            assert(acc0 =~= (ScanAcc {
                tree: tree@,
                parents: parents.deep_view(),
                author: author@,
                committer: committer@,
                msg_start: msg_start as int,
            }));
        }
        while i < n && !broke
            invariant
                i <= n,
                n == lines@.len(),
                lv == lines.deep_view(),
                lv == spec_split_lines(lossy_decode(content@)),
                lv.len() == n,
                acc0 == (ScanAcc {
                    tree: seq![],
                    parents: seq![],
                    author: seq![],
                    committer: seq![],
                    msg_start: 0,
                }),
                msg_start <= n,
                !broke ==> msg_start == 0,
                !broke ==> spec_scan_headers(lv, 0, acc0) == spec_scan_headers(
                    lv,
                    i as int,
                    ScanAcc {
                        tree: tree@,
                        parents: parents.deep_view(),
                        author: author@,
                        committer: committer@,
                        msg_start: msg_start as int,
                    },
                ),
                broke ==> spec_scan_headers(lv, 0, acc0) == (ScanAcc {
                    tree: tree@,
                    parents: parents.deep_view(),
                    author: author@,
                    committer: committer@,
                    msg_start: msg_start as int,
                }),
            decreases n - i,
        {
            let ghost acc_before = ScanAcc {
                tree: tree@,
                parents: parents.deep_view(),
                author: author@,
                committer: committer@,
                msg_start: msg_start as int,
            };
            let line = &lines[i];
            let ls = line.as_str();
            let nl = ls.unicode_len();
            proof {
                assert(ls@ == lv[i as int]);
            }
            if str_starts_with(ls, "tree ") {
                proof {
                    reveal_strlit("tree ");
                }
                tree = substring(ls, 5, nl);
            } else if str_starts_with(ls, "parent ") {
                proof {
                    reveal_strlit("parent ");
                }
                let ghost parents_old = parents.deep_view();
                parents.push(substring(ls, 7, nl));
                proof {
                    assert(parents.deep_view() =~= parents_old.push(
                        lv[i as int].skip("parent "@.len() as int),
                    ));
                }
            } else if str_starts_with(ls, "author ") {
                proof {
                    reveal_strlit("author ");
                }
                author = substring(ls, 7, nl);
            } else if str_starts_with(ls, "committer ") {
                proof {
                    reveal_strlit("committer ");
                }
                committer = substring(ls, 10, nl);
            } else if nl == 0 {
                msg_start = i + 1;
                broke = true;
            }
            proof {
                let acc_after = ScanAcc {
                    tree: tree@,
                    parents: parents.deep_view(),
                    author: author@,
                    committer: committer@,
                    msg_start: msg_start as int,
                };
                if broke {
                    assert(spec_scan_headers(lv, i as int, acc_before) == acc_after);
                } else {
                    assert(spec_scan_headers(lv, i as int, acc_before) == spec_scan_headers(
                        lv,
                        i as int + 1,
                        acc_after,
                    ));
                }
            }
            i += 1;
        }
        proof {
            if !broke {
                assert(spec_scan_headers(
                    lv,
                    i as int,
                    ScanAcc {
                        tree: tree@,
                        parents: parents.deep_view(),
                        author: author@,
                        committer: committer@,
                        msg_start: msg_start as int,
                    },
                ) == (ScanAcc {
                    tree: tree@,
                    parents: parents.deep_view(),
                    author: author@,
                    committer: committer@,
                    msg_start: msg_start as int,
                }));
            }
        }
        let message = join_lines(&lines, msg_start);
        let author_date = parse_ident_time(author.as_str());
        let commit_date = parse_ident_time(committer.as_str());
        Ok(Commit { tree, parents, author, committer, message, author_date, commit_date })
    }

    /// Creates a content-addressed commit object from a commit record.
    pub fn create_commit(&self, commit: &Commit) -> (r: Result<GitObject, GitError>)
        ensures
            r matches Ok(o) && o@ == (GitObjectV {
                id: spec_object_id(ObjectType::Commit, spec_serialize_commit(commit@)),
                obj_type: ObjectType::Commit,
                size: spec_serialize_commit(commit@).len(),
                content: spec_serialize_commit(commit@),
            }),
    {
        let content = self.serialize_commit(commit);
        self.parse_object(ObjectType::Commit, content.as_slice())
    }

    /// Creates a content-addressed tree object from a tree record.
    pub fn create_tree(&self, tree: &Tree) -> (r: Result<GitObject, GitError>)
        ensures
            r matches Ok(o) && o@ == (GitObjectV {
                id: spec_object_id(
                    ObjectType::Tree,
                    spec_serialize_tree(tree_entry_views(tree.entries@)),
                ),
                obj_type: ObjectType::Tree,
                size: spec_serialize_tree(tree_entry_views(tree.entries@)).len(),
                content: spec_serialize_tree(tree_entry_views(tree.entries@)),
            }),
    {
        let content = self.serialize_tree(tree);
        self.parse_object(ObjectType::Tree, content.as_slice())
    }
}

} // verus!
