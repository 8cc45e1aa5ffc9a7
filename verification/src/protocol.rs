//! The wire protocol: pkt-line framing, capability parsing, ref
//! advertisements, want/have negotiation lines, and ACK/NAK responses.

use vstd::prelude::*;
use vstd::string::*;
use vstd::utf8::{valid_utf8, decode_utf8, encode_utf8, is_ascii_chars};
use crate::{GitError, GitObject, PackEntry};
use crate::encoding::{is_hex_byte, hex_byte_val, spec_hex4, parse_hex_digit, push_hex4, lemma_hex4_round_trip};
use crate::text::{bytes_to_string, spec_find_char, find_char, rfind_char, spec_rfind_char, spec_tokens, split_tokens, substring, lemma_find_char};

verus! {

/// Reads pkt-line frames from `pos` on: a four-digit hexadecimal length
/// counts itself and the payload; length zero is a flush that ends the
/// sequence, lengths 1..3 are invalid, and a frame must lie inside the
/// buffer.  A buffer may end without a flush.
pub open spec fn spec_pkt_payloads(data: Seq<u8>, pos: int) -> Result<Seq<Seq<u8>>, GitError>
    decreases data.len() - pos,
{
    if pos < 0 {
        Err(GitError::Format)
    } else if pos >= data.len() {
        Ok(seq![])
    } else if pos + 4 > data.len() {
        Err(GitError::Format)
    } else if !(is_hex_byte(data[pos]) && is_hex_byte(data[pos + 1]) && is_hex_byte(data[pos + 2])
        && is_hex_byte(data[pos + 3])) {
        Err(GitError::Format)
    } else {
        let n = hex_byte_val(data[pos]) * 4096 + hex_byte_val(data[pos + 1]) * 256 + hex_byte_val(
            data[pos + 2],
        ) * 16 + hex_byte_val(data[pos + 3]);
        if n == 0 {
            Ok(seq![])
        } else if n < 4 {
            Err(GitError::Format)
        } else if pos + n > data.len() {
            Err(GitError::Format)
        } else {
            match spec_pkt_payloads(data, pos + n) {
                Err(e) => Err(e),
                Ok(rest) => Ok(seq![data.subrange(pos + 4, pos + n)] + rest),
            }
        }
    }
}

/// Every failure of the frame reader is a format failure.
proof fn lemma_pkt_payloads_err(data: Seq<u8>, pos: int)
    ensures
        spec_pkt_payloads(data, pos) is Err ==> spec_pkt_payloads(data, pos) == Err::<
            Seq<Seq<u8>>,
            GitError,
        >(GitError::Format),
    decreases data.len() - pos,
{
    if 0 <= pos && pos + 4 <= data.len() && is_hex_byte(data[pos]) && is_hex_byte(data[pos + 1])
        && is_hex_byte(data[pos + 2]) && is_hex_byte(data[pos + 3]) {
        let n = hex_byte_val(data[pos]) * 4096 + hex_byte_val(data[pos + 1]) * 256 + hex_byte_val(
            data[pos + 2],
        ) * 16 + hex_byte_val(data[pos + 3]);
        if 4 <= n && pos + n <= data.len() {
            lemma_pkt_payloads_err(data, pos + n);
        }
    }
}

/// A payload with at most one trailing newline removed.
pub open spec fn spec_strip_nl(p: Seq<u8>) -> Seq<u8> {
    if p.len() > 0 && p[p.len() - 1] == 10 {
        p.drop_last()
    } else {
        p
    }
}

/// The text lines a pkt-line buffer carries: its payloads, each with at
/// most one trailing newline stripped and decoded as UTF-8.
pub open spec fn spec_parse_pkt_line(data: Seq<u8>) -> Result<Seq<Seq<char>>, GitError> {
    match spec_pkt_payloads(data, 0) {
        Err(e) => Err(e),
        Ok(ps) => {
            if forall|i: int| 0 <= i < ps.len() ==> valid_utf8(spec_strip_nl(#[trigger] ps[i])) {
                Ok(Seq::new(ps.len(), |i: int| decode_utf8(spec_strip_nl(ps[i]))))
            } else {
                Err(GitError::Format)
            }
        },
    }
}

/// Whether a line fits one pkt-line frame: its bytes, one newline and
/// the four length digits must stay within the largest four-digit
/// length.
pub open spec fn spec_pkt_line_fits(line: Seq<char>) -> bool {
    encode_utf8(line).len() + 5 <= 0xffff
}

/// Whether every line of a sequence fits its frame.
pub open spec fn spec_pkt_lines_ok(lines: Seq<Seq<char>>) -> bool {
    forall|i: int| 0 <= i < lines.len() ==> spec_pkt_line_fits(#[trigger] lines[i])
}

/// The frame of one line: four hexadecimal length digits counting the
/// digits themselves, the UTF-8 bytes and one newline, then those bytes
/// and the newline.
pub open spec fn spec_pkt_frame(line: Seq<char>) -> Seq<u8>
    recommends
        spec_pkt_line_fits(line),
{
    spec_hex4(encode_utf8(line).len() as int + 5) + encode_utf8(line) + seq![10u8]
}

/// The concatenated frames of a sequence of lines, without the closing
/// flush.
pub open spec fn spec_pkt_frames(lines: Seq<Seq<char>>) -> Seq<u8>
    decreases lines.len(),
{
    if lines.len() == 0 {
        seq![]
    } else {
        spec_pkt_frame(lines[0]) + spec_pkt_frames(lines.drop_first())
    }
}

/// A whole pkt-line buffer: each line framed in order, closed by the
/// `"0000"` flush.
pub open spec fn spec_create_pkt_line(lines: Seq<Seq<char>>) -> Seq<u8> {
    spec_pkt_frames(lines) + seq![48u8, 48u8, 48u8, 48u8]
}

/// Appending one line extends the frames by its frame.
proof fn lemma_pkt_frames_push(lines: Seq<Seq<char>>, line: Seq<char>)
    ensures
        spec_pkt_frames(lines.push(line)) == spec_pkt_frames(lines) + spec_pkt_frame(line),
    decreases lines.len(),
{
    if lines.len() == 0 {
        assert(lines.push(line).drop_first() =~= Seq::<Seq<char>>::empty());
        assert(spec_pkt_frames(Seq::<Seq<char>>::empty()) == Seq::<u8>::empty());
        assert(lines.push(line)[0] == line);
        assert(spec_pkt_frames(lines.push(line)) =~= spec_pkt_frames(lines) + spec_pkt_frame(
            line,
        ));
    } else {
        assert(lines.push(line).drop_first() =~= lines.drop_first().push(line));
        lemma_pkt_frames_push(lines.drop_first(), line);
        assert(lines.push(line)[0] == lines[0]);
        assert(spec_pkt_frames(lines.push(line)) == spec_pkt_frame(lines[0]) + spec_pkt_frames(
            lines.drop_first().push(line),
        ));
        assert(spec_pkt_frames(lines.push(line)) =~= spec_pkt_frames(lines) + spec_pkt_frame(
            line,
        ));
    }
}

/// The payload each line is framed with: its UTF-8 bytes and one
/// newline.
pub open spec fn spec_payloads_of(lines: Seq<Seq<char>>) -> Seq<Seq<u8>> {
    lines.map_values(|l: Seq<char>| encode_utf8(l) + seq![10u8])
}

/// Reading frames written for `lines` back out of the buffer yields
/// exactly their payloads.
proof fn lemma_parse_created_frames(lines: Seq<Seq<char>>, data: Seq<u8>, pos: int)
    requires
        0 <= pos,
        pos + spec_create_pkt_line(lines).len() == data.len(),
        data.subrange(pos, data.len() as int) == spec_create_pkt_line(lines),
        spec_pkt_lines_ok(lines),
    ensures
        spec_pkt_payloads(data, pos) == Ok::<Seq<Seq<u8>>, GitError>(spec_payloads_of(lines)),
    decreases lines.len(),
{
    let all = spec_create_pkt_line(lines);
    if lines.len() == 0 {
        assert(data[pos] == 48 && data[pos + 1] == 48 && data[pos + 2] == 48 && data[pos + 3]
            == 48);
        assert(is_hex_byte(48) && hex_byte_val(48) == 0);
        assert(spec_payloads_of(lines) =~= Seq::<Seq<u8>>::empty());
    } else {
        let l0 = lines[0];
        let enc = encode_utf8(l0);
        let k = enc.len() as int;
        let frame = spec_pkt_frame(l0);
        let rest_bytes = spec_create_pkt_line(lines.drop_first());
        assert(spec_pkt_frames(lines) == frame + spec_pkt_frames(lines.drop_first()));
        assert(all =~= frame + rest_bytes);
        assert(spec_pkt_line_fits(l0));
        lemma_hex4_round_trip(k + 5);
        assert forall|i: int| 0 <= i < all.len() implies data[pos + i] == #[trigger] all[i] by {
            assert(data.subrange(pos, data.len() as int)[i] == all[i]);
        }
        assert(frame =~= spec_hex4(k + 5) + enc + seq![10u8]);
        assert(forall|i: int| 0 <= i < frame.len() ==> all[i] == #[trigger] frame[i]);
        assert(forall|i: int| 0 <= i < 4 ==> #[trigger] frame[i] == spec_hex4(k + 5)[i]);
        assert(all[0] == spec_hex4(k + 5)[0] && all[1] == spec_hex4(k + 5)[1] && all[2]
            == spec_hex4(k + 5)[2] && all[3] == spec_hex4(k + 5)[3]);
        assert(data[pos] == spec_hex4(k + 5)[0] && data[pos + 1] == spec_hex4(k + 5)[1] && data[pos
            + 2] == spec_hex4(k + 5)[2] && data[pos + 3] == spec_hex4(k + 5)[3]);
        let n = hex_byte_val(data[pos]) * 4096 + hex_byte_val(data[pos + 1]) * 256 + hex_byte_val(
            data[pos + 2],
        ) * 16 + hex_byte_val(data[pos + 3]);
        assert(n == k + 5);
        assert(pos + n <= data.len());
        assert(data.subrange(pos + 4, pos + n) =~= enc + seq![10u8]) by {
            assert forall|i: int|
                0 <= i < k + 1 implies #[trigger] data.subrange(pos + 4, pos + n)[i] == (enc
                + seq![10u8])[i] by {
                assert(all[4 + i] == frame[4 + i]);
                assert(frame[4 + i] == (enc + seq![10u8])[i]);
                assert(data[pos + (4 + i)] == all[4 + i]);
                assert(data.subrange(pos + 4, pos + n)[i] == data[(pos + 4) + i]);
                assert(pos + (4 + i) == (pos + 4) + i);
            }
        }
        assert(data.subrange(pos + n, data.len() as int) =~= rest_bytes) by {
            assert forall|i: int|
                0 <= i < rest_bytes.len() implies #[trigger] data.subrange(
                pos + n,
                data.len() as int,
            )[i] == rest_bytes[i] by {
                assert(all[frame.len() + i] == rest_bytes[i]);
                assert(data[pos + (frame.len() + i)] == all[frame.len() + i]);
                assert(data.subrange(pos + n, data.len() as int)[i] == data[(pos + n) + i]);
                assert(pos + (frame.len() + i) == (pos + n) + i);
            }
        }
        lemma_parse_created_frames(lines.drop_first(), data, pos + n);
        assert(spec_pkt_payloads(data, pos) == Ok::<Seq<Seq<u8>>, GitError>(
            seq![enc + seq![10u8]] + spec_payloads_of(lines.drop_first()),
        ));
        assert(seq![enc + seq![10u8]] + spec_payloads_of(lines.drop_first()) =~= spec_payloads_of(
            lines,
        ));
    }
}

/// Round trip: parsing a created pkt-line buffer yields the lines that
/// were framed, for any lines that fit a frame and carry no embedded
/// NUL or newline.
pub proof fn lemma_pkt_line_round_trip(lines: Seq<Seq<char>>)
    requires
        spec_pkt_lines_ok(lines),
        forall|i: int, j: int|
            #![auto]
            0 <= i < lines.len() && 0 <= j < lines[i].len() ==> lines[i][j] != '\n' && lines[i][j]
                != '\u{0}',
    ensures
        spec_parse_pkt_line(spec_create_pkt_line(lines)) == Ok::<Seq<Seq<char>>, GitError>(lines),
{
    broadcast use vstd::utf8::encode_utf8_valid_utf8, vstd::utf8::encode_utf8_decode_utf8;

    let data = spec_create_pkt_line(lines);
    assert(data.subrange(0, data.len() as int) =~= data);
    lemma_parse_created_frames(lines, data, 0);
    let ps = spec_payloads_of(lines);
    assert forall|i: int| 0 <= i < ps.len() implies spec_strip_nl(#[trigger] ps[i]) == encode_utf8(
        lines[i],
    ) by {
        assert(ps[i] == encode_utf8(lines[i]) + seq![10u8]);
        assert(ps[i][ps[i].len() - 1] == 10);
        assert(ps[i].drop_last() =~= encode_utf8(lines[i]));
    }
    assert(Seq::new(ps.len(), |i: int| decode_utf8(spec_strip_nl(ps[i]))) =~= lines);
}

/// Capabilities joined with single spaces, as advertised on the first
/// ref line.
pub open spec fn spec_join_caps(caps: Seq<Seq<char>>) -> Seq<char>
    decreases caps.len(),
{
    if caps.len() == 0 {
        seq![]
    } else if caps.len() == 1 {
        caps[0]
    } else {
        caps[0] + seq![' '] + spec_join_caps(caps.drop_first())
    }
}

/// The name/capability split of the first advertised ref line: the part
/// before the first NUL, and the space-separated tokens after it.
pub open spec fn spec_parse_capabilities(line: Seq<char>) -> (Seq<char>, Seq<Seq<char>>) {
    match spec_find_char(line, '\u{0}') {
        None => (line, seq![]),
        Some(i) => (line.take(i), spec_tokens(line.skip(i + 1))),
    }
}

/// The want and have ids of a negotiation request: for each line whose
/// first token is `want` or `have`, its second token, in line order.
pub open spec fn spec_want_have(lines: Seq<Seq<char>>) -> (Seq<Seq<char>>, Seq<Seq<char>>)
    decreases lines.len(),
{
    if lines.len() == 0 {
        (seq![], seq![])
    } else {
        let rest = spec_want_have(lines.drop_first());
        let toks = spec_tokens(lines[0]);
        if toks.len() >= 2 && toks[0] == "want"@ {
            (seq![toks[1]] + rest.0, rest.1)
        } else if toks.len() >= 2 && toks[0] == "have"@ {
            (rest.0, seq![toks[1]] + rest.1)
        } else {
            rest
        }
    }
}

/// The name/target pairs of refs as character sequences.
pub open spec fn ref_pair_views(refs: Seq<(String, String)>) -> Seq<(Seq<char>, Seq<char>)> {
    refs.map_values(|p: (String, String)| (p.0@, p.1@))
}

/// The advertised lines for a ref set: the first ref with the
/// capability list behind a NUL, then each further ref plain; an empty
/// ref set still advertises the capabilities behind the all-zero id
/// placeholder.
pub open spec fn spec_advert_lines(refs: Seq<(Seq<char>, Seq<char>)>, caps: Seq<Seq<char>>) -> Seq<
    Seq<char>,
> {
    if refs.len() == 0 {
        seq![
            "0000000000000000000000000000000000000000 capabilities^{}"@ + "\u{0}"@ + spec_join_caps(
                caps,
            ),
        ]
    } else {
        seq![refs[0].1 + " "@ + refs[0].0 + "\u{0}"@ + spec_join_caps(caps)] + Seq::new(
            (refs.len() - 1) as nat,
            |i: int| refs[i + 1].1 + " "@ + refs[i + 1].0,
        )
    }
}

/// Joins capability names with single spaces.
fn join_caps(caps: &[&str]) -> (r: String)
    ensures
        r@ == spec_join_caps(caps.deep_view()),
    decreases caps@.len(),
{
    if caps.len() == 0 {
        let r = String::new();
        assert(caps.deep_view() =~= Seq::<Seq<char>>::empty());
        r
    } else if caps.len() == 1 {
        String::from_str(caps[0])
    } else {
        let rest_slice = &caps[1..caps.len()];
        let rest = join_caps(rest_slice);
        proof {
            reveal_strlit(" ");
            assert(" "@ =~= seq![' ']);
            assert forall|i: int|
                0 <= i < rest_slice@.len() implies rest_slice.deep_view()[i]
                == caps.deep_view().drop_first()[i] by {
                assert(rest_slice@[i] == caps@[i + 1]);
            }
            assert(rest_slice.deep_view() =~= caps.deep_view().drop_first());
        }
        String::from_str(caps[0]).concat(" ").concat(rest.as_str())
    }
}

/// The Git wire protocol handler.
pub struct ProtocolHandler;

impl ProtocolHandler {
    pub fn new() -> Self {
        Self
    }

    /// Parses a pkt-line buffer into its text lines: repeatedly reads a
    /// four-digit hexadecimal length, stops at a flush, strips at most
    /// one trailing newline from each payload, and decodes it as UTF-8.
    /// Fails on a truncated length, invalid digits, a length of 1..3, a
    /// frame past the end of the buffer, or invalid UTF-8.
    #[verifier::rlimit(100)]
    pub fn parse_pkt_line(&self, data: &[u8]) -> (r: Result<Vec<String>, GitError>)
        ensures
            r matches Ok(v) ==> spec_parse_pkt_line(data@) == Ok::<Seq<Seq<char>>, GitError>(
                v.deep_view(),
            ),
            r matches Err(e) ==> spec_parse_pkt_line(data@) == Err::<Seq<Seq<char>>, GitError>(e),
    {
        let mut lines: Vec<String> = Vec::new();
        let ghost mut payloads: Seq<Seq<u8>> = seq![];
        let mut pos: usize = 0;
        let mut flushed = false;
        while pos < data.len() && !flushed
            invariant
                pos <= data@.len(),
                lines.deep_view().len() == payloads.len(),
                forall|i: int|
                    0 <= i < payloads.len() ==> valid_utf8(spec_strip_nl(#[trigger] payloads[i]))
                        && lines.deep_view()[i] == decode_utf8(spec_strip_nl(payloads[i])),
                !flushed ==> (match spec_pkt_payloads(data@, pos as int) {
                    Ok(rest) => spec_pkt_payloads(data@, 0) == Ok::<Seq<Seq<u8>>, GitError>(
                        payloads + rest,
                    ),
                    Err(e) => spec_pkt_payloads(data@, 0) == Err::<Seq<Seq<u8>>, GitError>(e),
                }),
                flushed ==> spec_pkt_payloads(data@, 0) == Ok::<Seq<Seq<u8>>, GitError>(payloads),
            decreases data@.len() - pos,
        {
            let ghost old_pos = pos as int;
            if data.len() - pos < 4 {
                return Err(GitError::Format);
            }
            let d0 = match parse_hex_digit(data[pos]) {
                Some(v) => v,
                None => return Err(GitError::Format),
            };
            let d1 = match parse_hex_digit(data[pos + 1]) {
                Some(v) => v,
                None => return Err(GitError::Format),
            };
            let d2 = match parse_hex_digit(data[pos + 2]) {
                Some(v) => v,
                None => return Err(GitError::Format),
            };
            let d3 = match parse_hex_digit(data[pos + 3]) {
                Some(v) => v,
                None => return Err(GitError::Format),
            };
            let n: usize = (d0 as usize) * 4096 + (d1 as usize) * 256 + (d2 as usize) * 16
                + (d3 as usize);
            if n == 0 {
                proof {
                    assert(spec_pkt_payloads(data@, pos as int) == Ok::<Seq<Seq<u8>>, GitError>(
                        Seq::<Seq<u8>>::empty(),
                    ));
                    assert(payloads + Seq::<Seq<u8>>::empty() =~= payloads);
                }
                flushed = true;
                pos = pos + 4;
            } else if n < 4 {
                return Err(GitError::Format);
            } else if n > data.len() - pos {
                return Err(GitError::Format);
            } else {
                let mut end = pos + n;
                let ghost payload = data@.subrange(pos as int + 4, pos as int + n);
                if end > pos + 4 && data[end - 1] == 10 {
                    end = end - 1;
                }
                let stripped = &data[pos + 4..end];
                proof {
                    assert(stripped@ =~= spec_strip_nl(payload));
                }
                let line = match bytes_to_string(stripped) {
                    Some(s) => s,
                    None => {
                        proof {
                            lemma_pkt_payloads_err(data@, pos as int + n);
                            if spec_pkt_payloads(data@, pos as int + n) is Ok {
                                let whole = spec_pkt_payloads(data@, 0).unwrap();
                                assert(whole[payloads.len() as int] == payload);
                                assert(!valid_utf8(spec_strip_nl(whole[payloads.len() as int])));
                            }
                        }
                        return Err(GitError::Format);
                    },
                };
                let ghost lines_old = lines.deep_view();
                let ghost payloads_old = payloads;
                lines.push(line);
                proof {
                    assert(lines.deep_view() =~= lines_old.push(line@));
                    payloads = payloads.push(payload);
                }
                pos = pos + n;
                proof {
                    assert(spec_pkt_payloads(data@, old_pos) == (match spec_pkt_payloads(
                        data@,
                        pos as int,
                    ) {
                        Err(e) => Err::<Seq<Seq<u8>>, GitError>(e),
                        Ok(rest) => Ok::<Seq<Seq<u8>>, GitError>(seq![payload] + rest),
                    }));
                    let after = spec_pkt_payloads(data@, pos as int);
                    if after is Ok {
                        let rest = after.unwrap();
                        assert(spec_pkt_payloads(data@, old_pos) == Ok::<Seq<Seq<u8>>, GitError>(
                            seq![payload] + rest,
                        ));
                        assert(spec_pkt_payloads(data@, 0) == Ok::<Seq<Seq<u8>>, GitError>(
                            payloads_old + (seq![payload] + rest),
                        ));
                        assert(payloads_old + (seq![payload] + rest) =~= payloads + rest);
                    }
                }
            }
        }
        proof {
            if !flushed {
                assert(pos == data@.len());
                assert(spec_pkt_payloads(data@, pos as int) == Ok::<Seq<Seq<u8>>, GitError>(
                    seq![],
                ));
                assert(payloads + seq![] =~= payloads);
            }
            assert(spec_pkt_payloads(data@, 0) == Ok::<Seq<Seq<u8>>, GitError>(payloads));
            assert(lines.deep_view() =~= Seq::new(
                payloads.len(),
                |i: int| decode_utf8(spec_strip_nl(payloads[i])),
            ));
        }
        Ok(lines)
    }

    /// Builds a pkt-line buffer: each line framed with a four-digit
    /// hexadecimal length counting the digits, the line's UTF-8 bytes
    /// and one appended newline, closed by the `"0000"` flush.  Fails
    /// exactly when some line is too long for a frame.
    pub fn create_pkt_line(&self, lines: &[&str]) -> (r: Result<Vec<u8>, GitError>)
        ensures
            r is Ok <==> spec_pkt_lines_ok(lines.deep_view()),
            r matches Ok(v) ==> v@ == spec_create_pkt_line(lines.deep_view()),
    {
        let ghost views = lines.deep_view();
        let mut out: Vec<u8> = Vec::new();
        let mut i: usize = 0;
        proof {
            assert(views.take(0) =~= Seq::<Seq<char>>::empty());
        }
        while i < lines.len()
            invariant
                i <= lines@.len(),
                views == lines.deep_view(),
                views.len() == lines@.len(),
                forall|j: int| 0 <= j < views.len() ==> #[trigger] views[j] == lines@[j]@,
                out@ == spec_pkt_frames(views.take(i as int)),
                forall|j: int| 0 <= j < i ==> spec_pkt_line_fits(#[trigger] views[j]),
            decreases lines@.len() - i,
        {
            let line: &str = lines[i];
            let bytes = line.as_bytes_vec();
            if bytes.len() > 0xffff - 5 {
                proof {
                    assert(!spec_pkt_line_fits(views[i as int]));
                }
                return Err(GitError::Format);
            }
            let ghost out_old = out@;
            push_hex4(&mut out, bytes.len() + 5);
            out.extend_from_slice(bytes.as_slice());
            out.push(10);
            proof {
                assert(out@ =~= out_old + spec_pkt_frame(views[i as int]));
                lemma_pkt_frames_push(views.take(i as int), views[i as int]);
                assert(views.take(i as int + 1) =~= views.take(i as int).push(views[i as int]));
            }
            i += 1;
        }
        out.push(48);
        out.push(48);
        out.push(48);
        out.push(48);
        proof {
            assert(views.take(views.len() as int) =~= views);
            assert(out@ =~= spec_create_pkt_line(views));
        }
        Ok(out)
    }

    /// Splits the first advertised ref line at its first NUL into the
    /// ref part and the space-separated capability tokens; a line
    /// without a NUL carries no capabilities.
    pub fn parse_capabilities(&self, line: &str) -> (r: (String, Vec<String>))
        ensures
            r.0@ == spec_parse_capabilities(line@).0,
            r.1.deep_view() == spec_parse_capabilities(line@).1,
    {
        match find_char(line, '\u{0}') {
            None => (String::from_str(line), Vec::new()),
            Some(i) => {
                proof {
                    crate::text::lemma_find_char(line@, '\u{0}');
                }
                let n = line.unicode_len();
                let ref_part = substring(line, 0, i);
                let caps_part = line.substring_char(i + 1, n);
                let caps = split_tokens(caps_part);
                proof {
                    assert(line@.subrange(0, i as int) =~= line@.take(i as int));
                    assert(line@.subrange(i as int + 1, n as int) =~= line@.skip(i as int + 1));
                }
                (ref_part, caps)
            },
        }
    }

    /// Builds the ref advertisement: the first ref line carries the
    /// capability list behind a NUL; an empty ref set advertises the
    /// capabilities behind the all-zero id placeholder so a client can
    /// recognize an empty repository; every further ref is a plain
    /// `"<id> <name>"` line; a flush closes the buffer.  Fails exactly
    /// when a line would overflow its frame.
    pub fn create_ref_advertisement(&self, refs: &[(String, String)], capabilities: &[&str]) -> (r:
        Result<Vec<u8>, GitError>)
        ensures
            r is Ok <==> spec_pkt_lines_ok(
                spec_advert_lines(ref_pair_views(refs@), capabilities.deep_view()),
            ),
            r matches Ok(v) ==> v@ == spec_create_pkt_line(
                spec_advert_lines(ref_pair_views(refs@), capabilities.deep_view()),
            ),
    {
        let ghost target = spec_advert_lines(ref_pair_views(refs@), capabilities.deep_view());
        let caps_str = join_caps(capabilities);
        let mut lines: Vec<String> = Vec::new();
        if refs.len() == 0 {
            let mut line = String::from_str(
                "0000000000000000000000000000000000000000 capabilities^{}",
            );
            line.append("\u{0}");
            line.append(caps_str.as_str());
            lines.push(line);
            assert(lines.deep_view() =~= target);
        } else {
            let r0 = &refs[0];
            let mut line = r0.1.clone();
            line.append(" ");
            line.append(r0.0.as_str());
            line.append("\u{0}");
            line.append(caps_str.as_str());
            lines.push(line);
            let mut i: usize = 1;
            while i < refs.len()
                invariant
                    1 <= i <= refs@.len(),
                    target == spec_advert_lines(ref_pair_views(refs@), capabilities.deep_view()),
                    target.len() == refs@.len(),
                    lines.deep_view().len() == i,
                    forall|j: int| 0 <= j < i ==> lines.deep_view()[j] == target[j],
                decreases refs@.len() - i,
            {
                let rr = &refs[i];
                let mut line = rr.1.clone();
                line.append(" ");
                line.append(rr.0.as_str());
                let ghost lines_old = lines.deep_view();
                lines.push(line);
                proof {
                    assert(lines.deep_view() =~= lines_old.push(line@));
                    assert(target[i as int] == refs@[i as int].1@ + " "@ + refs@[i as int].0@);
                }
                i += 1;
            }
            assert(lines.deep_view() =~= target);
        }
        let mut line_refs: Vec<&str> = Vec::new();
        let mut k: usize = 0;
        while k < lines.len()
            invariant
                k <= lines@.len(),
                lines.deep_view() == target,
                line_refs.deep_view() =~= lines.deep_view().take(k as int),
            decreases lines@.len() - k,
        {
            let ghost old_view = line_refs.deep_view();
            line_refs.push(lines[k].as_str());
            proof {
                assert(line_refs.deep_view() =~= old_view.push(lines@[k as int]@));
                assert(lines.deep_view().take(k as int + 1) =~= lines.deep_view().take(
                    k as int,
                ).push(lines.deep_view()[k as int]));
            }
            k += 1;
        }
        proof {
            assert(line_refs.deep_view() =~= target);
        }
        self.create_pkt_line(line_refs.as_slice())
    }

    /// Collects the object ids of `want` and `have` lines, in order;
    /// other lines are ignored.
    pub fn parse_want_have(&self, pkt_lines: &[String]) -> (r: Result<
        (Vec<String>, Vec<String>),
        GitError,
    >)
        ensures
            r is Ok,
            r matches Ok(p) ==> p.0.deep_view() == spec_want_have(pkt_lines.deep_view()).0
                && p.1.deep_view() == spec_want_have(pkt_lines.deep_view()).1,
    {
        let ghost views = pkt_lines.deep_view();
        let want_word = String::from_str("want");
        let have_word = String::from_str("have");
        let mut wants: Vec<String> = Vec::new();
        let mut haves: Vec<String> = Vec::new();
        let mut i: usize = 0;
        proof {
            assert(views.skip(0) =~= views);
        }
        while i < pkt_lines.len()
            invariant
                i <= pkt_lines@.len(),
                views == pkt_lines.deep_view(),
                views.len() == pkt_lines@.len(),
                want_word@ == "want"@,
                have_word@ == "have"@,
                spec_want_have(views).0 =~= wants.deep_view() + spec_want_have(
                    views.skip(i as int),
                ).0,
                spec_want_have(views).1 =~= haves.deep_view() + spec_want_have(
                    views.skip(i as int),
                ).1,
            decreases pkt_lines@.len() - i,
        {
            let line: &String = &pkt_lines[i];
            let tokens = split_tokens(line.as_str());
            proof {
                assert(views.skip(i as int)[0] == views[i as int]);
                assert(views.skip(i as int).drop_first() =~= views.skip(i as int + 1));
                assert(views[i as int] == pkt_lines@[i as int]@);
            }
            if tokens.len() >= 2 {
                let t0: &String = &tokens[0];
                if t0.eq(&want_word) {
                    let ghost w_old = wants.deep_view();
                    wants.push(tokens[1].clone());
                    proof {
                        assert(tokens.deep_view()[1] == spec_tokens(views[i as int])[1]);
                        assert(wants.deep_view() =~= w_old.push(spec_tokens(views[i as int])[1]));
                        assert(w_old + (seq![spec_tokens(views[i as int])[1]] + spec_want_have(
                            views.skip(i as int + 1),
                        ).0) =~= wants.deep_view() + spec_want_have(views.skip(i as int + 1)).0);
                    }
                } else if t0.eq(&have_word) {
                    let ghost h_old = haves.deep_view();
                    haves.push(tokens[1].clone());
                    proof {
                        assert(tokens.deep_view()[1] == spec_tokens(views[i as int])[1]);
                        assert(haves.deep_view() =~= h_old.push(spec_tokens(views[i as int])[1]));
                        assert(h_old + (seq![spec_tokens(views[i as int])[1]] + spec_want_have(
                            views.skip(i as int + 1),
                        ).1) =~= haves.deep_view() + spec_want_have(views.skip(i as int + 1)).1);
                    }
                }
            }
            i += 1;
        }
        proof {
            assert(views.skip(views.len() as int) =~= Seq::<Seq<char>>::empty());
            assert(wants.deep_view() + seq![] =~= wants.deep_view());
            assert(haves.deep_view() + seq![] =~= haves.deep_view());
        }
        Ok((wants, haves))
    }

    /// Builds the single-line `NAK` response.
    pub fn create_nak(&self) -> (r: Vec<u8>)
        ensures
            r@ == spec_create_pkt_line(seq!["NAK"@]),
    {
        proof {
            reveal_strlit("NAK");
            assert(is_ascii_chars("NAK"@)) by {
                assert(forall|i: int| 0 <= i < 3 ==> ("NAK"@)[i] as int <= 127);
            }
            vstd::utf8::is_ascii_chars_encode_utf8("NAK"@);
        }
        let mut words: Vec<&str> = Vec::new();
        words.push("NAK");
        let ws = words.as_slice();
        proof {
            assert(ws.deep_view() =~= seq!["NAK"@]) by {
                assert(ws@[0] == words@[0]);
            }
        }
        match self.create_pkt_line(ws) {
            Ok(v) => v,
            Err(_) => {
                proof {
                    assert(spec_pkt_lines_ok(seq!["NAK"@])) by {
                        assert(encode_utf8("NAK"@).len() == 3);
                        assert(seq!["NAK"@][0] == "NAK"@);
                        assert(forall|i: int|
                            0 <= i < 1 ==> spec_pkt_line_fits(#[trigger] seq!["NAK"@][i]));
                    }
                    assert(false);
                }
                Vec::new()
            },
        }
    }

    /// Builds the single-line `ACK <id>` response.  Fails exactly when
    /// the id would overflow the line's frame.
    pub fn create_ack(&self, hash: &str) -> (r: Result<Vec<u8>, GitError>)
        ensures
            r is Ok <==> spec_pkt_line_fits("ACK "@ + hash@),
            r matches Ok(v) ==> v@ == spec_create_pkt_line(seq!["ACK "@ + hash@]),
    {
        let line = String::from_str("ACK ").concat(hash);
        let mut words: Vec<&str> = Vec::new();
        words.push(line.as_str());
        let ws = words.as_slice();
        proof {
            assert(ws.deep_view() =~= seq!["ACK "@ + hash@]) by {
                assert(ws@[0] == words@[0]);
            }
            assert(spec_pkt_lines_ok(ws.deep_view()) <==> spec_pkt_line_fits("ACK "@ + hash@)) by {
                assert(ws.deep_view()[0] == "ACK "@ + hash@);
            }
        }
        self.create_pkt_line(ws)
    }
}

impl crate::GitProtocol for ProtocolHandler {
    /// Parses a Git pack file through the pack codec.
    fn parse_pack(&self, data: &[u8]) -> (r: Result<Vec<PackEntry>, GitError>) {
        let parser = crate::pack::PackParser::new();
        parser.parse_pack(data)
    }

    /// Builds a pack file through the pack codec.
    fn create_pack(&self, objects: &[GitObject]) -> (r: Result<Vec<u8>, GitError>) {
        let parser = crate::pack::PackParser::new();
        parser.create_pack(objects)
    }

    /// Parses pkt-line framing into text lines.
    fn parse_pkt_line(&self, data: &[u8]) -> (r: Result<Vec<String>, GitError>) {
        ProtocolHandler::parse_pkt_line(self, data)
    }

    /// Frames text lines as pkt-lines.
    fn create_pkt_line(&self, lines: &[&str]) -> (r: Result<Vec<u8>, GitError>) {
        ProtocolHandler::create_pkt_line(self, lines)
    }
}

impl Default for ProtocolHandler {
    fn default() -> (r: Self)
        ensures
            r == (ProtocolHandler {  }),
    {
        Self::new()
    }
}

/// The states a fetch (upload-pack) exchange moves through.
#[derive(Debug, Clone, Copy, PartialEq, Eq, Structural)]
pub enum FetchState {
    AdvertiseRefs,
    AwaitWantHave,
    Negotiate,
    SendPack,
    Done,
}

/// The states a push (receive-pack) exchange moves through.
#[derive(Debug, Clone, Copy, PartialEq, Eq, Structural)]
pub enum PushState {
    AdvertiseRefs,
    AwaitRefCommandsAndPack,
    UnpackAndApplyRefs,
    SendReportStatus,
    Done,
}

/// The next fetch state: refs are advertised, wants and haves arrive,
/// ACK/NAK rounds repeat until the client is done, the pack is sent,
/// and the exchange ends.
pub open spec fn spec_fetch_step(s: FetchState, client_done: bool) -> FetchState {
    match s {
        FetchState::AdvertiseRefs => FetchState::AwaitWantHave,
        FetchState::AwaitWantHave => FetchState::Negotiate,
        FetchState::Negotiate => if client_done {
            FetchState::SendPack
        } else {
            FetchState::Negotiate
        },
        FetchState::SendPack => FetchState::Done,
        FetchState::Done => FetchState::Done,
    }
}

/// The next push state: refs are advertised, ref commands and the pack
/// arrive, the pack is unpacked and the refs applied, the report goes
/// out, and the exchange ends.
pub open spec fn spec_push_step(s: PushState) -> PushState {
    match s {
        PushState::AdvertiseRefs => PushState::AwaitRefCommandsAndPack,
        PushState::AwaitRefCommandsAndPack => PushState::UnpackAndApplyRefs,
        PushState::UnpackAndApplyRefs => PushState::SendReportStatus,
        PushState::SendReportStatus => PushState::Done,
        PushState::Done => PushState::Done,
    }
}

/// Advances a fetch exchange; `client_done` reports whether the client
/// has ended its ACK/NAK rounds.  The transport performs each state's
/// I/O and feeds the answer back.
pub fn fetch_step(s: FetchState, client_done: bool) -> (r: FetchState)
    ensures
        r == spec_fetch_step(s, client_done),
{
    match s {
        FetchState::AdvertiseRefs => FetchState::AwaitWantHave,
        FetchState::AwaitWantHave => FetchState::Negotiate,
        FetchState::Negotiate => if client_done {
            FetchState::SendPack
        } else {
            FetchState::Negotiate
        },
        FetchState::SendPack => FetchState::Done,
        FetchState::Done => FetchState::Done,
    }
}

/// Advances a push exchange.  The transport performs each state's I/O.
pub fn push_step(s: PushState) -> (r: PushState)
    ensures
        r == spec_push_step(s),
{
    match s {
        PushState::AdvertiseRefs => PushState::AwaitRefCommandsAndPack,
        PushState::AwaitRefCommandsAndPack => PushState::UnpackAndApplyRefs,
        PushState::UnpackAndApplyRefs => PushState::SendReportStatus,
        PushState::SendReportStatus => PushState::Done,
        PushState::Done => PushState::Done,
    }
}

/// Every fetch exchange ends: from any state, four steps with the
/// client done reach the final state, which is absorbing.
pub proof fn lemma_fetch_terminates(s: FetchState)
    ensures
        spec_fetch_step(
            spec_fetch_step(spec_fetch_step(spec_fetch_step(s, true), true), true),
            true,
        ) == FetchState::Done,
        spec_fetch_step(FetchState::Done, true) == FetchState::Done,
{
}

/// The repository path a transport command names: the text between the
/// first and last single quote when two distinct quotes exist, else the
/// second whitespace token with surrounding quotes trimmed.
pub open spec fn spec_extract_repo_path(cmd: Seq<char>) -> Result<Seq<char>, GitError> {
    let first = spec_find_char(cmd, '\'');
    let last = spec_rfind_char(cmd, '\'');
    if first is Some && last is Some && last.unwrap() > first.unwrap() {
        Ok(cmd.subrange(first.unwrap() + 1, last.unwrap()))
    } else {
        let toks = spec_tokens(cmd);
        if toks.len() >= 2 {
            Ok(crate::text::spec_trim_char(toks[1], '\''))
        } else {
            Err(GitError::Format)
        }
    }
}

/// Extracts the repository path from a transport command such as
/// `git-upload-pack '/path/to/repo.git'`.
pub fn extract_repo_path(command: &str) -> (r: Result<String, GitError>)
    ensures
        match r {
            Ok(p) => spec_extract_repo_path(command@) == Ok::<Seq<char>, GitError>(p@),
            Err(e) => spec_extract_repo_path(command@) == Err::<Seq<char>, GitError>(e),
        },
{
    let first = find_char(command, '\'');
    let last = rfind_char(command, '\'');
    match (first, last) {
        (Some(i), Some(j)) if j > i => {
            proof {
                crate::text::lemma_rfind_char(command@, '\'');
            }
            Ok(substring(command, i + 1, j))
        },
        _ => {
            let tokens = split_tokens(command);
            if tokens.len() >= 2 {
                Ok(crate::text::trim_char(tokens[1].as_str(), '\''))
            } else {
                Err(GitError::Format)
            }
        },
    }
}

} // verus!
