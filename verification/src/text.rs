//! Text handling for the wire protocol and the object parsers: byte/string
//! conversions and verified character-level helpers.

use vstd::prelude::*;
use vstd::string::*;
use vstd::utf8::{valid_utf8, decode_utf8};

verus! {

/// Relies on `str::from_utf8`: succeeds exactly on valid UTF-8 and returns
/// the characters those bytes encode.
#[verifier::external_body]
pub fn bytes_to_string(b: &[u8]) -> (r: Option<String>)
    ensures
        r is Some <==> valid_utf8(b@),
        r matches Some(s) ==> s@ == decode_utf8(b@),
{
    match std::str::from_utf8(b) {
        Ok(s) => Some(s.to_string()),
        Err(_) => None,
    }
}

/// What `String::from_utf8_lossy` returns for a byte sequence: a function
/// of the bytes alone.
pub uninterp spec fn lossy_decode(b: Seq<u8>) -> Seq<char>;

/// Relies on `String::from_utf8_lossy`: the result depends on the bytes
/// alone, and valid UTF-8 is decoded unchanged.
#[verifier::external_body]
pub fn bytes_to_string_lossy(b: &[u8]) -> (r: String)
    ensures
        r@ == lossy_decode(b@),
        valid_utf8(b@) ==> r@ == decode_utf8(b@),
{
    String::from_utf8_lossy(b).into_owned()
}

/// The position of the first occurrence of `c` in `s`, if any.
pub open spec fn spec_find_char(s: Seq<char>, c: char) -> Option<int>
    decreases s.len(),
{
    if s.len() == 0 {
        None
    } else if s[0] == c {
        Some(0int)
    } else {
        match spec_find_char(s.drop_first(), c) {
            None => None,
            Some(i) => Some(i + 1),
        }
    }
}

/// The position of the last occurrence of `c` in `s`, if any.
pub open spec fn spec_rfind_char(s: Seq<char>, c: char) -> Option<int>
    decreases s.len(),
{
    if s.len() == 0 {
        None
    } else if s[s.len() - 1] == c {
        Some(s.len() - 1)
    } else {
        spec_rfind_char(s.drop_last(), c)
    }
}

/// What the first-occurrence position means, spelled out.
pub proof fn lemma_find_char(s: Seq<char>, c: char)
    ensures
        match spec_find_char(s, c) {
            None => forall|j: int| 0 <= j < s.len() ==> s[j] != c,
            Some(i) => 0 <= i < s.len() && s[i] == c && (forall|j: int| 0 <= j < i ==> s[j] != c),
        },
    decreases s.len(),
{
    if s.len() > 0 && s[0] != c {
        lemma_find_char(s.drop_first(), c);
        assert(forall|j: int| 1 <= j < s.len() ==> #[trigger] s[j] == s.drop_first()[j - 1]);
    }
}

/// What the last-occurrence position means, spelled out.
pub proof fn lemma_rfind_char(s: Seq<char>, c: char)
    ensures
        match spec_rfind_char(s, c) {
            None => forall|j: int| 0 <= j < s.len() ==> s[j] != c,
            Some(i) => 0 <= i < s.len() && s[i] == c && (forall|j: int| i < j < s.len() ==> s[j]
                != c),
        },
    decreases s.len(),
{
    if s.len() > 0 && s[s.len() - 1] != c {
        lemma_rfind_char(s.drop_last(), c);
        assert(forall|j: int| 0 <= j < s.len() - 1 ==> #[trigger] s[j] == s.drop_last()[j]);
    }
}

/// Finds the first occurrence of `c` in `s`.
pub fn find_char(s: &str, c: char) -> (r: Option<usize>)
    ensures
        match r {
            None => spec_find_char(s@, c) is None,
            Some(i) => spec_find_char(s@, c) == Some(i as int),
        },
{
    let n = s.unicode_len();
    let mut i: usize = 0;
    while i < n
        invariant
            i <= n,
            n == s@.len(),
            forall|j: int| 0 <= j < i ==> s@[j] != c,
        decreases n - i,
    {
        if s.get_char(i) == c {
            proof {
                lemma_find_char(s@, c);
            }
            return Some(i);
        }
        i += 1;
    }
    proof {
        lemma_find_char(s@, c);
    }
    None
}

/// Finds the last occurrence of `c` in `s`.
pub fn rfind_char(s: &str, c: char) -> (r: Option<usize>)
    ensures
        match r {
            None => spec_rfind_char(s@, c) is None,
            Some(i) => spec_rfind_char(s@, c) == Some(i as int),
        },
{
    let n = s.unicode_len();
    let mut i: usize = n;
    while i > 0
        invariant
            i <= n,
            n == s@.len(),
            forall|j: int| i <= j < n ==> s@[j] != c,
        decreases i,
    {
        i -= 1;
        if s.get_char(i) == c {
            proof {
                lemma_rfind_char(s@, c);
            }
            return Some(i);
        }
    }
    proof {
        lemma_rfind_char(s@, c);
    }
    None
}

/// Whether `prefix` starts `s`.
pub open spec fn spec_has_prefix(s: Seq<char>, prefix: Seq<char>) -> bool {
    prefix.len() <= s.len() && s.take(prefix.len() as int) == prefix
}

/// Whether `s` begins with `prefix`.
pub fn str_starts_with(s: &str, prefix: &str) -> (r: bool)
    ensures
        r == spec_has_prefix(s@, prefix@),
{
    let n = prefix.unicode_len();
    let m = s.unicode_len();
    if n > m {
        return false;
    }
    let mut i: usize = 0;
    while i < n
        invariant
            i <= n,
            n <= m,
            n == prefix@.len(),
            m == s@.len(),
            forall|j: int| 0 <= j < i ==> s@[j] == prefix@[j],
        decreases n - i,
    {
        if s.get_char(i) != prefix.get_char(i) {
            assert(s@.take(n as int)[i as int] != prefix@[i as int]);
            return false;
        }
        i += 1;
    }
    assert(s@.take(n as int) =~= prefix@);
    true
}

/// Whether `sub` occurs contiguously anywhere in `s`.
pub open spec fn spec_contains_seq(s: Seq<char>, sub: Seq<char>) -> bool {
    exists|k: int|
        0 <= k && k + sub.len() <= s.len() && #[trigger] s.subrange(k, k + sub.len() as int) == sub
}

/// Whether `sub` occurs contiguously anywhere in `s`.
pub fn str_contains(s: &str, sub: &str) -> (r: bool)
    ensures
        r == spec_contains_seq(s@, sub@),
{
    let n = s.unicode_len();
    let m = sub.unicode_len();
    if m > n {
        assert(!spec_contains_seq(s@, sub@));
        return false;
    }
    if m == 0 {
        proof {
            assert(s@.subrange(0, 0 + sub@.len() as int) =~= sub@);
        }
        return true;
    }
    let mut k: usize = 0;
    while k <= n - m
        invariant
            1 <= m <= n,
            n == s@.len(),
            m == sub@.len(),
            k <= n - m + 1,
            forall|k2: int| 0 <= k2 < k ==> #[trigger] s@.subrange(k2, k2 + m as int) != sub@,
        decreases n - m + 1 - k,
    {
        let mut j: usize = 0;
        let mut hit = true;
        while j < m
            invariant
                j <= m,
                k + m <= n,
                n == s@.len(),
                m == sub@.len(),
                hit ==> forall|j2: int|
                    0 <= j2 < j ==> s@.subrange(k as int, k as int + m as int)[j2] == sub@[j2],
                !hit ==> s@.subrange(k as int, k as int + m as int) != sub@,
            decreases m - j,
        {
            if hit && s.get_char(k + j) != sub.get_char(j) {
                proof {
                    assert(s@.subrange(k as int, k as int + m as int)[j as int] != sub@[j as int]);
                }
                hit = false;
            }
            j += 1;
        }
        if hit {
            proof {
                assert(s@.subrange(k as int, k as int + m as int) =~= sub@);
            }
            return true;
        }
        k += 1;
    }
    proof {
        assert forall|k2: int|
            0 <= k2 && k2 + sub@.len() <= s@.len() implies #[trigger] s@.subrange(
            k2,
            k2 + sub@.len() as int,
        ) != sub@ by {
            assert(k2 < k);
        }
    }
    false
}

/// The characters of `s` from `from` (inclusive) to `to` (exclusive), as an
/// owned string.
pub fn substring(s: &str, from: usize, to: usize) -> (r: String)
    requires
        from <= to <= s@.len(),
    ensures
        r@ == s@.subrange(from as int, to as int),
{
    String::from_str(s.substring_char(from, to))
}

/// `s` without its leading copies of `c`.
pub open spec fn spec_drop_leading(s: Seq<char>, c: char) -> Seq<char>
    decreases s.len(),
{
    if s.len() > 0 && s[0] == c {
        spec_drop_leading(s.drop_first(), c)
    } else {
        s
    }
}

/// `s` without its trailing copies of `c`.
pub open spec fn spec_drop_trailing(s: Seq<char>, c: char) -> Seq<char>
    decreases s.len(),
{
    if s.len() > 0 && s[s.len() - 1] == c {
        spec_drop_trailing(s.drop_last(), c)
    } else {
        s
    }
}

/// `s` without its leading and trailing copies of `c`.
pub open spec fn spec_trim_char(s: Seq<char>, c: char) -> Seq<char> {
    spec_drop_trailing(spec_drop_leading(s, c), c)
}

/// Removes the leading copies of `c`.
fn drop_leading<'a>(s: &'a str, c: char) -> (r: &'a str)
    ensures
        r@ == spec_drop_leading(s@, c),
    decreases s@.len(),
{
    let n = s.unicode_len();
    if n > 0 && s.get_char(0) == c {
        let rest = drop_leading(s.substring_char(1, n), c);
        proof {
            assert(s@.subrange(1, n as int) =~= s@.drop_first());
        }
        rest
    } else {
        s
    }
}

/// Removes the trailing copies of `c`.
fn drop_trailing<'a>(s: &'a str, c: char) -> (r: &'a str)
    ensures
        r@ == spec_drop_trailing(s@, c),
    decreases s@.len(),
{
    let n = s.unicode_len();
    if n > 0 && s.get_char(n - 1) == c {
        let rest = drop_trailing(s.substring_char(0, n - 1), c);
        proof {
            assert(s@.subrange(0, n as int - 1) =~= s@.drop_last());
        }
        rest
    } else {
        s
    }
}

/// Removes the leading and trailing copies of `c`, as an owned string.
pub fn trim_char(s: &str, c: char) -> (r: String)
    ensures
        r@ == spec_trim_char(s@, c),
{
    String::from_str(drop_trailing(drop_leading(s, c), c))
}

/// The space-separated tokens of `s`, in order, with empty tokens skipped.
pub open spec fn spec_tokens(s: Seq<char>) -> Seq<Seq<char>>
    decreases s.len(),
    via spec_tokens_decreases
{
    if s.len() == 0 {
        seq![]
    } else if s[0] == ' ' {
        spec_tokens(s.drop_first())
    } else {
        match spec_find_char(s, ' ') {
            None => seq![s],
            Some(i) => seq![s.take(i)] + spec_tokens(s.skip(i + 1)),
        }
    }
}

#[via_fn]
proof fn spec_tokens_decreases(s: Seq<char>) {
    if s.len() > 0 && s[0] != ' ' {
        lemma_find_char(s, ' ');
    }
}

/// Splits `s` into its space-separated tokens.
pub fn split_tokens(s: &str) -> (r: Vec<String>)
    ensures
        r.deep_view() == spec_tokens(s@),
    decreases s@.len(),
{
    let n = s.unicode_len();
    if n == 0 {
        let r: Vec<String> = Vec::new();
        assert(r.deep_view() =~= spec_tokens(s@));
        return r;
    }
    if s.get_char(0) == ' ' {
        let rest = split_tokens(s.substring_char(1, n));
        assert(s@.subrange(1, n as int) =~= s@.drop_first());
        return rest;
    }
    match find_char(s, ' ') {
        None => {
            let mut r: Vec<String> = Vec::new();
            r.push(String::from_str(s));
            assert(r.deep_view() =~= spec_tokens(s@));
            r
        },
        Some(i) => {
            proof {
                lemma_find_char(s@, ' ');
            }
            let mut r: Vec<String> = Vec::new();
            r.push(substring(s, 0, i));
            let mut rest = split_tokens(s.substring_char(i + 1, n));
            let ghost rest_view = rest.deep_view();
            r.append(&mut rest);
            proof {
                assert(s@.subrange(i + 1, n as int) =~= s@.skip(i + 1));
                assert forall|j: int| 0 <= j < r@.len() implies r.deep_view()[j] == (seq![
                    s@.take(i as int),
                ] + rest_view)[j] by {
                    if j > 0 {
                        assert(r@[j]@ == rest_view[j - 1]);
                    }
                }
                assert(r.deep_view() =~= seq![s@.take(i as int)] + rest_view);
            }
            r
        },
    }
}

} // verus!
