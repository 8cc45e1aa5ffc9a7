//! Requests that collaborators hand to the engine, and the pure rules
//! applied to them: building a commit record from a creation request,
//! and validating a registration.

use vstd::prelude::*;
use vstd::string::*;
use crate::objects::{Commit, CommitV, GitTime};
use crate::text::spec_find_char;

verus! {

/// What a collaborator supplies to create a commit.
#[derive(Debug, Clone)]
pub struct CreateCommitRequest {
    pub tree_hash: String,
    pub parent_hashes: Vec<String>,
    pub author: String,
    pub committer: String,
    pub message: String,
}

/// Builds the commit record a creation request describes.  The two
/// timestamps are supplied by the caller, which owns the clock.
pub fn commit_from_request(
    request: &CreateCommitRequest,
    author_date: Option<GitTime>,
    commit_date: Option<GitTime>,
) -> (r: Commit)
    ensures
        r@ == (CommitV {
            tree: request.tree_hash@,
            parents: request.parent_hashes.deep_view(),
            author: request.author@,
            committer: request.committer@,
            message: request.message@,
            author_date,
            commit_date,
        }),
{
    let mut parents: Vec<String> = Vec::new();
    let n = request.parent_hashes.len();
    let mut i: usize = 0;
    while i < n
        invariant
            i <= n,
            n == request.parent_hashes@.len(),
            parents.deep_view() =~= request.parent_hashes.deep_view().take(i as int),
        decreases n - i,
    {
        let ghost old_view = parents.deep_view();
        parents.push(request.parent_hashes[i].clone());
        proof {
            assert(parents.deep_view() =~= old_view.push(request.parent_hashes@[i as int]@));
            assert(request.parent_hashes.deep_view().take(i as int + 1)
                =~= request.parent_hashes.deep_view().take(i as int).push(
                request.parent_hashes.deep_view()[i as int],
            ));
        }
        i += 1;
    }
    proof {
        assert(request.parent_hashes.deep_view().take(n as int)
            =~= request.parent_hashes.deep_view());
    }
    Commit {
        tree: request.tree_hash.clone(),
        parents,
        author: request.author.clone(),
        committer: request.committer.clone(),
        message: request.message.clone(),
        author_date,
        commit_date,
    }
}

/// A merge between two branches, as a collaborator requests it.
#[derive(Debug, Clone)]
pub struct MergeRequest {
    pub source_branch: String,
    pub target_branch: String,
    pub author: String,
    pub message: String,
}

/// What a new user submits to register.
#[derive(Debug, Clone)]
pub struct RegisterRequest {
    pub username: String,
    pub email: String,
    pub password: String,
    pub full_name: Option<String>,
}

/// Whether every character is ASCII whitespace (so the trimmed text is
/// empty).
pub open spec fn spec_all_ws(s: Seq<char>) -> bool {
    forall|i: int|
        0 <= i < s.len() ==> ((#[trigger] s[i]) == ' ' || s[i] == '\t' || s[i] == '\r' || s[i]
            == '\n')
}

/// The rejection message a registration earns, if any: a blank
/// username, an email without an `@`, or a password under six bytes.
pub open spec fn spec_validate_registration(
    username: Seq<char>,
    email: Seq<char>,
    password: Seq<char>,
) -> Option<Seq<char>> {
    if spec_all_ws(username) {
        Some("Username cannot be empty"@)
    } else if spec_all_ws(email) || spec_find_char(email, '@') is None {
        Some("Valid email is required"@)
    } else if vstd::utf8::encode_utf8(password).len() < 6 {
        Some("Password must be at least 6 characters"@)
    } else {
        None
    }
}

/// Whether the trimmed text is empty.
fn all_ws(s: &str) -> (r: bool)
    ensures
        r == spec_all_ws(s@),
{
    let n = s.unicode_len();
    let mut i: usize = 0;
    while i < n
        invariant
            i <= n,
            n == s@.len(),
            forall|j: int|
                0 <= j < i ==> ((#[trigger] s@[j]) == ' ' || s@[j] == '\t' || s@[j] == '\r'
                    || s@[j] == '\n'),
        decreases n - i,
    {
        let c = s.get_char(i);
        if !(c == ' ' || c == '\t' || c == '\r' || c == '\n') {
            return false;
        }
        i += 1;
    }
    true
}

/// Checks a registration request, returning the rejection message for
/// the first rule it breaks, if any.
pub fn validate_registration(request: &RegisterRequest) -> (r: Option<String>)
    ensures
        match r {
            Some(msg) => spec_validate_registration(
                request.username@,
                request.email@,
                request.password@,
            ) == Some(msg@),
            None => spec_validate_registration(
                request.username@,
                request.email@,
                request.password@,
            ) is None,
        },
{
    if all_ws(request.username.as_str()) {
        return Some(String::from_str("Username cannot be empty"));
    }
    let at_missing = match crate::text::find_char(request.email.as_str(), '@') {
        Some(_) => false,
        None => true,
    };
    if all_ws(request.email.as_str()) || at_missing {
        return Some(String::from_str("Valid email is required"));
    }
    let pw = request.password.as_str();
    let pl = pw.as_bytes_vec().len();
    proof {
        assert(pw@ == request.password@);
        assert(pw.spec_bytes() == vstd::utf8::encode_utf8(pw@));
    }
    if pl < 6 {
        return Some(String::from_str("Password must be at least 6 characters"));
    }
    None
}

} // verus!
