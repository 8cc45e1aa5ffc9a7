//! The reference resolver: a per-repository ref store that resolves
//! symbolic chains with cycle detection.

use vstd::prelude::*;
use vstd::string::*;
use crate::{GitError, GitRef, GitRefV};
use crate::text::{str_starts_with, substring, spec_has_prefix};

verus! {

/// The first ref of that name, if any.
pub open spec fn spec_find_ref(refs: Seq<GitRefV>, name: Seq<char>) -> Option<GitRefV>
    decreases refs.len(),
{
    if refs.len() == 0 {
        None
    } else if refs[0].name == name {
        Some(refs[0])
    } else {
        spec_find_ref(refs.drop_first(), name)
    }
}

/// The store after binding `r.name` to `r`: the first ref of that name
/// is replaced in place, or `r` is appended when the name is new.
pub open spec fn spec_upsert(refs: Seq<GitRefV>, r: GitRefV) -> Seq<GitRefV>
    decreases refs.len(),
{
    if refs.len() == 0 {
        seq![r]
    } else if refs[0].name == r.name {
        seq![r] + refs.drop_first()
    } else {
        seq![refs[0]] + spec_upsert(refs.drop_first(), r)
    }
}

/// The store after retargeting the first ref named `name`, when there is
/// one.
pub open spec fn spec_update_ref(refs: Seq<GitRefV>, name: Seq<char>, target: Seq<char>) -> Seq<
    GitRefV,
>
    decreases refs.len(),
{
    if refs.len() == 0 {
        refs
    } else if refs[0].name == name {
        seq![GitRefV { name: refs[0].name, target, is_symbolic: refs[0].is_symbolic }]
            + refs.drop_first()
    } else {
        seq![refs[0]] + spec_update_ref(refs.drop_first(), name, target)
    }
}

/// The store after removing the first ref named `name`, when there is
/// one.
pub open spec fn spec_delete_ref(refs: Seq<GitRefV>, name: Seq<char>) -> Seq<GitRefV>
    decreases refs.len(),
{
    if refs.len() == 0 {
        refs
    } else if refs[0].name == name {
        refs.drop_first()
    } else {
        seq![refs[0]] + spec_delete_ref(refs.drop_first(), name)
    }
}

/// Follows the symbolic chain from `current`, with the names already
/// seen in `visited`: a revisited name is a cycle, a missing name fails,
/// a non-symbolic ref yields its target, and the chain is bounded by
/// `fuel` defensively.
pub open spec fn spec_resolve(
    refs: Seq<GitRefV>,
    current: Seq<char>,
    visited: Seq<Seq<char>>,
    fuel: nat,
) -> Result<Seq<char>, GitError>
    decreases fuel,
{
    if visited.contains(current) {
        Err(GitError::Cycle)
    } else {
        match spec_find_ref(refs, current) {
            None => Err(GitError::NotFound),
            Some(r) => {
                if !r.is_symbolic {
                    Ok(r.target)
                } else if fuel == 0 {
                    Err(GitError::Cycle)
                } else {
                    spec_resolve(refs, r.target, visited.push(current), (fuel - 1) as nat)
                }
            },
        }
    }
}

/// The refs whose names contain `pattern`, in store order.
pub open spec fn spec_refs_matching(refs: Seq<GitRefV>, pattern: Seq<char>) -> Seq<GitRefV>
    decreases refs.len(),
{
    if refs.len() == 0 {
        seq![]
    } else {
        (if crate::text::spec_contains_seq(refs[0].name, pattern) {
            seq![refs[0]]
        } else {
            seq![]
        }) + spec_refs_matching(refs.drop_first(), pattern)
    }
}

/// The refs whose names start with `prefix`, in store order.
pub open spec fn spec_refs_with_prefix(refs: Seq<GitRefV>, prefix: Seq<char>) -> Seq<GitRefV>
    decreases refs.len(),
{
    if refs.len() == 0 {
        seq![]
    } else {
        (if spec_has_prefix(refs[0].name, prefix) {
            seq![refs[0]]
        } else {
            seq![]
        }) + spec_refs_with_prefix(refs.drop_first(), prefix)
    }
}

/// The default branch: the branch HEAD points at symbolically when HEAD
/// resolves, else the first of the conventional names that exists.
pub open spec fn spec_default_branch(refs: Seq<GitRefV>) -> Option<Seq<char>> {
    let head = spec_find_ref(refs, "HEAD"@);
    if spec_resolve(refs, "HEAD"@, seq![], refs.len()) is Ok && head is Some
        && head.unwrap().is_symbolic && spec_has_prefix(head.unwrap().target, "refs/heads/"@) {
        Some(head.unwrap().target.skip(11))
    } else if spec_find_ref(refs, "refs/heads/"@ + "main"@) is Some {
        Some("main"@)
    } else if spec_find_ref(refs, "refs/heads/"@ + "master"@) is Some {
        Some("master"@)
    } else if spec_find_ref(refs, "refs/heads/"@ + "develop"@) is Some {
        Some("develop"@)
    } else {
        None
    }
}

/// One imported name/target pair: symbolic exactly for a HEAD bound to
/// a ref name.
pub open spec fn spec_imported_ref(p: (Seq<char>, Seq<char>)) -> GitRefV {
    GitRefV {
        name: p.0,
        target: p.1,
        is_symbolic: p.0 == "HEAD"@ && spec_has_prefix(p.1, "refs/"@),
    }
}

/// The store after importing the pairs in order.
pub open spec fn spec_import(state: Seq<GitRefV>, pairs: Seq<(Seq<char>, Seq<char>)>) -> Seq<
    GitRefV,
>
    decreases pairs.len(),
{
    if pairs.len() == 0 {
        state
    } else {
        spec_import(spec_upsert(state, spec_imported_ref(pairs[0])), pairs.drop_first())
    }
}

/// A first match at `i` makes the upsert an in-place replacement.
proof fn lemma_upsert_at(refs: Seq<GitRefV>, r: GitRefV, i: int)
    requires
        0 <= i < refs.len(),
        refs[i].name == r.name,
        forall|j: int| 0 <= j < i ==> (#[trigger] refs[j]).name != r.name,
    ensures
        spec_upsert(refs, r) == refs.update(i, r),
    decreases i,
{
    if i == 0 {
        assert(spec_upsert(refs, r) =~= refs.update(0, r));
    } else {
        assert(refs[0].name != r.name);
        assert(forall|j: int|
            0 <= j < i - 1 ==> (#[trigger] refs.drop_first()[j]).name == refs[j + 1].name);
        lemma_upsert_at(refs.drop_first(), r, i - 1);
        assert(refs.drop_first().update(i - 1, r) =~= refs.update(i, r).drop_first());
        assert(spec_upsert(refs, r) =~= refs.update(i, r));
    }
}

/// A fresh name makes the upsert an append.
proof fn lemma_upsert_append(refs: Seq<GitRefV>, r: GitRefV)
    requires
        forall|j: int| 0 <= j < refs.len() ==> (#[trigger] refs[j]).name != r.name,
    ensures
        spec_upsert(refs, r) == refs.push(r),
    decreases refs.len(),
{
    if refs.len() == 0 {
        assert(spec_upsert(refs, r) =~= refs.push(r));
    } else {
        lemma_upsert_append(refs.drop_first(), r);
        assert(refs.drop_first().push(r) =~= refs.push(r).drop_first());
        assert(spec_upsert(refs, r) =~= refs.push(r));
    }
}

/// A first match at `i` makes the retargeting an in-place replacement.
proof fn lemma_update_at(refs: Seq<GitRefV>, name: Seq<char>, target: Seq<char>, i: int)
    requires
        0 <= i < refs.len(),
        refs[i].name == name,
        forall|j: int| 0 <= j < i ==> (#[trigger] refs[j]).name != name,
    ensures
        spec_update_ref(refs, name, target) == refs.update(
            i,
            GitRefV { name: refs[i].name, target, is_symbolic: refs[i].is_symbolic },
        ),
    decreases i,
{
    let rep = GitRefV { name: refs[i].name, target, is_symbolic: refs[i].is_symbolic };
    if i == 0 {
        assert(spec_update_ref(refs, name, target) =~= refs.update(0, rep));
    } else {
        assert(refs[0].name != name);
        assert(forall|j: int|
            0 <= j < i - 1 ==> (#[trigger] refs.drop_first()[j]).name == refs[j + 1].name);
        lemma_update_at(refs.drop_first(), name, target, i - 1);
        assert(refs.drop_first().update(i - 1, rep) =~= refs.update(i, rep).drop_first());
        assert(spec_update_ref(refs, name, target) =~= refs.update(i, rep));
    }
}

/// A first match at `i` makes the deletion a removal at `i`.
proof fn lemma_delete_at(refs: Seq<GitRefV>, name: Seq<char>, i: int)
    requires
        0 <= i < refs.len(),
        refs[i].name == name,
        forall|j: int| 0 <= j < i ==> (#[trigger] refs[j]).name != name,
    ensures
        spec_delete_ref(refs, name) == refs.remove(i),
    decreases i,
{
    if i == 0 {
        assert(spec_delete_ref(refs, name) =~= refs.remove(0));
    } else {
        assert(refs[0].name != name);
        assert(forall|j: int|
            0 <= j < i - 1 ==> (#[trigger] refs.drop_first()[j]).name == refs[j + 1].name);
        lemma_delete_at(refs.drop_first(), name, i - 1);
        assert(refs.drop_first().remove(i - 1) =~= refs.remove(i).drop_first());
        assert(spec_delete_ref(refs, name) =~= refs.remove(i));
    }
}

/// No two refs share a name.
pub open spec fn spec_unique_names(refs: Seq<GitRefV>) -> bool {
    forall|i: int, j: int|
        0 <= i < j < refs.len() ==> (#[trigger] refs[i]).name != (#[trigger] refs[j]).name
}

/// Binding a name keeps names unique: the store holds at most one
/// target per name.
pub proof fn lemma_upsert_keeps_unique(refs: Seq<GitRefV>, r: GitRefV)
    requires
        spec_unique_names(refs),
    ensures
        spec_unique_names(spec_upsert(refs, r)),
{
    if exists|i: int| 0 <= i < refs.len() && (#[trigger] refs[i]).name == r.name {
        let i = choose|i: int|
            0 <= i < refs.len() && (#[trigger] refs[i]).name == r.name && forall|j: int|
                0 <= j < i ==> (#[trigger] refs[j]).name != r.name;
        assert(exists|i: int|
            0 <= i < refs.len() && (#[trigger] refs[i]).name == r.name && (forall|j: int|
                0 <= j < i ==> (#[trigger] refs[j]).name != r.name)) by {
            let k = choose|k: int| 0 <= k < refs.len() && (#[trigger] refs[k]).name == r.name;
            lemma_first_match_exists(refs, r.name, k);
        }
        lemma_upsert_at(refs, r, i);
    } else {
        lemma_upsert_append(refs, r);
    }
}

/// A first match at `i` is what the lookup finds.
proof fn lemma_find_ref_at(refs: Seq<GitRefV>, name: Seq<char>, i: int)
    requires
        0 <= i < refs.len(),
        refs[i].name == name,
        forall|j: int| 0 <= j < i ==> (#[trigger] refs[j]).name != name,
    ensures
        spec_find_ref(refs, name) == Some(refs[i]),
    decreases i,
{
    if i > 0 {
        assert(forall|j: int|
            0 <= j < i - 1 ==> (#[trigger] refs.drop_first()[j]).name == refs[j + 1].name);
        lemma_find_ref_at(refs.drop_first(), name, i - 1);
    }
}

/// No match anywhere means the lookup finds nothing.
proof fn lemma_find_ref_none(refs: Seq<GitRefV>, name: Seq<char>)
    requires
        forall|j: int| 0 <= j < refs.len() ==> (#[trigger] refs[j]).name != name,
    ensures
        spec_find_ref(refs, name) is None,
    decreases refs.len(),
{
    if refs.len() > 0 {
        lemma_find_ref_none(refs.drop_first(), name);
    }
}

/// Per-repository reference store.
pub struct RefHandler {
    refs: Vec<GitRef>,
}

impl View for RefHandler {
    type V = Seq<GitRefV>;

    closed spec fn view(&self) -> Seq<GitRefV> {
        self.refs@.map_values(|r: GitRef| r@)
    }
}

impl Default for RefHandler {
    fn default() -> (r: Self)
        ensures
            r@ == Seq::<GitRefV>::empty(),
    {
        Self::new()
    }
}

impl RefHandler {
    /// An empty store.
    pub fn new() -> (r: Self)
        ensures
            r@ == Seq::<GitRefV>::empty(),
    {
        let h = RefHandler { refs: Vec::new() };
        proof {
            assert(h@ =~= Seq::<GitRefV>::empty());
        }
        h
    }

    /// The index of the first ref named `name`, with everything before
    /// it named otherwise.
    fn find_index(&self, name: &str) -> (r: Option<usize>)
        ensures
            r matches Some(i) ==> i < self@.len() && self@[i as int].name == name@ && (forall|
                j: int,
            | 0 <= j < i ==> (#[trigger] self@[j]).name != name@) && spec_find_ref(self@, name@)
                == Some(self@[i as int]),
            r is None ==> (forall|j: int|
                0 <= j < self@.len() ==> (#[trigger] self@[j]).name != name@) && spec_find_ref(
                self@,
                name@,
            ) is None,
    {
        let name_s = String::from_str(name);
        let n = self.refs.len();
        let mut i: usize = 0;
        while i < n
            invariant
                i <= n,
                n == self@.len(),
                self@.len() == self.refs@.len(),
                name_s@ == name@,
                forall|j: int| 0 <= j < i ==> (#[trigger] self@[j]).name != name@,
            decreases n - i,
        {
            if self.refs[i].name.eq(&name_s) {
                proof {
                    assert(self@[i as int].name == name@);
                    lemma_find_ref_at(self@, name@, i as int);
                }
                return Some(i);
            }
            proof {
                assert(self@[i as int].name != name@);
            }
            i += 1;
        }
        proof {
            lemma_find_ref_none(self@, name@);
        }
        None
    }

    /// Binds `name` to a target: the existing ref of that name is
    /// replaced in place, or a new one is appended.
    pub fn add_ref(&mut self, name: String, target: String, is_symbolic: bool)
        ensures
            final(self)@ == spec_upsert(
                old(self)@,
                GitRefV { name: name@, target: target@, is_symbolic },
            ),
    {
        let ghost rv = GitRefV { name: name@, target: target@, is_symbolic };
        let git_ref = GitRef { name: name.clone(), target, is_symbolic };
        match self.find_index(name.as_str()) {
            Some(i) => {
                proof {
                    lemma_upsert_at(old(self)@, rv, i as int);
                }
                self.refs.remove(i);
                self.refs.insert(i, git_ref);
                proof {
                    assert(self@ =~= old(self)@.update(i as int, rv));
                }
            },
            None => {
                proof {
                    lemma_upsert_append(old(self)@, rv);
                }
                self.refs.push(git_ref);
                proof {
                    assert(self@ =~= old(self)@.push(rv));
                }
            },
        }
    }

    /// The ref named `name`, if any.
    pub fn get_ref(&self, name: &str) -> (r: Option<&GitRef>)
        ensures
            match r {
                Some(gr) => spec_find_ref(self@, name@) == Some(gr@),
                None => spec_find_ref(self@, name@) is None,
            },
    {
        match self.find_index(name) {
            Some(i) => Some(&self.refs[i]),
            None => None,
        }
    }

    /// All refs, in insertion order.
    pub fn get_all_refs(&self) -> (r: Vec<&GitRef>)
        ensures
            r@.len() == self@.len(),
            forall|i: int| 0 <= i < r@.len() ==> (#[trigger] r@[i])@ == self@[i],
    {
        let mut out: Vec<&GitRef> = Vec::new();
        let n = self.refs.len();
        let mut i: usize = 0;
        while i < n
            invariant
                i <= n,
                n == self.refs@.len(),
                self@.len() == self.refs@.len(),
                out@.len() == i,
                forall|j: int| 0 <= j < i ==> (#[trigger] out@[j])@ == self@[j],
            decreases n - i,
        {
            out.push(&self.refs[i]);
            i += 1;
        }
        out
    }

    /// Retargets the ref named `name`; fails when there is none.
    pub fn update_ref(&mut self, name: &str, new_target: String) -> (r: Result<(), GitError>)
        ensures
            r is Ok <==> spec_find_ref(old(self)@, name@) is Some,
            r is Ok ==> final(self)@ == spec_update_ref(old(self)@, name@, new_target@),
            r is Err ==> final(self)@ == old(self)@ && r == Err::<(), GitError>(GitError::NotFound),
    {
        match self.find_index(name) {
            Some(i) => {
                proof {
                    lemma_update_at(old(self)@, name@, new_target@, i as int);
                }
                let old_ref = &self.refs[i];
                let replacement = GitRef {
                    name: old_ref.name.clone(),
                    target: new_target,
                    is_symbolic: old_ref.is_symbolic,
                };
                let ghost rep = replacement@;
                self.refs.remove(i);
                self.refs.insert(i, replacement);
                proof {
                    assert(self@ =~= old(self)@.update(i as int, rep));
                }
                Ok(())
            },
            None => Err(GitError::NotFound),
        }
    }

    /// Removes the ref named `name`; fails when there is none.
    pub fn delete_ref(&mut self, name: &str) -> (r: Result<(), GitError>)
        ensures
            r is Ok <==> spec_find_ref(old(self)@, name@) is Some,
            r is Ok ==> final(self)@ == spec_delete_ref(old(self)@, name@),
            r is Err ==> final(self)@ == old(self)@ && r == Err::<(), GitError>(GitError::NotFound),
    {
        match self.find_index(name) {
            Some(i) => {
                proof {
                    lemma_delete_at(old(self)@, name@, i as int);
                }
                self.refs.remove(i);
                proof {
                    assert(self@ =~= old(self)@.remove(i as int));
                }
                Ok(())
            },
            None => Err(GitError::NotFound),
        }
    }

    /// Follows the symbolic chain from `current` to an object id,
    /// consuming the visited set.
    fn resolve_from(&self, current: String, visited: Vec<String>, fuel: usize) -> (r: Result<
        String,
        GitError,
    >)
        ensures
            match r {
                Ok(t) => spec_resolve(self@, current@, visited.deep_view(), fuel as nat) == Ok::<
                    Seq<char>,
                    GitError,
                >(t@),
                Err(e) => spec_resolve(self@, current@, visited.deep_view(), fuel as nat) == Err::<
                    Seq<char>,
                    GitError,
                >(e),
            },
        decreases fuel,
    {
        let mut seen = false;
        let mut k: usize = 0;
        let n = visited.len();
        while k < n
            invariant
                k <= n,
                n == visited@.len(),
                seen == exists|j: int| 0 <= j < k && visited.deep_view()[j] == current@,
            decreases n - k,
        {
            if visited[k].eq(&current) {
                proof {
                    assert(visited.deep_view()[k as int] == current@);
                }
                seen = true;
            }
            k += 1;
        }
        proof {
            assert(seen == visited.deep_view().contains(current@));
        }
        if seen {
            return Err(GitError::Cycle);
        }
        match self.find_index(current.as_str()) {
            None => Err(GitError::NotFound),
            Some(i) => {
                let found = &self.refs[i];
                if !found.is_symbolic {
                    Ok(found.target.clone())
                } else if fuel == 0 {
                    Err(GitError::Cycle)
                } else {
                    let next = found.target.clone();
                    let mut visited2 = visited;
                    let ghost visited_old = visited2.deep_view();
                    visited2.push(current);
                    proof {
                        assert(visited2.deep_view() =~= visited_old.push(
                            visited2@[visited_old.len() as int]@,
                        ));
                    }
                    self.resolve_from(next, visited2, fuel - 1)
                }
            },
        }
    }

    /// Resolves a name through any chain of symbolic refs to an object
    /// id: a revisited name fails as a cycle, a missing name as not
    /// found; iteration is bounded by the store size defensively.
    pub fn resolve_ref(&self, name: &str) -> (r: Result<String, GitError>)
        ensures
            match r {
                Ok(t) => spec_resolve(self@, name@, seq![], self@.len()) == Ok::<Seq<char>, GitError>(
                    t@,
                ),
                Err(e) => spec_resolve(self@, name@, seq![], self@.len()) == Err::<
                    Seq<char>,
                    GitError,
                >(e),
            },
    {
        let visited: Vec<String> = Vec::new();
        proof {
            assert(visited.deep_view() =~= Seq::<Seq<char>>::empty());
        }
        self.resolve_from(String::from_str(name), visited, self.refs.len())
    }

    /// The HEAD ref, if any.
    pub fn get_head(&self) -> (r: Option<&GitRef>)
        ensures
            match r {
                Some(gr) => spec_find_ref(self@, "HEAD"@) == Some(gr@),
                None => spec_find_ref(self@, "HEAD"@) is None,
            },
    {
        self.get_ref("HEAD")
    }

    /// Binds HEAD to a target.
    pub fn set_head(&mut self, target: String, is_symbolic: bool)
        ensures
            final(self)@ == spec_upsert(
                old(self)@,
                GitRefV { name: "HEAD"@, target: target@, is_symbolic },
            ),
    {
        self.add_ref(String::from_str("HEAD"), target, is_symbolic);
    }

    /// The refs whose names contain `pattern`, in store order.
    pub fn get_refs_matching(&self, pattern: &str) -> (r: Vec<&GitRef>)
        ensures
            r@.map_values(|gr: &GitRef| gr@) == spec_refs_matching(self@, pattern@),
    {
        let mut out: Vec<&GitRef> = Vec::new();
        let n = self.refs.len();
        let mut i: usize = 0;
        proof {
            assert(self@.skip(0) =~= self@);
        }
        while i < n
            invariant
                i <= n,
                n == self.refs@.len(),
                self@.len() == self.refs@.len(),
                spec_refs_matching(self@, pattern@) =~= out@.map_values(|gr: &GitRef| gr@)
                    + spec_refs_matching(self@.skip(i as int), pattern@),
            decreases n - i,
        {
            proof {
                assert(self@.skip(i as int)[0] == self@[i as int]);
                assert(self@.skip(i as int).drop_first() =~= self@.skip(i as int + 1));
            }
            let ghost out_old = out@;
            if crate::text::str_contains(self.refs[i].name.as_str(), pattern) {
                out.push(&self.refs[i]);
                proof {
                    assert(out@.map_values(|gr: &GitRef| gr@) =~= out_old.map_values(
                        |gr: &GitRef| gr@,
                    ).push(self@[i as int]));
                    assert(out_old.map_values(|gr: &GitRef| gr@) + (seq![self@[i as int]]
                        + spec_refs_matching(self@.skip(i as int + 1), pattern@)) =~= out@.map_values(
                        |gr: &GitRef| gr@,
                    ) + spec_refs_matching(self@.skip(i as int + 1), pattern@));
                }
            }
            i += 1;
        }
        proof {
            assert(self@.skip(n as int) =~= Seq::<GitRefV>::empty());
            assert(out@.map_values(|gr: &GitRef| gr@) + seq![] =~= out@.map_values(
                |gr: &GitRef| gr@,
            ));
        }
        out
    }

    /// The refs whose names start with `prefix`, in store order.
    fn refs_with_prefix(&self, prefix: &str) -> (r: Vec<&GitRef>)
        ensures
            r@.map_values(|gr: &GitRef| gr@) == spec_refs_with_prefix(self@, prefix@),
    {
        let mut out: Vec<&GitRef> = Vec::new();
        let n = self.refs.len();
        let mut i: usize = 0;
        proof {
            assert(self@.skip(0) =~= self@);
        }
        while i < n
            invariant
                i <= n,
                n == self.refs@.len(),
                self@.len() == self.refs@.len(),
                spec_refs_with_prefix(self@, prefix@) =~= out@.map_values(|gr: &GitRef| gr@)
                    + spec_refs_with_prefix(self@.skip(i as int), prefix@),
            decreases n - i,
        {
            proof {
                assert(self@.skip(i as int)[0] == self@[i as int]);
                assert(self@.skip(i as int).drop_first() =~= self@.skip(i as int + 1));
            }
            let ghost out_old = out@;
            if str_starts_with(self.refs[i].name.as_str(), prefix) {
                out.push(&self.refs[i]);
                proof {
                    assert(out@.map_values(|gr: &GitRef| gr@) =~= out_old.map_values(
                        |gr: &GitRef| gr@,
                    ).push(self@[i as int]));
                    assert(out_old.map_values(|gr: &GitRef| gr@) + (seq![self@[i as int]]
                        + spec_refs_with_prefix(self@.skip(i as int + 1), prefix@))
                        =~= out@.map_values(|gr: &GitRef| gr@) + spec_refs_with_prefix(
                        self@.skip(i as int + 1),
                        prefix@,
                    ));
                }
            }
            i += 1;
        }
        proof {
            assert(self@.skip(n as int) =~= Seq::<GitRefV>::empty());
            assert(out@.map_values(|gr: &GitRef| gr@) + seq![] =~= out@.map_values(
                |gr: &GitRef| gr@,
            ));
        }
        out
    }

    /// The branches: refs under `refs/heads/`.
    pub fn list_branches(&self) -> (r: Vec<&GitRef>)
        ensures
            r@.map_values(|gr: &GitRef| gr@) == spec_refs_with_prefix(self@, "refs/heads/"@),
    {
        self.refs_with_prefix("refs/heads/")
    }

    /// The tags: refs under `refs/tags/`.
    pub fn list_tags(&self) -> (r: Vec<&GitRef>)
        ensures
            r@.map_values(|gr: &GitRef| gr@) == spec_refs_with_prefix(self@, "refs/tags/"@),
    {
        self.refs_with_prefix("refs/tags/")
    }

    /// Creates a branch; fails when one of that name exists.
    pub fn create_branch(&mut self, name: &str, target: String) -> (r: Result<(), GitError>)
        ensures
            r is Ok <==> spec_find_ref(old(self)@, "refs/heads/"@ + name@) is None,
            r is Ok ==> final(self)@ == old(self)@.push(
                GitRefV { name: "refs/heads/"@ + name@, target: target@, is_symbolic: false },
            ),
            r is Err ==> final(self)@ == old(self)@ && r == Err::<(), GitError>(
                GitError::AlreadyExists,
            ),
    {
        let full_name = String::from_str("refs/heads/").concat(name);
        match self.find_index(full_name.as_str()) {
            Some(_) => Err(GitError::AlreadyExists),
            None => {
                proof {
                    lemma_upsert_append(
                        self@,
                        GitRefV {
                            name: "refs/heads/"@ + name@,
                            target: target@,
                            is_symbolic: false,
                        },
                    );
                }
                self.add_ref(full_name, target, false);
                Ok(())
            },
        }
    }

    /// Creates a lightweight tag; fails when one of that name exists.
    pub fn create_tag(&mut self, name: &str, target: String) -> (r: Result<(), GitError>)
        ensures
            r is Ok <==> spec_find_ref(old(self)@, "refs/tags/"@ + name@) is None,
            r is Ok ==> final(self)@ == old(self)@.push(
                GitRefV { name: "refs/tags/"@ + name@, target: target@, is_symbolic: false },
            ),
            r is Err ==> final(self)@ == old(self)@ && r == Err::<(), GitError>(
                GitError::AlreadyExists,
            ),
    {
        let full_name = String::from_str("refs/tags/").concat(name);
        match self.find_index(full_name.as_str()) {
            Some(_) => Err(GitError::AlreadyExists),
            None => {
                proof {
                    lemma_upsert_append(
                        self@,
                        GitRefV { name: "refs/tags/"@ + name@, target: target@, is_symbolic: false },
                    );
                }
                self.add_ref(full_name, target, false);
                Ok(())
            },
        }
    }

    /// Deletes a branch; fails when there is none of that name.
    pub fn delete_branch(&mut self, name: &str) -> (r: Result<(), GitError>)
        ensures
            r is Ok <==> spec_find_ref(old(self)@, "refs/heads/"@ + name@) is Some,
            r is Ok ==> final(self)@ == spec_delete_ref(old(self)@, "refs/heads/"@ + name@),
            r is Err ==> final(self)@ == old(self)@ && r == Err::<(), GitError>(GitError::NotFound),
    {
        let full_name = String::from_str("refs/heads/").concat(name);
        self.delete_ref(full_name.as_str())
    }

    /// Deletes a tag; fails when there is none of that name.
    pub fn delete_tag(&mut self, name: &str) -> (r: Result<(), GitError>)
        ensures
            r is Ok <==> spec_find_ref(old(self)@, "refs/tags/"@ + name@) is Some,
            r is Ok ==> final(self)@ == spec_delete_ref(old(self)@, "refs/tags/"@ + name@),
            r is Err ==> final(self)@ == old(self)@ && r == Err::<(), GitError>(GitError::NotFound),
    {
        let full_name = String::from_str("refs/tags/").concat(name);
        self.delete_ref(full_name.as_str())
    }

    /// The default branch: what HEAD points at symbolically when it
    /// resolves, else the first conventional branch name that exists.
    pub fn get_default_branch(&self) -> (r: Option<String>)
        ensures
            match r {
                Some(s) => spec_default_branch(self@) == Some(s@),
                None => spec_default_branch(self@) is None,
            },
    {
        let resolved_ok = match self.resolve_ref("HEAD") {
            Ok(_) => true,
            Err(_) => false,
        };
        if resolved_ok {
            match self.get_ref("HEAD") {
                Some(head) => {
                    if head.is_symbolic && str_starts_with(head.target.as_str(), "refs/heads/") {
                        proof {
                            reveal_strlit("refs/heads/");
                        }
                        let n = head.target.as_str().unicode_len();
                        return Some(substring(head.target.as_str(), 11, n));
                    }
                },
                None => {},
            }
        }
        let main_name = String::from_str("refs/heads/").concat("main");
        if self.find_index(main_name.as_str()).is_some() {
            return Some(String::from_str("main"));
        }
        let master_name = String::from_str("refs/heads/").concat("master");
        if self.find_index(master_name.as_str()).is_some() {
            return Some(String::from_str("master"));
        }
        let develop_name = String::from_str("refs/heads/").concat("develop");
        if self.find_index(develop_name.as_str()).is_some() {
            return Some(String::from_str("develop"));
        }
        None
    }

    /// Imports name/target pairs in order; a pair binding HEAD to a ref
    /// name comes in symbolic.
    pub fn import_refs(&mut self, refs: Vec<(String, String)>)
        ensures
            final(self)@ == spec_import(
                old(self)@,
                refs@.map_values(|p: (String, String)| (p.0@, p.1@)),
            ),
    {
        let ghost pairs = refs@.map_values(|p: (String, String)| (p.0@, p.1@));
        let n = refs.len();
        let mut i: usize = 0;
        proof {
            assert(pairs.skip(0) =~= pairs);
        }
        while i < n
            invariant
                i <= n,
                n == refs@.len(),
                pairs == refs@.map_values(|p: (String, String)| (p.0@, p.1@)),
                spec_import(old(self)@, pairs) == spec_import(self@, pairs.skip(i as int)),
            decreases n - i,
        {
            proof {
                assert(pairs.skip(i as int)[0] == pairs[i as int]);
                assert(pairs.skip(i as int).drop_first() =~= pairs.skip(i as int + 1));
            }
            let entry = &refs[i];
            let name = entry.0.clone();
            let target = entry.1.clone();
            let head_word = String::from_str("HEAD");
            let is_symbolic = name.eq(&head_word) && str_starts_with(target.as_str(), "refs/");
            proof {
                assert(GitRefV { name: name@, target: target@, is_symbolic }
                    == spec_imported_ref(pairs[i as int]));
            }
            self.add_ref(name, target, is_symbolic);
            i += 1;
        }
        proof {
            assert(pairs.skip(n as int) =~= Seq::<(Seq<char>, Seq<char>)>::empty());
        }
    }

    /// The (name, target) pairs of all refs, in store order.
    pub fn export_refs(&self) -> (r: Vec<(String, String)>)
        ensures
            r@.len() == self@.len(),
            forall|i: int|
                0 <= i < r@.len() ==> (#[trigger] r@[i]).0@ == self@[i].name && r@[i].1@
                    == self@[i].target,
    {
        let mut out: Vec<(String, String)> = Vec::new();
        let n = self.refs.len();
        let mut i: usize = 0;
        while i < n
            invariant
                i <= n,
                n == self.refs@.len(),
                self@.len() == self.refs@.len(),
                out@.len() == i,
                forall|j: int|
                    0 <= j < i ==> (#[trigger] out@[j]).0@ == self@[j].name && out@[j].1@
                        == self@[j].target,
            decreases n - i,
        {
            let entry = &self.refs[i];
            out.push((entry.name.clone(), entry.target.clone()));
            i += 1;
        }
        out
    }
}

/// Some match implies a first match.
proof fn lemma_first_match_exists(refs: Seq<GitRefV>, name: Seq<char>, k: int)
    requires
        0 <= k < refs.len(),
        refs[k].name == name,
    ensures
        exists|i: int|
            0 <= i < refs.len() && (#[trigger] refs[i]).name == name && (forall|j: int|
                0 <= j < i ==> (#[trigger] refs[j]).name != name),
    decreases k,
{
    if forall|j: int| 0 <= j < k ==> (#[trigger] refs[j]).name != name {
        assert(0 <= k < refs.len() && refs[k].name == name && (forall|j: int|
            0 <= j < k ==> (#[trigger] refs[j]).name != name));
    } else {
        let k2 = choose|k2: int| 0 <= k2 < k && (#[trigger] refs[k2]).name == name;
        lemma_first_match_exists(refs, name, k2);
    }
}

} // verus!
