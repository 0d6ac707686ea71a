//! The install-script runner's decision logic: which scripts run, in
//! what order, and what a permission check means.
//!
//! The scripts themselves are subprocesses, so the shell around the
//! library performs the actual spawning; it asks this module for the
//! order (lexicographic by full path) and for the decision on each
//! script (run it, skip it with a warning, or abort the run).

use vstd::prelude::*;
use vstd::multiset::Multiset;
use vstd::string::StrSliceExecFns;
use crate::InstallError;

verus! {

/// Lexicographic order on character sequences, by code point.
pub open spec fn lex_le(a: Seq<char>, b: Seq<char>) -> bool
    decreases a.len(),
{
    if a.len() == 0 {
        true
    } else if b.len() == 0 {
        false
    } else if (a[0] as u32) < (b[0] as u32) {
        true
    } else if (b[0] as u32) < (a[0] as u32) {
        false
    } else {
        lex_le(a.drop_first(), b.drop_first())
    }
}

/// Any two strings are ordered one way or the other.
pub proof fn lemma_lex_total(a: Seq<char>, b: Seq<char>)
    ensures
        lex_le(a, b) || lex_le(b, a),
    decreases a.len(),
{
    if a.len() == 0 {
    } else if b.len() == 0 {
    } else if (a[0] as u32) < (b[0] as u32) {
    } else if (b[0] as u32) < (a[0] as u32) {
    } else {
        lemma_lex_total(a.drop_first(), b.drop_first());
        assert(lex_le(a, b) == lex_le(a.drop_first(), b.drop_first()));
        assert(lex_le(b, a) == lex_le(b.drop_first(), a.drop_first()));
    }
}

/// Whether `a` sorts at or before `b`.
pub fn str_lex_le(a: &String, b: &String) -> (r: bool)
    ensures
        r == lex_le(a@, b@),
{
    let alen = a.as_str().unicode_len();
    let blen = b.as_str().unicode_len();
    let mut i: usize = 0;
    proof {
        assert(a@.skip(0) =~= a@);
        assert(b@.skip(0) =~= b@);
    }
    loop
        invariant
            i <= alen,
            i <= blen,
            alen == a@.len(),
            blen == b@.len(),
            lex_le(a@, b@) == lex_le(a@.skip(i as int), b@.skip(i as int)),
        decreases alen - i,
    {
        let ghost ra = a@.skip(i as int);
        let ghost rb = b@.skip(i as int);
        if i == alen {
            proof {
                assert(ra.len() == 0);
            }
            return true;
        }
        if i == blen {
            proof {
                assert(ra.len() > 0 && rb.len() == 0);
            }
            return false;
        }
        let ca = a.as_str().get_char(i);
        let cb = b.as_str().get_char(i);
        proof {
            assert(ra[0] == a@[i as int]);
            assert(rb[0] == b@[i as int]);
            assert(ra.drop_first() =~= a@.skip(i + 1));
            assert(rb.drop_first() =~= b@.skip(i + 1));
        }
        if (ca as u32) < (cb as u32) {
            return true;
        }
        if (cb as u32) < (ca as u32) {
            return false;
        }
        proof {
            assert(lex_le(ra, rb) == lex_le(ra.drop_first(), rb.drop_first()));
        }
        i += 1;
    }
}

/// The views of a list of strings.
pub open spec fn views_of(s: Seq<String>) -> Seq<Seq<char>> {
    s.map_values(|x: String| x@)
}

/// Sorts script paths lexicographically by their full path text. The
/// result holds exactly the given paths, in order.
pub fn sort_scripts(scripts: &Vec<String>) -> (r: Vec<String>)
    ensures
        r@.len() == scripts@.len(),
        forall|i: int, j: int| 0 <= i < j < r@.len() ==> lex_le(#[trigger] r@[i]@, #[trigger] r@[j]@),
        views_of(r@).to_multiset() == views_of(scripts@).to_multiset(),
{
    let mut work = crate::paths::clone_components(scripts);
    let mut r: Vec<String> = Vec::new();
    proof {
        broadcast use vstd::seq_lib::group_to_multiset_ensures;

        assert forall|t: int| 0 <= t < work@.len() implies views_of(work@)[t] == views_of(
            scripts@,
        )[t] by {
            assert(work@[t]@ == scripts@[t]@);
        }
        assert(views_of(work@) =~= views_of(scripts@));
        assert(views_of(r@).len() == 0);
        assert forall|x: Seq<char>| true implies views_of(r@).to_multiset().count(x) == 0 by {
            assert(!views_of(r@).contains(x));
        }
        assert(views_of(r@).to_multiset() =~= Multiset::<Seq<char>>::empty());
        assert(views_of(r@).to_multiset().add(views_of(work@).to_multiset()) =~= views_of(
            scripts@,
        ).to_multiset());
    }
    while work.len() > 0
        invariant
            views_of(r@).to_multiset().add(views_of(work@).to_multiset()) == views_of(
                scripts@,
            ).to_multiset(),
            r@.len() + work@.len() == scripts@.len(),
            forall|i: int, j: int|
                0 <= i < j < r@.len() ==> lex_le(#[trigger] r@[i]@, #[trigger] r@[j]@),
            forall|i: int, k: int|
                0 <= i < r@.len() && 0 <= k < work@.len() ==> lex_le(
                    #[trigger] r@[i]@,
                    #[trigger] work@[k]@,
                ),
        decreases work.len(),
    {
        let mut m: usize = 0;
        let mut k: usize = 1;
        proof {
            lemma_lex_total(work@[0]@, work@[0]@);
        }
        while k < work.len()
            invariant
                m < k,
                k <= work.len(),
                work.len() > 0,
                forall|t: int| 0 <= t < k ==> lex_le(work@[m as int]@, #[trigger] work@[t]@),
            decreases work.len() - k,
        {
            if !str_lex_le(&work[m], &work[k]) {
                proof {
                    lemma_lex_total(work@[m as int]@, work@[k as int]@);
                    assert forall|t: int| 0 <= t < k + 1 implies lex_le(
                        work@[k as int]@,
                        #[trigger] work@[t]@,
                    ) by {
                        if t < k {
                            lemma_lex_trans(work@[k as int]@, work@[m as int]@, work@[t]@);
                        } else {
                            lemma_lex_total(work@[k as int]@, work@[k as int]@);
                        }
                    }
                }
                m = k;
            }
            k += 1;
        }
        let ghost work0 = work@;
        let x = work.remove(m);
        let ghost r0 = r@;
        r.push(x);
        proof {
            broadcast use vstd::seq_lib::group_to_multiset_ensures;

            assert(views_of(work@) =~= views_of(work0).remove(m as int));
            assert(views_of(r@) =~= views_of(r0).push(x@));
            assert(views_of(work0)[m as int] == x@);
            assert(views_of(r@).to_multiset() =~= views_of(r0).to_multiset().insert(x@));
            assert(views_of(work@).to_multiset() =~= views_of(work0).to_multiset().remove(x@));
            assert(views_of(r@).to_multiset().add(views_of(work@).to_multiset()) =~= views_of(
                scripts@,
            ).to_multiset());
            work0.remove_ensures(m as int);
            assert forall|i: int, kk: int|
                0 <= i < r@.len() && 0 <= kk < work@.len() implies lex_le(
                #[trigger] r@[i]@,
                #[trigger] work@[kk]@,
            ) by {
                let orig: int = if kk < m {
                    kk
                } else {
                    kk + 1
                };
                assert(work@[kk] == work0[orig]);
                if i < r0.len() {
                    assert(lex_le(r0[i]@, work0[orig]@));
                } else {
                    assert(r@[i] == x);
                    assert(lex_le(work0[m as int]@, work0[orig]@));
                }
            }
            assert forall|i: int, j: int| 0 <= i < j < r@.len() implies lex_le(
                #[trigger] r@[i]@,
                #[trigger] r@[j]@,
            ) by {
                if j == r0.len() {
                    assert(lex_le(r0[i]@, work0[m as int]@));
                }
            }
        }
    }
    proof {
        broadcast use vstd::seq_lib::group_to_multiset_ensures;

        assert(views_of(work@).len() == 0);
        assert forall|x: Seq<char>| true implies views_of(work@).to_multiset().count(x) == 0 by {
            assert(!views_of(work@).contains(x));
        }
        assert(views_of(work@).to_multiset() =~= Multiset::<Seq<char>>::empty());
        assert(views_of(r@).to_multiset().add(Multiset::<Seq<char>>::empty()) =~= views_of(
            r@,
        ).to_multiset());
    }
    r
}

/// Lexicographic order is transitive.
pub proof fn lemma_lex_trans(a: Seq<char>, b: Seq<char>, c: Seq<char>)
    requires
        lex_le(a, b),
        lex_le(b, c),
    ensures
        lex_le(a, c),
    decreases a.len() + b.len() + c.len(),
{
    if a.len() == 0 {
    } else if b.len() == 0 || c.len() == 0 {
    } else if (a[0] as u32) < (b[0] as u32) {
        assert((a[0] as u32) < (c[0] as u32));
    } else if (b[0] as u32) < (a[0] as u32) {
        assert(!lex_le(a, b));
    } else {
        if (b[0] as u32) < (c[0] as u32) {
            assert((a[0] as u32) < (c[0] as u32));
        } else if (c[0] as u32) < (b[0] as u32) {
            assert(!lex_le(b, c));
        } else {
            lemma_lex_trans(a.drop_first(), b.drop_first(), c.drop_first());
            assert(lex_le(a, c) == lex_le(a.drop_first(), c.drop_first()));
        }
    }
}

/// The characters after the last `/`; the whole string when it has none.
pub open spec fn after_last_slash(s: Seq<char>) -> Seq<char>
    decreases s.len(),
{
    if s.len() == 0 {
        s
    } else if s.last() == '/' {
        Seq::empty()
    } else {
        after_last_slash(s.drop_last()) + seq![s.last()]
    }
}

proof fn lemma_after_last_slash(s: Seq<char>, k: int)
    requires
        0 <= k <= s.len(),
        k == 0 || s[k - 1] == '/',
        forall|j: int| k <= j < s.len() ==> s[j] != '/',
    ensures
        after_last_slash(s) == s.subrange(k, s.len() as int),
    decreases s.len(),
{
    if k == s.len() {
        if s.len() == 0 {
            assert(after_last_slash(s) =~= s.subrange(k, s.len() as int));
        } else {
            assert(s.last() == '/');
            assert(after_last_slash(s) =~= s.subrange(k, s.len() as int));
        }
    } else {
        assert(s[s.len() - 1] != '/');
        lemma_after_last_slash(s.drop_last(), k);
        assert(after_last_slash(s) == s.drop_last().subrange(k, s.len() - 1) + seq![s.last()]);
        assert(s.drop_last().subrange(k, s.len() - 1) =~= s.subrange(k, s.len() - 1));
        assert(after_last_slash(s) =~= s.subrange(k, s.len() as int));
    }
}

/// The file name a command path points at: the part after the last `/`.
/// A path that ends in a separator, or whose final component is the
/// parent-directory marker, does not name a file. (A platform path
/// inspection would skip trailing separators before taking the name;
/// here such a path simply has no name, and the script enumeration
/// never produces one.)
pub fn command_name(command: &String) -> (r: Option<String>)
    ensures
        match r {
            Some(n) => {
                &&& n@ == after_last_slash(command@)
                &&& n@.len() > 0
                &&& n@ != ".."@
            },
            None => after_last_slash(command@).len() == 0 || after_last_slash(command@) == ".."@,
        },
{
    let s = command.as_str();
    let len = s.unicode_len();
    let mut start: usize = 0;
    let mut i: usize = 0;
    while i < len
        invariant
            len == command@.len(),
            s@ == command@,
            i <= len,
            start <= i,
            start == 0 || command@[start - 1] == '/',
            forall|j: int| start <= j < i ==> command@[j] != '/',
        decreases len - i,
    {
        let c = s.get_char(i);
        if matches!(c, '/') {
            start = i + 1;
        }
        i += 1;
    }
    proof {
        lemma_after_last_slash(command@, start as int);
    }
    let name = s.substring_char(start, len);
    let nlen = len - start;
    if nlen == 0 {
        return None;
    }
    if nlen == 2 {
        let c0 = name.get_char(0);
        let c1 = name.get_char(1);
        if matches!(c0, '.') && matches!(c1, '.') {
            proof {
                reveal_strlit("..");
                assert(name@ =~= ".."@);
            }
            return None;
        }
    }
    proof {
        reveal_strlit("..");
        if name@ == ".."@ {
            assert(name@[0] == '.' && name@[1] == '.');
            assert(false);
        }
    }
    Some(name.to_string())
}

/// What a permission probe on a script reported.
pub enum ScriptAccess {
    /// The current user may execute it.
    Executable,
    /// Execute permission is missing: the script is skipped with a
    /// warning, never run.
    Denied,
    /// The probe itself failed; the run aborts.
    Failed,
}

/// What to do with one script.
#[derive(Clone, Copy, Debug, PartialEq, Eq, Structural)]
pub enum ScriptDecision {
    /// Run it as a subprocess, with the dotfiles root as its argument.
    Run,
    /// Leave it out, with a warning.
    Skip,
}

/// Relies on nix::unistd::access with X_OK: asks the kernel whether the
/// current user may execute the file. The answer depends on the
/// filesystem, so nothing is promised of it.
#[verifier::external_body]
fn access_executable(path: &String) -> (r: ScriptAccess) {
    match nix::unistd::access(path.as_str(), nix::unistd::AccessFlags::X_OK) {
        Ok(()) => ScriptAccess::Executable,
        Err(nix::errno::Errno::EACCES) => ScriptAccess::Denied,
        Err(_) => ScriptAccess::Failed,
    }
}

/// The rule a permission probe's answer is mapped by: an executable
/// script runs, one lacking permission is skipped with a warning, and a
/// failed probe aborts the whole run.
pub fn script_decision(access: ScriptAccess) -> (r: Result<ScriptDecision, InstallError>)
    ensures
        access is Executable <==> r == Ok::<ScriptDecision, InstallError>(ScriptDecision::Run),
        access is Denied <==> r == Ok::<ScriptDecision, InstallError>(ScriptDecision::Skip),
        access is Failed <==> r is Err,
{
    match access {
        ScriptAccess::Executable => Ok(ScriptDecision::Run),
        ScriptAccess::Denied => Ok(ScriptDecision::Skip),
        ScriptAccess::Failed => Err(InstallError::Conflict),
    }
}

/// Probes one script's execute permission and decides what to do with
/// it. The probe's answer depends on the filesystem, so all this
/// promises is that the decision follows the probe by the documented
/// rule; `script_decision` carries that rule's exact contract.
pub fn check_script(path: &String) -> (r: Result<ScriptDecision, InstallError>)
    ensures
        r is Ok || r is Err,
{
    let access = access_executable(path);
    script_decision(access)
}

} // verus!
