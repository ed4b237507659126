//! Writing segments and committing them.

use vstd::prelude::*;

use crate::error::{Error, ErrorView};
use crate::text::{chars_of, same, text_of, views};

verus! {

/// The end of the path component that starts at `i`.
pub open spec fn component_end(p: Seq<char>, i: int) -> int
    decreases p.len() - i,
{
    if i < p.len() && p[i] != '/' {
        component_end(p, i + 1)
    } else {
        i
    }
}

pub proof fn lemma_component_end(p: Seq<char>, i: int)
    requires
        0 <= i <= p.len(),
    ensures
        i <= component_end(p, i) <= p.len(),
    decreases p.len() - i,
{
    if i < p.len() && p[i] != '/' {
        lemma_component_end(p, i + 1);
    }
}

/// The components from character `i` on. Empty ones do not count, nor does `.`
/// but at the start of the path.
pub open spec fn components_from(p: Seq<char>, i: int) -> Seq<Seq<char>>
    decreases p.len() + 1 - i,
{
    if i < 0 || i >= p.len() {
        Seq::empty()
    } else {
        proof {
            lemma_component_end(p, i);
        }
        let e = component_end(p, i);
        let c = p.subrange(i, e);
        let rest = components_from(p, e + 1);
        if c.len() == 0 || c == "."@ && i > 0 {
            rest
        } else {
            seq![c] + rest
        }
    }
}

/// The components of a path, the root directory being `/`.
pub open spec fn components(p: Seq<char>) -> Seq<Seq<char>> {
    if p.len() > 0 && p[0] == '/' {
        seq!["/"@] + components_from(p, 0)
    } else {
        components_from(p, 0)
    }
}

/// The component is the name of a file or directory.
pub open spec fn is_name(c: Seq<char>) -> bool {
    c != "/"@ && c != "."@ && c != ".."@
}

/// The names among the first `n` components, joined by `/`.
pub open spec fn joined_names(cs: Seq<Seq<char>>, n: int) -> Seq<char>
    decreases n,
{
    if n <= 0 {
        Seq::empty()
    } else {
        let before = joined_names(cs, n - 1);
        if !is_name(cs[n - 1]) {
            before
        } else if before.len() == 0 {
            cs[n - 1]
        } else {
            before.push('/') + cs[n - 1]
        }
    }
}

/// The components of `path` below `root`; all of them where it is not below.
pub open spec fn below_root(root: Seq<char>, path: Seq<char>) -> Seq<Seq<char>> {
    let r = components(root);
    let p = components(path);
    if r.is_prefix_of(p) {
        p.skip(r.len() as int)
    } else {
        p
    }
}

/// `path` relative to `root`, with `/` between the names.
pub open spec fn relative(root: Seq<char>, path: Seq<char>) -> Seq<char> {
    let cs = below_root(root, path);
    joined_names(cs, cs.len() as int)
}

/// The components of a path.
fn split_path(path: &str) -> (r: Vec<String>)
    ensures
        views(r@) == components(path@),
{
    let cs = chars_of(path);
    let mut r: Vec<String> = Vec::new();
    let mut i: usize = 0;
    if cs.len() > 0 && cs[0] == '/' {
        r.push("/".to_string());
        assert(views(r@) =~= seq!["/"@]);
    } else {
        assert(views(r@) =~= Seq::empty());
    }
    assert(components(path@) =~= views(r@) + components_from(path@, 0));
    while i < cs.len()
        invariant
            cs@ == path@,
            components(path@) == views(r@) + components_from(path@, i as int),
        decreases cs@.len() - i,
    {
        let mut e: usize = i;
        while e < cs.len() && cs[e] != '/'
            invariant
                i <= e <= cs@.len(),
                component_end(cs@, i as int) == component_end(cs@, e as int),
            decreases cs@.len() - e,
        {
            e = e + 1;
        }
        let c = text_of(cs.as_slice(), i, e);
        let ghost had = views(r@);
        let ghost rest = components_from(path@, e + 1);
        if e > i && !(same(c.as_str(), ".") && i > 0) {
            r.push(c);
            assert(views(r@) =~= had.push(c@));
            assert(had + (seq![c@] + rest) =~= had.push(c@) + rest);
        }
        if e == cs.len() {
            assert(rest =~= Seq::empty());
            assert(views(r@) + rest =~= views(r@));
            return r;
        }
        i = e + 1;
    }
    assert(views(r@) + components_from(path@, i as int) =~= views(r@));
    r
}

/// `path` relative to `root`, with `/` between the names.
pub fn relative_path(root: &str, path: &str) -> (r: String)
    ensures
        r@ == relative(root@, path@),
{
    let rs = split_path(root);
    let ps = split_path(path);
    let ghost rv = views(rs@);
    let ghost pv = views(ps@);
    let mut start: usize = 0;
    let mut below: bool = rs.len() <= ps.len();
    while below && start < rs.len()
        invariant
            rv == views(rs@),
            pv == views(ps@),
            start <= rs@.len(),
            below ==> rs@.len() <= ps@.len(),
            below ==> forall|k: int| 0 <= k < start ==> rv[k] == pv[k],
            !below ==> !rv.is_prefix_of(pv),
        decreases
                rs@.len() - start + if below {
                    1int
                } else {
                    0int
                },
    {
        assert(rv[start as int] == rs@[start as int]@);
        assert(pv[start as int] == ps@[start as int]@);
        if same(rs[start].as_str(), ps[start].as_str()) {
            start = start + 1;
        } else {
            assert(pv.subrange(0, rv.len() as int)[start as int] == pv[start as int]);
            below = false;
        }
    }
    if below {
        assert(rv =~= pv.subrange(0, rv.len() as int));
    } else {
        start = 0;
        assert(pv.skip(0) =~= pv);
    }
    let ghost cs = below_root(root@, path@);
    assert(cs =~= pv.skip(start as int));
    let mut r = String::new();
    let mut i: usize = start;
    while i < ps.len()
        invariant
            start <= i <= ps@.len(),
            pv == views(ps@),
            cs == pv.skip(start as int),
            r@ == joined_names(cs, i - start),
        decreases ps@.len() - i,
    {
        let c: &str = ps[i].as_str();
        assert(c@ == cs[i - start]);
        if !same(c, "/") && !same(c, ".") && !same(c, "..") {
            if !r.as_str().is_empty() {
                r.push('/');
            } else {
                assert(r@ + c@ =~= c@);
            }
            r.push_str(c);
        }
        i = i + 1;
    }
    r
}

/// How long a writer tries to take the lock, in milliseconds. A reader holds it
/// for the moment of a sweep, which must not turn a writer away.
pub const LOCK_WAIT_MS: u64 = 500;

/// The time between two attempts.
pub const LOCK_RETRY_MS: u64 = 5;

/// What a writer is told that found the lock of the index in `dir` taken: nothing
/// as long as it may try again, then that another writer holds it.
pub fn lock_refused(dir: &str, now_ms: u64, deadline_ms: u64) -> (e: Option<Error>)
    ensures
        match e {
            None => now_ms < deadline_ms,
            Some(e) => now_ms >= deadline_ms && e@ == ErrorView::Locked(dir@),
        },
{
    if now_ms >= deadline_ms {
        Some(Error::Locked(dir.to_string()))
    } else {
        None
    }
}

} // verus!
