//! Paths below a root: laid under the root and taken from it again, a relative
//! path stays what it was.

use vstd::prelude::*;

use super::joined;
use super::segment::{under, under_from};
use super::writer::{
    below_root, component_end, components, components_from, is_name, joined_names,
    lemma_component_end, relative,
};

verus! {

/// A name of a file or directory: not empty, without a slash, and no step.
pub open spec fn plain(c: Seq<char>) -> bool {
    &&& c.len() > 0
    &&& forall|i: int| 0 <= i < c.len() ==> #[trigger] c[i] != '/'
    &&& is_name(c)
}

/// The path is made of names, with a slash between any two.
pub open spec fn of_names(rel: Seq<char>) -> bool {
    exists|ns: Seq<Seq<char>>| #[trigger] all_plain(ns) && rel == joined_names(ns, ns.len() as int)
}

/// All of them are names.
pub open spec fn all_plain(ns: Seq<Seq<char>>) -> bool {
    forall|i: int| 0 <= i < ns.len() ==> plain(#[trigger] ns[i])
}

proof fn lemma_no_slash_inside(p: Seq<char>, i: int)
    requires
        0 <= i <= p.len(),
    ensures
        forall|j: int| i <= j < component_end(p, i) ==> #[trigger] p[j] != '/',
        component_end(p, i) < p.len() ==> p[component_end(p, i)] == '/',
    decreases p.len() - i,
{
    if i < p.len() && p[i] != '/' {
        lemma_no_slash_inside(p, i + 1);
    }
}

/// A component ends where it did, whatever follows the slash behind it.
proof fn lemma_same_end(p: Seq<char>, q: Seq<char>, i: int)
    requires
        0 <= i < p.len() <= q.len(),
        q.take(p.len() as int) == p,
        p.last() == '/',
    ensures
        component_end(q, i) == component_end(p, i) < p.len(),
    decreases p.len() - i,
{
    assert(q[i] == q.take(p.len() as int)[i]);
    if p[i] != '/' {
        lemma_same_end(p, q, i + 1);
    }
}

proof fn lemma_name_ends(c: Seq<char>, q: Seq<char>, i: int, at: int)
    requires
        0 <= at <= i <= q.len(),
        q.len() == at + c.len(),
        forall|j: int| 0 <= j < c.len() ==> #[trigger] c[j] != '/' && q[at + j] == c[j],
    ensures
        component_end(q, i) == q.len(),
    decreases q.len() - i,
{
    if i < q.len() {
        assert(c[i - at] != '/' && q[at + (i - at)] == c[i - at]);
        lemma_name_ends(c, q, i + 1, at);
    }
}

/// The components of a path behind which a name is added.
proof fn lemma_components_push(p: Seq<char>, c: Seq<char>, i: int)
    requires
        0 <= i <= p.len(),
        p.len() > 0,
        p.last() == '/',
        plain(c),
    ensures
        components_from(p + c, i) == components_from(p, i).push(c),
    decreases p.len() + 1 - i,
{
    let q = p + c;
    assert(q.take(p.len() as int) =~= p);
    if i == p.len() {
        lemma_name_ends(c, q, i, p.len() as int);
        assert(q.subrange(i, q.len() as int) =~= c);
        assert(components_from(q, q.len() + 1int) =~= Seq::empty());
        assert(components_from(q, i) =~= seq![c]);
        assert(components_from(p, i).push(c) =~= seq![c]);
    } else {
        lemma_component_end(p, i);
        lemma_same_end(p, q, i);
        let e = component_end(p, i);
        assert(q.subrange(i, e) =~= p.subrange(i, e));
        lemma_components_push(p, c, e + 1);
        let d = p.subrange(i, e);
        if d.len() == 0 || d == "."@ && i > 0 {
        } else {
            assert((seq![d] + components_from(p, e + 1)).push(c) =~= seq![d] + components_from(
                p,
                e + 1,
            ).push(c));
        }
    }
}

/// A slash at the end of a path adds no component.
proof fn lemma_components_slash(p: Seq<char>, i: int)
    requires
        0 <= i,
    ensures
        components_from(p.push('/'), i) == components_from(p, i),
    decreases p.len() + 1 - i,
{
    let q = p.push('/');
    if i < p.len() {
        lemma_component_end(p, i);
        lemma_slash_end(p, i);
        let e = component_end(p, i);
        assert(q.subrange(i, e) =~= p.subrange(i, e));
        lemma_components_slash(p, e + 1);
    } else if i == p.len() {
        assert(component_end(q, i) == i);
        assert(q.subrange(i, i).len() == 0);
        assert(components_from(q, i + 1) =~= Seq::empty());
    }
}

proof fn lemma_slash_end(p: Seq<char>, i: int)
    requires
        0 <= i <= p.len(),
    ensures
        component_end(p.push('/'), i) == component_end(p, i),
    decreases p.len() - i,
{
    let q = p.push('/');
    if i < p.len() {
        assert(q[i] == p[i]);
        if p[i] != '/' {
            lemma_slash_end(p, i + 1);
        }
    } else {
        assert(q[i] == '/');
    }
}

/// The components of a directory and a name in it.
pub proof fn lemma_components_joined(dir: Seq<char>, c: Seq<char>)
    requires
        plain(c),
    ensures
        components(joined(dir, c)) == components(dir).push(c),
{
    if dir.len() == 0 {
        lemma_name_ends(c, c, 0, 0);
        assert(c.subrange(0, c.len() as int) =~= c);
        assert(components_from(c, c.len() + 1int) =~= Seq::empty());
        assert(components(c) =~= seq![c]);
        assert(components(dir).push(c) =~= seq![c]);
    } else {
        let p = if dir.last() == '/' {
            dir
        } else {
            dir.push('/')
        };
        lemma_components_push(p, c, 0);
        lemma_components_slash(dir, 0);
        assert(components_from(p, 0) == components_from(dir, 0));
        assert((p + c)[0] == dir[0]);
        assert((seq!["/"@] + components_from(dir, 0)).push(c) =~= seq!["/"@] + components_from(
            dir,
            0,
        ).push(c));
    }
}

/// What lies under a path with one more name is in that directory.
proof fn lemma_under_push(path: Seq<char>, p: Seq<char>, c: Seq<char>, i: int)
    requires
        0 <= i <= p.len(),
        p.len() > 0,
        p.last() == '/',
        plain(c),
    ensures
        under_from(path, p + c, i) == joined(under_from(path, p, i), c),
    decreases p.len() + 1 - i,
{
    let q = p + c;
    assert(q.take(p.len() as int) =~= p);
    if i == p.len() {
        lemma_name_ends(c, q, i, p.len() as int);
        assert(q.subrange(i, q.len() as int) =~= c);
        assert(under_from(joined(path, c), q, q.len() + 1int) == joined(path, c));
    } else {
        lemma_component_end(p, i);
        lemma_same_end(p, q, i);
        let e = component_end(p, i);
        assert(q.subrange(i, e) =~= p.subrange(i, e));
        let next = if e > i {
            joined(path, p.subrange(i, e))
        } else {
            path
        };
        lemma_under_push(next, p, c, e + 1);
    }
}

proof fn lemma_under_slash(path: Seq<char>, p: Seq<char>, i: int)
    requires
        0 <= i,
    ensures
        under_from(path, p.push('/'), i) == under_from(path, p, i),
    decreases p.len() + 1 - i,
{
    let q = p.push('/');
    if i < p.len() {
        lemma_component_end(p, i);
        lemma_slash_end(p, i);
        let e = component_end(p, i);
        assert(q.subrange(i, e) =~= p.subrange(i, e));
        let next = if e > i {
            joined(path, p.subrange(i, e))
        } else {
            path
        };
        lemma_under_slash(next, p, e + 1);
    } else if i == p.len() {
        assert(component_end(q, i) == i);
        assert(under_from(path, q, i + 1) == path);
    }
}

/// The components of what lies under a root: those of the root, and the names.
proof fn lemma_under_names(root: Seq<char>, ns: Seq<Seq<char>>, n: int)
    requires
        all_plain(ns),
        0 <= n <= ns.len(),
    ensures
        components(under(root, joined_names(ns, n))) == components(root) + ns.take(n),
        n > 0 ==> joined_names(ns, n).len() > 0,
        n == 0 ==> joined_names(ns, n).len() == 0,
    decreases n,
{
    if n == 0 {
        assert(components(root) + ns.take(0) =~= components(root));
    } else {
        lemma_under_names(root, ns, n - 1);
        let before = joined_names(ns, n - 1);
        let c = ns[n - 1];
        assert(plain(c));
        let rel = joined_names(ns, n);
        if n == 1 {
            lemma_name_ends(c, c, 0, 0);
            assert(c.subrange(0, c.len() as int) =~= c);
            assert(under_from(joined(root, c), c, c.len() + 1int) == joined(root, c));
            assert(under(root, rel) == joined(root, c));
            assert(under(root, before) == root);
        } else {
            lemma_under_push(root, before.push('/'), c, 0);
            lemma_under_slash(root, before, 0);
            assert(under(root, rel) == joined(under(root, before), c));
        }
        lemma_components_joined(under(root, before), c);
        assert((components(root) + ns.take(n - 1)).push(c) =~= components(root) + ns.take(n));
    }
}

proof fn lemma_joined_take(ns: Seq<Seq<char>>, ms: Seq<Seq<char>>, n: int)
    requires
        0 <= n <= ns.len(),
        n <= ms.len(),
        forall|i: int| 0 <= i < n ==> ns[i] == ms[i],
    ensures
        joined_names(ns, n) == joined_names(ms, n),
    decreases n,
{
    if n > 0 {
        lemma_joined_take(ns, ms, n - 1);
    }
}

/// A path of names, laid under a root, is found below it as it was.
pub proof fn lemma_relative_under(root: Seq<char>, rel: Seq<char>)
    requires
        of_names(rel),
    ensures
        relative(root, under(root, rel)) == rel,
{
    let ns = choose|ns: Seq<Seq<char>>| #[trigger]
        all_plain(ns) && rel == joined_names(ns, ns.len() as int);
    let n = ns.len() as int;
    lemma_under_names(root, ns, n);
    let r = components(root);
    let p = components(under(root, rel));
    assert(ns.take(n) =~= ns);
    assert(p.take(r.len() as int) =~= r);
    assert(r.is_prefix_of(p));
    assert(below_root(root, under(root, rel)) =~= ns);
}

/// What the components of a path can be.
proof fn lemma_component_kinds(p: Seq<char>, i: int)
    requires
        0 <= i,
    ensures
        forall|k: int|
            #![trigger components_from(p, i)[k]]
            0 <= k < components_from(p, i).len() ==> components_from(p, i)[k].len() > 0 && forall|
                j: int,
            |
                0 <= j < components_from(p, i)[k].len() ==> #[trigger] components_from(p, i)[k][j]
                    != '/',
    decreases p.len() + 1 - i,
{
    if i < p.len() {
        lemma_component_end(p, i);
        lemma_no_slash_inside(p, i);
        let e = component_end(p, i);
        let c = p.subrange(i, e);
        lemma_component_kinds(p, e + 1);
        let rest = components_from(p, e + 1);
        let all = components_from(p, i);
        assert forall|k: int| #![trigger all[k]] 0 <= k < all.len() implies all[k].len() > 0
            && forall|j: int| 0 <= j < all[k].len() ==> #[trigger] all[k][j] != '/' by {
            if c.len() == 0 || c == "."@ && i > 0 {
                assert(all[k] == rest[k]);
            } else if k > 0 {
                assert(all[k] == rest[k - 1]);
            } else {
                assert(all[k] == c);
            }
        }
    }
}

/// What is joined of components is a path of names.
proof fn lemma_joined_is_of_names(cs: Seq<Seq<char>>, n: int)
    requires
        0 <= n <= cs.len(),
        forall|k: int|
            0 <= k < cs.len() && is_name(#[trigger] cs[k]) ==> plain(cs[k]),
    ensures
        of_names(joined_names(cs, n)),
    decreases n,
{
    if n == 0 {
        let ns = Seq::<Seq<char>>::empty();
        assert(all_plain(ns));
        assert(joined_names(ns, 0) == joined_names(cs, 0));
    } else {
        lemma_joined_is_of_names(cs, n - 1);
        if is_name(cs[n - 1]) {
            let before = joined_names(cs, n - 1);
            let ns = choose|ns: Seq<Seq<char>>| #[trigger]
                all_plain(ns) && before == joined_names(ns, ns.len() as int);
            let now = ns.push(cs[n - 1]);
            assert(all_plain(now));
            lemma_joined_take(now, ns, ns.len() as int);
            assert(joined_names(now, now.len() as int) == joined_names(cs, n));
        }
    }
}

/// A path taken from a root is made of names.
pub proof fn lemma_relative_is_of_names(root: Seq<char>, path: Seq<char>)
    ensures
        of_names(relative(root, path)),
{
    reveal_strlit("/");
    let p = components(path);
    let cs = below_root(root, path);
    lemma_component_kinds(path, 0);
    let from = components_from(path, 0);
    assert forall|k: int| 0 <= k < p.len() && is_name(#[trigger] p[k]) implies plain(p[k]) by {
        if path.len() > 0 && path[0] == '/' {
            if k > 0 {
                assert(p[k] == from[k - 1]);
            } else {
                assert(p[k] == "/"@);
            }
        } else {
            assert(p[k] == from[k]);
        }
    }
    assert forall|k: int| 0 <= k < cs.len() && is_name(#[trigger] cs[k]) implies plain(cs[k]) by {
        let at = p.len() - cs.len();
        assert(cs[k] == p[at + k]);
    }
    lemma_joined_is_of_names(cs, cs.len() as int);
}

/// Of the components of a path its names are kept, with a slash between two of them; the root,
/// `.` and `..` are not.
pub proof fn lemma_joined_names(cs: Seq<Seq<char>>, n: int)
    requires
        0 <= n <= cs.len(),
    ensures
        joined_names(cs, n) == cs.take(n).filter(
            |c: Seq<char>| c != seq!['/'] && c != seq!['.'] && c != seq!['.', '.'],
        ).fold_left(
            Seq::<char>::empty(),
            |t: Seq<char>, c: Seq<char>|
                if t.len() == 0 {
                    c
                } else {
                    t + seq!['/'] + c
                },
        ),
    decreases n,
{
    let named = |c: Seq<char>| c != seq!['/'] && c != seq!['.'] && c != seq!['.', '.'];
    let join = |t: Seq<char>, c: Seq<char>|
        if t.len() == 0 {
            c
        } else {
            t + seq!['/'] + c
        };
    reveal(Seq::filter);
    reveal_strlit("/");
    reveal_strlit(".");
    reveal_strlit("..");
    if n > 0 {
        lemma_joined_names(cs, n - 1);
        let c = cs[n - 1];
        let kept = cs.take(n - 1).filter(named);
        assert(cs.take(n).drop_last() =~= cs.take(n - 1));
        assert(cs.take(n).last() == c);
        assert("/"@ =~= seq!['/'] && "."@ =~= seq!['.'] && ".."@ =~= seq!['.', '.']);
        assert(is_name(c) == named(c));
        let t = joined_names(cs, n - 1);
        if named(c) {
            assert(cs.take(n).filter(named) == kept.push(c));
            assert(kept.push(c).drop_last() =~= kept);
            assert(kept.push(c).fold_left(Seq::<char>::empty(), join) == join(t, c));
            assert(t.push('/') + c =~= t + seq!['/'] + c);
        }
    } else {
        assert(cs.take(n) =~= Seq::empty());
    }
}

} // verus!
