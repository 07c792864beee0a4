use crate::node::{limited, FileNode};
use crate::scan::well_formed;
use vstd::prelude::*;
use vstd::string::*;

verus! {

broadcast use vstd::string::group_string_axioms;

/// The path of the entry `name` in the directory `parent`.
pub open spec fn join(parent: Seq<char>, name: Seq<char>) -> Seq<char> {
    if parent.len() > 0 && parent[parent.len() - 1] == '/' {
        parent + name
    } else {
        parent + seq!['/'] + name
    }
}

/// Relies on `format!` with `{}{}` on two `str`s: the characters of `a`, then
/// those of `b`.
#[verifier::external_body]
fn concat(a: &str, b: &str) -> (r: String)
    ensures
        r@ == a@ + b@,
{
    format!("{}{}", a, b)
}

/// The path of the entry `name` in the directory `parent`.
pub fn join_path(parent: &str, name: &str) -> (r: String)
    ensures
        r@ == join(parent@, name@),
{
    let n = parent.unicode_len();
    if n > 0 && parent.get_char(n - 1) == '/' {
        concat(parent, name)
    } else {
        let with_slash = concat(parent, "/");
        proof {
            reveal_strlit("/");
        }
        assert(with_slash@ == parent@ + seq!['/']);
        concat(with_slash.as_str(), name)
    }
}

/// A cached root answers for `p`: it is a prefix of `p` that ends at a
/// component boundary.
pub open spec fn covers(root: Seq<char>, p: Seq<char>) -> bool {
    &&& root.len() <= p.len()
    &&& p.take(root.len() as int) == root
    &&& (root.len() == p.len() || p[root.len() as int] == '/' || (root.len() > 0 && root[root.len()
        - 1] == '/'))
}

/// Where the path component that starts at `i` ends: the next '/' or the end.
pub open spec fn component_end(s: Seq<char>, i: int) -> int
    decreases s.len() - i,
{
    if i >= s.len() || s[i] == '/' {
        i
    } else {
        component_end(s, i + 1)
    }
}

/// Index of the first of `s`, from `i` on, named `part`; `s.len()` if none is.
pub open spec fn child_named(s: Seq<FileNode>, part: Seq<char>, i: int) -> int
    decreases s.len() - i,
{
    if i < 0 || i >= s.len() {
        s.len() as int
    } else if s[i].name@ == part {
        i
    } else {
        child_named(s, part, i + 1)
    }
}

/// The node that the relative path `rest` names below `n`, going down by
/// name one component at a time; separators are skipped.
pub open spec fn locate(n: FileNode, rest: Seq<char>) -> Option<FileNode>
    decreases rest.len(),
{
    if rest.len() == 0 {
        Some(n)
    } else if rest[0] == '/' {
        locate(n, rest.drop_first())
    } else {
        let end = component_end(rest, 0);
        let k = child_named(n.children@, rest.take(end), 0);
        if 0 < end <= rest.len() && 0 <= k < n.children@.len() {
            locate(n.children@[k], rest.skip(end))
        } else {
            None
        }
    }
}

/// The path that `locate` arrives at from a node at `base`, joining each
/// component of `rest` in turn.
pub open spec fn lands(base: Seq<char>, rest: Seq<char>) -> Seq<char>
    decreases rest.len(),
{
    if rest.len() == 0 {
        base
    } else if rest[0] == '/' {
        lands(base, rest.drop_first())
    } else {
        let end = component_end(rest, 0);
        if 0 < end <= rest.len() {
            lands(join(base, rest.take(end)), rest.skip(end))
        } else {
            base
        }
    }
}

proof fn lemma_component_end(s: Seq<char>, i: int, e: int)
    requires
        0 <= i <= e <= s.len(),
        forall|q: int| i <= q < e ==> s[q] != '/',
        e == s.len() || s[e] == '/',
    ensures
        component_end(s, i) == e,
    decreases e - i,
{
    if i < e {
        lemma_component_end(s, i + 1, e);
    }
}

proof fn lemma_component_end_bounds(s: Seq<char>, i: int)
    requires
        0 <= i <= s.len(),
    ensures
        i <= component_end(s, i) <= s.len(),
        forall|q: int| i <= q < component_end(s, i) ==> s[q] != '/',
        component_end(s, i) == s.len() || s[component_end(s, i)] == '/',
    decreases s.len() - i,
{
    if i < s.len() && s[i] != '/' {
        lemma_component_end_bounds(s, i + 1);
    }
}

/// `p` has no empty component from `from` on: no two separators in a row
/// from just before `from`, and no separator at its end past `from`.
pub open spec fn clean_from(p: Seq<char>, from: int) -> bool {
    &&& forall|i: int| from - 1 <= i && 0 <= i && i + 1 < p.len() ==> !(#[trigger] p[i] == '/' && p[i + 1] == '/')
    &&& (p.len() > from ==> p[p.len() - 1] != '/')
}

/// From a separator at `i` (or the end), the rest of a clean path lands on the path.
proof fn lemma_lands_at_separator(p: Seq<char>, from: int, i: int)
    requires
        clean_from(p, from),
        0 <= from <= i <= p.len(),
        i == p.len() || p[i] == '/',
        i == 0 || p[i - 1] != '/',
    ensures
        lands(p.take(i), p.skip(i)) == p,
    decreases p.len() - i,
{
    if i == p.len() {
        assert(p.take(i) =~= p);
        assert(p.skip(i).len() == 0);
    } else {
        let t = p.skip(i);
        let u = p.skip(i + 1);
        assert(t.drop_first() =~= u);
        assert(i + 1 < p.len());
        assert(u[0] == p[i + 1]);
        assert(!(p[i] == '/' && p[i + 1] == '/'));
        lemma_component_end_bounds(u, 0);
        let e = component_end(u, 0);
        assert(0 < e);
        let j = i + 1 + e;
        assert(join(p.take(i), u.take(e)) =~= p.take(j));
        assert(u.skip(e) =~= p.skip(j));
        assert(j == p.len() || p[j] == '/');
        assert(p[j - 1] == u[e - 1]);
        lemma_lands_at_separator(p, from, j);
        assert(lands(p.take(i), u) == lands(p.take(j), p.skip(j)));
        assert(lands(p.take(i), t) == lands(p.take(i), u));
    }
}

/// A view of a clean path lies at that path: from the cached root `k` that
/// covers `p`, the components of the rest of `p` lead back to `p`.
pub proof fn lemma_view_path(k: Seq<char>, p: Seq<char>)
    requires
        covers(k, p),
        clean_from(p, k.len() as int),
    ensures
        lands(k, p.skip(k.len() as int)) == p,
{
    let i = k.len() as int;
    assert(p.take(i) =~= k);
    if i == p.len() {
        assert(k =~= p);
        assert(p.skip(i).len() == 0);
    } else if p[i] == '/' {
        if i > 0 {
            assert(!(p[i - 1] == '/' && p[(i - 1) + 1] == '/'));
        }
        lemma_lands_at_separator(p, i, i);
    } else {
        let u = p.skip(i);
        lemma_component_end_bounds(u, 0);
        let e = component_end(u, 0);
        assert(u[0] == p[i]);
        assert(0 < e);
        let j = i + e;
        assert(join(p.take(i), u.take(e)) =~= p.take(j));
        assert(u.skip(e) =~= p.skip(j));
        assert(p[j - 1] == u[e - 1]);
        lemma_lands_at_separator(p, i, j);
        assert(lands(p.take(i), u) == lands(p.take(j), p.skip(j)));
    }
}

proof fn lemma_child_named(s: Seq<FileNode>, part: Seq<char>, i: int, k: int)
    requires
        0 <= i <= k <= s.len(),
        forall|q: int| i <= q < k ==> (#[trigger] s[q]).name@ != part,
        k == s.len() || s[k].name@ == part,
    ensures
        child_named(s, part, i) == k,
    decreases k - i,
{
    if i < k {
        lemma_child_named(s, part, i + 1, k);
    }
}

/// Whether `root` covers `p`.
pub fn covers_path(root: &str, p: &str) -> (r: bool)
    ensures
        r == covers(root@, p@),
{
    let rn = root.unicode_len();
    let pn = p.unicode_len();
    if rn > pn {
        return false;
    }
    let mut i: usize = 0;
    while i < rn
        invariant
            rn == root@.len(),
            pn == p@.len(),
            rn <= pn,
            i <= rn,
            forall|q: int| 0 <= q < i ==> p@[q] == root@[q],
        decreases rn - i,
    {
        if root.get_char(i) != p.get_char(i) {
            proof {
                assert(p@.take(rn as int)[i as int] != root@[i as int]);
            }
            return false;
        }
        i = i + 1;
    }
    assert(p@.take(rn as int) =~= root@);
    if rn == pn {
        return true;
    }
    if p.get_char(rn) == '/' {
        return true;
    }
    rn > 0 && root.get_char(rn - 1) == '/'
}

/// The node that `rest` names below `node`, pruned to `depth` levels.
pub fn locate_view(node: &FileNode, rest: &str, depth: u32) -> (r: Option<FileNode>)
    ensures
        match locate(*node, rest@) {
            None => r is None,
            Some(t) => r matches Some(v) && limited(t, v, depth as nat),
        },
        well_formed(*node) ==> match locate(*node, rest@) {
            None => true,
            Some(t) => t.path@ == lands(node.path@, rest@),
        },
{
    let len = rest.unicode_len();
    let mut cur: &FileNode = node;
    let mut pos: usize = 0;
    assert(rest@.skip(0) =~= rest@);
    while pos < len
        invariant
            pos <= len,
            len == rest@.len(),
            locate(*node, rest@) == locate(*cur, rest@.skip(pos as int)),
            well_formed(*node) ==> well_formed(*cur) && lands(node.path@, rest@) == lands(
                cur.path@,
                rest@.skip(pos as int),
            ),
        decreases len - pos,
    {
        let ghost s = rest@.skip(pos as int);
        let c = rest.get_char(pos);
        if c == '/' {
            assert(s.drop_first() =~= rest@.skip(pos + 1));
            pos = pos + 1;
        } else {
            let mut end: usize = pos + 1;
            while end < len && rest.get_char(end) != '/'
                invariant
                    pos < end <= len,
                    len == rest@.len(),
                    forall|q: int| pos <= q < end ==> rest@[q] != '/',
                decreases len - end,
            {
                end = end + 1;
            }
            proof {
                lemma_component_end(s, 0, end - pos);
                assert(s.take(end - pos) =~= rest@.subrange(pos as int, end as int));
                assert(s.skip(end - pos) =~= rest@.skip(end as int));
            }
            let part = rest.substring_char(pos, end).to_string();
            let n = cur.children.len();
            let mut k: usize = 0;
            while k < n && !(cur.children[k].name == part)
                invariant
                    k <= n,
                    n == cur.children@.len(),
                    forall|q: int| 0 <= q < k ==> (#[trigger] cur.children@[q]).name@ != part@,
                decreases n - k,
            {
                k = k + 1;
            }
            proof {
                lemma_child_named(cur.children@, part@, 0, k as int);
            }
            if k == n {
                return None;
            }
            proof {
                if well_formed(*node) {
                    assert(well_formed(cur.children@[k as int]));
                    assert(cur.children@[k as int].path@ == join(cur.path@, part@));
                }
            }
            cur = &cur.children[k];
            pos = end;
        }
    }
    assert(rest@.skip(pos as int).len() == 0);
    Some(cur.limit_depth(depth))
}

} // verus!
