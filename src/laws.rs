use crate::errors::ErrorKind;
use crate::identity::{key_of, Identity};
use crate::node::FileNode;
use crate::path::join;
use crate::scan::{
    expect, expect_all, slot, measure_of, min_nat, nothing, scanned, tally, tally_all,
    Entry, Measure, Probe,
};
use vstd::prelude::*;

verus! {

/// Entries that all name one file under one identity.
pub open spec fn links_to(es: Seq<Entry>, f: Identity, len: u64) -> bool {
    forall|i: int| 0 <= i < es.len() ==> (#[trigger] es[i]).probe == (Probe::File { len, id: f })
}

proof fn lemma_links_tally(es: Seq<Entry>, n: nat, seen: Set<u128>, cap: nat, f: Identity, len: u64)
    requires
        links_to(es, f, len),
        1 <= n <= es.len(),
        !seen.contains(key_of(f)),
    ensures
        tally_all(es, n, seen, cap).size == len as int,
        tally_all(es, n, seen, cap).seen == seen.insert(key_of(f)),
    decreases n,
{
    assert(es[n - 1].probe == (Probe::File { len, id: f }));
    if n > 1 {
        lemma_links_tally(es, (n - 1) as nat, seen, cap, f, len);
        let before = tally_all(es, (n - 1) as nat, seen, cap);
        assert(before.seen.contains(key_of(f)));
        assert(tally(es[n - 1], before.seen, cap).size == 0);
        assert(tally(es[n - 1], before.seen, cap).seen == before.seen);
    } else {
        assert(tally_all(es, 0, seen, cap) == nothing(seen));
        assert(tally(es[0], seen, cap).size == len as int);
    }
}

/// Hard links count once: a directory whose entries are all links to one
/// file measures that file's length once, and lists every link.
pub proof fn lemma_hard_links_count_once(
    dir: Entry,
    dir_id: Identity,
    entries: Vec<Entry>,
    f: Identity,
    len: u64,
    cap: nat,
)
    requires
        dir.probe == (Probe::Dir { id: dir_id, entries }),
        dir_id != f,
        entries@.len() >= 1,
        cap >= entries@.len(),
        links_to(entries@, f, len),
    ensures
        tally(dir, Set::empty(), cap).size == len as int,
        expect(dir, dir.path@, Set::empty(), cap).count == entries@.len(),
{
    crate::identity::lemma_key_of_injective(dir_id, f);
    let start = Set::<u128>::empty().insert(key_of(dir_id));
    lemma_links_tally(entries@, entries@.len(), start, cap, f, len);
    lemma_expect_all_len(entries@, entries@.len(), dir.path@, start, cap);
}

/// One scan counts a file once across subdirectories: with subdirectories
/// `x` and `y` of the root each holding a link to one file, the root measures
/// the file once; a scan of `y` alone counts it again.
pub proof fn lemma_links_across_subdirectories(
    root: Entry,
    root_id: Identity,
    top: Vec<Entry>,
    x_id: Identity,
    x_entries: Vec<Entry>,
    y_id: Identity,
    y_entries: Vec<Entry>,
    f: Identity,
    len: u64,
    cap: nat,
)
    requires
        root.probe == (Probe::Dir { id: root_id, entries: top }),
        top@.len() == 2,
        top@[0].probe == (Probe::Dir { id: x_id, entries: x_entries }),
        top@[1].probe == (Probe::Dir { id: y_id, entries: y_entries }),
        x_entries@.len() == 1,
        y_entries@.len() == 1,
        x_entries@[0].probe == (Probe::File { len, id: f }),
        y_entries@[0].probe == (Probe::File { len, id: f }),
        root_id != x_id,
        root_id != y_id,
        x_id != y_id,
        root_id != f,
        x_id != f,
        y_id != f,
        cap >= 2,
    ensures
        tally(root, Set::empty(), cap).size == len as int,
        tally(top@[1], Set::empty(), cap).size == len as int,
{
    crate::identity::lemma_key_of_injective(root_id, x_id);
    crate::identity::lemma_key_of_injective(root_id, y_id);
    crate::identity::lemma_key_of_injective(x_id, y_id);
    crate::identity::lemma_key_of_injective(root_id, f);
    crate::identity::lemma_key_of_injective(x_id, f);
    crate::identity::lemma_key_of_injective(y_id, f);
    let s0 = Set::<u128>::empty().insert(key_of(root_id));
    let sx = s0.insert(key_of(x_id));
    assert(tally_all(x_entries@, 0, sx, cap) == nothing(sx));
    assert(!sx.contains(key_of(f)));
    assert(tally(x_entries@[0], sx, cap).size == len as int);
    assert(tally(x_entries@[0], sx, cap).seen == sx.insert(key_of(f)));
    assert(tally_all(x_entries@, 1, sx, cap).size == len as int);
    assert(tally_all(top@, 0, s0, cap) == nothing(s0));
    assert(tally(top@[0], s0, cap) == tally_all(x_entries@, 1, sx, cap));
    let t1 = tally_all(top@, 1, s0, cap);
    assert(t1.size == len as int);
    assert(t1.seen.contains(key_of(f)));
    assert(!t1.seen.contains(key_of(y_id)));
    let sy = t1.seen.insert(key_of(y_id));
    assert(tally_all(y_entries@, 0, sy, cap) == nothing(sy));
    assert(tally(y_entries@[0], sy, cap).size == 0);
    assert(tally_all(y_entries@, 1, sy, cap).size == 0);
    assert(tally(top@[1], t1.seen, cap) == tally_all(y_entries@, 1, sy, cap));
    assert(tally_all(top@, 2, s0, cap).size == len as int);
    let ey = Set::<u128>::empty().insert(key_of(y_id));
    assert(tally_all(y_entries@, 0, ey, cap) == nothing(ey));
    assert(tally(y_entries@[0], ey, cap).size == len as int);
    assert(tally_all(y_entries@, 1, ey, cap).size == len as int);
}

/// An unreadable subdirectory does not stop a scan: beside a readable entry
/// `a`, a directory whose listing was refused counts zero and one denial, and
/// the root measures what `a` measures.
pub proof fn lemma_unreadable_subdirectory(
    root: Entry,
    root_id: Identity,
    top: Vec<Entry>,
    b_id: Identity,
    cap: nat,
)
    requires
        root.probe == (Probe::Dir { id: root_id, entries: top }),
        top@.len() == 2,
        top@[1].probe == (Probe::Unreadable { id: b_id, error: ErrorKind::PermissionDenied }),
        cap >= 2,
    ensures
        tally(root, Set::empty(), cap).size == tally(
            top@[0],
            Set::empty().insert(key_of(root_id)),
            cap,
        ).size,
        tally(root, Set::empty(), cap).denied == tally(
            top@[0],
            Set::empty().insert(key_of(root_id)),
            cap,
        ).denied + 1,
        exists|q: int|
            0 <= q < expect(root, root.path@, Set::empty(), cap).kids.len() && #[trigger] expect(
                root,
                root.path@,
                Set::empty(),
                cap,
            ).kids[q] == (Measure {
                name: top@[1].name@,
                path: join(root.path@, top@[1].name@),
                is_directory: true,
                size: 0,
                count: 0,
                kids: Seq::empty(),
            }),
{
    let s0 = Set::<u128>::empty().insert(key_of(root_id));
    assert(tally_all(top@, 0, s0, cap) == nothing(s0));
    assert(tally_all(top@, 1, s0, cap).size == tally(top@[0], s0, cap).size);
    let t1 = tally_all(top@, 1, s0, cap);
    assert(tally(top@[1], t1.seen, cap).size == 0);
    assert(tally(top@[1], t1.seen, cap).denied == 1);
    assert(tally_all(top@, 2, s0, cap).size == t1.size);
    assert(tally(root, Set::empty(), cap) == tally_all(top@, 2, s0, cap));
    let mb = expect(top@[1], join(root.path@, top@[1].name@), t1.seen, cap);
    assert(mb.kids =~= Seq::<Measure>::empty());
    let before = expect_all(top@, 1, root.path@, s0, cap);
    let j = slot(before, mb, 0);
    lemma_slot_bounds(before, mb, 0);
    assert(expect(root, root.path@, Set::empty(), cap).kids == expect_all(top@, 2, root.path@, s0, cap));
    assert(expect_all(top@, 2, root.path@, s0, cap) == before.insert(j, mb));
    assert(expect(root, root.path@, Set::empty(), cap).kids[j] == mb);
}

/// Scanning an unchanged tree again gives the same tree: two trees made from
/// one snapshot agree at every node on name, kind, size, child count and the
/// order of the children.
pub proof fn lemma_rescan_same_tree(root: Entry, cap: nat, a: FileNode, b: FileNode)
    requires
        scanned(root, cap, a),
        scanned(root, cap, b),
    ensures
        measure_of(a) == measure_of(b),
{
}

/// Separate scans are independent: after trees for `x` and then `y` are
/// stored under distinct paths, the tree of `x` is untouched, and that of `y`
/// is what a scan of `y` from scratch makes, with no object of `x` taken as
/// seen.
pub proof fn lemma_separate_scans(
    m0: Map<Seq<char>, FileNode>,
    x: Entry,
    nx: FileNode,
    y: Entry,
    ny: FileNode,
    cap: nat,
)
    requires
        scanned(x, cap, nx),
        scanned(y, cap, ny),
        x.path@ != y.path@,
    ensures
        m0.insert(x.path@, nx).insert(y.path@, ny)[x.path@] == nx,
        measure_of(m0.insert(x.path@, nx).insert(y.path@, ny)[y.path@]) == expect(
            y,
            y.path@,
            Set::empty(),
            cap,
        ),
{
}

/// Every entry of a directory becomes a node, up to the cap: a directory with
/// more entries than the cap has exactly the cap as children and as child count.
pub proof fn lemma_entry_cap(root: Entry, cap: nat, n: FileNode)
    requires
        scanned(root, cap, n),
    ensures
        n.children@.len() == min_nat(cap, root.probe->Dir_entries@.len()),
        n.children_count == n.children@.len(),
        root.probe->Dir_entries@.len() > cap ==> n.children@.len() == cap && n.children_count == cap,
{
}

proof fn lemma_expect_all_len(es: Seq<Entry>, n: nat, parent: Seq<char>, seen: Set<u128>, cap: nat)
    requires
        n <= es.len(),
    ensures
        expect_all(es, n, parent, seen, cap).len() == n,
    decreases n,
{
    if n > 0 {
        lemma_expect_all_len(es, (n - 1) as nat, parent, seen, cap);
        let before = expect_all(es, (n - 1) as nat, parent, seen, cap);
        let m = expect(es[n - 1], join(parent, es[n - 1].name@), tally_all(es, (n - 1) as nat, seen, cap).seen, cap);
        lemma_slot_bounds(before, m, 0);
    }
}

proof fn lemma_slot_bounds(ks: Seq<Measure>, m: Measure, i: int)
    requires
        0 <= i <= ks.len(),
    ensures
        i <= slot(ks, m, i) <= ks.len(),
    decreases ks.len() - i,
{
    if i < ks.len() {
        lemma_slot_bounds(ks, m, i + 1);
    }
}

} // verus!
