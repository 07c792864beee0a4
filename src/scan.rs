use crate::errors::{bump, error_of, ErrorAccountant, ErrorKind, ScanError};
use crate::identity::{key_of, Identity, IdentityTracker};
use crate::node::FileNode;
use crate::path::{join, join_path};
use crate::select::{
    chars_less, chars_lt, lemma_chars_lt_irreflexive, lemma_chars_lt_transitive, lower_of, lowercase,
};
use vstd::prelude::*;

verus! {

/// What reading one path gave.
#[derive(Debug)]
pub enum Probe {
    /// Not a directory (a symbolic link is described by its target).
    File { len: u64, id: Identity },
    /// A directory and the entries that were read from it, in processing order.
    Dir { id: Identity, entries: Vec<Entry> },
    /// A directory whose listing failed.
    Unreadable { id: Identity, error: ErrorKind },
    /// The path could not be read at all (it vanished, or access was refused).
    Failed { error: ErrorKind },
}

/// A path as the filesystem showed it when it was read.
#[derive(Debug)]
pub struct Entry {
    pub name: String,
    /// Where the entry was read from. A scan names its root by this path, and
    /// each entry below by its directory's path joined with its name.
    pub path: String,
    pub probe: Probe,
}

/// What a scan counts below an entry, and which objects it has then seen.
pub struct Tally {
    pub size: int,
    pub seen: Set<u128>,
    pub denied: nat,
    pub missing: nat,
}

pub open spec fn nothing(seen: Set<u128>) -> Tally {
    Tally { size: 0, seen, denied: 0, missing: 0 }
}

pub open spec fn failure(seen: Set<u128>, error: ErrorKind) -> Tally {
    Tally {
        size: 0,
        seen,
        denied: if error == ErrorKind::PermissionDenied { 1 } else { 0 },
        missing: if error == ErrorKind::NotFound { 1 } else { 0 },
    }
}

pub open spec fn min_nat(a: nat, b: nat) -> nat {
    if a < b {
        a
    } else {
        b
    }
}

/// The tally of one entry given the objects already seen: an object seen
/// before counts zero and a directory seen before is not entered; of a
/// directory only the first `cap` entries are taken.
pub open spec fn tally(e: Entry, seen: Set<u128>, cap: nat) -> Tally
    decreases e, 0nat,
{
    match e.probe {
        Probe::File { len, id } => {
            if seen.contains(key_of(id)) {
                nothing(seen)
            } else {
                Tally { size: len as int, seen: seen.insert(key_of(id)), denied: 0, missing: 0 }
            }
        },
        Probe::Dir { id, entries } => {
            if seen.contains(key_of(id)) {
                nothing(seen)
            } else {
                tally_all(entries@, min_nat(cap, entries@.len()), seen.insert(key_of(id)), cap)
            }
        },
        Probe::Unreadable { id, error } => failure(seen, error),
        Probe::Failed { error } => failure(seen, error),
    }
}

/// The tally of the first `n` of `es`, taken in order.
pub open spec fn tally_all(es: Seq<Entry>, n: nat, seen: Set<u128>, cap: nat) -> Tally
    decreases es, n,
{
    if n == 0 || n > es.len() {
        nothing(seen)
    } else {
        let before = tally_all(es, (n - 1) as nat, seen, cap);
        let last = tally(es[n - 1], before.seen, cap);
        Tally {
            size: before.size + last.size,
            seen: last.seen,
            denied: before.denied + last.denied,
            missing: before.missing + last.missing,
        }
    }
}

pub open spec fn sat(x: int) -> u64 {
    if x > u64::MAX {
        u64::MAX
    } else {
        x as u64
    }
}

/// The sum of the sizes of `s`.
pub open spec fn total(s: Seq<FileNode>) -> int
    decreases s.len(),
{
    if s.len() == 0 {
        0
    } else {
        total(s.drop_last()) + s.last().size
    }
}

pub open spec fn sorted_desc(s: Seq<FileNode>) -> bool {
    forall|i: int, j: int| 0 <= i < j < s.len() ==> s[i].size >= s[j].size
}

/// Among nodes of equal size, lower-case names never go down.
pub open spec fn ties_by_name(s: Seq<FileNode>) -> bool {
    forall|i: int, j: int|
        0 <= i < j < s.len() && s[i].size == s[j].size ==> !chars_lt(
            lower_of(#[trigger] s[j].name@),
            lower_of(#[trigger] s[i].name@),
        )
}

/// A node as a scan leaves it, at every level: shown, its children counted and
/// sorted by size, largest first, equal sizes by lower-case name, each child's
/// path its parent's joined with its name, a directory's size the sum of its children's
/// (held at `u64::MAX`), and a file without children.
pub open spec fn well_formed(n: FileNode) -> bool
    decreases n,
{
    &&& n.show
    &&& n.children_count == n.children@.len()
    &&& (!n.is_directory ==> n.children@.len() == 0)
    &&& (n.is_directory ==> n.size == sat(total(n.children@)))
    &&& sorted_desc(n.children@)
    &&& ties_by_name(n.children@)
    &&& forall|i: int|
        0 <= i < n.children@.len() ==> (#[trigger] n.children@[i]).path@ == join(
            n.path@,
            n.children@[i].name@,
        )
    &&& forall|i: int| 0 <= i < n.children@.len() ==> well_formed(#[trigger] n.children@[i])
}

/// What a tree measures, node by node: name, kind, size, child count, and the
/// same of each child, in order.
pub struct Measure {
    pub name: Seq<char>,
    pub path: Seq<char>,
    pub is_directory: bool,
    pub size: u64,
    pub count: nat,
    pub kids: Seq<Measure>,
}

pub open spec fn measure_of(n: FileNode) -> Measure
    decreases n,
{
    Measure {
        name: n.name@,
        path: n.path@,
        is_directory: n.is_directory,
        size: n.size,
        count: n.children_count as nat,
        kids: Seq::new(
            n.children@.len(),
            |q: int|
                if 0 <= q < n.children@.len() {
                    measure_of(n.children@[q])
                } else {
                    Measure { name: Seq::empty(), path: Seq::empty(), is_directory: false, size: 0, count: 0, kids: Seq::empty() }
                },
        ),
    }
}

/// The measures of `s`, in order.
pub open spec fn measures(s: Seq<FileNode>) -> Seq<Measure> {
    Seq::new(s.len(), |q: int| measure_of(s[q]))
}

/// `m` goes before `k` among children: it is larger, or as large with a
/// lower-case name that comes first.
pub open spec fn goes_before(m: Measure, k: Measure) -> bool {
    k.size < m.size || (k.size == m.size && chars_lt(lower_of(m.name), lower_of(k.name)))
}

/// Where `m` goes among `ks`, from `i` on: before the first that it goes
/// before, so that it follows those equal to it in size and name.
pub open spec fn slot(ks: Seq<Measure>, m: Measure, i: int) -> int
    decreases ks.len() - i,
{
    if i < 0 || i >= ks.len() {
        ks.len() as int
    } else if goes_before(m, ks[i]) {
        i
    } else {
        slot(ks, m, i + 1)
    }
}

pub open spec fn insert_by_size(ks: Seq<Measure>, m: Measure) -> Seq<Measure> {
    ks.insert(slot(ks, m, 0), m)
}

/// Whether a scan shows entry `e` as a directory.
pub open spec fn shown_as_directory(p: Probe) -> bool {
    p is Dir || p is Unreadable
}

/// What a scan makes of entry `e`, found at `path`, given the objects already
/// seen.
pub open spec fn expect(e: Entry, path: Seq<char>, seen: Set<u128>, cap: nat) -> Measure
    decreases e, 0nat,
{
    let t = tally(e, seen, cap);
    let kids = match e.probe {
        Probe::Dir { id, entries } => {
            if seen.contains(key_of(id)) {
                Seq::empty()
            } else {
                expect_all(
                    entries@,
                    min_nat(cap, entries@.len()),
                    path,
                    seen.insert(key_of(id)),
                    cap,
                )
            }
        },
        _ => Seq::empty(),
    };
    Measure {
        name: e.name@,
        path,
        is_directory: shown_as_directory(e.probe),
        size: sat(t.size),
        count: kids.len(),
        kids,
    }
}

/// The children a scan makes of the first `n` of `es`, entries of the
/// directory at `parent`: each in turn, put in place by size.
pub open spec fn expect_all(
    es: Seq<Entry>,
    n: nat,
    parent: Seq<char>,
    seen: Set<u128>,
    cap: nat,
) -> Seq<Measure>
    decreases es, n,
{
    if n == 0 || n > es.len() {
        Seq::empty()
    } else {
        insert_by_size(
            expect_all(es, (n - 1) as nat, parent, seen, cap),
            expect(
                es[n - 1],
                join(parent, es[n - 1].name@),
                tally_all(es, (n - 1) as nat, seen, cap).seen,
                cap,
            ),
        )
    }
}

proof fn lemma_slot(ks: Seq<Measure>, m: Measure, i: int, j: int)
    requires
        0 <= i <= j <= ks.len(),
        forall|q: int| i <= q < j ==> !goes_before(m, #[trigger] ks[q]),
        j == ks.len() || goes_before(m, ks[j]),
    ensures
        slot(ks, m, i) == j,
    decreases j - i,
{
    if i < j {
        lemma_slot(ks, m, i + 1, j);
    }
}

proof fn lemma_total_insert(s: Seq<FileNode>, i: int, x: FileNode)
    requires
        0 <= i <= s.len(),
    ensures
        total(s.insert(i, x)) == total(s) + x.size,
    decreases s.len(),
{
    if i == s.len() {
        assert(s.insert(i, x).drop_last() =~= s);
    } else {
        lemma_total_insert(s.drop_last(), i, x);
        assert(s.insert(i, x).drop_last() =~= s.drop_last().insert(i, x));
    }
}

fn leaf(e: &Entry, path: &String, size: u64, is_directory: bool) -> (r: FileNode)
    ensures
        r.name@ == e.name@,
        r.path@ == path@,
        r.size == size,
        r.is_directory == is_directory,
        r.children@.len() == 0,
        r.children_count == 0,
        r.show,
        measure_of(r) == (Measure {
            name: e.name@,
            path: path@,
            is_directory,
            size,
            count: 0,
            kids: Seq::empty(),
        }),
{
    let r = FileNode {
        name: e.name.clone(),
        path: path.clone(),
        size,
        is_directory,
        children: Vec::new(),
        children_count: 0,
        show: true,
    };
    assert(measure_of(r).kids =~= Seq::<Measure>::empty());
    r
}

/// Builds the node of entry `e`, found at `path`: objects seen before count
/// zero, and an entry that could not be read, or whose listing failed, is a
/// zero-size node without children whose failure is counted.
pub fn build_node(
    e: &Entry,
    path: &String,
    cap: usize,
    tracker: &mut IdentityTracker,
    errors: &mut ErrorAccountant,
) -> (n: FileNode)
    ensures
        tally(*e, old(tracker)@, cap as nat).size >= 0,
        final(tracker)@ == tally(*e, old(tracker)@, cap as nat).seen,
        final(errors).denied() == bump(
            old(errors).denied(),
            tally(*e, old(tracker)@, cap as nat).denied,
        ),
        final(errors).missing() == bump(
            old(errors).missing(),
            tally(*e, old(tracker)@, cap as nat).missing,
        ),
        n.name@ == e.name@,
        n.path@ == path@,
        n.size == sat(tally(*e, old(tracker)@, cap as nat).size),
        n.is_directory == shown_as_directory(e.probe),
        well_formed(n),
        measure_of(n) == expect(*e, path@, old(tracker)@, cap as nat),
        n.children@.len() == match e.probe {
            Probe::Dir { id, entries } => if old(tracker)@.contains(key_of(id)) {
                0
            } else {
                min_nat(cap as nat, entries@.len())
            },
            _ => 0,
        },
    decreases e,
{
    match &e.probe {
        Probe::File { len, id } => {
            let first = tracker.mark_seen(*id);
            let size: u64 = if first {
                *len
            } else {
                0
            };
            leaf(e, path, size, false)
        },
        Probe::Unreadable { id, error } => {
            errors.classify_and_record(*error);
            leaf(e, path, 0, true)
        },
        Probe::Failed { error } => {
            errors.classify_and_record(*error);
            leaf(e, path, 0, false)
        },
        Probe::Dir { id, entries } => {
            let ghost seen0 = tracker@;
            let ghost d0 = errors.denied();
            let ghost m0 = errors.missing();
            let first = tracker.mark_seen(*id);
            if !first {
                return leaf(e, path, 0, true);
            }
            let ghost start = seen0.insert(key_of(*id));
            let k: usize = if cap < entries.len() {
                cap
            } else {
                entries.len()
            };
            let mut children: Vec<FileNode> = Vec::new();
            let mut keys: Vec<String> = Vec::new();
            let mut acc: u64 = 0;
            let mut i: usize = 0;
            while i < k
                invariant
                    i <= k,
                    k as nat == min_nat(cap as nat, entries@.len()),
                    e.probe == (Probe::Dir { id: *id, entries: *entries }),
                    tracker@ == tally_all(entries@, i as nat, start, cap as nat).seen,
                    errors.denied() == bump(d0, tally_all(entries@, i as nat, start, cap as nat).denied),
                    errors.missing() == bump(m0, tally_all(entries@, i as nat, start, cap as nat).missing),
                    tally_all(entries@, i as nat, start, cap as nat).size >= 0,
                    acc == sat(tally_all(entries@, i as nat, start, cap as nat).size),
                    acc == sat(total(children@)),
                    total(children@) >= 0,
                    sorted_desc(children@),
                    ties_by_name(children@),
                    forall|q: int|
                        0 <= q < children@.len() ==> (#[trigger] children@[q]).path@ == join(
                            path@,
                            children@[q].name@,
                        ),
                    keys@.len() == children@.len(),
                    forall|q: int| 0 <= q < keys@.len() ==> (#[trigger] keys@[q])@ == lower_of(children@[q].name@),
                    forall|j: int| 0 <= j < children@.len() ==> well_formed(#[trigger] children@[j]),
                    children@.len() == i,
                    measures(children@) == expect_all(entries@, i as nat, path@, start, cap as nat),
                decreases k - i,
            {
                proof {
                    assert(decreases_to!(*e => e.probe));
                    assert(e.probe->Dir_entries == *entries);
                    assert(decreases_to!(e.probe => e.probe->Dir_entries));
                    assert(decreases_to!(*entries => entries@));
                    assert(decreases_to!(entries@ => entries@[i as int]));
                }
                let child_path = join_path(path.as_str(), entries[i].name.as_str());
                let c = build_node(&entries[i], &child_path, cap, tracker, errors);
                let ck = lowercase(c.name.as_str());
                acc = acc.saturating_add(c.size);
                let mut j: usize = 0;
                while j < children.len()
                    invariant
                        j <= children@.len(),
                        keys@.len() == children@.len(),
                        forall|q: int| 0 <= q < keys@.len() ==> (#[trigger] keys@[q])@ == lower_of(children@[q].name@),
                        ck@ == lower_of(c.name@),
                        forall|q: int| 0 <= q < j ==> !goes_before(measure_of(c), #[trigger] measure_of(children@[q])),
                    ensures
                        j <= children@.len(),
                        forall|q: int| 0 <= q < j ==> !goes_before(measure_of(c), #[trigger] measure_of(children@[q])),
                        j < children@.len() ==> goes_before(measure_of(c), measure_of(children@[j as int])),
                    decreases children@.len() - j,
                {
                    let s = children[j].size;
                    proof {
                        let mj = measure_of(children@[j as int]);
                        assert(mj.size == children@[j as int].size && mj.name == children@[j as int].name@);
                        assert(measure_of(c).size == c.size && measure_of(c).name == c.name@);
                        assert(keys@[j as int]@ == lower_of(children@[j as int].name@));
                    }
                    if s < c.size || (s == c.size && chars_less(ck.as_str(), keys[j].as_str())) {
                        break;
                    }
                    j = j + 1;
                }
                proof {
                    lemma_total_insert(children@, j as int, c);
                    let ks = measures(children@);
                    let mc = measure_of(c);
                    assert forall|q: int| 0 <= q < j implies !goes_before(mc, #[trigger] ks[q]) by {
                        assert(ks[q] == measure_of(children@[q]));
                    }
                    if j < children@.len() {
                        assert(ks[j as int] == measure_of(children@[j as int]));
                    }
                    lemma_slot(ks, mc, 0, j as int);
                    assert(measures(children@.insert(j as int, c)) =~= ks.insert(j as int, mc));
                    let t = children@.insert(j as int, c);
                    assert forall|a: int, b: int| 0 <= a < b < t.len() implies t[a].size >= t[b].size by {
                        if a < j && b == j {
                            assert(!goes_before(mc, measure_of(children@[a])));
                        } else if a == j && b > j {
                            assert(goes_before(mc, measure_of(children@[j as int])));
                        } else if a < j && b > j {
                            assert(!goes_before(mc, measure_of(children@[a])));
                            assert(goes_before(mc, measure_of(children@[j as int])));
                        }
                    }
                    assert(mc.size == c.size && mc.name == c.name@);
                    assert forall|a: int, b: int|
                        0 <= a < b < t.len() && t[a].size == t[b].size implies !chars_lt(
                        lower_of(#[trigger] t[b].name@),
                        lower_of(#[trigger] t[a].name@),
                    ) by {
                        let lc = lower_of(c.name@);
                        if b < j {
                            assert(t[a] == children@[a] && t[b] == children@[b]);
                        } else if a > j {
                            assert(t[a] == children@[a - 1] && t[b] == children@[b - 1]);
                        } else if a < j && b == j {
                            let ma = measure_of(children@[a]);
                            assert(ma.size == children@[a].size && ma.name == children@[a].name@);
                            assert(!goes_before(mc, ma));
                            assert(t[a] == children@[a] && t[b] == c);
                        } else if a < j && b > j {
                            assert(t[a] == children@[a] && t[b] == children@[b - 1]);
                        } else {
                            let y = children@[b - 1];
                            let sj = children@[j as int];
                            let ms = measure_of(sj);
                            assert(ms.size == sj.size && ms.name == sj.name@);
                            assert(goes_before(mc, ms));
                            assert(t[a] == c && t[b] == y);
                            if b - 1 > j {
                                assert(sj.size >= y.size);
                                assert(sj.size == c.size);
                                assert(!chars_lt(lower_of(y.name@), lower_of(sj.name@)));
                                if chars_lt(lower_of(y.name@), lc) {
                                    lemma_chars_lt_transitive(lower_of(y.name@), lc, lower_of(sj.name@));
                                }
                            } else {
                                assert(chars_lt(lc, lower_of(sj.name@)));
                                if chars_lt(lower_of(sj.name@), lc) {
                                    lemma_chars_lt_transitive(lc, lower_of(sj.name@), lc);
                                    lemma_chars_lt_irreflexive(lc);
                                }
                            }
                        }
                    }
                }
                children.insert(j, c);
                keys.insert(j, ck);
                i = i + 1;
            }
            let n = children.len();
            proof {
                assert(measures(children@) =~= Seq::new(
                    children@.len(),
                    |q: int|
                        if 0 <= q < children@.len() {
                            measure_of(children@[q])
                        } else {
                            Measure {
                                name: Seq::empty(),
                                path: Seq::empty(),
                                is_directory: false,
                                size: 0,
                                count: 0,
                                kids: Seq::empty(),
                            }
                        },
                ));
            }
            let node = FileNode {
                name: e.name.clone(),
                path: path.clone(),
                size: acc,
                is_directory: true,
                children,
                children_count: n,
                show: true,
            };
            proof {
                let ex = expect(*e, path@, seen0, cap as nat);
                assert(ex.kids == expect_all(entries@, k as nat, path@, start, cap as nat));
                assert(measure_of(node).kids == ex.kids);
                assert(measure_of(node).size == ex.size);
                assert(measure_of(node) == ex);
            }
            node
        },
    }
}

/// Why a root that is not a readable directory fails.
pub open spec fn root_error(p: Probe) -> ScanError {
    match p {
        Probe::Failed { error } => error_of(error),
        Probe::Unreadable { id, error } => error_of(error),
        _ => ScanError::NotADirectory,
    }
}

/// `n` is what a scan from scratch makes of the directory `root`.
pub open spec fn scanned(root: Entry, cap: nat, n: FileNode) -> bool {
    &&& root.probe is Dir
    &&& n.name@ == root.name@
    &&& n.path@ == root.path@
    &&& n.is_directory
    &&& n.size == sat(tally(root, Set::empty(), cap).size)
    &&& n.children@.len() == min_nat(cap, root.probe->Dir_entries@.len())
    &&& well_formed(n)
    &&& measure_of(n) == expect(root, root.path@, Set::empty(), cap)
}

/// Scans the tree below `root` from scratch: every object counts once in the
/// whole tree, whichever path reaches it first. A root that cannot be read, or
/// is not a directory, fails; failures below it are counted in `errors`.
pub fn scan_tree(root: &Entry, cap: usize, errors: &mut ErrorAccountant) -> (r: Result<
    FileNode,
    ScanError,
>)
    ensures
        root.probe is Dir ==> {
            &&& r matches Ok(n) && scanned(*root, cap as nat, n)
            &&& final(errors).denied() == bump(
                old(errors).denied(),
                tally(*root, Set::empty(), cap as nat).denied,
            )
            &&& final(errors).missing() == bump(
                old(errors).missing(),
                tally(*root, Set::empty(), cap as nat).missing,
            )
        },
        !(root.probe is Dir) ==> {
            &&& r == Err::<FileNode, ScanError>(root_error(root.probe))
            &&& *final(errors) == *old(errors)
        },
{
    match &root.probe {
        Probe::Failed { error } => Err(ScanError::from_kind(*error)),
        Probe::Unreadable { id, error } => Err(ScanError::from_kind(*error)),
        Probe::File { .. } => Err(ScanError::NotADirectory),
        Probe::Dir { .. } => {
            let mut tracker = IdentityTracker::new();
            Ok(build_node(root, &root.path, cap, &mut tracker, errors))
        },
    }
}

} // verus!
