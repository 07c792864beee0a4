use crate::errors::{bump, ErrorAccountant, ScanError};
use crate::node::{limited, FileNode};
use crate::path::{covers, covers_path, lands, locate, locate_view};
use crate::scan::{root_error, scan_tree, scanned, tally, well_formed, Entry, Probe};
use dashmap::DashMap;
use vstd::prelude::*;
use vstd::string::*;

verus! {

broadcast use vstd::string::group_string_axioms;

#[verifier::external_type_specification]
#[verifier::external_body]
#[verifier::reject_recursive_types(K)]
#[verifier::reject_recursive_types(V)]
#[verifier::reject_recursive_types(S)]
pub struct ExDashMap<K, V, S>(DashMap<K, V, S>);

/// Trees by root path.
pub type TreeCache = DashMap<String, FileNode>;

/// The trees a cache holds, by root path.
pub uninterp spec fn cached(m: TreeCache) -> Map<Seq<char>, FileNode>;

/// Relies on DashMap::new: a new map holds nothing.
#[verifier::external_body]
fn empty_cache() -> (r: TreeCache)
    ensures
        cached(r).dom() == Set::<Seq<char>>::empty(),
{
    DashMap::new()
}

/// Relies on DashMap::insert: the tree is stored under `root`, replacing any
/// tree stored there before, and nothing else changes.
#[verifier::external_body]
fn store(m: &mut TreeCache, root: String, node: FileNode)
    ensures
        cached(*final(m)) == cached(*old(m)).insert(root@, node),
{
    m.insert(root, node);
}

/// Relies on DashMap::iter: it visits every stored entry, so the keys it
/// yields are exactly the stored root paths.
#[verifier::external_body]
fn cached_roots(m: &TreeCache) -> (r: Vec<String>)
    ensures
        forall|i: int| 0 <= i < r@.len() ==> cached(*m).contains_key(#[trigger] r@[i]@),
        forall|k: Seq<char>| cached(*m).contains_key(k) ==> exists|i: int| 0 <= i < r@.len() && (#[trigger] r@[i]@) == k,
{
    m.iter().map(|entry| entry.key().clone()).collect()
}

/// Relies on DashMap::view: it hands the tree stored under `root`, if any, to
/// `locate_view`, which reads it in place.
#[verifier::external_body]
fn view_below(m: &TreeCache, root: &String, rest: &str, depth: u32) -> (r: Option<Option<FileNode>>)
    ensures
        r is Some <==> cached(*m).contains_key(root@),
        r matches Some(found) ==> match locate(cached(*m)[root@], rest@) {
            None => found is None,
            Some(t) => found matches Some(v) && limited(t, v, depth as nat) && (well_formed(
                cached(*m)[root@],
            ) ==> t.path@ == lands(cached(*m)[root@].path@, rest@)),
        },
{
    m.view(root, |_, tree| locate_view(tree, rest, depth))
}

/// `k` is the most specific cached root that covers `p`.
pub open spec fn best_root(roots: Map<Seq<char>, FileNode>, p: Seq<char>, k: Seq<char>) -> bool {
    &&& roots.contains_key(k)
    &&& covers(k, p)
    &&& forall|k2: Seq<char>| roots.contains_key(k2) && covers(k2, p) ==> k2.len() <= k.len()
}

/// How deep a view of a requested depth goes: the node and `max_depth` levels below it.
pub open spec fn view_depth(max_depth: u32) -> nat {
    if max_depth < u32::MAX {
        (max_depth + 1) as nat
    } else {
        max_depth as nat
    }
}

/// Entries a directory contributes at most, unless the scanner is told otherwise.
pub const DEFAULT_ENTRY_CAP: usize = 500;

/// Scans trees, keeps them by root path, and serves pruned views of them.
pub struct DiskScanner {
    cache: TreeCache,
    errors: ErrorAccountant,
    max_entries: usize,
}

impl DiskScanner {
    /// Every stored tree is well formed and stored under its own path.
    #[verifier::type_invariant]
    spec fn trees_well_formed(self) -> bool {
        forall|k: Seq<char>|
            #[trigger] cached(self.cache).contains_key(k) ==> cached(self.cache)[k].path@ == k
                && well_formed(cached(self.cache)[k])
    }

    pub closed spec fn roots(&self) -> Map<Seq<char>, FileNode> {
        cached(self.cache)
    }

    pub closed spec fn accountant(&self) -> ErrorAccountant {
        self.errors
    }

    pub closed spec fn cap(&self) -> usize {
        self.max_entries
    }

    pub fn new() -> (r: DiskScanner)
        ensures
            r.roots() == Map::<Seq<char>, FileNode>::empty(),
            r.accountant().denied() == 0,
            r.accountant().missing() == 0,
            r.cap() == DEFAULT_ENTRY_CAP,
    {
        DiskScanner::with_entry_cap(DEFAULT_ENTRY_CAP)
    }

    /// A scanner that takes at most `max_entries` entries of each directory.
    pub fn with_entry_cap(max_entries: usize) -> (r: DiskScanner)
        ensures
            r.roots() == Map::<Seq<char>, FileNode>::empty(),
            r.accountant().denied() == 0,
            r.accountant().missing() == 0,
            r.cap() == max_entries,
    {
        let cache = empty_cache();
        assert(cached(cache) =~= Map::<Seq<char>, FileNode>::empty());
        DiskScanner { cache, errors: ErrorAccountant::new(), max_entries }
    }

    pub fn entry_cap(&self) -> (r: usize)
        ensures
            r == self.cap(),
    {
        self.max_entries
    }

    /// Scans `root` from scratch and stores the tree under its path, replacing
    /// any tree stored there; a root that is not a readable directory fails and
    /// leaves the cache as it was.
    pub fn build_cache(&mut self, root: &Entry) -> (r: Result<(), ScanError>)
        ensures
            final(self).cap() == old(self).cap(),
            root.probe is Dir ==> {
                &&& r is Ok
                &&& exists|n: FileNode|
                    #[trigger] scanned(*root, old(self).cap() as nat, n) && final(self).roots() == old(
                        self,
                    ).roots().insert(root.path@, n)
                &&& final(self).accountant().denied() == bump(
                    old(self).accountant().denied(),
                    tally(*root, Set::empty(), old(self).cap() as nat).denied,
                )
                &&& final(self).accountant().missing() == bump(
                    old(self).accountant().missing(),
                    tally(*root, Set::empty(), old(self).cap() as nat).missing,
                )
            },
            !(root.probe is Dir) ==> {
                &&& r == Err::<(), ScanError>(root_error(root.probe))
                &&& final(self).roots() == old(self).roots()
                &&& final(self).accountant() == old(self).accountant()
            },
    {
        proof {
            use_type_invariant(&*self);
        }
        let mut errors = self.errors;
        let result = scan_tree(root, self.max_entries, &mut errors);
        self.errors = errors;
        match result {
            Ok(node) => {
                let ghost built = node;
                let ghost before = self.roots();
                let mut cache = empty_cache();
                std::mem::swap(&mut cache, &mut self.cache);
                store(&mut cache, root.path.clone(), node);
                std::mem::swap(&mut cache, &mut self.cache);
                assert(scanned(*root, self.max_entries as nat, built) && self.roots() == before.insert(
                    root.path@,
                    built,
                ));
                assert(root.probe is Dir);
                assert(self.cap() == old(self).cap());
                assert(self.accountant().denied() == bump(
                    old(self).accountant().denied(),
                    tally(*root, Set::empty(), old(self).cap() as nat).denied,
                ));
                Ok(())
            },
            Err(e) => {
                assert(!(root.probe is Dir));
                Err(e)
            },
        }
    }

    /// The view of `path` from the most specific cached tree that covers it:
    /// the node and `max_depth` levels below it, with full-tree sizes. Fails
    /// with `NotCached` where no cached tree covers `path` or the tree has no
    /// node there.
    pub fn get_result_with_depth(&self, path: &str, max_depth: u32) -> (r: Result<FileNode, ScanError>)
        ensures
            r is Ok || r == Err::<FileNode, ScanError>(ScanError::NotCached),
            (forall|k: Seq<char>| !(self.roots().contains_key(k) && covers(k, path@)))
                ==> r == Err::<FileNode, ScanError>(ScanError::NotCached),
            forall|k: Seq<char>|
                #[trigger] best_root(self.roots(), path@, k) ==> match locate(
                    self.roots()[k],
                    path@.skip(k.len() as int),
                ) {
                    None => r == Err::<FileNode, ScanError>(ScanError::NotCached),
                    Some(t) => r matches Ok(v) && limited(t, v, view_depth(max_depth)) && v.path@
                        == lands(k, path@.skip(k.len() as int)),
                },
    {
        proof {
            use_type_invariant(&*self);
        }
        let keys = cached_roots(&self.cache);
        let mut best: usize = keys.len();
        let mut best_len: usize = 0;
        let mut i: usize = 0;
        while i < keys.len()
            invariant
                i <= keys@.len(),
                forall|q: int| 0 <= q < keys@.len() ==> self.roots().contains_key(#[trigger] keys@[q]@),
                best == keys@.len() ==> forall|q: int| 0 <= q < i ==> !covers(#[trigger] keys@[q]@, path@),
                best < keys@.len() ==> {
                    &&& best < i
                    &&& covers(keys@[best as int]@, path@)
                    &&& best_len == keys@[best as int]@.len()
                    &&& forall|q: int| 0 <= q < i && covers(#[trigger] keys@[q]@, path@) ==> keys@[q]@.len() <= best_len
                },
                best <= keys@.len(),
            decreases keys@.len() - i,
        {
            if covers_path(keys[i].as_str(), path) {
                let n = keys[i].unicode_len();
                if best == keys.len() || n > best_len {
                    best = i;
                    best_len = n;
                }
            }
            i = i + 1;
        }
        if best == keys.len() {
            proof {
                assert forall|k: Seq<char>| !(self.roots().contains_key(k) && covers(k, path@)) by {
                    if self.roots().contains_key(k) && covers(k, path@) {
                        let q = choose|q: int| 0 <= q < keys@.len() && (#[trigger] keys@[q]@) == k;
                        assert(!covers(keys@[q]@, path@));
                    }
                }
            }
            return Err(ScanError::NotCached);
        }
        let ghost kb = keys@[best as int]@;
        proof {
            assert forall|k2: Seq<char>| self.roots().contains_key(k2) && covers(k2, path@) implies k2.len() <= kb.len() by {
                let q = choose|q: int| 0 <= q < keys@.len() && (#[trigger] keys@[q]@) == k2;
                assert(covers(keys@[q]@, path@));
            }
            assert(best_root(self.roots(), path@, kb));
            assert forall|k: Seq<char>| #[trigger] best_root(self.roots(), path@, k) implies k == kb by {
                assert(k.len() == kb.len());
                assert(k =~= path@.take(k.len() as int));
                assert(kb =~= path@.take(kb.len() as int));
            }
        }
        let pn = path.unicode_len();
        let rest = path.substring_char(best_len, pn);
        proof {
            assert(rest@ =~= path@.skip(kb.len() as int));
        }
        let depth: u32 = if max_depth < u32::MAX {
            max_depth + 1
        } else {
            max_depth
        };
        match view_below(&self.cache, &keys[best], rest, depth) {
            Some(Some(v)) => Ok(v),
            _ => Err(ScanError::NotCached),
        }
    }

    /// The second step of serving a view of a path that no cached tree
    /// covered: stores the scan of `root`, read from `path`, then hands back
    /// the scan's failure, or the view of `path` from the new tree.
    pub fn get_result_after_build(&mut self, root: &Entry, path: &str, max_depth: u32) -> (r: Result<
        FileNode,
        ScanError,
    >)
        requires
            root.path@ == path@,
        ensures
            final(self).cap() == old(self).cap(),
            !(root.probe is Dir) ==> {
                &&& r == Err::<FileNode, ScanError>(root_error(root.probe))
                &&& final(self).roots() == old(self).roots()
            },
            root.probe is Dir ==> exists|n: FileNode|
                #[trigger] scanned(*root, old(self).cap() as nat, n) && final(self).roots() == old(
                    self,
                ).roots().insert(root.path@, n) && (r matches Ok(v) && limited(
                    n,
                    v,
                    view_depth(max_depth),
                )),
    {
        match self.build_cache(root) {
            Err(e) => Err(e),
            Ok(()) => {
                let ghost n = choose|n: FileNode|
                    #[trigger] scanned(*root, old(self).cap() as nat, n) && self.roots() == old(
                        self,
                    ).roots().insert(root.path@, n);
                proof {
                    assert(path@.take(path@.len() as int) =~= path@);
                    assert(best_root(self.roots(), path@, path@));
                    assert(path@.skip(path@.len() as int) =~= Seq::<char>::empty());
                    assert(self.roots()[path@] == n);
                }
                let r = self.get_result_with_depth(path, max_depth);
                assert(r matches Ok(v) && limited(n, v, view_depth(max_depth)));
                r
            },
        }
    }

    /// The permission-denied and not-found counts of every scan so far.
    pub fn error_stats(&self) -> (r: (u64, u64))
        ensures
            r == (self.accountant().denied(), self.accountant().missing()),
    {
        self.errors.stats()
    }

    pub fn reset_error_stats(&mut self)
        ensures
            final(self).accountant().denied() == 0,
            final(self).accountant().missing() == 0,
            final(self).roots() == old(self).roots(),
            final(self).cap() == old(self).cap(),
    {
        proof {
            use_type_invariant(&*self);
        }
        let mut errors = self.errors;
        errors.reset();
        self.errors = errors;
    }
}

} // verus!
