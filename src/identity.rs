use std::collections::HashSet;
use vstd::prelude::*;

verus! {

broadcast use vstd::std_specs::hash::group_hash_axioms;

/// Device id and inode number: what two paths to one object share.
#[derive(Clone, Copy, Debug, PartialEq, Eq, Structural)]
pub struct Identity {
    pub device: u64,
    pub inode: u64,
}

/// The single number an identity is recorded under: device and inode side by side.
pub open spec fn key_of(id: Identity) -> u128 {
    (id.device as int * 0x1_0000_0000_0000_0000 + id.inode as int) as u128
}

/// Distinct identities are recorded under distinct keys.
pub proof fn lemma_key_of_injective(a: Identity, b: Identity)
    ensures
        key_of(a) == key_of(b) <==> a == b,
{
    let m: int = 0x1_0000_0000_0000_0000;
    let x = a.device as int * m + a.inode as int;
    let y = b.device as int * m + b.inode as int;
    assert(0 <= x < 0x1_0000_0000_0000_0000_0000_0000_0000_0000) by (nonlinear_arith)
        requires
            x == a.device as int * m + a.inode as int,
            m == 0x1_0000_0000_0000_0000,
            0 <= a.device < m,
            0 <= a.inode < m,
    ;
    assert(0 <= y < 0x1_0000_0000_0000_0000_0000_0000_0000_0000) by (nonlinear_arith)
        requires
            y == b.device as int * m + b.inode as int,
            m == 0x1_0000_0000_0000_0000,
            0 <= b.device < m,
            0 <= b.inode < m,
    ;
    if x == y {
        assert(a.device == b.device && a.inode == b.inode) by (nonlinear_arith)
            requires
                x == a.device as int * m + a.inode as int,
                y == b.device as int * m + b.inode as int,
                x == y,
                m == 0x1_0000_0000_0000_0000,
                0 <= a.inode < m,
                0 <= b.inode < m,
                0 <= a.device,
                0 <= b.device,
        ;
    }
}

/// Answers, during one scan, whether an object was already counted.
pub struct IdentityTracker {
    seen: HashSet<u128>,
}

impl View for IdentityTracker {
    type V = Set<u128>;

    closed spec fn view(&self) -> Set<u128> {
        self.seen@
    }
}

impl IdentityTracker {
    pub fn new() -> (r: IdentityTracker)
        ensures
            r@ == Set::<u128>::empty(),
    {
        IdentityTracker { seen: HashSet::new() }
    }

    /// True the first time `id` is offered; the object then counts toward size.
    pub fn mark_seen(&mut self, id: Identity) -> (r: bool)
        ensures
            r == !old(self)@.contains(key_of(id)),
            final(self)@ == old(self)@.insert(key_of(id)),
    {
        let key: u128 = key_value(id);
        self.seen.insert(key)
    }
}

/// Whether `id` is among `ancestors`: a directory that is its own ancestor is
/// reached again through a link cycle, and is not read again.
pub fn revisits(ancestors: &Vec<Identity>, id: Identity) -> (r: bool)
    ensures
        r == ancestors@.contains(id),
{
    let n = ancestors.len();
    let mut i: usize = 0;
    while i < n
        invariant
            i <= n,
            n == ancestors@.len(),
            forall|q: int| 0 <= q < i ==> ancestors@[q] != id,
        decreases n - i,
    {
        if ancestors[i] == id {
            assert(ancestors@[i as int] == id);
            return true;
        }
        i = i + 1;
    }
    false
}

fn key_value(id: Identity) -> (r: u128)
    ensures
        r == key_of(id),
{
    let d = id.device as u128;
    let i = id.inode as u128;
    assert(d * 0x1_0000_0000_0000_0000 + i <= 0xffff_ffff_ffff_ffff_ffff_ffff_ffff_ffff) by (nonlinear_arith)
        requires
            d <= 0xffff_ffff_ffff_ffff,
            i <= 0xffff_ffff_ffff_ffff,
    ;
    d * 0x1_0000_0000_0000_0000 + i
}

} // verus!
