use crate::scan::min_nat;
use vstd::prelude::*;
use vstd::string::*;

verus! {

broadcast use vstd::string::group_string_axioms, vstd::seq_lib::group_to_multiset_ensures;

/// One name that listing a directory gave, with the full path it stands for.
#[derive(Debug)]
pub struct Listed {
    pub name: String,
    pub path: String,
}

/// Which entries a scan leaves out: dotfiles, if asked, and listed paths
/// (pseudo filesystems such as /proc, for instance).
#[derive(Debug)]
pub struct ScanPolicy {
    pub skip_hidden: bool,
    pub excluded: Vec<String>,
}

/// The lower-case form of a name.
pub uninterp spec fn lower_of(s: Seq<char>) -> Seq<char>;

/// Relies on str::to_lowercase: the result depends on the characters alone.
#[verifier::external_body]
pub(crate) fn lowercase(s: &str) -> (r: String)
    ensures
        r@ == lower_of(s@),
{
    s.to_lowercase()
}

/// Strict lexicographic order on characters by code point, a proper prefix first.
pub open spec fn chars_lt(a: Seq<char>, b: Seq<char>) -> bool
    decreases a.len(),
{
    if a.len() == 0 {
        b.len() > 0
    } else if b.len() == 0 {
        false
    } else if a[0] != b[0] {
        (a[0] as u32) < (b[0] as u32)
    } else {
        chars_lt(a.drop_first(), b.drop_first())
    }
}

/// Unequal first characters decide; equal ones leave the rest to decide.
proof fn lemma_chars_lt_skip(a: Seq<char>, b: Seq<char>, i: int)
    requires
        0 <= i <= a.len(),
        i <= b.len(),
        forall|q: int| 0 <= q < i ==> a[q] == b[q],
    ensures
        chars_lt(a, b) == chars_lt(a.skip(i), b.skip(i)),
    decreases i,
{
    if i > 0 {
        lemma_chars_lt_skip(a.drop_first(), b.drop_first(), i - 1);
        assert(a.drop_first().skip(i - 1) =~= a.skip(i));
        assert(b.drop_first().skip(i - 1) =~= b.skip(i));
    } else {
        assert(a.skip(0) =~= a);
        assert(b.skip(0) =~= b);
    }
}

/// The order on characters is transitive.
pub proof fn lemma_chars_lt_transitive(a: Seq<char>, b: Seq<char>, c: Seq<char>)
    requires
        chars_lt(a, b),
        chars_lt(b, c),
    ensures
        chars_lt(a, c),
    decreases a.len(),
{
    if a.len() > 0 && a[0] == b[0] && b[0] == c[0] {
        lemma_chars_lt_transitive(a.drop_first(), b.drop_first(), c.drop_first());
    }
}

/// Nothing comes before itself.
pub proof fn lemma_chars_lt_irreflexive(a: Seq<char>)
    ensures
        !chars_lt(a, a),
    decreases a.len(),
{
    if a.len() > 0 {
        lemma_chars_lt_irreflexive(a.drop_first());
    }
}

/// Whether `a` comes before `b` character by character.
pub fn chars_less(a: &str, b: &str) -> (r: bool)
    ensures
        r == chars_lt(a@, b@),
{
    let an = a.unicode_len();
    let bn = b.unicode_len();
    let mut i: usize = 0;
    while i < an && i < bn && a.get_char(i) == b.get_char(i)
        invariant
            i <= an,
            i <= bn,
            an == a@.len(),
            bn == b@.len(),
            forall|q: int| 0 <= q < i ==> a@[q] == b@[q],
        decreases an - i,
    {
        i = i + 1;
    }
    proof {
        lemma_chars_lt_skip(a@, b@, i as int);
    }
    if i == an {
        return i < bn;
    }
    if i == bn {
        return false;
    }
    (a.get_char(i) as u32) < (b.get_char(i) as u32)
}

/// The order of `(String, usize)` pairs: by the string, then by the number.
pub open spec fn pair_le(x: (String, usize), y: (String, usize)) -> bool {
    chars_lt(x.0@, y.0@) || (x.0@ == y.0@ && x.1 <= y.1)
}

/// Relies on slice::sort with the `Ord` of `(String, usize)`: pairs are compared
/// by their strings first, which `str` orders by bytes, and UTF-8 byte order
/// is code point order; the sort permutes the pairs into non-decreasing order.
#[verifier::external_body]
fn sort_pairs(v: &mut Vec<(String, usize)>)
    ensures
        final(v)@.to_multiset() == old(v)@.to_multiset(),
        forall|i: int, j: int| 0 <= i < j < final(v)@.len() ==> pair_le(#[trigger] final(v)@[i], #[trigger] final(v)@[j]),
{
    v.sort();
}

pub open spec fn hidden(name: Seq<char>) -> bool {
    name.len() > 0 && name[0] == '.'
}

pub open spec fn left_out(policy: ScanPolicy, l: Listed) -> bool {
    ||| (policy.skip_hidden && hidden(l.name@))
    ||| exists|k: int| 0 <= k < policy.excluded@.len() && (#[trigger] policy.excluded@[k])@ == l.path@
}

/// Entry `i` comes before entry `j`: by sort key, then by listing order.
pub open spec fn key_before(keys: Seq<Seq<char>>, i: int, j: int) -> bool {
    chars_lt(keys[i], keys[j]) || (keys[i] == keys[j] && i < j)
}

/// The sort keys of a listing: its lower-case names.
pub open spec fn lower_keys(listing: Seq<Listed>) -> Seq<Seq<char>> {
    Seq::new(listing.len(), |i: int| lower_of(listing[i].name@))
}

pub open spec fn key_views(keys: Seq<String>) -> Seq<Seq<char>> {
    Seq::new(keys.len(), |i: int| keys[i]@)
}

/// Entry `i` of a listing comes before entry `j`: by lower-case name, then by
/// listing order.
pub open spec fn comes_before(listing: Seq<Listed>, i: int, j: int) -> bool {
    key_before(lower_keys(listing), i, j)
}

/// How many of the first `n` entries of `listing` the policy keeps.
pub open spec fn kept_count(policy: ScanPolicy, listing: Seq<Listed>, n: nat) -> nat
    decreases n,
{
    if n == 0 || n > listing.len() {
        0
    } else {
        kept_count(policy, listing, (n - 1) as nat) + if left_out(policy, listing[n - 1]) {
            0nat
        } else {
            1nat
        }
    }
}

impl ScanPolicy {
    pub fn new(skip_hidden: bool, excluded: Vec<String>) -> (r: ScanPolicy)
        ensures
            r.skip_hidden == skip_hidden,
            r.excluded == excluded,
    {
        ScanPolicy { skip_hidden, excluded }
    }

    /// Whether the policy leaves `l` out of a scan.
    pub fn is_left_out(&self, l: &Listed) -> (r: bool)
        ensures
            r == left_out(*self, *l),
    {
        if self.skip_hidden && l.name.as_str().unicode_len() > 0 && l.name.as_str().get_char(0)
            == '.' {
            return true;
        }
        let n = self.excluded.len();
        let mut k: usize = 0;
        while k < n
            invariant
                k <= n,
                n == self.excluded@.len(),
                !(self.skip_hidden && hidden(l.name@)),
                forall|q: int| 0 <= q < k ==> (#[trigger] self.excluded@[q])@ != l.path@,
            decreases n - k,
        {
            if self.excluded[k] == l.path {
                return true;
            }
            k = k + 1;
        }
        false
    }

    /// The entries of `listing` that a scan processes, as indices, in order:
    /// those the policy keeps, sorted by lower-case name (ties in listing
    /// order), at most `cap` of them, and none left out that comes before one
    /// taken.
    pub fn select(&self, listing: &Vec<Listed>, cap: usize) -> (r: Vec<usize>)
        ensures
            r@.len() == min_nat(cap as nat, kept_count(*self, listing@, listing@.len())),
            forall|i: int|
                0 <= i < r@.len() ==> (#[trigger] r@[i]) < listing@.len() && !left_out(
                    *self,
                    listing@[r@[i] as int],
                ),
            forall|i: int, j: int|
                0 <= i < j < r@.len() ==> comes_before(listing@, #[trigger] r@[i] as int, #[trigger] r@[j] as int),
            forall|x: int|
                0 <= x < listing@.len() && !left_out(*self, #[trigger] listing@[x]) && !r@.contains(x as usize)
                    ==> forall|i: int| 0 <= i < r@.len() ==> comes_before(listing@, #[trigger] r@[i] as int, x),
    {
        let n = listing.len();
        let mut keys: Vec<String> = Vec::new();
        let mut i: usize = 0;
        while i < n
            invariant
                i <= n,
                n == listing@.len(),
                keys@.len() == i,
                forall|q: int| 0 <= q < i ==> (#[trigger] keys@[q])@ == lower_of(listing@[q].name@),
            decreases n - i,
        {
            keys.push(lowercase(listing[i].name.as_str()));
            i = i + 1;
        }
        assert(key_views(keys@) =~= lower_keys(listing@));
        self.select_with_keys(listing, &keys, cap)
    }

    /// As `select`, with `keys[i]` as the sort key of entry `i` in place of
    /// its lower-case name.
    pub fn select_with_keys(&self, listing: &Vec<Listed>, keys: &Vec<String>, cap: usize) -> (r: Vec<usize>)
        requires
            keys@.len() == listing@.len(),
        ensures
            r@.len() == min_nat(cap as nat, kept_count(*self, listing@, listing@.len())),
            forall|i: int|
                0 <= i < r@.len() ==> (#[trigger] r@[i]) < listing@.len() && !left_out(
                    *self,
                    listing@[r@[i] as int],
                ),
            forall|i: int, j: int|
                0 <= i < j < r@.len() ==> key_before(key_views(keys@), #[trigger] r@[i] as int, #[trigger] r@[j] as int),
            forall|x: int|
                0 <= x < listing@.len() && !left_out(*self, #[trigger] listing@[x]) && !r@.contains(x as usize)
                    ==> forall|i: int| 0 <= i < r@.len() ==> key_before(key_views(keys@), #[trigger] r@[i] as int, x),
    {
        let n = listing.len();
        let mut pairs: Vec<(String, usize)> = Vec::new();
        let mut i: usize = 0;
        while i < n
            invariant
                i <= n,
                n == listing@.len(),
                keys@.len() == listing@.len(),
                pairs@.len() == kept_count(*self, listing@, i as nat),
                forall|q: int|
                    0 <= q < pairs@.len() ==> {
                        &&& (#[trigger] pairs@[q]).1 < i
                        &&& !left_out(*self, listing@[pairs@[q].1 as int])
                        &&& pairs@[q].0@ == keys@[pairs@[q].1 as int]@
                    },
                forall|q1: int, q2: int| 0 <= q1 < q2 < pairs@.len() ==> (#[trigger] pairs@[q1]).1 < (#[trigger] pairs@[q2]).1,
                forall|x: int| 0 <= x < i && !left_out(*self, #[trigger] listing@[x]) ==> exists|q: int| 0 <= q < pairs@.len() && pairs@[q].1 == x,
            decreases n - i,
        {
            let ghost earlier = pairs@;
            let out = self.is_left_out(&listing[i]);
            if !out {
                let key = keys[i].clone();
                pairs.push((key, i));
            }
            proof {
                assert forall|x: int| 0 <= x < i + 1 && !left_out(*self, #[trigger] listing@[x]) implies exists|q: int|
                    0 <= q < pairs@.len() && pairs@[q].1 == x by {
                    if x < i {
                        let q = choose|q: int| 0 <= q < earlier.len() && earlier[q].1 == x;
                        assert(pairs@[q] == earlier[q]);
                    } else {
                        assert(pairs@[pairs@.len() - 1].1 == x);
                    }
                }
            }
            i = i + 1;
        }
        let ghost unsorted = pairs@;
        proof {
            assert(unsorted.no_duplicates());
            unsorted.lemma_multiset_has_no_duplicates();
        }
        sort_pairs(&mut pairs);
        proof {
            assert(pairs@.to_multiset().len() == unsorted.to_multiset().len());
            assert forall|x: (String, usize)| pairs@.to_multiset().contains(x) implies pairs@.to_multiset().count(x) == 1 by {
                assert(unsorted.to_multiset().contains(x));
            }
            pairs@.lemma_multiset_has_no_duplicates_conv();
            assert forall|q: int| 0 <= q < pairs@.len() implies unsorted.contains(#[trigger] pairs@[q]) by {
                assert(pairs@.to_multiset().count(pairs@[q]) > 0);
            }
        }
        let k: usize = if cap < pairs.len() {
            cap
        } else {
            pairs.len()
        };
        let mut r: Vec<usize> = Vec::new();
        let mut j: usize = 0;
        while j < k
            invariant
                j <= k,
                k <= pairs@.len(),
                r@.len() == j,
                forall|q: int| 0 <= q < j ==> r@[q] == (#[trigger] pairs@[q]).1,
            decreases k - j,
        {
            r.push(pairs[j].1);
            j = j + 1;
        }
        proof {
            assert forall|i1: int| 0 <= i1 < r@.len() implies (#[trigger] r@[i1]) < listing@.len() && !left_out(
                *self,
                listing@[r@[i1] as int],
            ) by {
                assert(unsorted.contains(pairs@[i1]));
            }
            assert forall|i1: int, j1: int| 0 <= i1 < j1 < r@.len() implies key_before(key_views(keys@), #[trigger] r@[i1] as int, #[trigger] r@[j1] as int) by {
                assert(unsorted.contains(pairs@[i1]));
                assert(unsorted.contains(pairs@[j1]));
                assert(pair_le(pairs@[i1], pairs@[j1]));
                assert(pairs@[i1] != pairs@[j1]);
            }
            assert forall|x: int|
                0 <= x < listing@.len() && !left_out(*self, #[trigger] listing@[x]) && !r@.contains(x as usize)
                implies forall|i1: int| 0 <= i1 < r@.len() ==> key_before(key_views(keys@), #[trigger] r@[i1] as int, x) by {
                let q = choose|q: int| 0 <= q < unsorted.len() && unsorted[q].1 == x;
                assert(unsorted.to_multiset().count(unsorted[q]) > 0);
                assert(pairs@.contains(unsorted[q]));
                let p = choose|p: int| 0 <= p < pairs@.len() && pairs@[p] == unsorted[q];
                if p < k {
                    assert(r@[p] == x as usize);
                }
                assert forall|i1: int| 0 <= i1 < r@.len() implies key_before(key_views(keys@), #[trigger] r@[i1] as int, x) by {
                    assert(unsorted.contains(pairs@[i1]));
                    assert(pair_le(pairs@[i1], pairs@[p]));
                    assert(pairs@[i1] != pairs@[p]);
                }
            }
        }
        r
    }
}

} // verus!
