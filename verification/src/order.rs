//! Sorted listings of finite sets of addresses: the strictly increasing
//! sequence that lists a set is unique, so it can be named.

use vstd::prelude::*;
use vstd::std_specs::btree::increasing_seq;
use vstd::std_specs::cmp::OrdSpec;

verus! {

broadcast use vstd::laws_cmp::group_laws_cmp, vstd::std_specs::btree::group_btree_axioms;

/// `ks` is strictly increasing.
pub open spec fn strictly_increasing(ks: Seq<u32>) -> bool {
    forall|i: int, j: int| 0 <= i < j < ks.len() ==> ks[i] < ks[j]
}

/// `ks` lists the elements of `s` in strictly increasing order.
pub open spec fn lists_set(ks: Seq<u32>, s: Set<u32>) -> bool {
    &&& strictly_increasing(ks)
    &&& forall|i: int| 0 <= i < ks.len() ==> s.contains(#[trigger] ks[i])
    &&& forall|x: u32| #[trigger] s.contains(x) ==> ks.contains(x)
}

/// The elements of `s` in increasing order (meaningful when some sequence lists `s`).
pub open spec fn sorted_elems(s: Set<u32>) -> Seq<u32> {
    choose|ks: Seq<u32>| lists_set(ks, s)
}

/// Two increasing listings of one set are the same sequence.
pub proof fn lemma_lists_set_unique(a: Seq<u32>, b: Seq<u32>, s: Set<u32>)
    requires
        lists_set(a, s),
        lists_set(b, s),
    ensures
        a == b,
    decreases a.len(),
{
    if a.len() == 0 {
        if b.len() > 0 {
            assert(s.contains(b[0]));
            assert(a.contains(b[0]));
        }
        assert(a =~= b);
    } else {
        assert(s.contains(a[0]));
        assert(b.contains(a[0]));
        let i = choose|i: int| 0 <= i < b.len() && b[i] == a[0];
        assert(s.contains(b[0]));
        assert(a.contains(b[0]));
        let j = choose|j: int| 0 <= j < a.len() && a[j] == b[0];
        if a[0] < b[0] {
            assert(b[i] >= b[0]);
        }
        if b[0] < a[0] {
            assert(a[j] >= a[0]);
        }
        assert(a[0] == b[0]);
        let s2 = s.remove(a[0]);
        let a2 = a.drop_first();
        let b2 = b.drop_first();
        assert forall|x: u32| #[trigger] s2.contains(x) implies a2.contains(x) by {
            let k = choose|k: int| 0 <= k < a.len() && a[k] == x;
            assert(k != 0);
            assert(a2[k - 1] == x);
        }
        assert forall|x: u32| #[trigger] s2.contains(x) implies b2.contains(x) by {
            let k = choose|k: int| 0 <= k < b.len() && b[k] == x;
            assert(k != 0);
            assert(b2[k - 1] == x);
        }
        assert forall|k: int| 0 <= k < a2.len() implies s2.contains(#[trigger] a2[k]) by {
            assert(a[k + 1] > a[0]);
            assert(s.contains(a[k + 1]));
        }
        assert forall|k: int| 0 <= k < b2.len() implies s2.contains(#[trigger] b2[k]) by {
            assert(b[k + 1] > b[0]);
            assert(s.contains(b[k + 1]));
        }
        lemma_lists_set_unique(a2, b2, s2);
        assert(a =~= b);
    }
}

/// Any increasing listing of `s` is `sorted_elems(s)`.
pub proof fn lemma_sorted_elems(ks: Seq<u32>, s: Set<u32>)
    requires
        lists_set(ks, s),
    ensures
        sorted_elems(s) == ks,
{
    lemma_lists_set_unique(sorted_elems(s), ks, s);
}

/// The predicate "less than `m`".
pub open spec fn below(m: int) -> spec_fn(u32) -> bool {
    |x: u32| x < m
}

/// The elements of `s` below `m` have an increasing listing.
pub proof fn lemma_list_below(s: Set<u32>, m: int) -> (ks: Seq<u32>)
    requires
        0 <= m <= 0x1_0000_0000,
    ensures
        lists_set(ks, s.filter(below(m))),
        forall|i: int| 0 <= i < ks.len() ==> ks[i] < m,
    decreases m,
{
    if m == 0 {
        let ks = Seq::<u32>::empty();
        assert forall|x: u32| #[trigger] s.filter(below(m)).contains(x) implies ks.contains(x) by {}
        ks
    } else {
        let prev = lemma_list_below(s, m - 1);
        let top = (m - 1) as u32;
        let ks = if s.contains(top) { prev.push(top) } else { prev };
        assert forall|x: u32| #[trigger] s.filter(below(m)).contains(x) implies ks.contains(x) by {
            if x < m - 1 {
                assert(s.filter(below(m - 1)).contains(x));
                let k = choose|k: int| 0 <= k < prev.len() && prev[k] == x;
                assert(ks[k] == x);
            } else {
                assert(ks[ks.len() - 1] == x);
            }
        }
        assert forall|i: int| 0 <= i < ks.len() implies s.filter(below(m)).contains(#[trigger] ks[i]) by {
            if i < prev.len() {
                assert(ks[i] == prev[i]);
                assert(s.filter(below(m - 1)).contains(prev[i]));
            }
        }
        ks
    }
}

/// Every set of `u32` has an increasing listing, which `sorted_elems` gives.
pub proof fn lemma_sorted_elems_lists(s: Set<u32>)
    ensures
        lists_set(sorted_elems(s), s),
{
    let ks = lemma_list_below(s, 0x1_0000_0000);
    assert(s.filter(below(0x1_0000_0000)) =~= s);
    lemma_sorted_elems(ks, s);
}

/// A B-tree's key order on `u32` is `<`.
pub proof fn lemma_increasing_u32(keys: Seq<u32>)
    requires
        increasing_seq(keys),
    ensures
        strictly_increasing(keys),
{
    assert(vstd::laws_cmp::obeys_cmp::<u32>());
    assert forall|i: int, j: int| 0 <= i < j < keys.len() implies keys[i] < keys[j] by {
        assert(keys[i].cmp_spec(&keys[j]) is Less);
    }
}

/// A B-tree set's iteration order over `u32` keys is `<`.
pub proof fn lemma_increasing_refs(s: Seq<&u32>)
    requires
        increasing_seq(s),
    ensures
        strictly_increasing(s.map_values(|x: &u32| *x)),
{
    assert(vstd::laws_cmp::obeys_cmp::<u32>());
    broadcast use vstd::laws_cmp::lemma_ref_obeys_cmp_spec;
    assert(vstd::laws_cmp::obeys_cmp::<&u32>());
    vstd::std_specs::btree::axiom_increasing_seq_meaning::<&u32>(s);
    let u = s.map_values(|x: &u32| *x);
    assert forall|i: int, j: int| 0 <= i < j < u.len() implies u[i] < u[j] by {
        let a: &u32 = s[i];
        let b: &u32 = s[j];
        assert(OrdSpec::cmp_spec(&a, &b) is Less);
    }
}

} // verus!
