//! Facts about sequences read as sets.

use vstd::arithmetic::power2::lemma_pow2_unfold;
use vstd::arithmetic::power2::pow2;
use vstd::prelude::*;

verus! {

/// The set of the first `j + 1` entries is the set of the first `j` with
/// entry `j` added.
pub proof fn lemma_prefix_grows<T>(s: Seq<T>, j: int)
    requires
        0 <= j < s.len(),
    ensures
        s.subrange(0, j + 1).to_set() == s.subrange(0, j).to_set().insert(s[j]),
        s.subrange(0, j + 1) == s.subrange(0, j).push(s[j]),
{
    let before = s.subrange(0, j);
    let after = s.subrange(0, j + 1);
    assert(after =~= before.push(s[j]));
    assert forall|x: T| after.to_set().contains(x) == before.to_set().insert(s[j]).contains(x) by {
        if after.contains(x) {
            let k = choose|k: int| 0 <= k < after.len() && after[k] == x;
            if k < j {
                assert(before[k] == x);
            }
        }
        if before.contains(x) {
            let k = choose|k: int| 0 <= k < before.len() && before[k] == x;
            assert(after[k] == x);
        }
        if x == s[j] {
            assert(after[j] == x);
        }
    }
    assert(after.to_set() =~= before.to_set().insert(s[j]));
}

/// The empty prefix holds nothing, and the full prefix is the sequence.
pub proof fn lemma_prefix_ends<T>(s: Seq<T>)
    ensures
        s.subrange(0, 0).to_set() == Set::<T>::empty(),
        s.subrange(0, s.len() as int) == s,
{
    assert(s.subrange(0, 0).to_set() =~= Set::<T>::empty());
    assert(s.subrange(0, s.len() as int) =~= s);
}

/// A sequence with one more entry, read as a set.
pub proof fn lemma_push_set<T>(s: Seq<T>, x: T)
    ensures
        s.push(x).to_set() == s.to_set().insert(x),
{
    let t = s.push(x);
    lemma_prefix_grows(t, s.len() as int);
    assert(t.subrange(0, s.len() as int) =~= s);
    assert(t.subrange(0, s.len() as int + 1) =~= t);
}

/// In a list without repeats, an entry is not among those before it.
pub proof fn lemma_prefix_lacks_next<T>(s: Seq<T>, k: int)
    requires
        s.no_duplicates(),
        0 <= k < s.len(),
    ensures
        !s.subrange(0, k).to_set().contains(s[k]),
{
    let before = s.subrange(0, k);
    if before.contains(s[k]) {
        let j = choose|j: int| 0 <= j < before.len() && before[j] == s[k];
        assert(s[j] == s[k]);
    }
}

/// All subsets of `u`.
pub open spec fn subsets_of<T>(u: Set<T>) -> Set<Set<T>> {
    Set::new(|s: Set<T>| s.subset_of(u))
}

/// A finite set has finitely many subsets.
pub proof fn lemma_subsets_finite<T>(u: Set<T>)
    requires
        u.finite(),
    ensures
        subsets_of(u).finite(),
    decreases u.len(),
{
    if u.len() == 0 {
        assert(u =~= Set::<T>::empty());
        assert forall|s: Set<T>| subsets_of(u).contains(s) implies s == Set::<T>::empty() by {
            assert(s =~= Set::<T>::empty());
        }
        assert(subsets_of(u) =~= set![Set::<T>::empty()]);
    } else {
        let x = u.choose();
        let v = u.remove(x);
        lemma_subsets_finite(v);
        let f = |s: Set<T>| s.insert(x);
        subsets_of(v).lemma_map_finite(f);
        let with = subsets_of(v).map(f);
        assert forall|s: Set<T>| subsets_of(u).contains(s) == (subsets_of(v) + with).contains(
            s,
        ) by {
            if subsets_of(u).contains(s) {
                if s.contains(x) {
                    let r = s.remove(x);
                    assert(r.subset_of(v));
                    assert(subsets_of(v).contains(r));
                    assert(s =~= f(r));
                    assert(with.contains(s));
                } else {
                    assert(s.subset_of(v));
                }
            }
            if with.contains(s) {
                let r = choose|r: Set<T>| subsets_of(v).contains(r) && s == f(r);
                assert(s.subset_of(u));
            }
            if subsets_of(v).contains(s) {
                assert(s.subset_of(u));
            }
        }
        assert(subsets_of(u) =~= subsets_of(v) + with);
    }
}

/// A set of `n` members has two to the power of `n` subsets.
pub proof fn lemma_subsets_count<T>(u: Set<T>)
    requires
        u.finite(),
    ensures
        subsets_of(u).finite(),
        subsets_of(u).len() == pow2(u.len()),
    decreases u.len(),
{
    lemma_subsets_finite(u);
    if u.len() == 0 {
        assert(u =~= Set::<T>::empty());
        assert forall|s: Set<T>| subsets_of(u).contains(s) implies s == Set::<T>::empty() by {
            assert(s =~= Set::<T>::empty());
        }
        assert(subsets_of(u) =~= set![Set::<T>::empty()]);
        vstd::arithmetic::power2::lemma2_to64();
    } else {
        let x = u.choose();
        let v = u.remove(x);
        lemma_subsets_count(v);
        let f = |s: Set<T>| s.insert(x);
        let without = subsets_of(v);
        let with = without.map(f);
        without.lemma_map_finite(f);
        assert forall|s: Set<T>| subsets_of(u).contains(s) == (without + with).contains(s) by {
            if subsets_of(u).contains(s) {
                if s.contains(x) {
                    let r = s.remove(x);
                    assert(r.subset_of(v));
                    assert(without.contains(r));
                    assert(s =~= f(r));
                    assert(with.contains(s));
                } else {
                    assert(s.subset_of(v));
                }
            }
            if with.contains(s) {
                let r = choose|r: Set<T>| without.contains(r) && s == f(r);
                assert(s.subset_of(u));
            }
            if without.contains(s) {
                assert(s.subset_of(u));
            }
        }
        assert(subsets_of(u) =~= without + with);
        assert forall|a: Set<T>, b: Set<T>|
            without.contains(a) && without.contains(b) && #[trigger] f(a) == #[trigger] f(
                b,
            ) implies a == b by {
            assert(a =~= f(a).remove(x));
            assert(b =~= f(b).remove(x));
        }
        assert(vstd::relations::injective_on(f, without));
        vstd::set_lib::lemma_map_size(without, with, f);
        assert(without.disjoint(with)) by {
            assert forall|s: Set<T>| !(without.contains(s) && with.contains(s)) by {
                if with.contains(s) {
                    let r = choose|r: Set<T>| without.contains(r) && s == f(r);
                    assert(s.contains(x));
                }
            }
        }
        vstd::set_lib::lemma_set_disjoint_lens(without, with);
        lemma_pow2_unfold(u.len());
    }
}

/// A list of sets, no two of them equal and each a subset of the finite set
/// `u`, is no longer than the number of subsets of `u`.
pub proof fn lemma_distinct_subsets_bounded<T>(list: Seq<Set<T>>, u: Set<T>)
    requires
        u.finite(),
        list.no_duplicates(),
        forall|i: int| 0 <= i < list.len() ==> (#[trigger] list[i]).subset_of(u),
    ensures
        subsets_of(u).finite(),
        list.len() <= subsets_of(u).len(),
{
    lemma_subsets_finite(u);
    list.unique_seq_to_set();
    assert forall|s: Set<T>| list.to_set().contains(s) implies subsets_of(u).contains(s) by {
        let i = choose|i: int| 0 <= i < list.len() && list[i] == s;
        assert(list[i].subset_of(u));
    }
    vstd::set_lib::lemma_len_subset(list.to_set(), subsets_of(u));
}

} // verus!
