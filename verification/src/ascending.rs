//! Ascending listings of sets of addresses.

use vstd::prelude::*;

verus! {

/// Each element is smaller than every later one.
pub open spec fn strictly_ascending(s: Seq<u32>) -> bool {
    forall|i: int, j: int| 0 <= i < j < s.len() ==> s[i] < s[j]
}

/// The members of `set` that are smaller than `bound`, smallest first.
pub open spec fn ascending_below(set: Set<u32>, bound: nat) -> Seq<u32>
    decreases bound,
{
    if bound == 0 {
        Seq::empty()
    } else {
        let rest = ascending_below(set, (bound - 1) as nat);
        if bound - 1 <= u32::MAX && set.contains((bound - 1) as u32) {
            rest.push((bound - 1) as u32)
        } else {
            rest
        }
    }
}

/// All members of `set`, smallest first.
pub open spec fn ascending(set: Set<u32>) -> Seq<u32> {
    ascending_below(set, 0x1_0000_0000)
}

/// `ascending_below` lists exactly the members below the bound, in strictly
/// ascending order.
pub proof fn lemma_ascending_below(set: Set<u32>, bound: nat)
    ensures
        strictly_ascending(ascending_below(set, bound)),
        forall|a: u32|
            #![trigger ascending_below(set, bound).contains(a)]
            #![trigger set.contains(a)]
            ascending_below(set, bound).contains(a) <==> (set.contains(a) && a < bound),
    decreases bound,
{
    if bound > 0 {
        let rest = ascending_below(set, (bound - 1) as nat);
        let whole = ascending_below(set, bound);
        lemma_ascending_below(set, (bound - 1) as nat);
        if bound - 1 <= u32::MAX && set.contains((bound - 1) as u32) {
            let top = (bound - 1) as u32;
            assert(whole == rest.push(top));
            assert forall|i: int, j: int| 0 <= i < j < whole.len() implies whole[i] < whole[j] by {
                assert(whole[i] == rest[i]);
                if j == rest.len() {
                    assert(rest.contains(rest[i]));
                } else {
                    assert(whole[j] == rest[j]);
                }
            }
            assert forall|a: u32| whole.contains(a) <==> (set.contains(a) && a < bound) by {
                if whole.contains(a) {
                    let i = choose|i: int| 0 <= i < whole.len() && whole[i] == a;
                    if i < rest.len() {
                        assert(rest[i] == a);
                        assert(rest.contains(a));
                    }
                }
                if set.contains(a) && a < bound {
                    if a == top {
                        assert(whole[rest.len() as int] == a);
                    } else {
                        assert(rest.contains(a));
                        let i = choose|i: int| 0 <= i < rest.len() && rest[i] == a;
                        assert(whole[i] == a);
                    }
                }
            }
        } else {
            assert(whole == rest);
            assert forall|a: u32| whole.contains(a) <==> (set.contains(a) && a < bound) by {
                if set.contains(a) && a < bound {
                    assert(a < (bound - 1) as nat);
                }
            }
        }
    } else {
        assert forall|a: u32| !ascending_below(set, bound).contains(a) by {
            if ascending_below(set, bound).contains(a) {
                let i = choose|i: int|
                    0 <= i < ascending_below(set, bound).len() && ascending_below(set, bound)[i]
                        == a;
            }
        }
    }
}

/// `ascending` lists exactly the members of the set, in strictly ascending
/// order.
pub proof fn lemma_ascending(set: Set<u32>)
    ensures
        strictly_ascending(ascending(set)),
        forall|a: u32|
            #![trigger ascending(set).contains(a)]
            #![trigger set.contains(a)]
            ascending(set).contains(a) <==> set.contains(a),
{
    lemma_ascending_below(set, 0x1_0000_0000);
}

/// The ascending listing of a finite set is as long as the set is large.
pub proof fn lemma_ascending_len(set: Set<u32>)
    requires
        set.finite(),
    ensures
        ascending(set).len() == set.len(),
{
    let s = ascending(set);
    lemma_ascending(set);
    assert(s.no_duplicates());
    assert(s.to_set() =~= set);
    s.unique_seq_to_set();
}

/// A new greatest member comes last in the ascending listing.
pub proof fn lemma_ascending_insert_greatest(set: Set<u32>, top: u32)
    requires
        forall|a: u32| set.contains(a) ==> a < top,
    ensures
        ascending(set.insert(top)) == ascending(set).push(top),
{
    let s = ascending(set);
    let t = s.push(top);
    lemma_ascending(set);
    lemma_ascending(set.insert(top));
    assert forall|i: int, j: int| 0 <= i < j < t.len() implies t[i] < t[j] by {
        assert(t[i] == s[i]);
        if j == s.len() {
            assert(s.contains(s[i]));
        } else {
            assert(t[j] == s[j]);
        }
    }
    assert forall|a: u32| t.contains(a) <==> ascending(set.insert(top)).contains(a) by {
        if t.contains(a) {
            let i = choose|i: int| 0 <= i < t.len() && t[i] == a;
            if i < s.len() {
                assert(s[i] == a);
                assert(s.contains(a));
            }
        }
        if set.insert(top).contains(a) {
            if a == top {
                assert(t[s.len() as int] == a);
            } else {
                assert(s.contains(a));
                let i = choose|i: int| 0 <= i < s.len() && s[i] == a;
                assert(t[i] == a);
            }
        }
    }
    lemma_ascending_unique(t, ascending(set.insert(top)));
}

/// Two strictly ascending sequences with the same elements are equal.
pub proof fn lemma_ascending_unique(s: Seq<u32>, t: Seq<u32>)
    requires
        strictly_ascending(s),
        strictly_ascending(t),
        forall|a: u32| s.contains(a) <==> t.contains(a),
    ensures
        s == t,
    decreases s.len(),
{
    if s.len() == 0 {
        if t.len() > 0 {
            assert(t.contains(t[0]));
        }
        assert(s =~= t);
    } else {
        assert(s.contains(s.last()));
        assert(t.contains(s.last()));
        let k = choose|k: int| 0 <= k < t.len() && t[k] == s.last();
        assert(t.contains(t.last()));
        assert(s.contains(t.last()));
        let l = choose|l: int| 0 <= l < s.len() && s[l] == t.last();
        assert(s.last() == t.last());
        let s0 = s.drop_last();
        let t0 = t.drop_last();
        assert forall|a: u32| s0.contains(a) <==> t0.contains(a) by {
            if s0.contains(a) {
                let i = choose|i: int| 0 <= i < s0.len() && s0[i] == a;
                assert(s[i] == a);
                assert(s.contains(a));
                let j = choose|j: int| 0 <= j < t.len() && t[j] == a;
                assert(t0[j] == a);
            }
            if t0.contains(a) {
                let i = choose|i: int| 0 <= i < t0.len() && t0[i] == a;
                assert(t[i] == a);
                assert(t.contains(a));
                let j = choose|j: int| 0 <= j < s.len() && s[j] == a;
                assert(s0[j] == a);
            }
        }
        lemma_ascending_unique(s0, t0);
        assert(s =~= s0.push(s.last()));
        assert(t =~= t0.push(t.last()));
    }
}

/// Calls the standard library's `sort` on the vector's slice. Trusted, not
/// proved: afterwards the elements stand in ascending order, and each value
/// occurs exactly as often as it did before.
#[verifier::external_body]
pub(crate) fn sort_ascending(v: &mut Vec<u32>)
    ensures
        final(v)@.to_multiset() == old(v)@.to_multiset(),
        forall|i: int, j: int| 0 <= i <= j < final(v)@.len() ==> final(v)@[i] <= final(v)@[j],
{
    v.sort();
}

/// Sorts a vector that holds no value twice; the result is the ascending
/// listing of the values it held.
pub(crate) fn sort_distinct(v: &mut Vec<u32>)
    requires
        old(v)@.no_duplicates(),
    ensures
        final(v)@ == ascending(old(v)@.to_set()),
{
    let ghost before = v@;
    sort_ascending(v);
    proof {
        let after = v@;
        before.lemma_multiset_has_no_duplicates();
        after.lemma_multiset_has_no_duplicates_conv();
        assert forall|i: int, j: int| 0 <= i < j < after.len() implies after[i] < after[j] by {
            assert(after[i] != after[j]);
        }
        lemma_ascending(before.to_set());
        assert forall|a: u32| after.contains(a) <==> ascending(before.to_set()).contains(a) by {
            vstd::seq_lib::to_multiset_contains(after, a);
            vstd::seq_lib::to_multiset_contains(before, a);
        }
        lemma_ascending_unique(after, ascending(before.to_set()));
    }
}

} // verus!
