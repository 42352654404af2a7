//! The mathematical model of a threshold dictionary: what its sorted
//! entry sequence looks like, what a query means, and the laws that
//! relate the linear-scan and binary-search characterizations.

use vstd::prelude::*;

verus! {

/// The keys of an entry sequence are strictly ascending; in particular
/// every key occurs at most once.
pub open spec fn sorted_strict<V>(s: Seq<(u64, V)>) -> bool {
    forall|i: int, j: int| 0 <= i < j < s.len() ==> s[i].0 < s[j].0
}

/// The index at which a linear scan stops: the first entry, read left to
/// right, whose key is strictly greater than the query key, or `None`
/// when no entry qualifies.
pub open spec fn first_above<V>(s: Seq<(u64, V)>, q: u64) -> Option<int>
    decreases s.len(),
{
    if s.len() == 0 {
        None
    } else if s[0].0 > q {
        Some(0)
    } else {
        match first_above(s.drop_first(), q) {
            Option::Some(i) => Some(i + 1),
            Option::None => None,
        }
    }
}

/// The value a search resolves to, before any default policy applies:
/// the value stored at the first entry whose key is strictly greater
/// than the query key.
pub open spec fn value_above<V>(s: Seq<(u64, V)>, q: u64) -> Option<V> {
    match first_above(s, q) {
        Option::Some(i) => Some(s[i].1),
        Option::None => None,
    }
}

/// A qualifying index is a real position in the sequence, and its key
/// is indeed strictly greater than the query key.
pub proof fn lemma_first_above_in_range<V>(s: Seq<(u64, V)>, q: u64)
    ensures
        match first_above(s, q) {
            Option::Some(i) => 0 <= i < s.len() && s[i].0 > q,
            Option::None => true,
        },
    decreases s.len(),
{
    if s.len() == 0 {
    } else if s[0].0 > q {
    } else {
        lemma_first_above_in_range(s.drop_first(), q);
    }
}

/// What a binary search computes: `i` splits the sequence into a prefix
/// of keys at most `q` and a suffix of keys strictly greater than `q`.
pub open spec fn is_partition_point<V>(s: Seq<(u64, V)>, q: u64, i: int) -> bool {
    &&& 0 <= i <= s.len()
    &&& forall|j: int| 0 <= j < i ==> s[j].0 <= q
    &&& forall|j: int| i <= j < s.len() ==> s[j].0 > q
}

/// The key-value map an entry sequence denotes, a later occurrence of a
/// key shadowing an earlier one. On a strictly sorted sequence keys are
/// unique, so nothing is ever shadowed.
pub open spec fn to_map<V>(s: Seq<(u64, V)>) -> Map<u64, V>
    decreases s.len(),
{
    if s.len() == 0 {
        Map::empty()
    } else {
        to_map(s.drop_last()).insert(s.last().0, s.last().1)
    }
}

/// The key-value map an arbitrary pair list denotes under the
/// construction rule for duplicate keys: of the pairs sharing a key,
/// the one appearing first in input order survives.
pub open spec fn first_wins<V>(s: Seq<(u64, V)>) -> Map<u64, V>
    decreases s.len(),
{
    if s.len() == 0 {
        Map::empty()
    } else {
        let m = first_wins(s.drop_last());
        if m.dom().contains(s.last().0) {
            m
        } else {
            m.insert(s.last().0, s.last().1)
        }
    }
}

/// The domain of the denoted map is exactly the set of keys that occur
/// in the sequence.
pub proof fn lemma_to_map_dom<V>(s: Seq<(u64, V)>)
    ensures
        forall|k: u64|
            to_map(s).dom().contains(k) <==> exists|j: int| 0 <= j < s.len() && s[j].0 == k,
    decreases s.len(),
{
    if s.len() == 0 {
    } else {
        let t = s.drop_last();
        lemma_to_map_dom(t);
        assert forall|k: u64| to_map(s).dom().contains(k) implies exists|j: int|
            0 <= j < s.len() && s[j].0 == k by {
            if k == s.last().0 {
                assert(s[s.len() - 1].0 == k);
            } else {
                assert(to_map(s) == to_map(t).insert(s.last().0, s.last().1));
                assert(to_map(t).dom().contains(k));
                let j = choose|j: int| 0 <= j < t.len() && t[j].0 == k;
                assert(t[j] == s[j]);
                assert(s[j].0 == k);
            }
        }
        assert forall|k: u64| (exists|j: int| 0 <= j < s.len() && s[j].0 == k) implies to_map(
            s,
        ).dom().contains(k) by {
            let j = choose|j: int| 0 <= j < s.len() && s[j].0 == k;
            assert(to_map(s) == to_map(t).insert(s.last().0, s.last().1));
            if j < s.len() - 1 {
                assert(t[j] == s[j]);
                assert(to_map(t).dom().contains(k));
            } else {
                assert(k == s.last().0);
            }
        }
    }
}

/// Inserting a pair whose key is absent from the sequence inserts its
/// binding into the denoted map, wherever in the sequence the pair
/// lands.
pub proof fn lemma_to_map_insert<V>(s: Seq<(u64, V)>, i: int, k: u64, v: V)
    requires
        0 <= i <= s.len(),
        forall|j: int| 0 <= j < s.len() ==> s[j].0 != k,
    ensures
        to_map(s.insert(i, (k, v))) == to_map(s).insert(k, v),
    decreases s.len(),
{
    let w = s.insert(i, (k, v));
    s.insert_ensures(i, (k, v));
    if i == s.len() {
        assert(w.drop_last() =~= s);
        assert(w.last() == (k, v));
    } else {
        let t = s.drop_last();
        assert(w.last() == s.last());
        assert(w.drop_last() =~= t.insert(i, (k, v)));
        assert forall|j: int| 0 <= j < t.len() implies t[j].0 != k by {
            assert(t[j] == s[j]);
        }
        lemma_to_map_insert(t, i, k, v);
        assert(s.last().0 != k);
        assert(to_map(w) =~= to_map(s).insert(k, v));
    }
}

/// Strategy equivalence: the partition point that binary search lands on
/// is exactly the index where a linear scan stops, so the two search
/// strategies resolve every query to the same entry. The claim needs no
/// sortedness: any sequence that admits a partition point at `i` makes
/// its linear scan stop there.
pub proof fn lemma_strategy_equivalence<V>(s: Seq<(u64, V)>, q: u64, i: int)
    requires
        is_partition_point(s, q, i),
    ensures
        first_above(s, q) == if i < s.len() {
            Some(i)
        } else {
            None::<int>
        },
    decreases s.len(),
{
    if s.len() == 0 {
    } else if s[0].0 > q {
        assert(i == 0);
    } else {
        let t = s.drop_first();
        assert forall|j: int| 0 <= j < i - 1 implies t[j].0 <= q by {
            assert(t[j] == s[j + 1]);
        }
        assert forall|j: int| i - 1 <= j < t.len() implies t[j].0 > q by {
            assert(t[j] == s[j + 1]);
        }
        lemma_strategy_equivalence(t, q, i - 1);
    }
}

/// Scanning past the first entry: when the first key does not qualify,
/// a query on the whole sequence resolves exactly as on the rest.
pub proof fn lemma_value_above_step<V>(s: Seq<(u64, V)>, q: u64)
    requires
        s.len() > 0,
        s[0].0 <= q,
    ensures
        value_above(s, q) == value_above(s.drop_first(), q),
{
    let t = s.drop_first();
    lemma_first_above_in_range(t, q);
    match first_above(t, q) {
        Option::Some(i) => {
            assert(s[i + 1] == t[i]);
        },
        Option::None => {},
    }
}

/// Monotonicity: two query keys with no stored key between them — none
/// strictly above the first and at most the second — fall into the same
/// bracket, so their queries resolve to the same entry.
pub proof fn lemma_monotonicity<V>(s: Seq<(u64, V)>, k1: u64, k2: u64)
    requires
        k1 < k2,
        forall|j: int| 0 <= j < s.len() ==> !(k1 < (#[trigger] s[j]).0 <= k2),
    ensures
        value_above(s, k1) == value_above(s, k2),
    decreases s.len(),
{
    if s.len() == 0 {
    } else if s[0].0 > k1 {
        assert(!(k1 < s[0].0 <= k2));
        assert(s[0].0 > k2);
    } else {
        let t = s.drop_first();
        assert forall|j: int| 0 <= j < t.len() implies !(k1 < (#[trigger] t[j]).0 <= k2) by {
            assert(t[j] == s[j + 1]);
        }
        lemma_monotonicity(t, k1, k2);
        lemma_value_above_step(s, k1);
        lemma_value_above_step(s, k2);
    }
}

/// Boundary behavior under the strict comparison policy: a query
/// exactly equal to a stored key does not resolve to that key's entry
/// but to the next higher one — or to nothing, and so to the default
/// policy, when the matched key is the last.
pub proof fn lemma_strict_boundary<V>(s: Seq<(u64, V)>, i: int)
    requires
        sorted_strict(s),
        0 <= i < s.len(),
    ensures
        value_above(s, s[i].0) == if i + 1 < s.len() {
            Some(s[i + 1].1)
        } else {
            None::<V>
        },
{
    assert(is_partition_point(s, s[i].0, i + 1)) by {
        assert forall|j: int| 0 <= j < i + 1 implies s[j].0 <= s[i].0 by {
            if j < i {
                assert(s[j].0 < s[i].0);
            }
        }
    }
    lemma_strategy_equivalence(s, s[i].0, i + 1);
}

/// Empty-dictionary behavior: with no entries no key ever qualifies,
/// so every query falls through to the default policy.
pub proof fn lemma_empty_query<V>(s: Seq<(u64, V)>, q: u64)
    requires
        s.len() == 0,
    ensures
        value_above(s, q) is None,
{
}

/// Default-absent behavior: when every stored key is at most the query
/// key the search produces nothing, so a dictionary with no default
/// configured resolves such a query to an explicit absence.
pub proof fn lemma_out_of_range_query<V>(s: Seq<(u64, V)>, q: u64)
    requires
        forall|j: int| 0 <= j < s.len() ==> s[j].0 <= q,
    ensures
        value_above(s, q) is None,
{
    assert(is_partition_point(s, q, s.len() as int));
    lemma_strategy_equivalence(s, q, s.len() as int);
}

/// On a pair list whose keys are all distinct, every pair survives
/// construction: the map holds exactly the listed bindings.
pub proof fn lemma_first_wins_distinct<V>(s: Seq<(u64, V)>)
    requires
        forall|i: int, j: int| 0 <= i < j < s.len() ==> s[i].0 != s[j].0,
    ensures
        forall|j: int| 0 <= j < s.len() ==> first_wins(s).dom().contains((#[trigger] s[j]).0),
        forall|j: int| 0 <= j < s.len() ==> first_wins(s)[(#[trigger] s[j]).0] == s[j].1,
        forall|k: u64|
            first_wins(s).dom().contains(k) ==> exists|j: int| 0 <= j < s.len() && s[j].0 == k,
    decreases s.len(),
{
    if s.len() == 0 {
    } else {
        let t = s.drop_last();
        let a = s.last();
        assert forall|i: int, j: int| 0 <= i < j < t.len() implies t[i].0 != t[j].0 by {
            assert(t[i] == s[i] && t[j] == s[j]);
        }
        lemma_first_wins_distinct(t);
        assert(!first_wins(t).dom().contains(a.0)) by {
            if first_wins(t).dom().contains(a.0) {
                let j = choose|j: int| 0 <= j < t.len() && t[j].0 == a.0;
                assert(t[j] == s[j]);
                assert(s[j].0 != s[s.len() - 1].0);
            }
        }
        assert(first_wins(s) == first_wins(t).insert(a.0, a.1));
        assert forall|j: int| 0 <= j < s.len() implies first_wins(s).dom().contains(
            (#[trigger] s[j]).0,
        ) && first_wins(s)[s[j].0] == s[j].1 by {
            if j < s.len() - 1 {
                assert(t[j] == s[j]);
                assert(s[j].0 != a.0);
            }
        }
        assert forall|k: u64| first_wins(s).dom().contains(k) implies exists|j: int|
            0 <= j < s.len() && s[j].0 == k by {
            if k == a.0 {
                assert(s[s.len() - 1].0 == k);
            } else {
                let j = choose|j: int| 0 <= j < t.len() && t[j].0 == k;
                assert(s[j] == t[j]);
            }
        }
    }
}

/// Input order is irrelevant: two pair lists with distinct keys that
/// hold the same pairs denote the same map, so — by construction
/// canonicity below — the dictionaries built from them hold identical
/// entries.
pub proof fn lemma_input_order_irrelevant<V>(p1: Seq<(u64, V)>, p2: Seq<(u64, V)>)
    requires
        forall|i: int, j: int| 0 <= i < j < p1.len() ==> p1[i].0 != p1[j].0,
        forall|i: int, j: int| 0 <= i < j < p2.len() ==> p2[i].0 != p2[j].0,
        forall|x: (u64, V)| p1.contains(x) <==> p2.contains(x),
    ensures
        first_wins(p1) == first_wins(p2),
{
    lemma_first_wins_distinct(p1);
    lemma_first_wins_distinct(p2);
    assert forall|k: u64| first_wins(p1).dom().contains(k) implies first_wins(p2).dom().contains(
        k,
    ) && first_wins(p2)[k] == first_wins(p1)[k] by {
        let j = choose|j: int| 0 <= j < p1.len() && p1[j].0 == k;
        assert(p1.contains(p1[j]));
        assert(p2.contains(p1[j]));
        let j2 = choose|j2: int| 0 <= j2 < p2.len() && p2[j2] == p1[j];
        assert(p2[j2].0 == k);
    }
    assert forall|k: u64| first_wins(p2).dom().contains(k) implies first_wins(p1).dom().contains(
        k,
    ) by {
        let j = choose|j: int| 0 <= j < p2.len() && p2[j].0 == k;
        assert(p2.contains(p2[j]));
        assert(p1.contains(p2[j]));
        let j1 = choose|j1: int| 0 <= j1 < p1.len() && p1[j1] == p2[j];
        assert(p1[j1].0 == k);
    }
    assert(first_wins(p1) =~= first_wins(p2));
}

/// Construction is canonical: two strictly sorted entry sequences that
/// denote the same key-value map are the same sequence. Combined with
/// the constructors' contracts this says that two dictionaries built
/// from the same pairs, in whatever input order, hold identical
/// entries.
pub proof fn lemma_sorted_map_canonical<V>(s1: Seq<(u64, V)>, s2: Seq<(u64, V)>)
    requires
        sorted_strict(s1),
        sorted_strict(s2),
        to_map(s1) == to_map(s2),
    ensures
        s1 == s2,
    decreases s1.len(),
{
    lemma_to_map_dom(s1);
    lemma_to_map_dom(s2);
    if s1.len() == 0 {
        if s2.len() > 0 {
            assert(to_map(s2).dom().contains(s2[s2.len() - 1].0));
            assert(false);
        }
        assert(s1 =~= s2);
    } else if s2.len() == 0 {
        assert(to_map(s1).dom().contains(s1[s1.len() - 1].0));
        assert(false);
    } else {
        let t1 = s1.drop_last();
        let t2 = s2.drop_last();
        let a = s1.last();
        let b = s2.last();
        assert(to_map(s1).dom().contains(a.0)) by {
            assert(s1[s1.len() - 1].0 == a.0);
        }
        assert(to_map(s2).dom().contains(b.0)) by {
            assert(s2[s2.len() - 1].0 == b.0);
        }
        let ja = choose|j: int| 0 <= j < s2.len() && s2[j].0 == a.0;
        assert(s2[ja].0 <= b.0) by {
            if ja < s2.len() - 1 {
                assert(s2[ja].0 < s2[s2.len() - 1].0);
            }
        }
        let jb = choose|j: int| 0 <= j < s1.len() && s1[j].0 == b.0;
        assert(s1[jb].0 <= a.0) by {
            if jb < s1.len() - 1 {
                assert(s1[jb].0 < s1[s1.len() - 1].0);
            }
        }
        assert(a.0 == b.0);
        assert(to_map(s1)[a.0] == a.1);
        assert(to_map(s2)[b.0] == b.1);
        assert(a == b);
        assert(sorted_strict(t1)) by {
            assert forall|i: int, j: int| 0 <= i < j < t1.len() implies t1[i].0 < t1[j].0 by {
                assert(t1[i] == s1[i] && t1[j] == s1[j]);
            }
        }
        assert(sorted_strict(t2)) by {
            assert forall|i: int, j: int| 0 <= i < j < t2.len() implies t2[i].0 < t2[j].0 by {
                assert(t2[i] == s2[i] && t2[j] == s2[j]);
            }
        }
        lemma_to_map_dom(t1);
        lemma_to_map_dom(t2);
        assert(!to_map(t1).dom().contains(a.0)) by {
            if to_map(t1).dom().contains(a.0) {
                let j = choose|j: int| 0 <= j < t1.len() && t1[j].0 == a.0;
                assert(t1[j] == s1[j]);
                assert(s1[j].0 < s1[s1.len() - 1].0);
            }
        }
        assert(!to_map(t2).dom().contains(b.0)) by {
            if to_map(t2).dom().contains(b.0) {
                let j = choose|j: int| 0 <= j < t2.len() && t2[j].0 == b.0;
                assert(t2[j] == s2[j]);
                assert(s2[j].0 < s2[s2.len() - 1].0);
            }
        }
        assert(to_map(t1) =~= to_map(s1).remove(a.0));
        assert(to_map(t2) =~= to_map(s2).remove(b.0));
        lemma_sorted_map_canonical(t1, t2);
        assert(s1 =~= s2) by {
            assert forall|i: int| 0 <= i < s1.len() implies s1[i] == s2[i] by {
                if i < s1.len() - 1 {
                    assert(s1[i] == t1[i] && s2[i] == t2[i]);
                }
            }
        }
    }
}

} // verus!
