//! The threshold dictionary itself: sorted storage, the two search
//! strategies and the size-based switch between them, and the default
//! policy consulted when a query exceeds every stored boundary.

use vstd::prelude::*;

use crate::model::first_above;
use crate::model::first_wins;
use crate::model::is_partition_point;
use crate::model::lemma_first_above_in_range;
use crate::model::lemma_strategy_equivalence;
use crate::model::lemma_to_map_dom;
use crate::model::lemma_to_map_insert;
use crate::model::sorted_strict;
use crate::model::to_map;
use crate::model::value_above;

verus! {

/// The full meaning of a query: the value at the first entry whose key
/// is strictly greater than the query key or, when no entry qualifies,
/// whatever the default policy yields.
pub open spec fn resolve<V>(s: Seq<(u64, V)>, policy: DefaultPolicy<V>, q: u64) -> Option<V> {
    match value_above(s, q) {
        Option::Some(v) => Some(v),
        Option::None => match policy {
            DefaultPolicy::Absent => None,
            DefaultPolicy::Static(d) => Some(d),
        },
    }
}

/// Entry count below which queries use a linear scan instead of a
/// binary search.
pub const DEFAULT_STRATEGY_THRESHOLD: usize = 10;

/// What a query resolves to when no stored key is strictly greater than
/// the query key. A default computed from the query key itself goes
/// through [`ThresholdDict::query_with`] instead.
#[derive(Debug, Clone)]
pub enum DefaultPolicy<V> {
    /// Out-of-range queries return no value.
    Absent,
    /// Out-of-range queries return this fixed value.
    Static(V),
}

/// An ordered collection of (key, value) pairs queried by "smallest
/// stored key strictly greater than the query key". Entries are sorted
/// once at construction and never change afterwards; only the default
/// policy and the strategy threshold can be replaced.
#[derive(Debug, Clone)]
pub struct ThresholdDict<V> {
    entries: Vec<(u64, V)>,
    default: DefaultPolicy<V>,
    strategy_threshold: usize,
}

impl<V> View for ThresholdDict<V> {
    type V = Seq<(u64, V)>;

    closed spec fn view(&self) -> Seq<(u64, V)> {
        self.entries@
    }
}

impl<V> ThresholdDict<V> {
    /// The default policy currently in force.
    pub closed spec fn policy(&self) -> DefaultPolicy<V> {
        self.default
    }

    /// The entry count below which queries use a linear scan.
    pub closed spec fn threshold(&self) -> int {
        self.strategy_threshold as int
    }

    /// A well-formed dictionary keeps its entries strictly ascending by
    /// key. Every constructor establishes this and nothing disturbs it.
    pub open spec fn wf(&self) -> bool {
        sorted_strict(self@)
    }

    /// Constructor for entries that are already in order, the analogue
    /// of building from an ordered map: no sort is needed. The default
    /// policy starts as `Absent` and the strategy threshold at its
    /// default.
    pub fn new(entries: Vec<(u64, V)>) -> (r: Self)
        requires
            sorted_strict(entries@),
        ensures
            r.wf(),
            r@ == entries@,
            r.policy() == DefaultPolicy::<V>::Absent,
            r.threshold() == DEFAULT_STRATEGY_THRESHOLD as int,
    {
        Self {
            entries,
            default: DefaultPolicy::Absent,
            strategy_threshold: DEFAULT_STRATEGY_THRESHOLD,
        }
    }

    /// The general constructor: an unordered list of pairs, a default
    /// policy, and a strategy threshold. Sorts the pairs ascending by
    /// key; of several pairs sharing a key the one appearing first in
    /// input order survives.
    pub fn from_pairs(
        pairs: Vec<(u64, V)>,
        default: DefaultPolicy<V>,
        strategy_threshold: usize,
    ) -> (r: Self)
        ensures
            r.wf(),
            to_map(r@) == first_wins(pairs@),
            r.policy() == default,
            r.threshold() == strategy_threshold as int,
    {
        let ghost all = pairs@;
        let mut rest = pairs;
        let mut entries: Vec<(u64, V)> = Vec::new();
        proof {
            assert(all.take(0) =~= Seq::<(u64, V)>::empty());
            assert(all.skip(0) =~= all);
        }
        while rest.len() > 0
            invariant
                sorted_strict(entries@),
                rest@.len() <= all.len(),
                rest@ == all.skip(all.len() - rest@.len()),
                to_map(entries@) == first_wins(all.take(all.len() - rest@.len())),
            decreases rest@.len(),
        {
            let ghost k = all.len() - rest@.len();
            proof {
                assert(rest@[0] == all.skip(k)[0]);
                assert(all.skip(k)[0] == all[k]);
            }
            let p = rest.remove(0);
            proof {
                assert(rest@ =~= all.skip(k + 1));
                assert(all.take(k + 1).drop_last() =~= all.take(k));
                assert(all.take(k + 1).last() == all[k]);
            }
            Self::insert_pair(&mut entries, p);
        }
        proof {
            assert(all.take(all.len() as int) =~= all);
        }
        Self { entries, default, strategy_threshold }
    }

    /// Constructor from an unordered list of pairs alone: the default
    /// policy starts as `Absent` and the strategy threshold at its
    /// default.
    pub fn from(pairs: Vec<(u64, V)>) -> (r: Self)
        ensures
            r.wf(),
            to_map(r@) == first_wins(pairs@),
            r.policy() == DefaultPolicy::<V>::Absent,
            r.threshold() == DEFAULT_STRATEGY_THRESHOLD as int,
    {
        Self::from_pairs(pairs, DefaultPolicy::Absent, DEFAULT_STRATEGY_THRESHOLD)
    }

    /// The position at which a pair with the given key belongs: the
    /// first index whose key is at least `key`, or the length when
    /// every stored key is smaller.
    fn insert_position(entries: &Vec<(u64, V)>, key: u64) -> (i: usize)
        requires
            sorted_strict(entries@),
        ensures
            i <= entries@.len(),
            forall|j: int| 0 <= j < i ==> entries@[j].0 < key,
            forall|j: int| i <= j < entries@.len() ==> entries@[j].0 >= key,
    {
        let n = entries.len();
        let mut i: usize = 0;
        while i < n
            invariant
                sorted_strict(entries@),
                n == entries@.len(),
                i <= n,
                forall|j: int| 0 <= j < i ==> entries@[j].0 < key,
            decreases n - i,
        {
            if entries[i].0 >= key {
                assert forall|j: int| i <= j < entries@.len() implies entries@[j].0 >= key by {
                    if i < j {
                        assert(entries@[i as int].0 < entries@[j].0);
                    }
                }
                return i;
            }
            i = i + 1;
        }
        n
    }

    /// Insert one pair into a sorted entry vector, keeping it sorted.
    /// A pair whose key is already stored is dropped, so of several
    /// pairs sharing a key the first one inserted survives.
    fn insert_pair(entries: &mut Vec<(u64, V)>, pair: (u64, V))
        requires
            sorted_strict(old(entries)@),
        ensures
            sorted_strict(final(entries)@),
            to_map(old(entries)@).dom().contains(pair.0) ==> final(entries)@ == old(entries)@,
            !to_map(old(entries)@).dom().contains(pair.0) ==> to_map(final(entries)@) == to_map(
                old(entries)@,
            ).insert(pair.0, pair.1),
    {
        let i = Self::insert_position(entries, pair.0);
        if i < entries.len() && entries[i].0 == pair.0 {
            proof {
                lemma_to_map_dom(entries@);
                assert(entries@[i as int].0 == pair.0);
            }
        } else {
            proof {
                assert forall|j: int| 0 <= j < entries@.len() implies entries@[j].0 != pair.0 by {
                    if i < j {
                        assert(entries@[i as int].0 < entries@[j].0);
                    }
                }
                lemma_to_map_dom(entries@);
                lemma_to_map_insert(entries@, i as int, pair.0, pair.1);
                entries@.insert_ensures(i as int, pair);
            }
            let ghost s0 = entries@;
            entries.insert(i, pair);
            proof {
                assert forall|p: int, q: int|
                    0 <= p < q < entries@.len() implies entries@[p].0 < entries@[q].0 by {
                    if q < i {
                        assert(entries@[p] == s0[p] && entries@[q] == s0[q]);
                    } else if q == i {
                        assert(entries@[p] == s0[p]);
                    } else if p < i {
                        assert(entries@[q] == s0[q - 1] && s0[q - 1].0 >= pair.0);
                        assert(entries@[p] == s0[p]);
                    } else if p == i {
                        assert(entries@[q] == s0[q - 1] && s0[q - 1].0 >= pair.0);
                        assert(s0[q - 1].0 != pair.0);
                    } else {
                        assert(entries@[p] == s0[p - 1] && entries@[q] == s0[q - 1]);
                    }
                }
            }
        }
    }

    /// Linear-scan strategy: walk the entries in ascending order and
    /// stop at the first key strictly greater than the query key,
    /// returning its index.
    pub fn search_linear(&self, key: &u64) -> (r: Option<usize>)
        requires
            self.wf(),
        ensures
            match r {
                Option::Some(i) => first_above(self@, *key) == Some(i as int),
                Option::None => first_above(self@, *key) is None,
            },
    {
        let n = self.entries.len();
        let mut i: usize = 0;
        while i < n
            invariant
                self.wf(),
                n == self@.len(),
                i <= n,
                forall|j: int| 0 <= j < i ==> self@[j].0 <= *key,
            decreases n - i,
        {
            if self.entries[i].0 > *key {
                proof {
                    assert(is_partition_point(self@, *key, i as int));
                    lemma_strategy_equivalence(self@, *key, i as int);
                }
                return Some(i);
            }
            i = i + 1;
        }
        proof {
            assert(is_partition_point(self@, *key, n as int));
            lemma_strategy_equivalence(self@, *key, n as int);
        }
        None
    }

    /// Binary-search strategy: narrow in on the partition point between
    /// the keys at most the query key and the keys strictly greater,
    /// returning the index of the first of the latter. Agrees with the
    /// linear scan on every query.
    pub fn search_binary(&self, key: &u64) -> (r: Option<usize>)
        requires
            self.wf(),
        ensures
            match r {
                Option::Some(i) => first_above(self@, *key) == Some(i as int),
                Option::None => first_above(self@, *key) is None,
            },
    {
        let n = self.entries.len();
        let mut lo: usize = 0;
        let mut hi: usize = n;
        while lo < hi
            invariant
                self.wf(),
                n == self@.len(),
                lo <= hi <= n,
                forall|j: int| 0 <= j < lo ==> self@[j].0 <= *key,
                forall|j: int| hi <= j < n ==> self@[j].0 > *key,
            decreases hi - lo,
        {
            let mid = lo + (hi - lo) / 2;
            if self.entries[mid].0 > *key {
                assert forall|j: int| mid <= j < n implies self@[j].0 > *key by {
                    assert(self@[mid as int].0 <= self@[j].0);
                }
                hi = mid;
            } else {
                assert forall|j: int| 0 <= j < mid + 1 implies self@[j].0 <= *key by {
                    assert(self@[j].0 <= self@[mid as int].0);
                }
                lo = mid + 1;
            }
        }
        proof {
            assert(is_partition_point(self@, *key, lo as int));
            lemma_strategy_equivalence(self@, *key, lo as int);
        }
        if lo < n {
            Some(lo)
        } else {
            None
        }
    }

    /// The query method. Returns the value stored at the smallest key
    /// strictly greater than the query key (so a query exactly equal to
    /// a stored key skips that entry); when no stored key qualifies —
    /// in particular on an empty dictionary — the default policy
    /// decides the result. Entry count against the strategy threshold
    /// picks linear scan or binary search; the contract mentions
    /// neither, so the choice can never change a result.
    pub fn query(&self, key: &u64) -> (r: Option<&V>)
        requires
            self.wf(),
        ensures
            match r {
                Option::Some(v) => resolve(self@, self.policy(), *key) == Some(*v),
                Option::None => resolve(self@, self.policy(), *key) is None,
            },
    {
        let found = if self.entries.len() < self.strategy_threshold {
            self.search_linear(key)
        } else {
            self.search_binary(key)
        };
        proof {
            lemma_first_above_in_range(self@, *key);
        }
        match found {
            Option::Some(i) => Some(&self.entries[i].1),
            Option::None => match &self.default {
                DefaultPolicy::Absent => None,
                DefaultPolicy::Static(d) => Some(d),
            },
        }
    }

    /// The computed-default path: like `query`, but when no stored key
    /// qualifies the result comes from the supplied producer instead of
    /// the stored policy, so a default can depend on the query key. The
    /// producer must be side-effect-free from the dictionary's point of
    /// view; nothing is cached. It is handed in per query because the
    /// dictionary could not own it without fixing the producer's type
    /// for every caller.
    pub fn query_with<F: Fn(u64) -> Option<V>>(&self, key: &u64, compute: F) -> (r: Option<V>) where
        V: Clone,
        requires
            self.wf(),
            call_requires(compute, (*key,)),
        ensures
            (match value_above(self@, *key) {
                Option::Some(v) => r matches Some(rv) && cloned(v, rv),
                Option::None => call_ensures(compute, (*key,), r),
            }),
    {
        let found = if self.entries.len() < self.strategy_threshold {
            self.search_linear(key)
        } else {
            self.search_binary(key)
        };
        proof {
            lemma_first_above_in_range(self@, *key);
        }
        match found {
            Option::Some(i) => {
                let e = &self.entries[i];
                Some(e.1.clone())
            },
            Option::None => compute(*key),
        }
    }

    /// Replace the default policy. The entries and the strategy
    /// threshold are untouched.
    pub fn set_default_policy(&mut self, default: DefaultPolicy<V>)
        ensures
            final(self)@ == old(self)@,
            final(self).policy() == default,
            final(self).threshold() == old(self).threshold(),
    {
        self.default = default;
    }

    /// Replace the strategy threshold. A cost knob only: `query`'s
    /// contract does not mention the threshold, so replacing it can
    /// never change what a query returns.
    pub fn set_strategy_threshold(&mut self, strategy_threshold: usize)
        ensures
            final(self)@ == old(self)@,
            final(self).policy() == old(self).policy(),
            final(self).threshold() == strategy_threshold as int,
    {
        self.strategy_threshold = strategy_threshold;
    }

    /// The stored entries, sorted ascending by key.
    pub fn entries(&self) -> (r: &Vec<(u64, V)>)
        ensures
            r@ == self@,
    {
        &self.entries
    }

    /// The number of stored entries.
    pub fn len(&self) -> (n: usize)
        ensures
            n == self@.len(),
    {
        self.entries.len()
    }

    /// Whether the dictionary stores no entry at all.
    pub fn is_empty(&self) -> (b: bool)
        ensures
            b == (self@.len() == 0),
    {
        self.entries.len() == 0
    }

    /// The entry count below which queries use a linear scan.
    pub fn strategy_threshold(&self) -> (n: usize)
        ensures
            n as int == self.threshold(),
    {
        self.strategy_threshold
    }
}

} // verus!

