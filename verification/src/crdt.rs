//! Core CRDT types: GCounter, PNCounter, LWWRegister, ORSet.

use vstd::prelude::*;
use vstd::std_specs::cmp::PartialEqSpec;

verus! {

// ---------------------------------------------------------------------------
// Node → count maps
// ---------------------------------------------------------------------------

/// The count that a node→count map records for `node`; an absent node counts zero.
pub open spec fn count_of(m: Map<Seq<char>, nat>, node: Seq<char>) -> nat {
    if m.dom().contains(node) {
        m[node]
    } else {
        0
    }
}

/// The sum of all counts of a finite node→count map.
pub open spec fn map_total(m: Map<Seq<char>, nat>) -> nat
    decreases m.dom().len(),
{
    if m.dom().finite() && m.dom().len() > 0 {
        let k = m.dom().choose();
        m[k] + map_total(m.remove(k))
    } else {
        0
    }
}

/// Taking any one node out of the sum leaves the sum of the others.
pub proof fn lemma_total_remove(m: Map<Seq<char>, nat>, k: Seq<char>)
    requires
        m.dom().finite(),
        m.dom().contains(k),
    ensures
        map_total(m) == m[k] + map_total(m.remove(k)),
    decreases m.dom().len(),
{
    let c = m.dom().choose();
    if c != k {
        lemma_total_remove(m.remove(c), k);
        lemma_total_remove(m.remove(k), c);
        assert(m.remove(c).remove(k) =~= m.remove(k).remove(c));
    }
}

/// Inserting a node's count changes the sum by the difference of the counts.
pub proof fn lemma_total_insert(m: Map<Seq<char>, nat>, k: Seq<char>, v: nat)
    requires
        m.dom().finite(),
    ensures
        map_total(m.insert(k, v)) + count_of(m, k) == map_total(m) + v,
{
    lemma_total_remove(m.insert(k, v), k);
    if m.dom().contains(k) {
        lemma_total_remove(m, k);
        assert(m.insert(k, v).remove(k) =~= m.remove(k));
    } else {
        assert(m.insert(k, v).remove(k) =~= m);
    }
}

/// One node's count is at most the sum of all counts.
pub proof fn lemma_count_at_most_total(m: Map<Seq<char>, nat>, node: Seq<char>)
    requires
        m.dom().finite(),
    ensures
        count_of(m, node) <= map_total(m),
{
    if m.dom().contains(node) {
        lemma_total_remove(m, node);
    }
}

/// The pointwise maximum of two node→count maps: the merge of two grow-only counters.
pub open spec fn max_merge(a: Map<Seq<char>, nat>, b: Map<Seq<char>, nat>) -> Map<Seq<char>, nat> {
    Map::new(
        |k: Seq<char>| a.dom().contains(k) || b.dom().contains(k),
        |k: Seq<char>|
            if count_of(a, k) >= count_of(b, k) {
                count_of(a, k)
            } else {
                count_of(b, k)
            },
    )
}

/// The node→count map held by parallel entries of node names and counts.
pub open spec fn entries_map(entries: Seq<(String, u64)>) -> Map<Seq<char>, nat> {
    Map::new(
        |k: Seq<char>| exists|i: int| 0 <= i < entries.len() && entries[i].0@ == k,
        |k: Seq<char>|
            entries[choose|i: int| 0 <= i < entries.len() && entries[i].0@ == k].1 as nat,
    )
}

/// No node name occurs twice among the entries.
pub open spec fn distinct_nodes(entries: Seq<(String, u64)>) -> bool {
    forall|i: int, j: int|
        0 <= i < entries.len() && 0 <= j < entries.len() && i != j ==> entries[i].0@
            != entries[j].0@
}

/// The sum of the counts of a sequence of entries.
pub open spec fn entries_sum(entries: Seq<(String, u64)>) -> nat
    decreases entries.len(),
{
    if entries.len() == 0 {
        0
    } else {
        entries_sum(entries.drop_last()) + entries.last().1 as nat
    }
}

proof fn lemma_entries_map_at(entries: Seq<(String, u64)>, i: int)
    requires
        distinct_nodes(entries),
        0 <= i < entries.len(),
    ensures
        entries_map(entries).dom().contains(entries[i].0@),
        entries_map(entries)[entries[i].0@] == entries[i].1 as nat,
{
    let k = entries[i].0@;
    assert(exists|j: int| 0 <= j < entries.len() && entries[j].0@ == k);
}

proof fn lemma_entries_map_finite(entries: Seq<(String, u64)>)
    ensures
        entries_map(entries).dom().finite(),
{
    let names = entries.map_values(|e: (String, u64)| e.0@);
    assert(entries_map(entries).dom() =~= names.to_set()) by {
        assert forall|k: Seq<char>| entries_map(entries).dom().contains(k) implies names.to_set().contains(k) by {
            let i = choose|i: int| 0 <= i < entries.len() && entries[i].0@ == k;
            assert(names[i] == k);
        }
        assert forall|k: Seq<char>| names.to_set().contains(k) implies entries_map(entries).dom().contains(k) by {
            let i = choose|i: int| 0 <= i < names.len() && names[i] == k;
            assert(entries[i].0@ == k);
        }
    }
}

proof fn lemma_entries_map_push(entries: Seq<(String, u64)>, e: (String, u64))
    requires
        distinct_nodes(entries.push(e)),
    ensures
        entries_map(entries.push(e)) =~= entries_map(entries).insert(e.0@, e.1 as nat),
        !entries_map(entries).dom().contains(e.0@),
{
    let s = entries.push(e);
    assert(forall|i: int| 0 <= i < entries.len() ==> s[i] == entries[i]);
    assert forall|k: Seq<char>| #[trigger] entries_map(entries).dom().contains(k) implies
        entries_map(s).dom().contains(k) && entries_map(s)[k] == entries_map(entries)[k] && k != e.0@ by {
        let i = choose|i: int| 0 <= i < entries.len() && entries[i].0@ == k;
        lemma_entries_map_at(s, i);
        lemma_entries_map_at(entries, i);
        assert(s[entries.len() as int] == e);
    }
    lemma_entries_map_at(s, entries.len() as int);
}

proof fn lemma_entries_sum_total(entries: Seq<(String, u64)>)
    requires
        distinct_nodes(entries),
    ensures
        entries_sum(entries) == map_total(entries_map(entries)),
    decreases entries.len(),
{
    if entries.len() == 0 {
        assert(entries_map(entries).dom() =~= Set::empty());
    } else {
        let init = entries.drop_last();
        assert(entries =~= init.push(entries.last()));
        lemma_entries_sum_total(init);
        lemma_entries_map_push(init, entries.last());
        lemma_entries_map_finite(init);
        lemma_total_insert(entries_map(init), entries.last().0@, entries.last().1 as nat);
    }
}

proof fn lemma_entries_sum_prefix(entries: Seq<(String, u64)>, i: int)
    requires
        0 <= i <= entries.len(),
    ensures
        entries_sum(entries.take(i)) <= entries_sum(entries),
    decreases entries.len(),
{
    if i < entries.len() {
        let init = entries.drop_last();
        assert(entries.take(i) =~= init.take(i));
        lemma_entries_sum_prefix(init, i);
    } else {
        assert(entries.take(i) =~= entries);
    }
}

// ---------------------------------------------------------------------------
// GCounter – Grow-only counter
// ---------------------------------------------------------------------------

/// A grow-only counter backed by a per-node map of `u64` values.
/// The counter value is the sum across all nodes.
/// Merge takes the max per node (least-upper-bound).
#[derive(Debug)]
pub struct GCounter {
    entries: Vec<(String, u64)>,
}

impl View for GCounter {
    type V = Map<Seq<char>, nat>;

    closed spec fn view(&self) -> Map<Seq<char>, nat> {
        entries_map(self.entries@)
    }
}

/// The position of `node` among the entries, if it occurs.
fn find_entry(entries: &Vec<(String, u64)>, node: &String) -> (r: Option<usize>)
    ensures
        match r {
            Some(i) => i < entries@.len() && entries@[i as int].0@ == node@,
            None => !entries_map(entries@).dom().contains(node@),
        },
{
    let mut i: usize = 0;
    while i < entries.len()
        invariant
            i <= entries@.len(),
            forall|j: int| 0 <= j < i ==> entries@[j].0@ != node@,
        decreases entries@.len() - i,
    {
        if entries[i].0 == *node {
            return Some(i);
        }
        i = i + 1;
    }
    None
}

/// Sets the count of `node` to `value`, adding an entry if the node is new.
fn put_entry(entries: Vec<(String, u64)>, node: String, value: u64) -> (r: Vec<(String, u64)>)
    requires
        distinct_nodes(entries@),
    ensures
        distinct_nodes(r@),
        entries_map(r@) == entries_map(entries@).insert(node@, value as nat),
{
    let mut entries = entries;
    match find_entry(&entries, &node) {
        Some(i) => {
            let ghost before = entries@;
            entries.set(i, (node, value));
            proof {
                let after = entries@;
                assert forall|k: Seq<char>| #[trigger] entries_map(after).dom().contains(k) <==>
                    entries_map(before).insert(node@, value as nat).dom().contains(k) by {
                    if entries_map(after).dom().contains(k) {
                        let j = choose|j: int| 0 <= j < after.len() && after[j].0@ == k;
                        if j != i {
                            lemma_entries_map_at(before, j);
                        }
                    }
                    if entries_map(before).dom().contains(k) {
                        let j = choose|j: int| 0 <= j < before.len() && before[j].0@ == k;
                        assert(after[j].0@ == k);
                    }
                }
                assert forall|k: Seq<char>| entries_map(after).dom().contains(k) implies
                    #[trigger] entries_map(after)[k] == entries_map(before).insert(node@, value as nat)[k] by {
                    let j = choose|j: int| 0 <= j < after.len() && after[j].0@ == k;
                    lemma_entries_map_at(after, j);
                    if j != i {
                        lemma_entries_map_at(before, j);
                    }
                }
                assert(entries_map(after) =~= entries_map(before).insert(node@, value as nat));
            }
        },
        None => {
            let ghost before = entries@;
            entries.push((node, value));
            proof {
                lemma_entries_map_push(before, (node, value));
            }
        },
    }
    entries
}

/// Entries that agree position by position hold the same map.
proof fn lemma_entries_map_same(s1: Seq<(String, u64)>, s2: Seq<(String, u64)>)
    requires
        s1.len() == s2.len(),
        distinct_nodes(s2),
        forall|i: int| 0 <= i < s2.len() ==> #[trigger] s1[i].0@ == s2[i].0@ && s1[i].1 == s2[i].1,
    ensures
        distinct_nodes(s1),
        entries_map(s1) == entries_map(s2),
{
    assert forall|k: Seq<char>| entries_map(s1).dom().contains(k) <==> entries_map(s2).dom().contains(k) by {
        if entries_map(s1).dom().contains(k) {
            let j = choose|j: int| 0 <= j < s1.len() && s1[j].0@ == k;
            assert(s2[j].0@ == k);
        }
        if entries_map(s2).dom().contains(k) {
            let j = choose|j: int| 0 <= j < s2.len() && s2[j].0@ == k;
            assert(s1[j].0@ == k);
        }
    }
    assert(distinct_nodes(s1)) by {
        assert forall|i: int, j: int| 0 <= i < s1.len() && 0 <= j < s1.len() && i != j implies s1[i].0@ != s1[j].0@ by {
            assert(s1[i].0@ == s2[i].0@ && s1[j].0@ == s2[j].0@);
        }
    }
    assert forall|k: Seq<char>| entries_map(s1).dom().contains(k) implies
        #[trigger] entries_map(s1)[k] == entries_map(s2)[k] by {
        let j = choose|j: int| 0 <= j < s1.len() && s1[j].0@ == k;
        lemma_entries_map_at(s1, j);
        lemma_entries_map_at(s2, j);
    }
    assert(entries_map(s1) =~= entries_map(s2));
}

/// Merging in one more node that the second map lacks.
proof fn lemma_max_merge_insert(a: Map<Seq<char>, nat>, m: Map<Seq<char>, nat>, k: Seq<char>, v: nat)
    requires
        !m.dom().contains(k),
    ensures
        max_merge(a, m.insert(k, v)) == max_merge(a, m).insert(
            k,
            if count_of(a, k) >= v { count_of(a, k) } else { v },
        ),
{
    assert(max_merge(a, m.insert(k, v)) =~= max_merge(a, m).insert(
        k,
        if count_of(a, k) >= v { count_of(a, k) } else { v },
    ));
}

fn copy_entries(entries: &Vec<(String, u64)>) -> (r: Vec<(String, u64)>)
    requires
        distinct_nodes(entries@),
    ensures
        distinct_nodes(r@),
        entries_map(r@) == entries_map(entries@),
{
    let mut r: Vec<(String, u64)> = Vec::new();
    let mut i: usize = 0;
    while i < entries.len()
        invariant
            i <= entries@.len(),
            r@.len() == i,
            forall|j: int| 0 <= j < i ==> #[trigger] r@[j].0@ == entries@[j].0@ && r@[j].1 == entries@[j].1,
        decreases entries@.len() - i,
    {
        let name = entries[i].0.clone();
        r.push((name, entries[i].1));
        i = i + 1;
    }
    proof {
        lemma_entries_map_same(r@, entries@);
    }
    r
}

impl Clone for GCounter {
    fn clone(&self) -> (r: Self)
        ensures
            r@ == self@,
    {
        proof {
            use_type_invariant(self);
        }
        let entries = copy_entries(&self.entries);
        GCounter { entries }
    }
}

impl GCounter {
    #[verifier::type_invariant]
    closed spec fn inv(self) -> bool {
        distinct_nodes(self.entries@)
    }

    /// The sum of all node counts.
    pub open spec fn total(&self) -> nat {
        map_total(self@)
    }

    /// The view of a counter is a finite map.
    pub proof fn lemma_finite(&self)
        ensures
            self@.dom().finite(),
    {
        lemma_entries_map_finite(self.entries@);
    }

    /// A node's count is at most the counter's total.
    pub proof fn lemma_count_within_total(&self, node: Seq<char>)
        ensures
            count_of(self@, node) <= self.total(),
    {
        self.lemma_finite();
        lemma_count_at_most_total(self@, node);
    }

    /// Create an empty counter.
    pub fn new() -> (r: Self)
        ensures
            r@ == Map::<Seq<char>, nat>::empty(),
    {
        let r = GCounter { entries: Vec::new() };
        assert(r@ =~= Map::<Seq<char>, nat>::empty());
        r
    }

    /// Get the count for a specific node.
    pub fn get(&self, node: &str) -> (r: u64)
        ensures
            r == count_of(self@, node@),
    {
        proof {
            use_type_invariant(self);
        }
        let key = node.to_owned();
        match find_entry(&self.entries, &key) {
            Some(i) => {
                proof {
                    lemma_entries_map_at(self.entries@, i as int);
                }
                self.entries[i].1
            },
            None => 0,
        }
    }

    /// Increment the counter for the given node by an arbitrary amount.
    pub fn increment_by(&mut self, node: &str, amount: u64)
        requires
            count_of(old(self)@, node@) + amount <= u64::MAX,
        ensures
            final(self)@ == old(self)@.insert(node@, (count_of(old(self)@, node@) + amount) as nat),
            final(self).total() == old(self).total() + amount,
    {
        proof {
            use_type_invariant(&*self);
            lemma_entries_map_finite(self.entries@);
            lemma_total_insert(self@, node@, (count_of(self@, node@) + amount) as nat);
        }
        let key = node.to_owned();
        let current = match find_entry(&self.entries, &key) {
            Some(i) => {
                proof {
                    lemma_entries_map_at(self.entries@, i as int);
                }
                self.entries[i].1
            },
            None => 0,
        };
        let mut entries: Vec<(String, u64)> = Vec::new();
        std::mem::swap(&mut entries, &mut self.entries);
        self.entries = put_entry(entries, key, current + amount);
    }

    /// Merge two GCounters by taking the max per node.
    pub fn merge(&self, other: &Self) -> (r: Self)
        ensures
            r@ == max_merge(self@, other@),
    {
        proof {
            use_type_invariant(self);
            use_type_invariant(other);
        }
        let copied = copy_entries(&self.entries);
        proof {
            assert(entries_map(other.entries@.take(0)) =~= Map::<Seq<char>, nat>::empty());
            assert(max_merge(self@, entries_map(other.entries@.take(0))) =~= self@);
        }
        let mut result = copied;
        let mut j: usize = 0;
        while j < other.entries.len()
            invariant
                j <= other.entries@.len(),
                distinct_nodes(other.entries@),
                distinct_nodes(result@),
                entries_map(result@) == max_merge(self@, entries_map(other.entries@.take(j as int))),
            decreases other.entries@.len() - j,
        {
            let node = other.entries[j].0.clone();
            let val = other.entries[j].1;
            let current = match find_entry(&result, &node) {
                Some(i) => {
                    proof {
                        lemma_entries_map_at(result@, i as int);
                    }
                    result[i].1
                },
                None => 0,
            };
            let larger = if current >= val { current } else { val };
            proof {
                let prefix = other.entries@.take(j as int);
                let e = other.entries@[j as int];
                assert(other.entries@.take(j + 1) =~= prefix.push(e));
                lemma_entries_map_push(prefix, e);
                lemma_max_merge_insert(self@, entries_map(prefix), node@, val as nat);
            }
            result = put_entry(result, node, larger);
            j = j + 1;
        }
        proof {
            assert(other.entries@.take(j as int) =~= other.entries@);
        }
        GCounter { entries: result }
    }

    /// Increment the counter for the given node by 1.
    pub fn increment(&mut self, node: &str)
        requires
            count_of(old(self)@, node@) + 1 <= u64::MAX,
        ensures
            final(self)@ == old(self)@.insert(node@, (count_of(old(self)@, node@) + 1) as nat),
            final(self).total() == old(self).total() + 1,
    {
        self.increment_by(node, 1);
    }

    /// The counter value: sum of all node counts.
    pub fn value(&self) -> (r: u64)
        requires
            self.total() <= u64::MAX,
        ensures
            r == self.total(),
    {
        proof {
            use_type_invariant(self);
            lemma_entries_sum_total(self.entries@);
        }
        let mut sum: u64 = 0;
        let mut i: usize = 0;
        while i < self.entries.len()
            invariant
                i <= self.entries@.len(),
                sum == entries_sum(self.entries@.take(i as int)),
                entries_sum(self.entries@) <= u64::MAX,
            decreases self.entries@.len() - i,
        {
            proof {
                assert(self.entries@.take(i + 1).drop_last() =~= self.entries@.take(i as int));
                lemma_entries_sum_prefix(self.entries@, i + 1);
            }
            sum = sum + self.entries[i].1;
            i = i + 1;
        }
        proof {
            assert(self.entries@.take(i as int) =~= self.entries@);
        }
        sum
    }
}

/// A map whose counts are each at most those of another map has at most its sum.
pub proof fn lemma_total_monotone(a: Map<Seq<char>, nat>, m: Map<Seq<char>, nat>)
    requires
        a.dom().finite(),
        m.dom().finite(),
        forall|k: Seq<char>| #[trigger] a.dom().contains(k) ==> m.dom().contains(k) && a[k] <= m[k],
    ensures
        map_total(a) <= map_total(m),
    decreases a.dom().len(),
{
    if a.dom().len() > 0 {
        let k = a.dom().choose();
        lemma_total_remove(a, k);
        lemma_total_remove(m, k);
        lemma_total_monotone(a.remove(k), m.remove(k));
    }
}

impl Default for GCounter {
    fn default() -> (r: Self)
        ensures
            r@ == Map::<Seq<char>, nat>::empty(),
    {
        Self::new()
    }
}

/// Merging grow-only counters is commutative: `merge(a, b)` and `merge(b, a)`
/// hold the same count for every node.
pub proof fn lemma_gcounter_merge_commutative(a: GCounter, b: GCounter)
    ensures
        max_merge(a@, b@) == max_merge(b@, a@),
{
    assert(max_merge(a@, b@) =~= max_merge(b@, a@));
}

/// Merging grow-only counters is associative.
pub proof fn lemma_gcounter_merge_associative(a: GCounter, b: GCounter, c: GCounter)
    ensures
        max_merge(max_merge(a@, b@), c@) == max_merge(a@, max_merge(b@, c@)),
{
    assert(max_merge(max_merge(a@, b@), c@) =~= max_merge(a@, max_merge(b@, c@)));
}

/// Merging a grow-only counter with itself changes nothing.
pub proof fn lemma_gcounter_merge_idempotent(a: GCounter)
    ensures
        max_merge(a@, a@) == a@,
{
    assert(max_merge(a@, a@) =~= a@);
}

/// A merge keeps every increment of both sides: each node's count is at least
/// its count on either side, and the total is at least either side's total.
pub proof fn lemma_gcounter_merge_upper_bound(a: GCounter, b: GCounter)
    ensures
        forall|k: Seq<char>| #![trigger count_of(max_merge(a@, b@), k)]
            count_of(max_merge(a@, b@), k) >= count_of(a@, k)
            && count_of(max_merge(a@, b@), k) >= count_of(b@, k),
        map_total(max_merge(a@, b@)) >= map_total(a@),
        map_total(max_merge(a@, b@)) >= map_total(b@),
{
    a.lemma_finite();
    b.lemma_finite();
    let m = max_merge(a@, b@);
    assert(m.dom() =~= a@.dom().union(b@.dom()));
    lemma_total_monotone(a@, m);
    lemma_total_monotone(b@, m);
}

/// Whether every node of `a` has the same count in `b`.
fn entries_within(a: &Vec<(String, u64)>, b: &Vec<(String, u64)>) -> (r: bool)
    requires
        distinct_nodes(a@),
        distinct_nodes(b@),
    ensures
        r == forall|k: Seq<char>| #[trigger] entries_map(a@).dom().contains(k)
            ==> entries_map(b@).dom().contains(k) && entries_map(b@)[k] == entries_map(a@)[k],
{
    let mut i: usize = 0;
    while i < a.len()
        invariant
            distinct_nodes(a@),
            distinct_nodes(b@),
            i <= a@.len(),
            forall|x: int| 0 <= x < i ==> #[trigger] entries_map(b@).dom().contains(a@[x].0@)
                && entries_map(b@)[a@[x].0@] == a@[x].1 as nat,
        decreases a@.len() - i,
    {
        proof {
            lemma_entries_map_at(a@, i as int);
        }
        match find_entry(b, &a[i].0) {
            Some(j) => {
                proof {
                    lemma_entries_map_at(b@, j as int);
                }
                if b[j].1 != a[i].1 {
                    return false;
                }
            },
            None => {
                return false;
            },
        }
        proof {
            assert forall|x: int| 0 <= x < i + 1 implies #[trigger] entries_map(b@).dom().contains(a@[x].0@)
                && entries_map(b@)[a@[x].0@] == a@[x].1 as nat by {
                if x == i {
                    let j = choose|j: int| 0 <= j < b@.len() && b@[j].0@ == a@[x].0@ && b@[j].1 == a@[x].1;
                    lemma_entries_map_at(b@, j);
                }
            }
        }
        i = i + 1;
    }
    proof {
        assert forall|k: Seq<char>| #[trigger] entries_map(a@).dom().contains(k)
            implies entries_map(b@).dom().contains(k) && entries_map(b@)[k] == entries_map(a@)[k] by {
            let x = choose|x: int| 0 <= x < a@.len() && a@[x].0@ == k;
            lemma_entries_map_at(a@, x);
        }
    }
    true
}

impl GCounter {
    /// Whether two counters hold the same count for the same nodes.
    fn same_counts(&self, other: &Self) -> (r: bool)
        ensures
            r == (self@ == other@),
    {
        proof {
            use_type_invariant(self);
            use_type_invariant(other);
        }
        let r = entries_within(&self.entries, &other.entries) && entries_within(&other.entries, &self.entries);
        proof {
            if r {
                assert(self@ =~= other@);
            }
        }
        r
    }
}

impl PartialEq for GCounter {
    fn eq(&self, other: &Self) -> (r: bool) {
        self.same_counts(other)
    }
}

impl vstd::std_specs::cmp::PartialEqSpecImpl for GCounter {
    open spec fn obeys_eq_spec() -> bool {
        true
    }

    open spec fn eq_spec(&self, other: &Self) -> bool {
        self@ == other@
    }
}

// ---------------------------------------------------------------------------
// PNCounter – Positive-Negative counter
// ---------------------------------------------------------------------------

/// The merge of two positive-negative counters, each seen as its pair of
/// (increments, decrements) node→count maps.
pub open spec fn pn_merge(
    a: (Map<Seq<char>, nat>, Map<Seq<char>, nat>),
    b: (Map<Seq<char>, nat>, Map<Seq<char>, nat>),
) -> (Map<Seq<char>, nat>, Map<Seq<char>, nat>) {
    (max_merge(a.0, b.0), max_merge(a.1, b.1))
}

/// The value that `PNCounter::value` reports for the totals `p` of increments
/// and `n` of decrements: each total is read as a 64-bit signed number, and the
/// second is subtracted from the first.
pub open spec fn signed_difference(p: nat, n: nat) -> int {
    (p as i64) - (n as i64)
}

/// A counter that supports both increment and decrement via two GCounters.
/// Value = positive.value() - negative.value().
#[derive(Debug)]
pub struct PNCounter {
    positive: GCounter,
    negative: GCounter,
}

impl View for PNCounter {
    type V = (Map<Seq<char>, nat>, Map<Seq<char>, nat>);

    closed spec fn view(&self) -> (Map<Seq<char>, nat>, Map<Seq<char>, nat>) {
        (self.positive@, self.negative@)
    }
}

impl Clone for PNCounter {
    fn clone(&self) -> (r: Self)
        ensures
            r@ == self@,
    {
        PNCounter { positive: self.positive.clone(), negative: self.negative.clone() }
    }
}

impl PNCounter {
    /// The sum of all increments.
    pub open spec fn increments(&self) -> nat {
        map_total(self@.0)
    }

    /// The sum of all decrements.
    pub open spec fn decrements(&self) -> nat {
        map_total(self@.1)
    }

    /// A node's increments and decrements are at most their totals.
    pub proof fn lemma_counts_within_totals(&self, node: Seq<char>)
        ensures
            count_of(self@.0, node) <= self.increments(),
            count_of(self@.1, node) <= self.decrements(),
    {
        self.positive.lemma_count_within_total(node);
        self.negative.lemma_count_within_total(node);
    }

    /// Create an empty PN counter.
    pub fn new() -> (r: Self)
        ensures
            r@ == (Map::<Seq<char>, nat>::empty(), Map::<Seq<char>, nat>::empty()),
    {
        PNCounter { positive: GCounter::new(), negative: GCounter::new() }
    }

    /// Increment the counter for the given node.
    pub fn increment(&mut self, node: &str)
        requires
            count_of(old(self)@.0, node@) + 1 <= u64::MAX,
        ensures
            final(self)@ == (old(self)@.0.insert(node@, (count_of(old(self)@.0, node@) + 1) as nat), old(self)@.1),
            final(self).increments() == old(self).increments() + 1,
            final(self).decrements() == old(self).decrements(),
    {
        self.positive.increment(node);
    }

    /// Increment by an arbitrary amount.
    pub fn increment_by(&mut self, node: &str, amount: u64)
        requires
            count_of(old(self)@.0, node@) + amount <= u64::MAX,
        ensures
            final(self)@ == (old(self)@.0.insert(node@, (count_of(old(self)@.0, node@) + amount) as nat), old(self)@.1),
            final(self).increments() == old(self).increments() + amount,
            final(self).decrements() == old(self).decrements(),
    {
        self.positive.increment_by(node, amount);
    }

    /// Decrement the counter for the given node.
    pub fn decrement(&mut self, node: &str)
        requires
            count_of(old(self)@.1, node@) + 1 <= u64::MAX,
        ensures
            final(self)@ == (old(self)@.0, old(self)@.1.insert(node@, (count_of(old(self)@.1, node@) + 1) as nat)),
            final(self).increments() == old(self).increments(),
            final(self).decrements() == old(self).decrements() + 1,
    {
        self.negative.increment(node);
    }

    /// Decrement by an arbitrary amount.
    pub fn decrement_by(&mut self, node: &str, amount: u64)
        requires
            count_of(old(self)@.1, node@) + amount <= u64::MAX,
        ensures
            final(self)@ == (old(self)@.0, old(self)@.1.insert(node@, (count_of(old(self)@.1, node@) + amount) as nat)),
            final(self).increments() == old(self).increments(),
            final(self).decrements() == old(self).decrements() + amount,
    {
        self.negative.increment_by(node, amount);
    }

    /// Merge two PNCounters.
    pub fn merge(&self, other: &Self) -> (r: Self)
        ensures
            r@ == pn_merge(self@, other@),
    {
        PNCounter {
            positive: self.positive.merge(&other.positive),
            negative: self.negative.merge(&other.negative),
        }
    }

    /// The counter value: positive - negative. Can be negative.
    pub fn value(&self) -> (r: i64)
        requires
            self.increments() <= u64::MAX,
            self.decrements() <= u64::MAX,
            i64::MIN <= signed_difference(self.increments(), self.decrements()) <= i64::MAX,
        ensures
            r == signed_difference(self.increments(), self.decrements()),
            self.increments() <= i64::MAX && self.decrements() <= i64::MAX ==> r == self.increments()
                - self.decrements(),
    {
        let p = self.positive.value();
        let n = self.negative.value();
        (p as i64) - (n as i64)
    }
}

impl Default for PNCounter {
    fn default() -> (r: Self)
        ensures
            r@ == (Map::<Seq<char>, nat>::empty(), Map::<Seq<char>, nat>::empty()),
    {
        Self::new()
    }
}

/// Merging PN counters is commutative.
pub proof fn lemma_pncounter_merge_commutative(a: PNCounter, b: PNCounter)
    ensures
        pn_merge(a@, b@) == pn_merge(b@, a@),
{
    assert(max_merge(a@.0, b@.0) =~= max_merge(b@.0, a@.0));
    assert(max_merge(a@.1, b@.1) =~= max_merge(b@.1, a@.1));
}

/// Merging PN counters is associative.
pub proof fn lemma_pncounter_merge_associative(a: PNCounter, b: PNCounter, c: PNCounter)
    ensures
        pn_merge(pn_merge(a@, b@), c@) == pn_merge(a@, pn_merge(b@, c@)),
{
    assert(max_merge(max_merge(a@.0, b@.0), c@.0) =~= max_merge(a@.0, max_merge(b@.0, c@.0)));
    assert(max_merge(max_merge(a@.1, b@.1), c@.1) =~= max_merge(a@.1, max_merge(b@.1, c@.1)));
}

/// Merging a PN counter with itself changes nothing.
pub proof fn lemma_pncounter_merge_idempotent(a: PNCounter)
    ensures
        pn_merge(a@, a@) == a@,
{
    assert(max_merge(a@.0, a@.0) =~= a@.0);
    assert(max_merge(a@.1, a@.1) =~= a@.1);
}

// ---------------------------------------------------------------------------
// LWWRegister – Last-Writer-Wins Register
// ---------------------------------------------------------------------------

/// The merge of two registers, each seen as its (value, timestamp) pair: the
/// one with the higher timestamp, and `b` on equal timestamps.
pub open spec fn lww_merge<T>(a: (T, u64), b: (T, u64)) -> (T, u64) {
    if b.1 >= a.1 {
        b
    } else {
        a
    }
}

/// A register where the value with the highest timestamp wins on merge.
/// Ties are broken by keeping the value from `other` (right-bias).
#[derive(Debug)]
pub struct LWWRegister<T: Clone> {
    value: T,
    timestamp: u64,
}

impl<T: Clone> View for LWWRegister<T> {
    type V = (T, u64);

    closed spec fn view(&self) -> (T, u64) {
        (self.value, self.timestamp)
    }
}

impl<T: Clone> Clone for LWWRegister<T> {
    fn clone(&self) -> (r: Self)
        ensures
            r@.1 == self@.1,
            cloned::<T>(self@.0, r@.0),
    {
        LWWRegister { value: self.value.clone(), timestamp: self.timestamp }
    }
}

impl<T: Clone> LWWRegister<T> {
    /// Create a new register with the given value and timestamp.
    pub fn new(value: T, timestamp: u64) -> (r: Self)
        ensures
            r@ == (value, timestamp),
    {
        LWWRegister { value, timestamp }
    }

    /// Update the value if the new timestamp is >= the current one.
    pub fn set(&mut self, value: T, timestamp: u64)
        ensures
            final(self)@ == (if timestamp >= old(self)@.1 { (value, timestamp) } else { old(self)@ }),
    {
        if timestamp >= self.timestamp {
            self.value = value;
            self.timestamp = timestamp;
        }
    }

    /// Merge two registers – keep the one with the higher timestamp.
    /// On equal timestamps, `other` wins (right-bias).
    pub fn merge(&self, other: &Self) -> (r: Self)
        ensures
            r@.1 == lww_merge(self@, other@).1,
            cloned::<T>(lww_merge(self@, other@).0, r@.0),
    {
        if other.timestamp >= self.timestamp {
            other.clone()
        } else {
            self.clone()
        }
    }

    /// Get a reference to the current value.
    pub fn value(&self) -> (r: &T)
        ensures
            *r == self@.0,
    {
        &self.value
    }

    /// Get the current timestamp.
    pub fn timestamp(&self) -> (r: u64)
        ensures
            r == self@.1,
    {
        self.timestamp
    }
}

/// The merge of two registers with different timestamps does not depend on
/// their order: the later write wins either way.
pub proof fn lemma_lww_merge_commutative<T: Clone>(a: LWWRegister<T>, b: LWWRegister<T>)
    requires
        a@.1 != b@.1,
    ensures
        lww_merge(a@, b@) == lww_merge(b@, a@),
{
}

/// Merging registers is associative.
pub proof fn lemma_lww_merge_associative<T: Clone>(a: LWWRegister<T>, b: LWWRegister<T>, c: LWWRegister<T>)
    ensures
        lww_merge(lww_merge(a@, b@), c@) == lww_merge(a@, lww_merge(b@, c@)),
{
}

/// Merging a register with itself changes nothing.
pub proof fn lemma_lww_merge_idempotent<T: Clone>(a: LWWRegister<T>)
    ensures
        lww_merge(a@, a@) == a@,
{
}

/// A merge keeps the later timestamp.
pub proof fn lemma_lww_merge_latest<T: Clone>(a: LWWRegister<T>, b: LWWRegister<T>)
    ensures
        lww_merge(a@, b@).1 >= a@.1,
        lww_merge(a@, b@).1 >= b@.1,
        lww_merge(a@, b@) == a@ || lww_merge(a@, b@) == b@,
{
}

impl PartialEq for PNCounter {
    fn eq(&self, other: &Self) -> (r: bool) {
        self.positive.same_counts(&other.positive) && self.negative.same_counts(&other.negative)
    }
}

impl vstd::std_specs::cmp::PartialEqSpecImpl for PNCounter {
    open spec fn obeys_eq_spec() -> bool {
        true
    }

    open spec fn eq_spec(&self, other: &Self) -> bool {
        self@ == other@
    }
}

impl<T: Clone + PartialEq> PartialEq for LWWRegister<T> {
    fn eq(&self, other: &Self) -> (r: bool) {
        self.value == other.value && self.timestamp == other.timestamp
    }
}

impl<T: Clone + PartialEq> vstd::std_specs::cmp::PartialEqSpecImpl for LWWRegister<T> {
    open spec fn obeys_eq_spec() -> bool {
        T::obeys_eq_spec()
    }

    open spec fn eq_spec(&self, other: &Self) -> bool {
        self@.0.eq_spec(&other@.0) && self@.1 == other@.1
    }
}

// ---------------------------------------------------------------------------
// Plain contents, for saving and restoring
// ---------------------------------------------------------------------------

/// The node→count map that a list of counts sets, a later count for a node
/// replacing an earlier one.
pub open spec fn counts_map(counts: Seq<(String, u64)>) -> Map<Seq<char>, nat>
    decreases counts.len(),
{
    if counts.len() == 0 {
        Map::empty()
    } else {
        counts_map(counts.drop_last()).insert(counts.last().0@, counts.last().1 as nat)
    }
}

impl GCounter {
    /// The per-node counts, each node once.
    pub fn counts(&self) -> (r: Vec<(String, u64)>)
        ensures
            distinct_nodes(r@),
            entries_map(r@) == self@,
    {
        proof {
            use_type_invariant(self);
        }
        copy_entries(&self.entries)
    }

    /// The counter that holds the given per-node counts; a later count for
    /// a node replaces an earlier one.
    pub fn from_counts(counts: Vec<(String, u64)>) -> (r: Self)
        ensures
            r@ == counts_map(counts@),
    {
        let mut entries: Vec<(String, u64)> = Vec::new();
        let mut i: usize = 0;
        proof {
            assert(entries_map(entries@) =~= counts_map(counts@.take(0)));
        }
        while i < counts.len()
            invariant
                i <= counts@.len(),
                distinct_nodes(entries@),
                entries_map(entries@) == counts_map(counts@.take(i as int)),
            decreases counts@.len() - i,
        {
            proof {
                assert(counts@.take(i + 1).drop_last() =~= counts@.take(i as int));
                assert(counts@.take(i + 1).last() == counts@[i as int]);
            }
            entries = put_entry(entries, counts[i].0.clone(), counts[i].1);
            i = i + 1;
        }
        proof {
            assert(counts@.take(i as int) =~= counts@);
        }
        GCounter { entries }
    }
}

impl PNCounter {
    /// The counter of increments.
    pub fn positive(&self) -> (r: GCounter)
        ensures
            r@ == self@.0,
    {
        self.positive.clone()
    }

    /// The counter of decrements.
    pub fn negative(&self) -> (r: GCounter)
        ensures
            r@ == self@.1,
    {
        self.negative.clone()
    }

    /// The counter made of a counter of increments and one of decrements.
    pub fn from_counters(positive: GCounter, negative: GCounter) -> (r: Self)
        ensures
            r@ == (positive@, negative@),
    {
        PNCounter { positive, negative }
    }
}

} // verus!
