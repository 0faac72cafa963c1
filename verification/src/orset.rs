//! The observed-remove set: an add-wins set whose additions carry unique tags.

use vstd::prelude::*;

verus! {

// ---------------------------------------------------------------------------
// Elements
// ---------------------------------------------------------------------------

/// A value that an `ORSet` can hold. Two elements are the same element when
/// their views are equal.
pub trait SetElement: View + Sized {
    /// Whether `self` and `other` are the same element.
    fn same_element(&self, other: &Self) -> (r: bool)
        ensures
            r == (self@ == other@),
    ;

    /// A copy of the element.
    fn copy_element(&self) -> (r: Self)
        ensures
            r@ == self@,
    ;
}

impl SetElement for String {
    fn same_element(&self, other: &Self) -> (r: bool) {
        *self == *other
    }

    fn copy_element(&self) -> (r: Self) {
        self.clone()
    }
}

impl<'a> SetElement for &'a str {
    fn same_element(&self, other: &Self) -> (r: bool) {
        let a: String = (*self).to_owned();
        let b: String = (*other).to_owned();
        a == b
    }

    fn copy_element(&self) -> (r: Self) {
        *self
    }
}

// ---------------------------------------------------------------------------
// Tags
// ---------------------------------------------------------------------------

/// Makes a new add-tag: calls `uuid::Uuid::new_v4`, which draws a random
/// version-4 UUID, and renders it with `to_string`, which writes the hyphenated
/// lowercase form. The contract claims the shape of that form: 36 characters,
/// hyphens at positions 8, 13, 18 and 23, and the version digit `4` at
/// position 14. Which tag comes out is chance: nothing is claimed of it, not
/// even that it differs from earlier tags.
#[verifier::external_body]
fn fresh_tag() -> (r: String)
    ensures
        r@.len() == 36,
        r@[8] == '-',
        r@[13] == '-',
        r@[18] == '-',
        r@[23] == '-',
        r@[14] == '4',
{
    uuid::Uuid::new_v4().to_string()
}

/// The set of tags held by a sequence of tag strings.
pub open spec fn tag_set(tags: Seq<String>) -> Set<Seq<char>> {
    Set::new(|t: Seq<char>| exists|i: int| 0 <= i < tags.len() && tags[i]@ == t)
}

fn has_tag(tags: &Vec<String>, tag: &String) -> (r: bool)
    ensures
        r == tag_set(tags@).contains(tag@),
{
    let mut i: usize = 0;
    while i < tags.len()
        invariant
            i <= tags@.len(),
            forall|j: int| 0 <= j < i ==> tags@[j]@ != tag@,
        decreases tags@.len() - i,
    {
        if tags[i] == *tag {
            return true;
        }
        i = i + 1;
    }
    false
}

fn add_tag(tags: Vec<String>, tag: String) -> (r: Vec<String>)
    ensures
        tag_set(r@) == tag_set(tags@).insert(tag@),
{
    let mut tags = tags;
    if !has_tag(&tags, &tag) {
        let ghost before = tags@;
        tags.push(tag);
        proof {
            assert forall|t: Seq<char>| tag_set(tags@).contains(t) <==> tag_set(before).insert(tag@).contains(t) by {
                if tag_set(before).contains(t) {
                    let i = choose|i: int| 0 <= i < before.len() && before[i]@ == t;
                    assert(tags@[i]@ == t);
                }
                if t == tag@ {
                    assert(tags@[before.len() as int]@ == t);
                }
            }
            assert(tag_set(tags@) =~= tag_set(before).insert(tag@));
        }
    } else {
        assert(tag_set(tags@) =~= tag_set(tags@).insert(tag@));
    }
    tags
}

fn union_tags(tags: Vec<String>, more: &Vec<String>) -> (r: Vec<String>)
    ensures
        tag_set(r@) == tag_set(tags@).union(tag_set(more@)),
{
    let mut r = tags;
    let ghost start = tag_set(r@);
    let mut i: usize = 0;
    while i < more.len()
        invariant
            i <= more@.len(),
            tag_set(r@) == start.union(tag_set(more@.take(i as int))),
        decreases more@.len() - i,
    {
        let ghost prefix = more@.take(i as int);
        r = add_tag(r, more[i].clone());
        proof {
            let next = more@.take(i + 1);
            let item = more@[i as int]@;
            assert(tag_set(next) =~= tag_set(prefix).insert(item)) by {
                assert forall|t: Seq<char>| tag_set(next).contains(t) implies tag_set(prefix).insert(item).contains(t) by {
                    let j = choose|j: int| 0 <= j < next.len() && next[j]@ == t;
                    if j < i {
                        assert(prefix[j]@ == t);
                    }
                }
                assert forall|t: Seq<char>| tag_set(prefix).insert(item).contains(t) implies tag_set(next).contains(t) by {
                    if t == item {
                        assert(next[i as int]@ == t);
                    } else {
                        let j = choose|j: int| 0 <= j < prefix.len() && prefix[j]@ == t;
                        assert(next[j]@ == t);
                    }
                }
            }
            assert(tag_set(r@) =~= start.union(tag_set(more@.take(i + 1))));
        }
        i = i + 1;
    }
    proof {
        assert(more@.take(i as int) =~= more@);
    }
    r
}

fn copy_tags(tags: &Vec<String>) -> (r: Vec<String>)
    ensures
        tag_set(r@) == tag_set(tags@),
{
    let r = union_tags(Vec::new(), tags);
    assert(tag_set(Seq::<String>::empty()) =~= Set::<Seq<char>>::empty());
    assert(tag_set(r@) =~= tag_set(tags@));
    r
}

/// The tags of `tags` that `dead` does not hold.
fn live_tags(tags: &Vec<String>, dead: &Vec<String>) -> (r: Vec<String>)
    ensures
        tag_set(r@) == tag_set(tags@).difference(tag_set(dead@)),
{
    let mut r: Vec<String> = Vec::new();
    let mut i: usize = 0;
    while i < tags.len()
        invariant
            i <= tags@.len(),
            tag_set(r@) == tag_set(tags@.take(i as int)).difference(tag_set(dead@)),
        decreases tags@.len() - i,
    {
        let ghost prefix = tags@.take(i as int);
        let ghost before = r@;
        if !has_tag(dead, &tags[i]) {
            r.push(tags[i].clone());
        }
        proof {
            let next = tags@.take(i + 1);
            assert(forall|j: int| 0 <= j < before.len() ==> r@[j] == before[j]);
            assert forall|t: Seq<char>| tag_set(r@).contains(t) <==> tag_set(next).difference(tag_set(dead@)).contains(t) by {
                if tag_set(r@).contains(t) {
                    let j = choose|j: int| 0 <= j < r@.len() && r@[j]@ == t;
                    if j < before.len() {
                        assert(before[j]@ == t);
                        assert(tag_set(before).contains(t));
                        let k = choose|k: int| 0 <= k < prefix.len() && prefix[k]@ == t;
                        assert(next[k]@ == t);
                    } else {
                        assert(next[i as int]@ == t);
                    }
                }
                if tag_set(next).difference(tag_set(dead@)).contains(t) {
                    let k = choose|k: int| 0 <= k < next.len() && next[k]@ == t;
                    if k < i {
                        assert(prefix[k]@ == t);
                        assert(tag_set(before).contains(t));
                        let j = choose|j: int| 0 <= j < before.len() && before[j]@ == t;
                        assert(r@[j]@ == t);
                    } else {
                        assert(r@[before.len() as int]@ == t);
                    }
                }
            }
            assert(tag_set(r@) =~= tag_set(next).difference(tag_set(dead@)));
        }
        i = i + 1;
    }
    proof {
        assert(tags@.take(i as int) =~= tags@);
    }
    r
}

// ---------------------------------------------------------------------------
// Element → tags maps
// ---------------------------------------------------------------------------

/// The tags that a map records for element `e`; none when `e` is absent.
pub open spec fn tags_of<V>(m: Map<V, Set<Seq<char>>>, e: V) -> Set<Seq<char>> {
    if m.dom().contains(e) {
        m[e]
    } else {
        Set::empty()
    }
}

/// The elements of a map that hold at least one tag outside `dead`.
pub open spec fn live_elements<V>(m: Map<V, Set<Seq<char>>>, dead: Set<Seq<char>>) -> Set<V> {
    Set::new(|e: V| m.dom().contains(e) && exists|t: Seq<char>| m[e].contains(t) && !dead.contains(t))
}

/// Per element, the union of the tags of two maps.
pub open spec fn union_map<V>(a: Map<V, Set<Seq<char>>>, b: Map<V, Set<Seq<char>>>) -> Map<V, Set<Seq<char>>> {
    Map::new(|e: V| a.dom().contains(e) || b.dom().contains(e), |e: V| tags_of(a, e).union(tags_of(b, e)))
}

/// Drops the tags in `dead`, and the elements left without tags.
pub open spec fn prune<V>(m: Map<V, Set<Seq<char>>>, dead: Set<Seq<char>>) -> Map<V, Set<Seq<char>>> {
    Map::new(
        |e: V| m.dom().contains(e) && exists|t: Seq<char>| m[e].contains(t) && !dead.contains(t),
        |e: V| m[e].difference(dead),
    )
}

/// The merge of two observed-remove sets, each seen as its pair of
/// (element → add-tags map, tombstoned tags).
pub open spec fn orset_merge<V>(
    a: (Map<V, Set<Seq<char>>>, Set<Seq<char>>),
    b: (Map<V, Set<Seq<char>>>, Set<Seq<char>>),
) -> (Map<V, Set<Seq<char>>>, Set<Seq<char>>) {
    (prune(union_map(a.0, b.0), a.1.union(b.1)), a.1.union(b.1))
}

/// The element → tags map held by a sequence of entries.
pub open spec fn element_map<T: View>(entries: Seq<(T, Vec<String>)>) -> Map<T::V, Set<Seq<char>>> {
    Map::new(
        |v: T::V| exists|i: int| 0 <= i < entries.len() && entries[i].0@ == v,
        |v: T::V| tag_set(entries[choose|i: int| 0 <= i < entries.len() && entries[i].0@ == v].1@),
    )
}

/// No element occurs twice among the entries.
pub open spec fn distinct_elements<T: View>(entries: Seq<(T, Vec<String>)>) -> bool {
    forall|i: int, j: int|
        0 <= i < entries.len() && 0 <= j < entries.len() && i != j ==> entries[i].0@ != entries[j].0@
}

proof fn lemma_element_map_at<T: View>(entries: Seq<(T, Vec<String>)>, i: int)
    requires
        distinct_elements(entries),
        0 <= i < entries.len(),
    ensures
        element_map(entries).dom().contains(entries[i].0@),
        element_map(entries)[entries[i].0@] == tag_set(entries[i].1@),
{
    let k = entries[i].0@;
    assert(exists|j: int| 0 <= j < entries.len() && entries[j].0@ == k);
}

proof fn lemma_element_map_push<T: View>(entries: Seq<(T, Vec<String>)>, e: (T, Vec<String>))
    requires
        distinct_elements(entries.push(e)),
    ensures
        element_map(entries.push(e)) =~= element_map(entries).insert(e.0@, tag_set(e.1@)),
        !element_map(entries).dom().contains(e.0@),
{
    let s = entries.push(e);
    assert(forall|i: int| 0 <= i < entries.len() ==> s[i] == entries[i]);
    assert forall|k: T::V| #[trigger] element_map(entries).dom().contains(k) implies element_map(s).dom().contains(k)
        && element_map(s)[k] == element_map(entries)[k] && k != e.0@ by {
        let i = choose|i: int| 0 <= i < entries.len() && entries[i].0@ == k;
        lemma_element_map_at(s, i);
        lemma_element_map_at(entries, i);
        assert(s[entries.len() as int] == e);
    }
    lemma_element_map_at(s, entries.len() as int);
}

proof fn lemma_element_map_update<T: View>(before: Seq<(T, Vec<String>)>, i: int, e: (T, Vec<String>))
    requires
        distinct_elements(before),
        0 <= i < before.len(),
        before[i].0@ == e.0@,
    ensures
        distinct_elements(before.update(i, e)),
        element_map(before.update(i, e)) == element_map(before).insert(e.0@, tag_set(e.1@)),
{
    let after = before.update(i, e);
    assert(distinct_elements(after)) by {
        assert forall|a: int, b: int| 0 <= a < after.len() && 0 <= b < after.len() && a != b implies after[a].0@ != after[b].0@ by {
            assert(after[a].0@ == before[a].0@);
            assert(after[b].0@ == before[b].0@);
        }
    }
    assert forall|k: T::V| #[trigger] element_map(after).dom().contains(k) <==> element_map(before).insert(e.0@, tag_set(e.1@)).dom().contains(k) by {
        if element_map(after).dom().contains(k) {
            let j = choose|j: int| 0 <= j < after.len() && after[j].0@ == k;
            assert(before[j].0@ == k);
        }
        if element_map(before).dom().contains(k) {
            let j = choose|j: int| 0 <= j < before.len() && before[j].0@ == k;
            assert(after[j].0@ == k);
        }
        if k == e.0@ {
            assert(after[i].0@ == k);
        }
    }
    assert forall|k: T::V| element_map(after).dom().contains(k) implies #[trigger] element_map(after)[k] == element_map(before).insert(e.0@, tag_set(e.1@))[k] by {
        let j = choose|j: int| 0 <= j < after.len() && after[j].0@ == k;
        lemma_element_map_at(after, j);
        if j != i {
            lemma_element_map_at(before, j);
        }
    }
    assert(element_map(after) =~= element_map(before).insert(e.0@, tag_set(e.1@)));
}

proof fn lemma_element_map_remove<T: View>(before: Seq<(T, Vec<String>)>, i: int)
    requires
        distinct_elements(before),
        0 <= i < before.len(),
    ensures
        distinct_elements(before.remove(i)),
        element_map(before.remove(i)) == element_map(before).remove(before[i].0@),
{
    let after = before.remove(i);
    let gone = before[i].0@;
    assert forall|j: int| 0 <= j < after.len() implies #[trigger] after[j] == before[if j < i { j } else { j + 1 }] by {}
    assert(distinct_elements(after)) by {
        assert forall|a: int, b: int| 0 <= a < after.len() && 0 <= b < after.len() && a != b implies after[a].0@ != after[b].0@ by {
            assert(after[a] == before[if a < i { a } else { a + 1 }]);
            assert(after[b] == before[if b < i { b } else { b + 1 }]);
        }
    }
    assert forall|k: T::V| #[trigger] element_map(after).dom().contains(k) <==> element_map(before).remove(gone).dom().contains(k) by {
        if element_map(after).dom().contains(k) {
            let j = choose|j: int| 0 <= j < after.len() && after[j].0@ == k;
            let jj = if j < i { j } else { j + 1 };
            assert(before[jj].0@ == k);
        }
        if element_map(before).dom().contains(k) && k != gone {
            let j = choose|j: int| 0 <= j < before.len() && before[j].0@ == k;
            assert(j != i);
            let jj = if j < i { j } else { j - 1 };
            assert(after[jj].0@ == k);
        }
    }
    assert forall|k: T::V| element_map(after).dom().contains(k) implies #[trigger] element_map(after)[k] == element_map(before).remove(gone)[k] by {
        let j = choose|j: int| 0 <= j < after.len() && after[j].0@ == k;
        let jj = if j < i { j } else { j + 1 };
        lemma_element_map_at(after, j);
        lemma_element_map_at(before, jj);
    }
    assert(element_map(after) =~= element_map(before).remove(gone));
}

fn find_element<T: SetElement>(entries: &Vec<(T, Vec<String>)>, e: &T) -> (r: Option<usize>)
    ensures
        match r {
            Some(i) => i < entries@.len() && entries@[i as int].0@ == e@,
            None => !element_map(entries@).dom().contains(e@),
        },
{
    let mut i: usize = 0;
    while i < entries.len()
        invariant
            i <= entries@.len(),
            forall|j: int| 0 <= j < i ==> entries@[j].0@ != e@,
        decreases entries@.len() - i,
    {
        if entries[i].0.same_element(e) {
            return Some(i);
        }
        i = i + 1;
    }
    None
}

/// Sets the tags of element `e`, adding an entry if the element is new.
fn put_element<T: SetElement>(entries: Vec<(T, Vec<String>)>, e: T, tags: Vec<String>) -> (r: Vec<(T, Vec<String>)>)
    requires
        distinct_elements(entries@),
    ensures
        distinct_elements(r@),
        element_map(r@) == element_map(entries@).insert(e@, tag_set(tags@)),
{
    let mut entries = entries;
    let ghost before = entries@;
    let ghost item = (e, tags);
    match find_element(&entries, &e) {
        Some(i) => {
            entries.set(i, (e, tags));
            proof {
                lemma_element_map_update(before, i as int, item);
            }
        },
        None => {
            entries.push((e, tags));
            proof {
                lemma_element_map_push(before, item);
            }
        },
    }
    entries
}

/// Whether some tag of `tags` is not in `dead`.
fn any_live_tag(tags: &Vec<String>, dead: &Vec<String>) -> (r: bool)
    ensures
        r == exists|t: Seq<char>| tag_set(tags@).contains(t) && !tag_set(dead@).contains(t),
{
    let mut i: usize = 0;
    while i < tags.len()
        invariant
            i <= tags@.len(),
            forall|j: int| 0 <= j < i ==> tag_set(dead@).contains(#[trigger] tags@[j]@),
        decreases tags@.len() - i,
    {
        if !has_tag(dead, &tags[i]) {
            proof {
                assert(tag_set(tags@).contains(tags@[i as int]@));
            }
            return true;
        }
        i = i + 1;
    }
    proof {
        assert forall|t: Seq<char>| tag_set(tags@).contains(t) implies tag_set(dead@).contains(t) by {
            let j = choose|j: int| 0 <= j < tags@.len() && tags@[j]@ == t;
            assert(tag_set(dead@).contains(tags@[j]@));
        }
    }
    false
}


/// Merging in the tags of one more element that the second map lacks.
proof fn lemma_union_map_insert<V>(a: Map<V, Set<Seq<char>>>, m: Map<V, Set<Seq<char>>>, e: V, tags: Set<Seq<char>>)
    requires
        !m.dom().contains(e),
    ensures
        union_map(a, m.insert(e, tags)) == union_map(a, m).insert(e, tags_of(union_map(a, m), e).union(tags)),
{
    assert(tags_of(union_map(a, m), e) =~= tags_of(a, e));
    assert(union_map(a, m.insert(e, tags)) =~= union_map(a, m).insert(e, tags_of(union_map(a, m), e).union(tags)));
}

/// Pruning one more element that the map lacks.
proof fn lemma_prune_insert<V>(m: Map<V, Set<Seq<char>>>, dead: Set<Seq<char>>, e: V, tags: Set<Seq<char>>)
    requires
        !m.dom().contains(e),
    ensures
        (exists|t: Seq<char>| tags.contains(t) && !dead.contains(t)) ==> prune(m.insert(e, tags), dead) == prune(m, dead).insert(e, tags.difference(dead)),
        !(exists|t: Seq<char>| tags.contains(t) && !dead.contains(t)) ==> prune(m.insert(e, tags), dead) == prune(m, dead),
{
    if exists|t: Seq<char>| tags.contains(t) && !dead.contains(t) {
        assert(prune(m.insert(e, tags), dead) =~= prune(m, dead).insert(e, tags.difference(dead)));
    } else {
        assert(prune(m.insert(e, tags), dead) =~= prune(m, dead));
    }
}

/// Copies the entries, element by element and tag by tag.
fn copy_elements<T: SetElement>(entries: &Vec<(T, Vec<String>)>) -> (r: Vec<(T, Vec<String>)>)
    requires
        distinct_elements(entries@),
    ensures
        distinct_elements(r@),
        element_map(r@) == element_map(entries@),
{
    let mut r: Vec<(T, Vec<String>)> = Vec::new();
    let mut i: usize = 0;
    proof {
        assert(element_map(r@) =~= element_map(entries@.take(0)));
    }
    while i < entries.len()
        invariant
            i <= entries@.len(),
            distinct_elements(entries@),
            distinct_elements(r@),
            r@.len() == i,
            forall|j: int| 0 <= j < i ==> #[trigger] r@[j].0@ == entries@[j].0@,
            element_map(r@) == element_map(entries@.take(i as int)),
        decreases entries@.len() - i,
    {
        let e = entries[i].0.copy_element();
        let tags = copy_tags(&entries[i].1);
        let ghost before = r@;
        let ghost item = (e, tags);
        proof {
            assert(entries@.take(i + 1) =~= entries@.take(i as int).push(entries@[i as int]));
            assert(distinct_elements(entries@.take(i as int).push(entries@[i as int])));
            lemma_element_map_push(entries@.take(i as int), entries@[i as int]);
        }
        r.push((e, tags));
        proof {
            assert(distinct_elements(r@)) by {
                assert forall|a: int, b: int| 0 <= a < r@.len() && 0 <= b < r@.len() && a != b implies r@[a].0@ != r@[b].0@ by {
                    if a < i {
                        assert(r@[a] == before[a]);
                    }
                    if b < i {
                        assert(r@[b] == before[b]);
                    }
                }
            }
            assert(r@ =~= before.push(item));
            lemma_element_map_push(before, item);
        }
        i = i + 1;
    }
    proof {
        assert(entries@.take(i as int) =~= entries@);
    }
    r
}

// ---------------------------------------------------------------------------
// Sets of elements
// ---------------------------------------------------------------------------

/// A finite set of elements, as `ORSet::value` reports the live elements.
#[derive(Debug)]
pub struct ElementSet<T: SetElement> {
    items: Vec<T>,
}

/// The views of a sequence of elements.
pub open spec fn element_views<T: View>(items: Seq<T>) -> Seq<T::V> {
    items.map_values(|x: T| x@)
}

impl<T: SetElement> View for ElementSet<T> {
    type V = Set<T::V>;

    closed spec fn view(&self) -> Set<T::V> {
        element_views(self.items@).to_set()
    }
}

impl<T: SetElement> ElementSet<T> {
    #[verifier::type_invariant]
    closed spec fn inv(self) -> bool {
        element_views(self.items@).no_duplicates()
    }

    /// The number of elements.
    pub fn len(&self) -> (r: usize)
        ensures
            r == self@.len(),
    {
        proof {
            use_type_invariant(self);
            element_views(self.items@).unique_seq_to_set();
        }
        self.items.len()
    }

    /// Whether the set has no elements.
    pub fn is_empty(&self) -> (r: bool)
        ensures
            r == (self@.len() == 0),
    {
        self.len() == 0
    }

    /// Whether `element` is in the set.
    pub fn contains(&self, element: &T) -> (r: bool)
        ensures
            r == self@.contains(element@),
    {
        let mut i: usize = 0;
        while i < self.items.len()
            invariant
                i <= self.items@.len(),
                forall|j: int| 0 <= j < i ==> self.items@[j]@ != element@,
            decreases self.items@.len() - i,
        {
            if self.items[i].same_element(element) {
                proof {
                    assert(element_views(self.items@)[i as int] == element@);
                }
                return true;
            }
            i = i + 1;
        }
        proof {
            if self@.contains(element@) {
                let j = choose|j: int| 0 <= j < self.items@.len() && element_views(self.items@)[j] == element@;
                assert(self.items@[j]@ == element@);
            }
        }
        false
    }

    /// Whether every element of `self` is in `other`.
    fn subset_of(&self, other: &Self) -> (r: bool)
        ensures
            r == self@.subset_of(other@),
    {
        let mut i: usize = 0;
        while i < self.items.len()
            invariant
                i <= self.items@.len(),
                forall|j: int| 0 <= j < i ==> other@.contains(#[trigger] self.items@[j]@),
            decreases self.items@.len() - i,
        {
            if !other.contains(&self.items[i]) {
                proof {
                    assert(element_views(self.items@)[i as int] == self.items@[i as int]@);
                }
                return false;
            }
            i = i + 1;
        }
        proof {
            assert forall|v: T::V| self@.contains(v) implies other@.contains(v) by {
                let j = choose|j: int| 0 <= j < self.items@.len() && element_views(self.items@)[j] == v;
                assert(other@.contains(self.items@[j]@));
            }
        }
        true
    }
}

impl<T: SetElement> PartialEq for ElementSet<T> {
    fn eq(&self, other: &Self) -> (r: bool) {
        let r = self.subset_of(other) && other.subset_of(self);
        proof {
            if r {
                assert(self@ =~= other@);
            }
        }
        r
    }
}

impl<T: SetElement> vstd::std_specs::cmp::PartialEqSpecImpl for ElementSet<T> {
    open spec fn obeys_eq_spec() -> bool {
        true
    }

    open spec fn eq_spec(&self, other: &Self) -> bool {
        self@ == other@
    }
}

// ---------------------------------------------------------------------------
// ORSet – Observed-Remove Set
// ---------------------------------------------------------------------------

/// An add-wins observed-remove set.
///
/// Each element addition is tagged with a unique UUID.
/// Removes only affect tags that have been *observed* (i.e., present at
/// the time of the remove). Concurrent adds therefore "win" over removes.
#[derive(Debug)]
pub struct ORSet<T: SetElement> {
    /// Each element with its add-tags.
    elements: Vec<(T, Vec<String>)>,
    /// All tombstoned (removed) tags.
    tombstones: Vec<String>,
}

impl<T: SetElement> View for ORSet<T> {
    type V = (Map<T::V, Set<Seq<char>>>, Set<Seq<char>>);

    closed spec fn view(&self) -> (Map<T::V, Set<Seq<char>>>, Set<Seq<char>>) {
        (element_map(self.elements@), tag_set(self.tombstones@))
    }
}

impl<T: SetElement> ORSet<T> {
    #[verifier::type_invariant]
    closed spec fn inv(self) -> bool {
        distinct_elements(self.elements@)
    }

    /// The elements that are in the set: those with a tag that is not tombstoned.
    pub open spec fn live(&self) -> Set<T::V> {
        live_elements(self@.0, self@.1)
    }

    /// Create an empty set.
    pub fn new() -> (r: Self)
        ensures
            r@.0 == Map::<T::V, Set<Seq<char>>>::empty(),
            r@.1 == Set::<Seq<char>>::empty(),
    {
        let r = ORSet { elements: Vec::new(), tombstones: Vec::new() };
        assert(r@.0 =~= Map::<T::V, Set<Seq<char>>>::empty());
        assert(r@.1 =~= Set::<Seq<char>>::empty());
        r
    }

    /// Add an element, returning the unique tag generated.
    pub fn add(&mut self, element: T) -> (r: String)
        ensures
            final(self)@.0 == old(self)@.0.insert(element@, tags_of(old(self)@.0, element@).insert(r@)),
            final(self)@.1 == old(self)@.1,
            !old(self)@.1.contains(r@) ==> final(self).live().contains(element@),
            r@.len() == 36,
            r@[8] == '-',
            r@[13] == '-',
            r@[18] == '-',
            r@[23] == '-',
            r@[14] == '4',
    {
        proof {
            use_type_invariant(&*self);
        }
        let tag = fresh_tag();
        let result = tag.clone();
        let tags = match find_element(&self.elements, &element) {
            Some(i) => {
                proof {
                    lemma_element_map_at(self.elements@, i as int);
                }
                add_tag(copy_tags(&self.elements[i].1), tag)
            },
            None => {
                let mut fresh: Vec<String> = Vec::new();
                fresh.push(tag);
                proof {
                    assert(tag_set(fresh@) =~= Set::<Seq<char>>::empty().insert(result@)) by {
                        assert(fresh@[0]@ == result@);
                    }
                }
                fresh
            },
        };
        let mut elements: Vec<(T, Vec<String>)> = Vec::new();
        std::mem::swap(&mut elements, &mut self.elements);
        let ghost tags_view = tag_set(tags@);
        self.elements = put_element(elements, element, tags);
        proof {
            assert(tags_view.contains(result@));
            assert(self@.0[element@] == tags_view);
        }
        result
    }

    /// Remove an element by tombstoning all of its currently observed tags.
    pub fn remove(&mut self, element: &T)
        ensures
            final(self)@.0 == old(self)@.0.remove(element@),
            final(self)@.1 == old(self)@.1.union(tags_of(old(self)@.0, element@)),
            !final(self).live().contains(element@),
    {
        proof {
            use_type_invariant(&*self);
        }
        match find_element(&self.elements, element) {
            Some(i) => {
                proof {
                    lemma_element_map_at(self.elements@, i as int);
                }
                let mut tombstones: Vec<String> = Vec::new();
                std::mem::swap(&mut tombstones, &mut self.tombstones);
                self.tombstones = union_tags(tombstones, &self.elements[i].1);
                let mut elements: Vec<(T, Vec<String>)> = Vec::new();
                std::mem::swap(&mut elements, &mut self.elements);
                let ghost before = elements@;
                elements.remove(i);
                proof {
                    lemma_element_map_remove(before, i as int);
                }
                self.elements = elements;
            },
            None => {
                assert(self@.0.remove(element@) =~= self@.0);
                assert(self@.1.union(Set::<Seq<char>>::empty()) =~= self@.1);
            },
        }
    }

    /// Return the set of currently live elements.
    pub fn value(&self) -> (r: ElementSet<T>)
        ensures
            r@ == self.live(),
    {
        proof {
            use_type_invariant(self);
        }
        let mut items: Vec<T> = Vec::new();
        let mut i: usize = 0;
        while i < self.elements.len()
            invariant
                i <= self.elements@.len(),
                distinct_elements(self.elements@),
                element_views(items@).no_duplicates(),
                forall|k: int| 0 <= k < items@.len() ==> exists|j: int| 0 <= j < i && #[trigger] items@[k]@ == self.elements@[j].0@,
                element_views(items@).to_set() == Set::new(|v: T::V| exists|j: int| 0 <= j < i && self.elements@[j].0@ == v
                    && exists|t: Seq<char>| tag_set(self.elements@[j].1@).contains(t) && !tag_set(self.tombstones@).contains(t)),
            decreases self.elements@.len() - i,
        {
            let ghost before = items@;
            if any_live_tag(&self.elements[i].1, &self.tombstones) {
                let e = self.elements[i].0.copy_element();
                proof {
                    assert forall|k: int| 0 <= k < before.len() implies before[k]@ != e@ by {
                        let j = choose|j: int| 0 <= j < i && #[trigger] before[k]@ == self.elements@[j].0@;
                        assert(self.elements@[j].0@ != self.elements@[i as int].0@);
                    }
                }
                items.push(e);
                proof {
                    assert(forall|k: int| 0 <= k < before.len() ==> items@[k] == before[k]);
                    assert(element_views(items@) =~= element_views(before).push(e@));
                    assert(items@[before.len() as int]@ == self.elements@[i as int].0@);
                }
            }
            proof {
                let goal = Set::new(|v: T::V| exists|j: int| 0 <= j < i + 1 && self.elements@[j].0@ == v
                    && exists|t: Seq<char>| tag_set(self.elements@[j].1@).contains(t) && !tag_set(self.tombstones@).contains(t));
                assert forall|v: T::V| element_views(items@).to_set().contains(v) <==> goal.contains(v) by {
                    if element_views(items@).to_set().contains(v) {
                        let k = choose|k: int| 0 <= k < items@.len() && element_views(items@)[k] == v;
                        if k < before.len() {
                            assert(element_views(before)[k] == v);
                            assert(element_views(before).to_set().contains(v));
                        }
                    }
                    if goal.contains(v) {
                        let j = choose|j: int| 0 <= j < i + 1 && self.elements@[j].0@ == v
                            && exists|t: Seq<char>| tag_set(self.elements@[j].1@).contains(t) && !tag_set(self.tombstones@).contains(t);
                        if j < i {
                            let old_set = element_views(before).to_set();
                            assert(old_set.contains(v));
                            let k = choose|k: int| 0 <= k < before.len() && element_views(before)[k] == v;
                            assert(element_views(items@)[k] == v);
                        } else {
                            assert(element_views(items@)[items@.len() - 1] == v);
                        }
                    }
                }
                assert(element_views(items@).to_set() =~= goal);
            }
            i = i + 1;
        }
        proof {
            assert forall|v: T::V| element_views(items@).to_set().contains(v) <==> self.live().contains(v) by {
                if self.live().contains(v) {
                    let j = choose|j: int| 0 <= j < self.elements@.len() && self.elements@[j].0@ == v;
                    lemma_element_map_at(self.elements@, j);
                }
                if element_views(items@).to_set().contains(v) {
                    let j = choose|j: int| 0 <= j < i && self.elements@[j].0@ == v
                        && exists|t: Seq<char>| tag_set(self.elements@[j].1@).contains(t) && !tag_set(self.tombstones@).contains(t);
                    lemma_element_map_at(self.elements@, j);
                }
            }
            assert(element_views(items@).to_set() =~= self.live());
        }
        ElementSet { items }
    }

    /// Merge two ORSets.
    /// Union of elements (per-tag), union of tombstones.
    /// An element is live if it has at least one tag not in the combined tombstone set.
    #[verifier::spinoff_prover]
    pub fn merge(&self, other: &Self) -> (r: Self)
        ensures
            r@ == orset_merge(self@, other@),
    {
        proof {
            use_type_invariant(self);
            use_type_invariant(other);
        }
        let tombstones = union_tags(copy_tags(&self.tombstones), &other.tombstones);
        let ghost dead = tag_set(tombstones@);

        // Union of all element→tag mappings
        let mut combined = copy_elements(&self.elements);
        proof {
            assert(element_map(other.elements@.take(0)) =~= Map::<T::V, Set<Seq<char>>>::empty());
            assert forall|e: T::V| self@.0.dom().contains(e) implies
                #[trigger] union_map(self@.0, element_map(other.elements@.take(0)))[e] == self@.0[e] by {
                assert(tags_of(self@.0, e).union(tags_of(element_map(other.elements@.take(0)), e)) =~= self@.0[e]);
            }
            assert(union_map(self@.0, element_map(other.elements@.take(0))) =~= self@.0);
        }
        let mut j: usize = 0;
        while j < other.elements.len()
            invariant
                j <= other.elements@.len(),
                distinct_elements(other.elements@),
                distinct_elements(combined@),
                element_map(combined@) == union_map(self@.0, element_map(other.elements@.take(j as int))),
            decreases other.elements@.len() - j,
        {
            let e = other.elements[j].0.copy_element();
            let tags = match find_element(&combined, &e) {
                Some(i) => {
                    proof {
                        lemma_element_map_at(combined@, i as int);
                    }
                    union_tags(copy_tags(&combined[i].1), &other.elements[j].1)
                },
                None => {
                    let t = copy_tags(&other.elements[j].1);
                    assert(tag_set(t@) =~= Set::<Seq<char>>::empty().union(tag_set(t@)));
                    t
                },
            };
            proof {
                let prefix = other.elements@.take(j as int);
                let item = other.elements@[j as int];
                assert(other.elements@.take(j + 1) =~= prefix.push(item));
                assert(distinct_elements(prefix.push(item)));
                lemma_element_map_push(prefix, item);
                lemma_union_map_insert(self@.0, element_map(prefix), e@, tag_set(item.1@));
            }
            combined = put_element(combined, e, tags);
            j = j + 1;
        }
        proof {
            assert(other.elements@.take(j as int) =~= other.elements@);
        }

        // Remove tags that are tombstoned, and remove empty entries
        let mut elements: Vec<(T, Vec<String>)> = Vec::new();
        let mut k: usize = 0;
        proof {
            assert(element_map(combined@.take(0)) =~= Map::<T::V, Set<Seq<char>>>::empty());
            assert(prune(element_map(combined@.take(0)), dead) =~= element_map(elements@));
        }
        while k < combined.len()
            invariant
                k <= combined@.len(),
                distinct_elements(combined@),
                distinct_elements(elements@),
                forall|x: int| 0 <= x < elements@.len() ==> exists|y: int| 0 <= y < k && #[trigger] elements@[x].0@ == combined@[y].0@,
                element_map(elements@) == prune(element_map(combined@.take(k as int)), dead),
                dead == tag_set(tombstones@),
            decreases combined@.len() - k,
        {
            let ghost prefix = combined@.take(k as int);
            let ghost item = combined@[k as int];
            proof {
                assert(combined@.take(k + 1) =~= prefix.push(item));
                assert(distinct_elements(prefix.push(item)));
                lemma_element_map_push(prefix, item);
                lemma_prune_insert(element_map(prefix), dead, item.0@, tag_set(item.1@));
            }
            let kept = live_tags(&combined[k].1, &tombstones);
            if kept.len() > 0 {
                let e = combined[k].0.copy_element();
                let ghost before = elements@;
                let ghost entry = (e, kept);
                proof {
                    assert(tag_set(kept@).contains(kept@[0]@));
                    assert forall|x: int| 0 <= x < before.len() implies before[x].0@ != e@ by {
                        let y = choose|y: int| 0 <= y < k && #[trigger] before[x].0@ == combined@[y].0@;
                        assert(combined@[y].0@ != combined@[k as int].0@);
                    }
                }
                elements.push((e, kept));
                proof {
                    assert(elements@ =~= before.push(entry));
                    assert(forall|x: int| 0 <= x < before.len() ==> elements@[x] == before[x]);
                    assert(elements@[before.len() as int].0@ == combined@[k as int].0@);
                    lemma_element_map_push(before, entry);
                }
            } else {
                proof {
                    assert forall|t: Seq<char>| tag_set(item.1@).contains(t) implies dead.contains(t) by {
                        if !dead.contains(t) {
                            assert(tag_set(kept@).contains(t));
                            let x = choose|x: int| 0 <= x < kept@.len() && kept@[x]@ == t;
                        }
                    }
                }
            }
            k = k + 1;
        }
        proof {
            assert(combined@.take(k as int) =~= combined@);
        }
        ORSet { elements, tombstones }
    }

    /// Number of live elements.
    pub fn len(&self) -> (r: usize)
        ensures
            r == self.live().len(),
    {
        self.value().len()
    }

    /// Whether the set has no live elements.
    pub fn is_empty(&self) -> (r: bool)
        ensures
            r == (self.live().len() == 0),
    {
        self.len() == 0
    }

    /// Check if an element is in the set (has at least one live tag).
    pub fn contains(&self, element: &T) -> (r: bool)
        ensures
            r == self.live().contains(element@),
    {
        proof {
            use_type_invariant(self);
        }
        match find_element(&self.elements, element) {
            Some(i) => {
                proof {
                    lemma_element_map_at(self.elements@, i as int);
                }
                any_live_tag(&self.elements[i].1, &self.tombstones)
            },
            None => false,
        }
    }
}

impl<T: SetElement> Clone for ORSet<T> {
    fn clone(&self) -> (r: Self)
        ensures
            r@ == self@,
    {
        proof {
            use_type_invariant(self);
        }
        ORSet { elements: copy_elements(&self.elements), tombstones: copy_tags(&self.tombstones) }
    }
}

impl<T: SetElement> Default for ORSet<T> {
    fn default() -> (r: Self)
        ensures
            r@.0 == Map::<T::V, Set<Seq<char>>>::empty(),
            r@.1 == Set::<Seq<char>>::empty(),
    {
        Self::new()
    }
}

impl<T: SetElement> PartialEq for ORSet<T> {
    fn eq(&self, other: &Self) -> (r: bool) {
        self.value() == other.value()
    }
}

impl<T: SetElement> vstd::std_specs::cmp::PartialEqSpecImpl for ORSet<T> {
    open spec fn obeys_eq_spec() -> bool {
        true
    }

    open spec fn eq_spec(&self, other: &Self) -> bool {
        self.live() == other.live()
    }
}

proof fn lemma_union_map_commutative<V>(a: Map<V, Set<Seq<char>>>, b: Map<V, Set<Seq<char>>>)
    ensures
        union_map(a, b) == union_map(b, a),
{
    assert forall|e: V| #[trigger] union_map(a, b).dom().contains(e) implies union_map(a, b)[e] == union_map(b, a)[e] by {
        assert(tags_of(a, e).union(tags_of(b, e)) =~= tags_of(b, e).union(tags_of(a, e)));
    }
    assert(union_map(a, b) =~= union_map(b, a));
}

/// Merging observed-remove sets is commutative: `merge(a, b)` and `merge(b, a)`
/// hold the same tags for every element and the same tombstones.
pub proof fn lemma_orset_merge_commutative<T: SetElement>(a: ORSet<T>, b: ORSet<T>)
    ensures
        orset_merge(a@, b@) == orset_merge(b@, a@),
{
    lemma_union_map_commutative(a@.0, b@.0);
    assert(a@.1.union(b@.1) =~= b@.1.union(a@.1));
}

/// Merging observed-remove sets is associative.
pub proof fn lemma_orset_merge_associative<T: SetElement>(a: ORSet<T>, b: ORSet<T>, c: ORSet<T>)
    ensures
        orset_merge(orset_merge(a@, b@), c@) == orset_merge(a@, orset_merge(b@, c@)),
{
    let dead = a@.1.union(b@.1).union(c@.1);
    assert(dead =~= a@.1.union(b@.1.union(c@.1)));
    let left = orset_merge(orset_merge(a@, b@), c@).0;
    let right = orset_merge(a@, orset_merge(b@, c@)).0;
    let all = |e: T::V| tags_of(a@.0, e).union(tags_of(b@.0, e)).union(tags_of(c@.0, e)).difference(dead);
    assert forall|e: T::V| #[trigger] left.dom().contains(e) <==> right.dom().contains(e) by {
        let ab = prune(union_map(a@.0, b@.0), a@.1.union(b@.1));
        let bc = prune(union_map(b@.0, c@.0), b@.1.union(c@.1));
        assert(tags_of(ab, e).union(tags_of(c@.0, e)).difference(dead) =~= all(e));
        assert(tags_of(a@.0, e).union(tags_of(bc, e)).difference(dead) =~= all(e));
        if left.dom().contains(e) {
            let t = choose|t: Seq<char>| union_map(ab, c@.0)[e].contains(t) && !dead.contains(t);
            assert(all(e).contains(t));
            assert(union_map(a@.0, bc)[e].contains(t));
        }
        if right.dom().contains(e) {
            let t = choose|t: Seq<char>| union_map(a@.0, bc)[e].contains(t) && !dead.contains(t);
            assert(all(e).contains(t));
            assert(union_map(ab, c@.0)[e].contains(t));
        }
    }
    assert forall|e: T::V| left.dom().contains(e) implies #[trigger] left[e] == right[e] by {
        let ab = prune(union_map(a@.0, b@.0), a@.1.union(b@.1));
        let bc = prune(union_map(b@.0, c@.0), b@.1.union(c@.1));
        assert(tags_of(ab, e).union(tags_of(c@.0, e)).difference(dead) =~= all(e));
        assert(tags_of(a@.0, e).union(tags_of(bc, e)).difference(dead) =~= all(e));
    }
    assert(left =~= right);
}

/// Merging an observed-remove set with itself leaves the same live elements.
pub proof fn lemma_orset_merge_idempotent<T: SetElement>(a: ORSet<T>)
    ensures
        live_elements(orset_merge(a@, a@).0, orset_merge(a@, a@).1) == a.live(),
{
    let m = orset_merge(a@, a@);
    assert(a@.1.union(a@.1) =~= a@.1);
    assert forall|e: T::V| #[trigger] live_elements(m.0, m.1).contains(e) <==> a.live().contains(e) by {
        if a@.0.dom().contains(e) {
            assert(tags_of(a@.0, e).union(tags_of(a@.0, e)) =~= a@.0[e]);
        }
        if live_elements(m.0, m.1).contains(e) {
            let t = choose|t: Seq<char>| m.0[e].contains(t) && !m.1.contains(t);
            assert(a@.0[e].contains(t));
        }
        if a.live().contains(e) {
            let t = choose|t: Seq<char>| a@.0[e].contains(t) && !a@.1.contains(t);
            assert(union_map(a@.0, a@.0)[e].contains(t));
            assert(m.0[e].contains(t));
        }
    }
    assert(live_elements(m.0, m.1) =~= a.live());
}

/// Add wins: an element that one side added under a tag that neither side
/// has tombstoned is in the merge.
pub proof fn lemma_orset_add_wins<T: SetElement>(a: ORSet<T>, b: ORSet<T>, e: T::V, tag: Seq<char>)
    requires
        tags_of(a@.0, e).contains(tag),
        !a@.1.contains(tag),
        !b@.1.contains(tag),
    ensures
        live_elements(orset_merge(a@, b@).0, orset_merge(a@, b@).1).contains(e),
{
    let m = orset_merge(a@, b@);
    let u = union_map(a@.0, b@.0);
    let dead = a@.1.union(b@.1);
    assert(a@.0.dom().contains(e));
    assert(u.dom().contains(e));
    assert(u[e].contains(tag) && !dead.contains(tag));
    assert(m.0.dom().contains(e));
    assert(m.0[e].contains(tag));
}

/// Every live element of a merge is an element of one of the two sides.
pub proof fn lemma_orset_merge_from_sides<T: SetElement>(a: ORSet<T>, b: ORSet<T>, e: T::V)
    requires
        live_elements(orset_merge(a@, b@).0, orset_merge(a@, b@).1).contains(e),
    ensures
        a@.0.dom().contains(e) || b@.0.dom().contains(e),
{
}

/// Merging a set with a copy that then removed `x` removes `x` and keeps
/// every other element, in either order, when no other element shares a tag
/// with `x`.
pub proof fn lemma_orset_merge_with_removal<T: SetElement>(a: ORSet<T>, b: ORSet<T>, x: T::V)
    requires
        b@.0 == a@.0.remove(x),
        b@.1 == a@.1.union(tags_of(a@.0, x)),
        forall|e: T::V, t: Seq<char>|
            e != x && a@.0.dom().contains(e) && #[trigger] a@.0[e].contains(t) ==> !tags_of(a@.0, x).contains(t),
    ensures
        live_elements(orset_merge(a@, b@).0, orset_merge(a@, b@).1) == a.live().remove(x),
        live_elements(orset_merge(b@, a@).0, orset_merge(b@, a@).1) == a.live().remove(x),
{
    let dead = a@.1.union(tags_of(a@.0, x));
    let m1 = orset_merge(a@, b@);
    let m2 = orset_merge(b@, a@);
    assert(m1.1 =~= dead);
    assert(m2.1 =~= dead);
    assert forall|e: T::V| #[trigger] live_elements(m1.0, m1.1).contains(e) <==> a.live().remove(x).contains(e) by {
        if e != x && a@.0.dom().contains(e) {
            assert(union_map(a@.0, b@.0)[e] =~= a@.0[e]);
        }
        if e == x && a@.0.dom().contains(e) {
            assert(union_map(a@.0, b@.0)[e] =~= a@.0[e]);
        }
        if live_elements(m1.0, m1.1).contains(e) {
            let t = choose|t: Seq<char>| m1.0[e].contains(t) && !m1.1.contains(t);
            assert(union_map(a@.0, b@.0)[e].contains(t));
        }
        if a.live().remove(x).contains(e) {
            let t = choose|t: Seq<char>| a@.0[e].contains(t) && !a@.1.contains(t);
            assert(!tags_of(a@.0, x).contains(t));
            assert(union_map(a@.0, b@.0)[e].contains(t) && !m1.1.contains(t));
            assert(m1.0.dom().contains(e));
            assert(m1.0[e].contains(t));
        }
    }
    assert forall|e: T::V| #[trigger] live_elements(m2.0, m2.1).contains(e) <==> a.live().remove(x).contains(e) by {
        if e != x && a@.0.dom().contains(e) {
            assert(union_map(b@.0, a@.0)[e] =~= a@.0[e]);
        }
        if e == x && a@.0.dom().contains(e) {
            assert(union_map(b@.0, a@.0)[e] =~= a@.0[e]);
        }
        if live_elements(m2.0, m2.1).contains(e) {
            let t = choose|t: Seq<char>| m2.0[e].contains(t) && !m2.1.contains(t);
            assert(union_map(b@.0, a@.0)[e].contains(t));
        }
        if a.live().remove(x).contains(e) {
            let t = choose|t: Seq<char>| a@.0[e].contains(t) && !a@.1.contains(t);
            assert(!tags_of(a@.0, x).contains(t));
            assert(union_map(b@.0, a@.0)[e].contains(t) && !m2.1.contains(t));
            assert(m2.0.dom().contains(e));
            assert(m2.0[e].contains(t));
        }
    }
    assert(live_elements(m1.0, m1.1) =~= a.live().remove(x));
    assert(live_elements(m2.0, m2.1) =~= a.live().remove(x));
}

// ---------------------------------------------------------------------------
// Plain contents, for saving and restoring
// ---------------------------------------------------------------------------

/// The element→tags map that a list of entries sets, a later entry for an
/// element replacing an earlier one.
pub open spec fn entries_map<T: View>(entries: Seq<(T, Vec<String>)>) -> Map<T::V, Set<Seq<char>>>
    decreases entries.len(),
{
    if entries.len() == 0 {
        Map::empty()
    } else {
        entries_map(entries.drop_last()).insert(entries.last().0@, tag_set(entries.last().1@))
    }
}

impl<T: SetElement> ORSet<T> {
    /// Each element with its add-tags, each element once.
    pub fn entries(&self) -> (r: Vec<(T, Vec<String>)>)
        ensures
            distinct_elements(r@),
            element_map(r@) == self@.0,
    {
        proof {
            use_type_invariant(self);
        }
        copy_elements(&self.elements)
    }

    /// The tombstoned tags.
    pub fn tombstones(&self) -> (r: Vec<String>)
        ensures
            tag_set(r@) == self@.1,
    {
        copy_tags(&self.tombstones)
    }

    /// The set with the given elements and add-tags (a later entry for an
    /// element replacing an earlier one) and the given tombstones.
    pub fn from_parts(entries: Vec<(T, Vec<String>)>, tombstones: Vec<String>) -> (r: Self)
        ensures
            r@.0 == entries_map(entries@),
            r@.1 == tag_set(tombstones@),
    {
        let mut elements: Vec<(T, Vec<String>)> = Vec::new();
        let mut rest = entries;
        let ghost all = rest@;
        let n = rest.len();
        let mut i: usize = 0;
        proof {
            assert(element_map(elements@) =~= entries_map(all.take(0)));
            assert(rest@ =~= all.skip(0));
        }
        while i < n
            invariant
                n == all.len(),
                i <= n,
                rest@ == all.skip(i as int),
                distinct_elements(elements@),
                element_map(elements@) == entries_map(all.take(i as int)),
            decreases n - i,
        {
            let (e, tags) = rest.remove(0);
            proof {
                assert(rest@ =~= all.skip(i + 1));
                assert(all.take(i + 1).drop_last() =~= all.take(i as int));
                assert(all.take(i + 1).last() == all[i as int]);
                assert(e == all[i as int].0 && tags == all[i as int].1);
            }
            elements = put_element(elements, e, tags);
            i = i + 1;
        }
        proof {
            assert(all.take(i as int) =~= all);
        }
        ORSet { elements, tombstones }
    }
}

} // verus!
