//! Fuzzy & exact deduplication engine.

use vstd::prelude::*;

use crate::json::{copy_json, items_view, json_get, json_text, json_wf, Json, JsonV};
use crate::merge::all_wf;
use crate::text::{chars_of, lowercase, same_text, to_lower};

verus! {

/// A similarity score between 0 and 1, as the fraction
/// `numerator / denominator` (the denominator is never 0).
#[derive(Clone, Copy, Debug, PartialEq, Eq, Structural)]
pub struct Similarity {
    pub numerator: usize,
    pub denominator: usize,
}

impl View for Similarity {
    type V = (nat, nat);

    open spec fn view(&self) -> (nat, nat) {
        (self.numerator as nat, self.denominator as nat)
    }
}

// ---------------------------------------------------------------------------
// Jaccard similarity
// ---------------------------------------------------------------------------

/// The pair of characters of `s` at positions `i` and `i + 1`.
pub open spec fn bigram_at(s: Seq<char>, i: int) -> Seq<char> {
    seq![s[i], s[i + 1]]
}

/// The character bigrams of a string: its pairs of adjacent characters; a
/// string of one character has that character as its only item, and the
/// empty string has none.
pub open spec fn bigram_set(s: Seq<char>) -> Set<Seq<char>> {
    if s.len() < 2 {
        if s.len() == 1 {
            set![seq![s[0]]]
        } else {
            Set::empty()
        }
    } else {
        Set::new(|g: Seq<char>| exists|i: int| 0 <= i < s.len() - 1 && g == #[trigger] bigram_at(s, i))
    }
}

/// The Jaccard similarity of two strings already in lowercase, on their
/// character bigrams, as the fraction (shared bigrams, all bigrams): 1 for
/// equal strings and for two strings without bigrams, 0 when only one has
/// none.
pub open spec fn jaccard_lower(la: Seq<char>, lb: Seq<char>) -> (nat, nat) {
    let ga = bigram_set(la);
    let gb = bigram_set(lb);
    if la == lb {
        (1, 1)
    } else if ga.len() == 0 && gb.len() == 0 {
        (1, 1)
    } else if ga.len() == 0 || gb.len() == 0 {
        (0, 1)
    } else {
        (ga.intersect(gb).len(), ga.union(gb).len())
    }
}

/// The Jaccard similarity of two strings, compared without case on their
/// character bigrams.
pub open spec fn jaccard(a: Seq<char>, b: Seq<char>) -> (nat, nat) {
    jaccard_lower(lowercase(a), lowercase(b))
}

/// The characters that a bigram item stands for.
pub open spec fn gram_view(g: (char, Option<char>)) -> Seq<char> {
    match g.1 {
        Some(d) => seq![g.0, d],
        None => seq![g.0],
    }
}

/// The views of a sequence of bigram items.
pub open spec fn grams_view(gs: Seq<(char, Option<char>)>) -> Seq<Seq<char>> {
    Seq::new(gs.len(), |i: int| gram_view(gs[i]))
}

fn same_gram(x: &(char, Option<char>), y: &(char, Option<char>)) -> (r: bool)
    ensures
        r == (gram_view(*x) == gram_view(*y)),
{
    if x.0 != y.0 {
        assert(gram_view(*x)[0] != gram_view(*y)[0]);
        return false;
    }
    match (x.1, y.1) {
        (Some(c), Some(d)) => {
            if c == d {
                assert(gram_view(*x) =~= gram_view(*y));
                true
            } else {
                assert(gram_view(*x)[1] != gram_view(*y)[1]);
                false
            }
        },
        (None, None) => {
            assert(gram_view(*x) =~= gram_view(*y));
            true
        },
        _ => {
            assert(gram_view(*x).len() != gram_view(*y).len());
            false
        },
    }
}

fn has_gram(gs: &Vec<(char, Option<char>)>, g: &(char, Option<char>)) -> (r: bool)
    ensures
        r == grams_view(gs@).contains(gram_view(*g)),
{
    let mut i: usize = 0;
    while i < gs.len()
        invariant
            i <= gs@.len(),
            forall|j: int| 0 <= j < i ==> gram_view(gs@[j]) != gram_view(*g),
        decreases gs@.len() - i,
    {
        if same_gram(&gs[i], g) {
            assert(grams_view(gs@)[i as int] == gram_view(*g));
            return true;
        }
        i = i + 1;
    }
    proof {
        if grams_view(gs@).contains(gram_view(*g)) {
            let j = choose|j: int| 0 <= j < grams_view(gs@).len() && grams_view(gs@)[j] == gram_view(*g);
            assert(gram_view(gs@[j]) == gram_view(*g));
        }
    }
    false
}

/// Produce the set of character bigrams for a string, each once.
fn char_bigrams(s: &str) -> (r: Vec<(char, Option<char>)>)
    ensures
        grams_view(r@).no_duplicates(),
        grams_view(r@).to_set() == bigram_set(s@),
{
    let chars = chars_of(s);
    let mut set: Vec<(char, Option<char>)> = Vec::new();
    if chars.len() < 2 {
        if chars.len() == 1 {
            set.push((chars[0], None));
            proof {
                assert(grams_view(set@) =~= seq![seq![chars@[0]]]);
                assert(grams_view(set@).to_set() =~= bigram_set(s@)) by {
                    assert(grams_view(set@)[0] == seq![chars@[0]]);
                }
            }
        } else {
            proof {
                assert(grams_view(set@).to_set() =~= bigram_set(s@));
            }
        }
        return set;
    }
    let n = chars.len();
    let mut i: usize = 0;
    while i + 1 < n
        invariant
            n == chars@.len(),
            n >= 2,
            chars@ == s@,
            i + 1 <= n,
            grams_view(set@).no_duplicates(),
            grams_view(set@).to_set() == Set::new(|g: Seq<char>| exists|k: int| 0 <= k < i && g == #[trigger] bigram_at(chars@, k)),
        decreases n - i,
    {
        let g = (chars[i], Some(chars[i + 1]));
        let ghost before = set@;
        proof {
            assert(gram_view(g) == bigram_at(chars@, i as int));
        }
        if !has_gram(&set, &g) {
            set.push(g);
            proof {
                assert(grams_view(set@) =~= grams_view(before).push(gram_view(g)));
            }
        }
        proof {
            let goal = Set::new(|x: Seq<char>| exists|k: int| 0 <= k < i + 1 && x == #[trigger] bigram_at(chars@, k));
            assert forall|x: Seq<char>| grams_view(set@).to_set().contains(x) <==> goal.contains(x) by {
                if grams_view(set@).to_set().contains(x) {
                    if x != gram_view(g) {
                        let y = choose|y: int| 0 <= y < grams_view(set@).len() && grams_view(set@)[y] == x;
                        assert(grams_view(before)[y] == x);
                        assert(grams_view(before).to_set().contains(x));
                    } else {
                        assert(x == bigram_at(chars@, i as int));
                    }
                }
                if goal.contains(x) {
                    let k = choose|k: int| 0 <= k < i + 1 && x == bigram_at(chars@, k);
                    if k < i {
                        assert(grams_view(before).to_set().contains(x));
                        let y = choose|y: int| 0 <= y < grams_view(before).len() && grams_view(before)[y] == x;
                        assert(grams_view(set@)[y] == x);
                    } else {
                        if !grams_view(before).contains(gram_view(g)) {
                            assert(grams_view(set@)[before.len() as int] == x);
                        } else {
                            let y = choose|y: int| 0 <= y < grams_view(before).len() && grams_view(before)[y] == x;
                            assert(grams_view(set@)[y] == x);
                        }
                    }
                }
            }
            assert(grams_view(set@).to_set() =~= goal);
        }
        i = i + 1;
    }
    proof {
        assert(grams_view(set@).to_set() =~= bigram_set(s@));
    }
    set
}

proof fn lemma_push_to_set(s: Seq<Seq<char>>, x: Seq<char>)
    ensures
        s.push(x).to_set() == s.to_set().insert(x),
{
    assert forall|y: Seq<char>| s.push(x).to_set().contains(y) <==> s.to_set().insert(x).contains(y) by {
        if s.push(x).to_set().contains(y) && y != x {
            let k = choose|k: int| 0 <= k < s.push(x).len() && s.push(x)[k] == y;
            assert(s[k] == y);
        }
        if s.to_set().contains(y) {
            let k = choose|k: int| 0 <= k < s.len() && s[k] == y;
            assert(s.push(x)[k] == y);
        }
        if y == x {
            assert(s.push(x)[s.len() as int] == y);
        }
    }
    assert(s.push(x).to_set() =~= s.to_set().insert(x));
}

/// All items of `a`, then the items of `b` that `a` lacks.
fn union_grams(a: &Vec<(char, Option<char>)>, b: &Vec<(char, Option<char>)>) -> (r: Vec<(char, Option<char>)>)
    requires
        grams_view(a@).no_duplicates(),
        grams_view(b@).no_duplicates(),
    ensures
        grams_view(r@).no_duplicates(),
        grams_view(r@).to_set() == grams_view(a@).to_set().union(grams_view(b@).to_set()),
{
    let mut r: Vec<(char, Option<char>)> = Vec::new();
    let mut i: usize = 0;
    while i < a.len()
        invariant
            i <= a@.len(),
            grams_view(a@).no_duplicates(),
            r@ == a@.take(i as int),
        decreases a@.len() - i,
    {
        r.push(a[i]);
        proof {
            assert(r@ =~= a@.take(i + 1));
        }
        i = i + 1;
    }
    proof {
        assert(r@ =~= a@);
        assert(grams_view(b@).take(0).to_set() =~= Set::<Seq<char>>::empty());
        assert(grams_view(a@).to_set() =~= grams_view(a@).to_set().union(grams_view(b@).take(0).to_set()));
    }
    let mut j: usize = 0;
    while j < b.len()
        invariant
            j <= b@.len(),
            grams_view(b@).no_duplicates(),
            grams_view(r@).no_duplicates(),
            grams_view(r@).to_set() == grams_view(a@).to_set().union(grams_view(b@).take(j as int).to_set()),
        decreases b@.len() - j,
    {
        let ghost before = grams_view(r@);
        let ghost x = grams_view(b@)[j as int];
        proof {
            assert(grams_view(b@).take(j + 1) =~= grams_view(b@).take(j as int).push(x));
            lemma_push_to_set(grams_view(b@).take(j as int), x);
        }
        if !has_gram(&r, &b[j]) {
            r.push(b[j]);
            proof {
                assert(grams_view(r@) =~= before.push(x));
                lemma_push_to_set(before, x);
                assert(grams_view(r@).to_set() =~= grams_view(a@).to_set().union(grams_view(b@).take(j + 1).to_set()));
            }
        } else {
            proof {
                assert(before.to_set().contains(x));
                assert(grams_view(r@).to_set() =~= grams_view(a@).to_set().union(grams_view(b@).take(j + 1).to_set()));
            }
        }
        j = j + 1;
    }
    proof {
        assert(grams_view(b@).take(j as int) =~= grams_view(b@));
    }
    r
}

/// The number of items of `a` whose bigram `b` also holds.
fn count_shared(a: &Vec<(char, Option<char>)>, b: &Vec<(char, Option<char>)>) -> (r: usize)
    requires
        grams_view(a@).no_duplicates(),
    ensures
        r == grams_view(a@).to_set().intersect(grams_view(b@).to_set()).len(),
{
    let ghost gb = grams_view(b@).to_set();
    let mut count: usize = 0;
    let mut i: usize = 0;
    proof {
        assert(grams_view(a@).take(0).to_set().intersect(gb) =~= Set::empty());
    }
    while i < a.len()
        invariant
            i <= a@.len(),
            gb == grams_view(b@).to_set(),
            grams_view(a@).no_duplicates(),
            count <= i,
            count == grams_view(a@).take(i as int).to_set().intersect(gb).len(),
        decreases a@.len() - i,
    {
        let ghost prefix = grams_view(a@).take(i as int);
        let ghost x = grams_view(a@)[i as int];
        proof {
            assert(grams_view(a@).take(i + 1) =~= prefix.push(x));
            lemma_push_to_set(prefix, x);
            assert(!prefix.to_set().contains(x)) by {
                if prefix.to_set().contains(x) {
                    let y = choose|y: int| 0 <= y < prefix.len() && prefix[y] == x;
                    assert(grams_view(a@)[y] == x);
                }
            }
        }
        if has_gram(b, &a[i]) {
            proof {
                assert(gb.contains(x));
                assert(prefix.to_set().insert(x).intersect(gb) =~= prefix.to_set().intersect(gb).insert(x));
            }
            count = count + 1;
        } else {
            proof {
                assert(!gb.contains(x)) by {
                    if gb.contains(x) {
                        let y = choose|y: int| 0 <= y < grams_view(b@).len() && grams_view(b@)[y] == x;
                    }
                }
                assert(prefix.to_set().insert(x).intersect(gb) =~= prefix.to_set().intersect(gb));
            }
        }
        i = i + 1;
    }
    proof {
        assert(grams_view(a@).take(i as int) =~= grams_view(a@));
    }
    count
}

/// The Jaccard similarity of two strings already in lowercase, on their
/// character bigrams.
pub fn jaccard_of_lowercase(a_lower: &str, b_lower: &str) -> (r: Similarity)
    ensures
        r@ == jaccard_lower(a_lower@, b_lower@),
        r.denominator > 0,
        r.numerator <= r.denominator,
{
    if same_text(a_lower, b_lower) {
        return Similarity { numerator: 1, denominator: 1 };
    }

    let bigrams_a = char_bigrams(a_lower);
    let bigrams_b = char_bigrams(b_lower);
    proof {
        grams_view(bigrams_a@).unique_seq_to_set();
        grams_view(bigrams_b@).unique_seq_to_set();
    }

    if bigrams_a.len() == 0 && bigrams_b.len() == 0 {
        return Similarity { numerator: 1, denominator: 1 };  // both empty
    }
    if bigrams_a.len() == 0 || bigrams_b.len() == 0 {
        return Similarity { numerator: 0, denominator: 1 };
    }

    let intersection = count_shared(&bigrams_a, &bigrams_b);
    let all = union_grams(&bigrams_a, &bigrams_b);
    let ghost ga = grams_view(bigrams_a@).to_set();
    let ghost gb = grams_view(bigrams_b@).to_set();
    proof {
        grams_view(all@).unique_seq_to_set();
        vstd::set_lib::lemma_len_intersect(ga, gb);
        vstd::set_lib::lemma_len_union_ind(ga, gb);
    }
    let union = all.len();
    Similarity { numerator: intersection, denominator: union }
}

/// Compute the Jaccard similarity of two strings based on character bigrams.
///
/// Returns a value in [0, 1]. Empty strings both → 1.
pub fn jaccard_similarity(a: &str, b: &str) -> (r: Similarity)
    ensures
        r@ == jaccard(a@, b@),
        r.denominator > 0,
        r.numerator <= r.denominator,
{
    let a_lower = to_lower(a);
    let b_lower = to_lower(b);
    jaccard_of_lowercase(a_lower.as_str(), b_lower.as_str())
}

// ---------------------------------------------------------------------------
// Deduplication
// ---------------------------------------------------------------------------

/// A pair of duplicate records with their similarity score.
#[derive(Debug)]
pub struct DuplicatePair {
    /// Index of the first record.
    pub index_a: usize,
    /// Index of the second record (kept in `unique`, a is removed).
    pub index_b: usize,
    /// Similarity score between the two records (0–1).
    pub similarity: Similarity,
    /// The first record.
    pub record_a: Json,
    /// The second record.
    pub record_b: Json,
}

/// Result of a deduplication operation.
#[derive(Debug)]
pub struct DedupResult {
    /// The unique (deduplicated) records.
    pub unique: Vec<Json>,
    /// Pairs that were identified as duplicates.
    pub duplicates: Vec<DuplicatePair>,
}

/// Whether the fraction `s` is at least the fraction `t`.
pub open spec fn at_least(s: (nat, nat), t: (nat, nat)) -> bool {
    s.0 * t.1 >= t.0 * s.1
}

/// The fuzzy threshold used when none is given: 0.85.
pub open spec fn default_threshold() -> (nat, nat) {
    (85, 100)
}

/// The text that a record is compared by under `key`: the string itself for
/// a string field, the compact JSON text for any other field, nothing when
/// the field is missing.
pub open spec fn dup_key(v: JsonV, key: Seq<char>) -> Option<Seq<char>> {
    match json_get(v, key) {
        Some(JsonV::Str(s)) => Some(s),
        Some(x) => Some(json_text(x)),
        None => None,
    }
}

/// The view of an optional key.
pub open spec fn key_view(key: Option<&str>) -> Option<Seq<char>> {
    match key {
        Some(k) => Some(k@),
        None => None,
    }
}

/// The texts by which the records are compared: their keys under `key`, or,
/// without a key, their whole compact JSON texts.
pub open spec fn dedup_keys(items: Seq<JsonV>, key: Option<Seq<char>>) -> Seq<Option<Seq<char>>> {
    Seq::new(
        items.len(),
        |i: int|
            match key {
                Some(k) => dup_key(items[i], k),
                None => Some(json_text(items[i])),
            },
    )
}

/// The threshold of fuzzy matching: the given one or 0.85 with a key, none
/// (exact matching only) without a key.
pub open spec fn dedup_threshold(key: Option<Seq<char>>, threshold: Option<Similarity>) -> Option<(nat, nat)> {
    match key {
        Some(_) => match threshold {
            Some(t) => Some(t@),
            None => Some(default_threshold()),
        },
        None => None,
    }
}

/// Whether record `j` duplicates record `i`: both have a text, and the
/// texts are equal or, under a threshold, similar enough.
pub open spec fn matches(ks: Seq<Option<Seq<char>>>, fz: Option<(nat, nat)>, i: int, j: int) -> bool {
    match (ks[i], ks[j]) {
        (Some(a), Some(b)) => a == b || (fz matches Some(t) && at_least(jaccard(a, b), t)),
        _ => false,
    }
}

/// The earliest record before position `upto` that is kept and that record
/// `j` duplicates.
pub open spec fn partner_before(ks: Seq<Option<Seq<char>>>, fz: Option<(nat, nat)>, j: nat, upto: nat) -> Option<nat>
    decreases j, upto,
{
    if upto > j {
        partner_before(ks, fz, j, j)
    } else if upto == 0 {
        None
    } else {
        let i = (upto - 1) as nat;
        match partner_before(ks, fz, j, i) {
            Some(p) => Some(p),
            None => if partner(ks, fz, i) is None && matches(ks, fz, i as int, j as int) {
                Some(i)
            } else {
                None
            },
        }
    }
}

/// The record that record `j` is a duplicate of: the earliest kept record
/// before it that it duplicates; `None` when `j` is kept.
pub open spec fn partner(ks: Seq<Option<Seq<char>>>, fz: Option<(nat, nat)>, j: nat) -> Option<nat>
    decreases j, j + 1,
{
    partner_before(ks, fz, j, j)
}

/// The kept records among the first `n`, in order.
pub open spec fn kept(items: Seq<JsonV>, ks: Seq<Option<Seq<char>>>, fz: Option<(nat, nat)>, n: nat) -> Seq<JsonV>
    decreases n,
{
    if n == 0 {
        Seq::empty()
    } else {
        let before = kept(items, ks, fz, (n - 1) as nat);
        if partner(ks, fz, (n - 1) as nat) is None {
            before.push(items[n - 1])
        } else {
            before
        }
    }
}

/// The similarity recorded for record `a` found a duplicate of record `b`:
/// 1 for equal texts, their Jaccard similarity otherwise.
pub open spec fn pair_similarity(ks: Seq<Option<Seq<char>>>, b: int, a: int) -> (nat, nat) {
    if ks[b] == ks[a] {
        (1, 1)
    } else {
        jaccard(ks[b]->0, ks[a]->0)
    }
}

/// A reported pair is a record and the record it duplicates, with both
/// records and their similarity.
pub open spec fn pair_correct(
    items: Seq<JsonV>,
    ks: Seq<Option<Seq<char>>>,
    fz: Option<(nat, nat)>,
    d: DuplicatePair,
) -> bool {
    &&& d.index_a < items.len()
    &&& partner(ks, fz, d.index_a as nat) == Some(d.index_b as nat)
    &&& d.record_a@ == items[d.index_a as int]
    &&& d.record_b@ == items[d.index_b as int]
    &&& d.similarity@ == pair_similarity(ks, d.index_b as int, d.index_a as int)
}

/// The order of the reported pairs: by kept record, then by duplicate, with
/// a key; by duplicate without one.
pub open spec fn pair_order(keyed: bool, d: DuplicatePair, e: DuplicatePair) -> bool {
    if keyed {
        d.index_b < e.index_b || (d.index_b == e.index_b && d.index_a < e.index_a)
    } else {
        d.index_a < e.index_a
    }
}

/// The number of marks that are set.
pub open spec fn count_marked(s: Seq<bool>) -> nat
    decreases s.len(),
{
    if s.len() == 0 {
        0
    } else {
        count_marked(s.drop_last()) + if s.last() { 1nat } else { 0nat }
    }
}

proof fn lemma_count_set(s: Seq<bool>, j: int)
    requires
        0 <= j < s.len(),
        !s[j],
    ensures
        count_marked(s.update(j, true)) == count_marked(s) + 1,
    decreases s.len(),
{
    let t = s.update(j, true);
    if j < s.len() - 1 {
        assert(t.drop_last() =~= s.drop_last().update(j, true));
        lemma_count_set(s.drop_last(), j);
    } else {
        assert(t.drop_last() =~= s.drop_last());
    }
}

proof fn lemma_count_none(n: nat)
    ensures
        count_marked(Seq::new(n, |i: int| false)) == 0,
    decreases n,
{
    if n > 0 {
        assert(Seq::new(n, |i: int| false).drop_last() =~= Seq::new((n - 1) as nat, |i: int| false));
        lemma_count_none((n - 1) as nat);
    }
}

/// Once some record before `upto` is found, later bounds find the same one.
proof fn lemma_partner_stable(ks: Seq<Option<Seq<char>>>, fz: Option<(nat, nat)>, j: nat, u: nat, w: nat)
    requires
        u <= w <= j,
        partner_before(ks, fz, j, u) is Some,
    ensures
        partner_before(ks, fz, j, w) == partner_before(ks, fz, j, u),
    decreases w,
{
    if w > u {
        lemma_partner_stable(ks, fz, j, u, (w - 1) as nat);
    }
}

/// What a found partner is.
proof fn lemma_partner_found(ks: Seq<Option<Seq<char>>>, fz: Option<(nat, nat)>, j: nat, u: nat)
    requires
        u <= j,
        partner_before(ks, fz, j, u) is Some,
    ensures
        ({
            let b = partner_before(ks, fz, j, u)->0;
            &&& b < u
            &&& partner(ks, fz, b) is None
            &&& matches(ks, fz, b as int, j as int)
        }),
    decreases u,
{
    if u > 0 && partner_before(ks, fz, j, (u - 1) as nat) is Some {
        lemma_partner_found(ks, fz, j, (u - 1) as nat);
    }
}

/// Whether the fraction `s` is at least the fraction `t`.
fn reaches(s: Similarity, t: Similarity) -> (r: bool)
    ensures
        r == at_least(s@, t@),
{
    let a = s.numerator as u128;
    let b = t.denominator as u128;
    let c = t.numerator as u128;
    let d = s.denominator as u128;
    assert(a * b <= u64::MAX * u64::MAX) by (nonlinear_arith)
        requires
            a <= u64::MAX,
            b <= u64::MAX,
    ;
    assert(c * d <= u64::MAX * u64::MAX) by (nonlinear_arith)
        requires
            c <= u64::MAX,
            d <= u64::MAX,
    ;
    a * b >= c * d
}

/// Extract a string representation of a field from a JSON value.
fn extract_string(value: &Json, key: &str) -> (r: Option<String>)
    requires
        value.wf(),
    ensures
        match r {
            Some(s) => dup_key(value@, key@) == Some(s@),
            None => dup_key(value@, key@) is None,
        },
{
    match value.get(key) {
        Some(Json::Str(s)) => Some(s.clone()),
        Some(v) => Some(v.to_text()),
        None => None,
    }
}

/// The view of an optional text.
pub open spec fn opt_view(o: Option<String>) -> Option<Seq<char>> {
    match o {
        Some(s) => Some(s@),
        None => None,
    }
}

/// The views of optional texts.
pub open spec fn opts_view(os: Seq<Option<String>>) -> Seq<Option<Seq<char>>> {
    Seq::new(os.len(), |i: int| opt_view(os[i]))
}

/// Nothing before `u` is a kept record that record `j` duplicates.
proof fn lemma_partner_none(ks: Seq<Option<Seq<char>>>, fz: Option<(nat, nat)>, j: nat, u: nat)
    requires
        u <= j,
        forall|y: int| 0 <= y < u ==> !(partner(ks, fz, y as nat) is None && #[trigger] matches(ks, fz, y, j as int)),
    ensures
        partner_before(ks, fz, j, u) is None,
    decreases u,
{
    if u > 0 {
        lemma_partner_none(ks, fz, j, (u - 1) as nat);
        assert(!(partner(ks, fz, (u - 1) as nat) is None && matches(ks, fz, u - 1, j as int)));
    }
}

/// The texts by which the records are compared.
fn dedup_key_list(items: &[Json], key: Option<&str>) -> (r: Vec<Option<String>>)
    requires
        all_wf(items_view(items@)),
    ensures
        opts_view(r@) == dedup_keys(items_view(items@), key_view(key)),
{
    let mut r: Vec<Option<String>> = Vec::new();
    let mut i: usize = 0;
    while i < items.len()
        invariant
            i <= items@.len(),
            all_wf(items_view(items@)),
            r@.len() == i,
            forall|x: int| 0 <= x < i ==> opt_view(#[trigger] r@[x]) == dedup_keys(items_view(items@), key_view(key))[x],
        decreases items@.len() - i,
    {
        assert(json_wf(items_view(items@)[i as int]));
        let k = match key {
            Some(name) => extract_string(&items[i], name),
            None => Some(items[i].to_text()),
        };
        r.push(k);
        i = i + 1;
    }
    proof {
        assert(opts_view(r@) =~= dedup_keys(items_view(items@), key_view(key)));
    }
    r
}

/// A row of unset marks.
fn no_marks(n: usize) -> (r: Vec<bool>)
    ensures
        r@ == Seq::new(n as nat, |i: int| false),
        count_marked(r@) == 0,
{
    let mut r: Vec<bool> = Vec::new();
    let mut t: usize = 0;
    while t < n
        invariant
            t <= n,
            r@ == Seq::new(t as nat, |i: int| false),
        decreases n - t,
    {
        r.push(false);
        t = t + 1;
        assert(r@ =~= Seq::new(t as nat, |i: int| false));
    }
    proof {
        lemma_count_none(n as nat);
    }
    r
}

/// Whether record `y` is unmarked and has the same text as record `i`.
pub open spec fn kept_equal(is_dup: Seq<bool>, keys: Seq<Option<String>>, y: int, i: int) -> bool {
    !is_dup[y] && keys[y] is Some && keys[i] is Some && keys[y]->0@ == keys[i]->0@
}

/// The earliest unmarked record before `i` with the same text as record `i`.
fn earliest_equal(is_dup: &Vec<bool>, keys: &Vec<Option<String>>, i: usize) -> (r: Option<usize>)
    requires
        i < keys@.len(),
        is_dup@.len() == keys@.len(),
    ensures
        match r {
            Some(j) => j < i && kept_equal(is_dup@, keys@, j as int, i as int)
                && forall|y: int| 0 <= y < j ==> !#[trigger] kept_equal(is_dup@, keys@, y, i as int),
            None => forall|y: int| 0 <= y < i ==> !#[trigger] kept_equal(is_dup@, keys@, y, i as int),
        },
{
    let mut j: usize = 0;
    while j < i
        invariant
            i < keys@.len(),
            is_dup@.len() == keys@.len(),
            j <= i,
            forall|y: int| 0 <= y < j ==> !#[trigger] kept_equal(is_dup@, keys@, y, i as int),
        decreases i - j,
    {
        if !is_dup[j] {
            match (&keys[j], &keys[i]) {
                (Some(a), Some(b)) => {
                    if same_text(a, b) {
                        return Some(j);
                    }
                },
                _ => {},
            }
        }
        j = j + 1;
    }
    None
}

/// Exact deduplication on whole texts: each record equal to an earlier one
/// is marked, paired with the earliest such record.
fn mark_exact(items: &[Json], keys: &Vec<Option<String>>) -> (r: (Vec<bool>, Vec<DuplicatePair>))
    requires
        keys@.len() == items@.len(),
    ensures
        r.0@.len() == items@.len(),
        forall|x: int| 0 <= x < items@.len() ==> #[trigger] r.0@[x] == (partner(opts_view(keys@), None, x as nat) is Some),
        r.1@.len() == count_marked(r.0@),
        forall|k: int| 0 <= k < r.1@.len() ==> pair_correct(items_view(items@), opts_view(keys@), None, #[trigger] r.1@[k]),
        forall|x: int| 0 <= x < items@.len() && #[trigger] partner(opts_view(keys@), None, x as nat) is Some
            ==> exists|k: int| 0 <= k < r.1@.len() && #[trigger] r.1@[k].index_a == x,
        forall|k1: int, k2: int| 0 <= k1 < k2 < r.1@.len() ==> pair_order(false, #[trigger] r.1@[k1], #[trigger] r.1@[k2]),
{
    let n = items.len();
    let ghost ks = opts_view(keys@);
    let ghost fz: Option<(nat, nat)> = None;
    let mut is_dup = no_marks(n);
    let mut dups: Vec<DuplicatePair> = Vec::new();
    let mut i: usize = 0;
    while i < n
        invariant
            n == items@.len(),
            n == keys@.len(),
            ks == opts_view(keys@),
            fz is None,
            i <= n,
            is_dup@.len() == n,
            forall|x: int| 0 <= x < n ==> #[trigger] is_dup@[x] == (x < i && partner(ks, fz, x as nat) is Some),
            dups@.len() == count_marked(is_dup@),
            forall|k: int| 0 <= k < dups@.len() ==> pair_correct(items_view(items@), ks, fz, #[trigger] dups@[k]) && dups@[k].index_a < i,
            forall|x: int| 0 <= x < i && #[trigger] partner(ks, fz, x as nat) is Some
                ==> exists|k: int| 0 <= k < dups@.len() && #[trigger] dups@[k].index_a == x,
            forall|k1: int, k2: int| 0 <= k1 < k2 < dups@.len() ==> pair_order(false, #[trigger] dups@[k1], #[trigger] dups@[k2]),
        decreases n - i,
    {
        let found = earliest_equal(&is_dup, keys, i);
        proof {
            assert forall|y: int| 0 <= y < i implies (kept_equal(is_dup@, keys@, y, i as int)
                <==> (partner(ks, fz, y as nat) is None && #[trigger] matches(ks, fz, y, i as int))) by {
                assert(is_dup@[y] == (partner(ks, fz, y as nat) is Some));
                assert(ks[y] == opt_view(keys@[y]));
                assert(ks[i as int] == opt_view(keys@[i as int]));
            }
        }
        match found {
            Some(j) => {
                proof {
                    lemma_partner_none(ks, fz, i as nat, j as nat);
                    assert(partner_before(ks, fz, i as nat, (j + 1) as nat) == Some(j as nat));
                    lemma_partner_stable(ks, fz, i as nat, (j + 1) as nat, i as nat);
                    assert(ks[j as int] == ks[i as int]);
                    lemma_count_set(is_dup@, i as int);
                }
                let ghost before = dups@;
                let pair = DuplicatePair {
                    index_a: i,
                    index_b: j,
                    similarity: Similarity { numerator: 1, denominator: 1 },
                    record_a: copy_json(&items[i]),
                    record_b: copy_json(&items[j]),
                };
                dups.push(pair);
                is_dup.set(i, true);
                proof {
                    assert(dups@[before.len() as int].index_a == i);
                    assert forall|x: int| 0 <= x < i + 1 && #[trigger] partner(ks, fz, x as nat) is Some
                        implies exists|k: int| 0 <= k < dups@.len() && #[trigger] dups@[k].index_a == x by {
                        if x < i {
                            let k = choose|k: int| 0 <= k < before.len() && #[trigger] before[k].index_a == x;
                            assert(dups@[k] == before[k]);
                        }
                    }
                    assert forall|k: int| 0 <= k < dups@.len() implies pair_correct(items_view(items@), ks, fz, #[trigger] dups@[k]) && dups@[k].index_a < i + 1 by {
                        if k < before.len() {
                            assert(dups@[k] == before[k]);
                        }
                    }
                    assert forall|k1: int, k2: int| 0 <= k1 < k2 < dups@.len() implies pair_order(false, #[trigger] dups@[k1], #[trigger] dups@[k2]) by {
                        if k2 < before.len() {
                            assert(dups@[k1] == before[k1] && dups@[k2] == before[k2]);
                        } else {
                            assert(dups@[k1] == before[k1]);
                        }
                    }
                }
            },
            None => {
                proof {
                    lemma_partner_none(ks, fz, i as nat, i as nat);
                }
            },
        }
        i = i + 1;
    }
    (is_dup, dups)
}

/// Where record `x` stands in a pass over the kept record `i` that has
/// reached record `j`: records up to `i` are settled, those before `j` have
/// been compared with `i`, the rest not yet.
pub open spec fn scan_bound(x: int, i: int, j: int) -> nat {
    if x <= i {
        x as nat
    } else if x < j {
        (i + 1) as nat
    } else {
        i as nat
    }
}

/// Key deduplication: each record is compared with every earlier kept
/// record, exactly on equal keys and fuzzily on the Jaccard similarity of
/// the keys.
fn mark_fuzzy(items: &[Json], keys: &Vec<Option<String>>, thr: Similarity) -> (r: (Vec<bool>, Vec<DuplicatePair>))
    requires
        keys@.len() == items@.len(),
    ensures
        r.0@.len() == items@.len(),
        forall|x: int| 0 <= x < items@.len() ==> #[trigger] r.0@[x] == (partner(opts_view(keys@), Some(thr@), x as nat) is Some),
        r.1@.len() == count_marked(r.0@),
        forall|k: int| 0 <= k < r.1@.len() ==> pair_correct(items_view(items@), opts_view(keys@), Some(thr@), #[trigger] r.1@[k]),
        forall|x: int| 0 <= x < items@.len() && #[trigger] partner(opts_view(keys@), Some(thr@), x as nat) is Some
            ==> exists|k: int| 0 <= k < r.1@.len() && #[trigger] r.1@[k].index_a == x,
        forall|k1: int, k2: int| 0 <= k1 < k2 < r.1@.len() ==> pair_order(true, #[trigger] r.1@[k1], #[trigger] r.1@[k2]),
{
    let n = items.len();
    let ghost ks = opts_view(keys@);
    let ghost fz = Some(thr@);
    let mut is_dup = no_marks(n);
    let mut dups: Vec<DuplicatePair> = Vec::new();
    let mut i: usize = 0;
    while i < n
        invariant
            n == items@.len(),
            n == keys@.len(),
            ks == opts_view(keys@),
            fz == Some(thr@),
            i <= n,
            is_dup@.len() == n,
            forall|x: int| 0 <= x < n ==> #[trigger] is_dup@[x] == (partner_before(ks, fz, x as nat, scan_bound(x, i as int, i as int)) is Some),
            dups@.len() == count_marked(is_dup@),
            forall|k: int| 0 <= k < dups@.len() ==> pair_correct(items_view(items@), ks, fz, #[trigger] dups@[k]) && dups@[k].index_b < i,
            forall|x: int| 0 <= x < n && #[trigger] partner(ks, fz, x as nat) is Some && partner(ks, fz, x as nat)->0 < i
                ==> exists|k: int| 0 <= k < dups@.len() && #[trigger] dups@[k].index_a == x,
            forall|k1: int, k2: int| 0 <= k1 < k2 < dups@.len() ==> pair_order(true, #[trigger] dups@[k1], #[trigger] dups@[k2]),
        decreases n - i,
    {
        let ghost settled = is_dup@[i as int];
        assert(settled == (partner(ks, fz, i as nat) is Some));
        if !is_dup[i] {
            proof {
                assert forall|x: int| 0 <= x < n && #[trigger] partner(ks, fz, x as nat) is Some
                    && (partner(ks, fz, x as nat)->0 < i || (partner(ks, fz, x as nat)->0 == i && x < i + 1))
                    implies exists|k: int| 0 <= k < dups@.len() && #[trigger] dups@[k].index_a == x by {
                    lemma_partner_found(ks, fz, x as nat, x as nat);
                }
            }
            let mut j: usize = i + 1;
            while j < n
                invariant
                    n == items@.len(),
                    n == keys@.len(),
                    ks == opts_view(keys@),
                    fz == Some(thr@),
                    i < j <= n,
                    partner(ks, fz, i as nat) is None,
                    is_dup@.len() == n,
                    forall|x: int| 0 <= x < n ==> #[trigger] is_dup@[x] == (partner_before(ks, fz, x as nat, scan_bound(x, i as int, j as int)) is Some),
                    dups@.len() == count_marked(is_dup@),
                    forall|k: int| 0 <= k < dups@.len() ==> pair_correct(items_view(items@), ks, fz, #[trigger] dups@[k])
                        && (dups@[k].index_b < i || (dups@[k].index_b == i && dups@[k].index_a < j)),
                    forall|x: int| 0 <= x < n && #[trigger] partner(ks, fz, x as nat) is Some
                        && (partner(ks, fz, x as nat)->0 < i || (partner(ks, fz, x as nat)->0 == i && x < j))
                        ==> exists|k: int| 0 <= k < dups@.len() && #[trigger] dups@[k].index_a == x,
                    forall|k1: int, k2: int| 0 <= k1 < k2 < dups@.len() ==> pair_order(true, #[trigger] dups@[k1], #[trigger] dups@[k2]),
                decreases n - j,
            {
                let ghost was = is_dup@[j as int];
                let ghost prev = partner_before(ks, fz, j as nat, i as nat);
                assert(was == (prev is Some));
                let mut sim: Option<Similarity> = None;
                if !is_dup[j] {
                    match (&keys[i], &keys[j]) {
                        (Some(a), Some(b)) => {
                            proof {
                                assert(ks[i as int] == Some(a@));
                                assert(ks[j as int] == Some(b@));
                            }
                            if same_text(a, b) {
                                sim = Some(Similarity { numerator: 1, denominator: 1 });
                            } else {
                                let s = jaccard_similarity(a.as_str(), b.as_str());
                                if reaches(s, thr) {
                                    sim = Some(s);
                                }
                            }
                        },
                        _ => {
                            proof {
                                assert(ks[i as int] == opt_view(keys@[i as int]));
                                assert(ks[j as int] == opt_view(keys@[j as int]));
                            }
                        },
                    }
                }
                match sim {
                    Some(sv) => {
                        proof {
                            assert(matches(ks, fz, i as int, j as int));
                            assert(partner_before(ks, fz, j as nat, (i + 1) as nat) == Some(i as nat));
                            lemma_partner_stable(ks, fz, j as nat, (i + 1) as nat, j as nat);
                            assert(sv@ == pair_similarity(ks, i as int, j as int));
                            lemma_count_set(is_dup@, j as int);
                        }
                        let ghost before = dups@;
                        let ghost marks = is_dup@;
                        let pair = DuplicatePair {
                            index_a: j,
                            index_b: i,
                            similarity: sv,
                            record_a: copy_json(&items[j]),
                            record_b: copy_json(&items[i]),
                        };
                        dups.push(pair);
                        is_dup.set(j, true);
                        proof {
                            assert(dups@[before.len() as int].index_a == j);
                            assert forall|x: int| 0 <= x < n implies #[trigger] is_dup@[x] == (partner_before(ks, fz, x as nat, scan_bound(x, i as int, j + 1)) is Some) by {
                                if x != j {
                                    assert(is_dup@[x] == marks[x]);
                                }
                            }
                            assert forall|x: int| 0 <= x < n && #[trigger] partner(ks, fz, x as nat) is Some
                                && (partner(ks, fz, x as nat)->0 < i || (partner(ks, fz, x as nat)->0 == i && x < j + 1))
                                implies exists|k: int| 0 <= k < dups@.len() && #[trigger] dups@[k].index_a == x by {
                                if x != j {
                                    let k = choose|k: int| 0 <= k < before.len() && #[trigger] before[k].index_a == x;
                                    assert(dups@[k] == before[k]);
                                }
                            }
                            assert forall|k: int| 0 <= k < dups@.len() implies pair_correct(items_view(items@), ks, fz, #[trigger] dups@[k])
                                && (dups@[k].index_b < i || (dups@[k].index_b == i && dups@[k].index_a < j + 1)) by {
                                if k < before.len() {
                                    assert(dups@[k] == before[k]);
                                }
                            }
                            assert forall|k1: int, k2: int| 0 <= k1 < k2 < dups@.len() implies pair_order(true, #[trigger] dups@[k1], #[trigger] dups@[k2]) by {
                                if k2 < before.len() {
                                    assert(dups@[k1] == before[k1] && dups@[k2] == before[k2]);
                                } else {
                                    assert(dups@[k1] == before[k1]);
                                }
                            }
                        }
                    },
                    None => {
                        proof {
                            if was {
                                lemma_partner_stable(ks, fz, j as nat, i as nat, (i + 1) as nat);
                                lemma_partner_stable(ks, fz, j as nat, i as nat, j as nat);
                                lemma_partner_found(ks, fz, j as nat, i as nat);
                            } else {
                                assert(!matches(ks, fz, i as int, j as int));
                                assert(partner_before(ks, fz, j as nat, (i + 1) as nat) is None);
                            }
                            assert forall|x: int| 0 <= x < n implies #[trigger] is_dup@[x] == (partner_before(ks, fz, x as nat, scan_bound(x, i as int, j + 1)) is Some) by {
                                if x == j {
                                    assert(scan_bound(x, i as int, j + 1) == i + 1);
                                }
                            }
                            assert forall|x: int| 0 <= x < n && #[trigger] partner(ks, fz, x as nat) is Some
                                && (partner(ks, fz, x as nat)->0 < i || (partner(ks, fz, x as nat)->0 == i && x < j + 1))
                                implies exists|k: int| 0 <= k < dups@.len() && #[trigger] dups@[k].index_a == x by {
                                if x == j && partner(ks, fz, x as nat)->0 == i {
                                    if !was {
                                        lemma_partner_found(ks, fz, j as nat, j as nat);
                                        assert(partner_before(ks, fz, j as nat, (i + 1) as nat) is None);
                                        if partner_before(ks, fz, j as nat, (i + 2) as nat) is Some {
                                            lemma_partner_stable(ks, fz, j as nat, (i + 2) as nat, j as nat);
                                        }
                                    }
                                }
                            }
                        }
                    },
                }
                j = j + 1;
            }
        } else {
            proof {
                assert forall|x: int| 0 <= x < n implies #[trigger] is_dup@[x] == (partner_before(ks, fz, x as nat, scan_bound(x, i + 1, i + 1)) is Some) by {
                    if x > i {
                        assert(scan_bound(x, i + 1, i + 1) == i + 1);
                    }
                }
                assert forall|x: int| 0 <= x < n && #[trigger] partner(ks, fz, x as nat) is Some && partner(ks, fz, x as nat)->0 < i + 1
                    implies exists|k: int| 0 <= k < dups@.len() && #[trigger] dups@[k].index_a == x by {
                    lemma_partner_found(ks, fz, x as nat, x as nat);
                }
            }
        }
        i = i + 1;
    }
    proof {
        assert forall|x: int| 0 <= x < n implies #[trigger] is_dup@[x] == (partner(ks, fz, x as nat) is Some) by {
            assert(scan_bound(x, n as int, n as int) == x);
        }
        assert forall|x: int| 0 <= x < n && #[trigger] partner(ks, fz, x as nat) is Some
            implies exists|k: int| 0 <= k < dups@.len() && #[trigger] dups@[k].index_a == x by {
            lemma_partner_found(ks, fz, x as nat, x as nat);
        }
    }
    (is_dup, dups)
}

/// The records whose mark is not set, in order.
fn kept_records(
    items: &[Json],
    is_dup: &Vec<bool>,
    Ghost(ks): Ghost<Seq<Option<Seq<char>>>>,
    Ghost(fz): Ghost<Option<(nat, nat)>>,
) -> (r: Vec<Json>)
    requires
        is_dup@.len() == items@.len(),
        forall|x: int| 0 <= x < items@.len() ==> #[trigger] is_dup@[x] == (partner(ks, fz, x as nat) is Some),
    ensures
        items_view(r@) == kept(items_view(items@), ks, fz, items@.len() as nat),
        r@.len() + count_marked(is_dup@) == items@.len(),
{
    let mut r: Vec<Json> = Vec::new();
    let mut x: usize = 0;
    proof {
        assert(items_view(r@) =~= kept(items_view(items@), ks, fz, 0));
        assert(is_dup@.take(0) =~= Seq::<bool>::empty());
    }
    while x < items.len()
        invariant
            x <= items@.len(),
            is_dup@.len() == items@.len(),
            forall|y: int| 0 <= y < items@.len() ==> #[trigger] is_dup@[y] == (partner(ks, fz, y as nat) is Some),
            items_view(r@) == kept(items_view(items@), ks, fz, x as nat),
            r@.len() + count_marked(is_dup@.take(x as int)) == x,
        decreases items@.len() - x,
    {
        let ghost before = r@;
        proof {
            assert(is_dup@.take(x + 1).drop_last() =~= is_dup@.take(x as int));
            assert(is_dup@.take(x + 1).last() == is_dup@[x as int]);
        }
        if !is_dup[x] {
            r.push(copy_json(&items[x]));
            proof {
                assert(items_view(r@) =~= items_view(before).push(items_view(items@)[x as int]));
            }
        }
        x = x + 1;
    }
    proof {
        assert(is_dup@.take(x as int) =~= is_dup@);
    }
    r
}

/// Deduplicate a list of JSON records.
///
/// If `key` is provided, records with identical key values are considered
/// exact duplicates. Additionally, string values of the key field are compared
/// using Jaccard similarity; pairs reaching `threshold` (default 0.85) are
/// flagged as fuzzy duplicates.
///
/// When no key is given, the full JSON serialisation is used for exact
/// matching, and no fuzzy matching is performed.
pub fn dedup(items: &[Json], key: Option<&str>, threshold: Option<Similarity>) -> (r: DedupResult)
    requires
        all_wf(items_view(items@)),
    ensures
        ({
            let ks = dedup_keys(items_view(items@), key_view(key));
            let fz = dedup_threshold(key_view(key), threshold);
            &&& items_view(r.unique@) == kept(items_view(items@), ks, fz, items@.len() as nat)
            &&& forall|k: int| 0 <= k < r.duplicates@.len()
                ==> pair_correct(items_view(items@), ks, fz, #[trigger] r.duplicates@[k])
            &&& forall|x: int| 0 <= x < items@.len() && #[trigger] partner(ks, fz, x as nat) is Some
                ==> exists|k: int| 0 <= k < r.duplicates@.len() && #[trigger] r.duplicates@[k].index_a == x
            &&& forall|k1: int, k2: int| 0 <= k1 < k2 < r.duplicates@.len()
                ==> pair_order(key is Some, #[trigger] r.duplicates@[k1], #[trigger] r.duplicates@[k2])
        }),
        r.unique@.len() + r.duplicates@.len() == items@.len(),
{
    let keys = dedup_key_list(items, key);
    let ghost ks = dedup_keys(items_view(items@), key_view(key));
    let ghost fz = dedup_threshold(key_view(key), threshold);
    assert(opts_view(keys@).len() == keys@.len());
    assert(ks == opts_view(keys@));
    let (is_dup, duplicates) = match key {
        Some(_) => {
            let thr = match threshold {
                Some(t) => t,
                None => Similarity { numerator: 85, denominator: 100 },
            };
            assert(fz == Some(thr@));
            mark_fuzzy(items, &keys, thr)
        },
        None => {
            assert(fz is None);
            mark_exact(items, &keys)
        },
    };
    assert(forall|k1: int, k2: int| 0 <= k1 < k2 < duplicates@.len()
        ==> pair_order(key is Some, #[trigger] duplicates@[k1], #[trigger] duplicates@[k2]));
    assert(forall|k: int| 0 <= k < duplicates@.len() ==> pair_correct(items_view(items@), ks, fz, #[trigger] duplicates@[k]));
    let unique = kept_records(items, &is_dup, Ghost(ks), Ghost(fz));
    assert(items_view(unique@) == kept(items_view(items@), ks, fz, items@.len() as nat));
    assert(forall|x: int| 0 <= x < items@.len() && #[trigger] partner(ks, fz, x as nat) is Some
        ==> exists|k: int| 0 <= k < duplicates@.len() && #[trigger] duplicates@[k].index_a == x);
    let r = DedupResult { unique, duplicates };
    assert(r.duplicates@ == duplicates@);
    r
}

impl Clone for DuplicatePair {
    fn clone(&self) -> (r: Self)
        ensures
            r.index_a == self.index_a,
            r.index_b == self.index_b,
            r.similarity == self.similarity,
            r.record_a@ == self.record_a@,
            r.record_b@ == self.record_b@,
    {
        DuplicatePair {
            index_a: self.index_a,
            index_b: self.index_b,
            similarity: self.similarity,
            record_a: copy_json(&self.record_a),
            record_b: copy_json(&self.record_b),
        }
    }
}

// ---------------------------------------------------------------------------
// Laws
// ---------------------------------------------------------------------------

/// The Jaccard similarity does not depend on the order of the two strings.
pub proof fn lemma_jaccard_symmetric(a: Seq<char>, b: Seq<char>)
    ensures
        jaccard(a, b) == jaccard(b, a),
{
    let ga = bigram_set(lowercase(a));
    let gb = bigram_set(lowercase(b));
    assert(ga.intersect(gb) =~= gb.intersect(ga));
    assert(jaccard(a, b) == jaccard_lower(lowercase(a), lowercase(b)));
    assert(ga.union(gb) =~= gb.union(ga));
}

/// A string is fully similar to itself, the empty string included.
pub proof fn lemma_jaccard_self(a: Seq<char>)
    ensures
        jaccard(a, a) == (1nat, 1nat),
{
}

/// No two kept records are duplicates of one another: the kept records of
/// a deduplication hold no pair that a second pass would join.
pub proof fn lemma_kept_records_distinct(ks: Seq<Option<Seq<char>>>, fz: Option<(nat, nat)>, i: nat, j: nat)
    requires
        i < j,
        partner(ks, fz, i) is None,
        partner(ks, fz, j) is None,
    ensures
        !matches(ks, fz, i as int, j as int),
{
    if matches(ks, fz, i as int, j as int) {
        assert(partner_before(ks, fz, j, (i + 1) as nat) == Some(i)) by {
            if partner_before(ks, fz, j, i) is Some {
                lemma_partner_stable(ks, fz, j, i, j);
            }
        }
        lemma_partner_stable(ks, fz, j, (i + 1) as nat, j);
    }
}

/// A record without a key is never taken for a duplicate.
pub proof fn lemma_keyless_record_kept(ks: Seq<Option<Seq<char>>>, fz: Option<(nat, nat)>, j: nat)
    requires
        ks[j as int] is None,
    ensures
        partner(ks, fz, j) is None,
{
    if partner(ks, fz, j) is Some {
        lemma_partner_found(ks, fz, j, j);
    }
}

/// The positions of the kept records among the first `n`, in order.
pub open spec fn kept_indices(ks: Seq<Option<Seq<char>>>, fz: Option<(nat, nat)>, n: nat) -> Seq<nat>
    decreases n,
{
    if n == 0 {
        Seq::empty()
    } else {
        let before = kept_indices(ks, fz, (n - 1) as nat);
        if partner(ks, fz, (n - 1) as nat) is None {
            before.push((n - 1) as nat)
        } else {
            before
        }
    }
}

proof fn lemma_kept_indices(items: Seq<JsonV>, ks: Seq<Option<Seq<char>>>, fz: Option<(nat, nat)>, n: nat)
    ensures
        kept(items, ks, fz, n).len() == kept_indices(ks, fz, n).len(),
        forall|m: int| 0 <= m < kept_indices(ks, fz, n).len() ==> {
            let x = #[trigger] kept_indices(ks, fz, n)[m];
            &&& x < n
            &&& partner(ks, fz, x) is None
            &&& kept(items, ks, fz, n)[m] == items[x as int]
        },
        forall|m1: int, m2: int| 0 <= m1 < m2 < kept_indices(ks, fz, n).len()
            ==> #[trigger] kept_indices(ks, fz, n)[m1] < #[trigger] kept_indices(ks, fz, n)[m2],
    decreases n,
{
    if n > 0 {
        lemma_kept_indices(items, ks, fz, (n - 1) as nat);
    }
}

proof fn lemma_kept_all(items: Seq<JsonV>, ks: Seq<Option<Seq<char>>>, fz: Option<(nat, nat)>, n: nat)
    requires
        n <= items.len(),
        forall|j: nat| j < n ==> #[trigger] partner(ks, fz, j) is None,
    ensures
        kept(items, ks, fz, n) == items.take(n as int),
    decreases n,
{
    if n > 0 {
        lemma_kept_all(items, ks, fz, (n - 1) as nat);
        assert(partner(ks, fz, (n - 1) as nat) is None);
        assert(items.take(n as int) =~= items.take(n - 1).push(items[n - 1]));
    }
}

/// Deduplicating the kept records again, with the same key and threshold,
/// finds no duplicates and keeps every record.
pub proof fn lemma_dedup_idempotent(items: Seq<JsonV>, key: Option<Seq<char>>, threshold: Option<Similarity>)
    ensures
        ({
            let fz = dedup_threshold(key, threshold);
            let unique = kept(items, dedup_keys(items, key), fz, items.len());
            let again = dedup_keys(unique, key);
            &&& forall|j: nat| j < unique.len() ==> #[trigger] partner(again, fz, j) is None
            &&& kept(unique, again, fz, unique.len()) == unique
        }),
{
    let ks = dedup_keys(items, key);
    let fz = dedup_threshold(key, threshold);
    let n = items.len();
    let unique = kept(items, ks, fz, n);
    let again = dedup_keys(unique, key);
    let idx = kept_indices(ks, fz, n);
    lemma_kept_indices(items, ks, fz, n);
    assert forall|m: int| 0 <= m < unique.len() implies #[trigger] again[m] == ks[idx[m] as int] by {
        assert(unique[m] == items[idx[m] as int]);
    }
    assert forall|m1: int, m2: int| 0 <= m1 < m2 < unique.len() implies !#[trigger] matches(again, fz, m1, m2) by {
        assert(idx[m1] < idx[m2]);
        assert(again[m1] == ks[idx[m1] as int]);
        assert(again[m2] == ks[idx[m2] as int]);
        lemma_kept_records_distinct(ks, fz, idx[m1], idx[m2]);
    }
    assert forall|j: nat| j < unique.len() implies #[trigger] partner(again, fz, j) is None by {
        lemma_partner_none(again, fz, j, j);
    }
    lemma_kept_all(unique, again, fz, unique.len());
    assert(unique.take(unique.len() as int) =~= unique);
}

/// With a key and no threshold, fuzzy matching uses 0.85: two keyed records
/// match exactly when their key texts are equal or their Jaccard similarity
/// reaches 85/100.
pub proof fn lemma_dedup_default_threshold(items: Seq<JsonV>, k: Seq<char>, i: nat, j: nat)
    requires
        i < items.len(),
        j < items.len(),
        dup_key(items[i as int], k) is Some,
        dup_key(items[j as int], k) is Some,
    ensures
        dedup_threshold(Some(k), None) == Some((85nat, 100nat)),
        ({
            let a = dup_key(items[i as int], k)->0;
            let b = dup_key(items[j as int], k)->0;
            let s = jaccard(a, b);
            matches(dedup_keys(items, Some(k)), dedup_threshold(Some(k), None), i as int, j as int)
                <==> (a == b || 100 * s.0 >= 85 * s.1)
        }),
{
}

/// With a key and no threshold, a record whose key text reaches a Jaccard
/// similarity of 85/100 with that of a kept record before it is taken for a
/// duplicate (and so left out of the unique records).
pub proof fn lemma_dedup_default_flags_similar(items: Seq<JsonV>, k: Seq<char>, i: nat, j: nat)
    requires
        i < j < items.len(),
        dup_key(items[i as int], k) is Some,
        dup_key(items[j as int], k) is Some,
        partner(dedup_keys(items, Some(k)), dedup_threshold(Some(k), None), i) is None,
        ({
            let s = jaccard(dup_key(items[i as int], k)->0, dup_key(items[j as int], k)->0);
            100 * s.0 >= 85 * s.1
        }),
    ensures
        partner(dedup_keys(items, Some(k)), dedup_threshold(Some(k), None), j) is Some,
{
    let ks = dedup_keys(items, Some(k));
    let fz = dedup_threshold(Some(k), None);
    lemma_dedup_default_threshold(items, k, i, j);
    assert(matches(ks, fz, i as int, j as int));
    if partner(ks, fz, j) is None {
        lemma_kept_records_distinct(ks, fz, i, j);
    }
}

/// With a key and a threshold `t`, two keyed records match exactly when
/// their key texts are equal or their Jaccard similarity reaches `t`.
pub proof fn lemma_dedup_given_threshold(items: Seq<JsonV>, k: Seq<char>, t: Similarity, i: nat, j: nat)
    requires
        i < items.len(),
        j < items.len(),
        dup_key(items[i as int], k) is Some,
        dup_key(items[j as int], k) is Some,
    ensures
        ({
            let a = dup_key(items[i as int], k)->0;
            let b = dup_key(items[j as int], k)->0;
            let s = jaccard(a, b);
            matches(dedup_keys(items, Some(k)), dedup_threshold(Some(k), Some(t)), i as int, j as int)
                <==> (a == b || s.0 * t.denominator >= t.numerator * s.1)
        }),
{
}

/// Without a key, whatever the threshold, two records match exactly when
/// their compact JSON texts are equal: no fuzzy matching is done.
pub proof fn lemma_dedup_keyless_exact(items: Seq<JsonV>, t: Option<Similarity>, i: nat, j: nat)
    requires
        i < items.len(),
        j < items.len(),
    ensures
        matches(dedup_keys(items, None), dedup_threshold(None, t), i as int, j as int)
            <==> json_text(items[i as int]) == json_text(items[j as int]),
{
}

} // verus!
