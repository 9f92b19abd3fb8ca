//! The category encoder: one parameter slot per distinct label, assigned in
//! sorted label order right after the continuous coefficients.
use vstd::prelude::*;
use crate::label_order::{compare_labels, label_lt, lemma_label_lt_strict_total};

verus! {

/// Number of continuous coefficients (`a`, `b`, `c`); the first category
/// multiplier sits at this index of the parameter vector.
pub const CONTINUOUS_COEFFICIENTS: usize = 3;

/// The labels held by a sequence of strings.
pub open spec fn label_views(v: Seq<String>) -> Seq<Seq<char>> {
    v.map_values(|s: String| s@)
}

/// Every label sorts strictly before each label after it: sorted, no repeats.
pub open spec fn sorted_distinct(s: Seq<Seq<char>>) -> bool {
    forall|i: int, j: int| 0 <= i < j < s.len() ==> label_lt(#[trigger] s[i], #[trigger] s[j])
}

/// The distinct labels of `labels`, in sorted order.
pub open spec fn distinct_sorted(labels: Seq<Seq<char>>) -> Seq<Seq<char>> {
    choose|s: Seq<Seq<char>>| sorted_distinct(s) && s.to_set() == labels.to_set()
}

/// The parameter slot of `label` in the sorted label list `cats`, if it is
/// one of them.
pub open spec fn slot_of(cats: Seq<Seq<char>>, label: Seq<char>) -> Option<int> {
    if exists|k: int| 0 <= k < cats.len() && cats[k] == label {
        Some(CONTINUOUS_COEFFICIENTS + choose|k: int| 0 <= k < cats.len() && cats[k] == label)
    } else {
        None
    }
}

/// A sorted list without repeats is determined by the set of its labels.
pub proof fn lemma_sorted_distinct_unique(s: Seq<Seq<char>>, t: Seq<Seq<char>>)
    requires
        sorted_distinct(s),
        sorted_distinct(t),
        s.to_set() == t.to_set(),
    ensures
        s == t,
    decreases s.len(),
{
    if s.len() == 0 {
        if t.len() > 0 {
            assert(t.to_set().contains(t[0]));
        }
        assert(s =~= t);
    } else if t.len() == 0 {
        assert(s.to_set().contains(s[0]));
    } else {
        // the first labels agree: each is the least of the common set
        assert(t.to_set().contains(s[0]));
        assert(s.to_set().contains(t[0]));
        let i = choose|i: int| 0 <= i < t.len() && t[i] == s[0];
        let j = choose|j: int| 0 <= j < s.len() && s[j] == t[0];
        lemma_label_lt_strict_total(s[0], t[0], s[0]);
        if s[0] != t[0] {
            assert(i > 0 && j > 0);
            assert(label_lt(t[0], t[i]));
            assert(label_lt(s[0], s[j]));
            assert(false);
        }
        let s1 = s.drop_first();
        let t1 = t.drop_first();
        assert forall|x: Seq<char>| s1.to_set().contains(x) implies t1.to_set().contains(x) by {
            let k = choose|k: int| 0 <= k < s1.len() && s1[k] == x;
            assert(s.to_set().contains(s[k + 1]));
            let m = choose|m: int| 0 <= m < t.len() && t[m] == x;
            assert(label_lt(s[0], s[k + 1]));
            lemma_label_lt_strict_total(s[0], x, s[0]);
            assert(m != 0);
            assert(t1[m - 1] == x);
        }
        assert forall|x: Seq<char>| t1.to_set().contains(x) implies s1.to_set().contains(x) by {
            let k = choose|k: int| 0 <= k < t1.len() && t1[k] == x;
            assert(t.to_set().contains(t[k + 1]));
            let m = choose|m: int| 0 <= m < s.len() && s[m] == x;
            assert(label_lt(t[0], t[k + 1]));
            lemma_label_lt_strict_total(t[0], x, t[0]);
            assert(m != 0);
            assert(s1[m - 1] == x);
        }
        assert(s1.to_set() =~= t1.to_set());
        lemma_sorted_distinct_unique(s1, t1);
        assert(s =~= seq![s[0]] + s1);
        assert(t =~= seq![t[0]] + t1);
    }
}

/// In a sorted list without repeats, the label at position `k` owns slot
/// `CONTINUOUS_COEFFICIENTS + k`.
pub proof fn lemma_slot_at(cats: Seq<Seq<char>>, k: int)
    requires
        sorted_distinct(cats),
        0 <= k < cats.len(),
    ensures
        slot_of(cats, cats[k]) == Some(CONTINUOUS_COEFFICIENTS + k),
{
    assert(exists|m: int| 0 <= m < cats.len() && cats[m] == cats[k]);
    let m = choose|m: int| 0 <= m < cats.len() && cats[m] == cats[k];
    lemma_label_lt_strict_total(cats[k], cats[k], cats[k]);
    if m < k {
        assert(label_lt(cats[m], cats[k]));
    } else if m > k {
        assert(label_lt(cats[k], cats[m]));
    }
}

/// Where a label stands among sorted, distinct labels.
enum Search {
    /// The label is at this position.
    Found(usize),
    /// The label is absent; it would be inserted at this position.
    Absent(usize),
}

/// Looks `label` up among the sorted, distinct `cats`.
fn search(cats: &Vec<String>, label: &str) -> (r: Search)
    requires
        sorted_distinct(label_views(cats@)),
    ensures
        match r {
            Search::Found(p) => p < cats@.len() && cats@[p as int]@ == label@,
            Search::Absent(p) => p <= cats@.len()
                && (forall|j: int| 0 <= j < p ==> label_lt(#[trigger] cats@[j]@, label@))
                && (forall|j: int| p <= j < cats@.len() ==> label_lt(label@, #[trigger] cats@[j]@)),
        },
{
    let mut p: usize = 0;
    while p < cats.len()
        invariant
            sorted_distinct(label_views(cats@)),
            p <= cats@.len(),
            forall|j: int| 0 <= j < p ==> label_lt(#[trigger] cats@[j]@, label@),
        decreases cats@.len() - p,
    {
        match compare_labels(cats[p].as_str(), label) {
            core::cmp::Ordering::Less => {
                p = p + 1;
            },
            core::cmp::Ordering::Equal => {
                return Search::Found(p);
            },
            core::cmp::Ordering::Greater => {
                assert forall|j: int| p <= j < cats@.len() implies label_lt(label@, #[trigger] cats@[j]@) by {
                    if j > p {
                        assert(label_views(cats@)[p as int] == cats@[p as int]@);
                        assert(label_views(cats@)[j] == cats@[j]@);
                        lemma_label_lt_strict_total(label@, cats@[p as int]@, cats@[j]@);
                    }
                }
                return Search::Absent(p);
            },
        }
    }
    Search::Absent(p)
}

/// The map from category labels to parameter slots: the distinct labels in
/// sorted order, the `k`-th of them owning slot `CONTINUOUS_COEFFICIENTS + k`.
pub struct CategoryIndex {
    labels: Vec<String>,
}

impl View for CategoryIndex {
    type V = Seq<Seq<char>>;

    closed spec fn view(&self) -> Seq<Seq<char>> {
        label_views(self.labels@)
    }
}

impl CategoryIndex {
    /// The labels are sorted without repeats, and the slots they own fit in a
    /// `usize`.
    pub open spec fn wf(&self) -> bool {
        &&& sorted_distinct(self@)
        &&& self@.len() + CONTINUOUS_COEFFICIENTS <= usize::MAX
    }

    /// Builds the index from the labels as they occur in the observations,
    /// repeats allowed; an empty list gives an empty index.
    pub fn build(labels: &[String]) -> (r: Self)
        requires
            labels@.len() + CONTINUOUS_COEFFICIENTS <= usize::MAX,
        ensures
            r.wf(),
            r@ == distinct_sorted(label_views(labels@)),
            r@.to_set() == label_views(labels@).to_set(),
            r@.len() <= labels@.len(),
    {
        let mut out: Vec<String> = Vec::new();
        let ghost input = label_views(labels@);
        assert(label_views(out@) =~= input.subrange(0, 0));
        for i in 0..labels.len()
            invariant
                input == label_views(labels@),
                sorted_distinct(label_views(out@)),
                label_views(out@).to_set() == input.subrange(0, i as int).to_set(),
                out@.len() <= i,
        {
            let ghost before = label_views(out@);
            let label = &labels[i];
            assert(input.subrange(0, i + 1) =~= input.subrange(0, i as int).push(label@));
            proof {
                input.subrange(0, i as int).lemma_push_to_set_commute(label@);
            }
            match search(&out, label.as_str()) {
                Search::Found(p) => {
                    assert(before[p as int] == label@);
                    assert(before.to_set().contains(label@));
                    assert(before.to_set().insert(label@) =~= before.to_set());
                },
                Search::Absent(p) => {
                    out.insert(p, label.clone());
                    let ghost after = label_views(out@);
                    assert(after =~= before.insert(p as int, label@));
                    proof {
                        before.insert_ensures(p as int, label@);
                    }
                    assert forall|a: int, b: int| 0 <= a < b < after.len() implies label_lt(
                        #[trigger] after[a],
                        #[trigger] after[b],
                    ) by {
                        if b < p {
                            assert(before[a] == after[a] && before[b] == after[b]);
                        } else if b == p {
                            assert(before[a] == out@[a]@);
                        } else if a < p {
                            assert(before[a] == after[a] && before[b - 1] == after[b]);
                            assert(before[a] == out@[a]@);
                            lemma_label_lt_strict_total(before[a], label@, before[b - 1]);
                        } else if a == p {
                            assert(before[b - 1] == after[b]);
                        } else {
                            assert(before[a - 1] == after[a] && before[b - 1] == after[b]);
                        }
                    }
                    assert forall|x: Seq<char>| #[trigger] after.to_set().contains(x) <==> before.to_set().insert(label@).contains(x) by {
                        if after.to_set().contains(x) {
                            let k = choose|k: int| 0 <= k < after.len() && after[k] == x;
                            if k < p {
                                assert(before.contains(x));
                            } else if k > p {
                                assert(before[k - 1] == x);
                                assert(before.contains(x));
                            }
                        }
                        if before.to_set().contains(x) && x != label@ {
                            let k = choose|k: int| 0 <= k < before.len() && before[k] == x;
                            if k < p {
                                assert(after[k] == x);
                            } else {
                                assert(after[k + 1] == x);
                            }
                        }
                        if x == label@ {
                            assert(after[p as int] == x);
                        }
                    }
                    assert(after.to_set() =~= before.to_set().insert(label@));
                },
            }
        }
        let r = CategoryIndex { labels: out };
        assert(input.subrange(0, labels@.len() as int) =~= input);
        proof {
            let c = choose|s: Seq<Seq<char>>| sorted_distinct(s) && s.to_set() == input.to_set();
            lemma_sorted_distinct_unique(r@, c);
        }
        r
    }

    /// The parameter slot of `label`, or `None` for a label the index was not
    /// built from (its multiplier is then taken to be one).
    pub fn index_of(&self, label: &str) -> (r: Option<usize>)
        requires
            self.wf(),
        ensures
            r is Some <==> slot_of(self@, label@) is Some,
            r is Some ==> slot_of(self@, label@) == Some(r->0 as int),
    {
        match search(&self.labels, label) {
            Search::Found(p) => {
                proof {
                    assert(self@[p as int] == label@);
                    lemma_slot_at(self@, p as int);
                }
                Some(CONTINUOUS_COEFFICIENTS + p)
            },
            Search::Absent(p) => {
                proof {
                    if exists|k: int| 0 <= k < self@.len() && self@[k] == label@ {
                        let k = choose|k: int| 0 <= k < self@.len() && self@[k] == label@;
                        assert(self@[k] == self.labels@[k]@);
                        lemma_label_lt_strict_total(label@, label@, label@);
                    }
                }
                None
            },
        }
    }

    /// The number of distinct labels.
    pub fn len(&self) -> (r: usize)
        ensures
            r == self@.len(),
    {
        self.labels.len()
    }

    /// The length of the parameter vector: the continuous coefficients, then
    /// one multiplier per label.
    pub fn param_count(&self) -> (r: usize)
        requires
            self.wf(),
        ensures
            r == CONTINUOUS_COEFFICIENTS + self@.len(),
    {
        CONTINUOUS_COEFFICIENTS + self.labels.len()
    }

    /// The label whose multiplier stands at parameter slot `slot`, if any.
    pub fn label_at(&self, slot: usize) -> (r: Option<&String>)
        requires
            self.wf(),
        ensures
            r is Some <==> CONTINUOUS_COEFFICIENTS <= slot < CONTINUOUS_COEFFICIENTS + self@.len(),
            r is Some ==> r->0@ == self@[slot - CONTINUOUS_COEFFICIENTS]
                && slot_of(self@, r->0@) == Some(slot as int),
    {
        if slot >= CONTINUOUS_COEFFICIENTS && slot - CONTINUOUS_COEFFICIENTS < self.labels.len() {
            proof {
                lemma_slot_at(self@, slot - CONTINUOUS_COEFFICIENTS);
            }
            Some(&self.labels[slot - CONTINUOUS_COEFFICIENTS])
        } else {
            None
        }
    }
}

/// Distinct labels get distinct slots, every slot lies in
/// `[CONTINUOUS_COEFFICIENTS, CONTINUOUS_COEFFICIENTS + K)`, and each slot of
/// that range belongs to exactly one label.
pub proof fn lemma_slots_bijective(cats: Seq<Seq<char>>, l1: Seq<char>, l2: Seq<char>, slot: int)
    requires
        sorted_distinct(cats),
    ensures
        slot_of(cats, l1) is Some && slot_of(cats, l1) == slot_of(cats, l2) ==> l1 == l2,
        slot_of(cats, l1) is Some ==> CONTINUOUS_COEFFICIENTS <= slot_of(cats, l1)->0
            < CONTINUOUS_COEFFICIENTS + cats.len(),
        CONTINUOUS_COEFFICIENTS <= slot < CONTINUOUS_COEFFICIENTS + cats.len() ==> slot_of(
            cats,
            cats[slot - CONTINUOUS_COEFFICIENTS],
        ) == Some(slot),
        slot_of(cats, l1) == Some(slot) ==> l1 == cats[slot - CONTINUOUS_COEFFICIENTS],
{
    if CONTINUOUS_COEFFICIENTS <= slot < CONTINUOUS_COEFFICIENTS + cats.len() {
        lemma_slot_at(cats, slot - CONTINUOUS_COEFFICIENTS);
    }
}

/// The index depends on the set of labels only: the order and repetition of
/// the input make no difference.
pub proof fn lemma_index_order_invariant(labels1: Seq<Seq<char>>, labels2: Seq<Seq<char>>)
    requires
        labels1.to_set() == labels2.to_set(),
    ensures
        distinct_sorted(labels1) == distinct_sorted(labels2),
{
}

/// Adding one new label adds one slot; every label that sorts before it keeps
/// its slot, and every label that sorts after it moves up by one.
pub proof fn lemma_new_label(cats: Seq<Seq<char>>, more: Seq<Seq<char>>, label: Seq<char>)
    requires
        sorted_distinct(cats),
        sorted_distinct(more),
        !cats.contains(label),
        more.to_set() == cats.to_set().insert(label),
    ensures
        more.len() == cats.len() + 1,
        forall|l: Seq<char>| #[trigger] cats.contains(l) && label_lt(l, label) ==> slot_of(more, l) == slot_of(cats, l),
        forall|l: Seq<char>| #[trigger] cats.contains(l) && label_lt(label, l) ==> slot_of(more, l)->0 == slot_of(cats, l)->0 + 1,
{
    assert(more.to_set().contains(label));
    let p = choose|p: int| 0 <= p < more.len() && more[p] == label;
    let rest = more.remove(p);
    assert forall|i: int, j: int| 0 <= i < j < rest.len() implies label_lt(#[trigger] rest[i], #[trigger] rest[j]) by {
        let mi = if i < p { i } else { i + 1 };
        let mj = if j < p { j } else { j + 1 };
        assert(rest[i] == more[mi] && rest[j] == more[mj]);
    }
    assert forall|x: Seq<char>| #[trigger] rest.to_set().contains(x) <==> cats.to_set().contains(x) by {
        if rest.to_set().contains(x) {
            let k = choose|k: int| 0 <= k < rest.len() && rest[k] == x;
            let mk = if k < p { k } else { k + 1 };
            assert(more[mk] == x);
            assert(more.to_set().contains(x));
            lemma_label_lt_strict_total(more[mk], more[p], more[mk]);
            if mk < p {
                assert(label_lt(more[mk], more[p]));
            } else {
                assert(label_lt(more[p], more[mk]));
            }
        }
        if cats.to_set().contains(x) {
            assert(more.to_set().contains(x));
            let k = choose|k: int| 0 <= k < more.len() && more[k] == x;
            assert(k != p);
            if k < p {
                assert(rest[k] == x);
            } else {
                assert(rest[k - 1] == x);
            }
        }
    }
    assert(rest.to_set() =~= cats.to_set());
    lemma_sorted_distinct_unique(rest, cats);
    assert forall|l: Seq<char>| #[trigger] cats.contains(l) && label_lt(l, label) implies slot_of(more, l) == slot_of(cats, l) by {
        let k = choose|k: int| 0 <= k < cats.len() && cats[k] == l;
        lemma_slot_at(cats, k);
        if k < p {
            assert(more[k] == l);
            lemma_slot_at(more, k);
        } else {
            assert(more[k + 1] == l);
            assert(label_lt(more[p], more[k + 1]));
            lemma_label_lt_strict_total(l, label, l);
        }
    }
    assert forall|l: Seq<char>| #[trigger] cats.contains(l) && label_lt(label, l) implies slot_of(more, l)->0 == slot_of(cats, l)->0 + 1 by {
        let k = choose|k: int| 0 <= k < cats.len() && cats[k] == l;
        lemma_slot_at(cats, k);
        if k < p {
            assert(more[k] == l);
            assert(label_lt(more[k], more[p]));
            lemma_label_lt_strict_total(l, label, l);
        } else {
            assert(more[k + 1] == l);
            lemma_slot_at(more, k + 1);
        }
    }
}

} // verus!
