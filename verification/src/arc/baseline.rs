//! The tallies that the bridge's predictions are scored by: for each event
//! category, the confusion counts of the engine's predicted category and of
//! four baseline predictors (a seeded random category, always no change, the
//! last observed category, and the most frequent one so far), with the rates
//! of receipts and the hit counts of each completed block of five.

use vstd::prelude::*;
use crate::arc::bridge::{CategoryConfusion, EventCategory, PredictionOutcome, UninformativeReason};

verus! {

/// The position of a category in the fixed order NoChange, Moved,
/// ColorChanged, Appeared, Disappeared.
pub open spec fn cat_index(c: EventCategory) -> int {
    match c {
        EventCategory::NoChange => 0,
        EventCategory::Moved => 1,
        EventCategory::ColorChanged => 2,
        EventCategory::Appeared => 3,
        EventCategory::Disappeared => 4,
    }
}

/// The category at a position of the fixed order.
pub open spec fn cat_at(i: int) -> EventCategory {
    if i == 1 {
        EventCategory::Moved
    } else if i == 2 {
        EventCategory::ColorChanged
    } else if i == 3 {
        EventCategory::Appeared
    } else if i == 4 {
        EventCategory::Disappeared
    } else {
        EventCategory::NoChange
    }
}

/// A confusion table after one prediction of `pred` where `actual` came: a
/// true positive of `actual` when they agree, else a false negative of
/// `actual` and a false positive of `pred`.
pub open spec fn tallied(t: Seq<CategoryConfusion>, pred: EventCategory, actual: EventCategory) -> Seq<CategoryConfusion> {
    let a = cat_index(actual);
    if pred == actual {
        t.update(a, CategoryConfusion { true_positives: (t[a].true_positives + 1) as u64, ..t[a] })
    } else {
        let t1 = t.update(a, CategoryConfusion { false_negatives: (t[a].false_negatives + 1) as u64, ..t[a] });
        let p = cat_index(pred);
        t1.update(p, CategoryConfusion { false_positives: (t1[p].false_positives + 1) as u64, ..t1[p] })
    }
}

/// The next state of the seeded generator of the random baseline.
pub open spec fn next_seed(s: u64) -> u64 {
    s.wrapping_mul(6364136223846793005).wrapping_add(1442695040888963407)
}

/// The category the random baseline draws from a generator state.
pub open spec fn drawn(s: u64) -> EventCategory {
    cat_at(((s >> 32u64) % 5) as int)
}

/// The position of the first largest count among the first `n`.
pub open spec fn best_upto(counts: Seq<u64>, n: int) -> int
    decreases n,
{
    if n <= 1 {
        0
    } else {
        let b = best_upto(counts, n - 1);
        if counts[n - 1] > counts[b] {
            n - 1
        } else {
            b
        }
    }
}

/// The most frequent category so far; a tie goes to the earliest category in
/// the fixed order, and with no category seen it is NoChange.
pub open spec fn majority(counts: Seq<u64>) -> EventCategory {
    cat_at(best_upto(counts, 5))
}

/// The first position from `k` on that counts reason `r`.
pub open spec fn reason_pos(b: Seq<(UninformativeReason, u64)>, r: UninformativeReason, k: int) -> Option<int>
    decreases b.len() - k,
{
    if k < 0 || k >= b.len() {
        None
    } else if b[k].0 == r {
        Some(k)
    } else {
        reason_pos(b, r, k + 1)
    }
}

/// The count of reason `r` raised by one, a new entry when it had none.
pub open spec fn bumped(b: Seq<(UninformativeReason, u64)>, r: UninformativeReason) -> Seq<(UninformativeReason, u64)> {
    match reason_pos(b, r, 0) {
        Some(i) => b.update(i, (r, (b[i].1 + 1) as u64)),
        None => b.push((r, 1u64)),
    }
}

/// The observed categories among the first `k` of the fixed order, with their counts.
pub open spec fn support_upto(counts: Seq<u64>, k: int) -> Seq<(EventCategory, u64)>
    decreases k,
{
    if k <= 0 {
        Seq::empty()
    } else {
        let p = support_upto(counts, k - 1);
        if counts[k - 1] > 0 {
            p.push((cat_at(k - 1), counts[k - 1]))
        } else {
            p
        }
    }
}

/// The sum of a sequence of counts.
pub open spec fn sum_counts(s: Seq<u64>) -> int
    decreases s.len(),
{
    if s.len() == 0 {
        0
    } else {
        sum_counts(s.drop_last()) + s.last()
    }
}

/// The sum of the counts of the reasons.
pub open spec fn sum_reasons(b: Seq<(UninformativeReason, u64)>) -> int
    decreases b.len(),
{
    if b.len() == 0 {
        0
    } else {
        sum_reasons(b.drop_last()) + b.last().1
    }
}

/// How often the category of an entry actually came: its true positives and
/// false negatives.
pub open spec fn actual_count(e: CategoryConfusion) -> int {
    e.true_positives + e.false_negatives
}

/// How often any category actually came, over a table.
pub open spec fn sum_actual(t: Seq<CategoryConfusion>) -> int
    decreases t.len(),
{
    if t.len() == 0 {
        0
    } else {
        sum_actual(t.drop_last()) + actual_count(t.last())
    }
}

proof fn lemma_sum_counts_update(s: Seq<u64>, i: int, v: u64)
    requires
        0 <= i < s.len(),
    ensures
        sum_counts(s.update(i, v)) == sum_counts(s) - s[i] + v,
    decreases s.len(),
{
    if i < s.len() - 1 {
        assert(s.update(i, v).drop_last() =~= s.drop_last().update(i, v));
        lemma_sum_counts_update(s.drop_last(), i, v);
    } else {
        assert(s.update(i, v).drop_last() =~= s.drop_last());
    }
}

proof fn lemma_sum_reasons_update(b: Seq<(UninformativeReason, u64)>, i: int, e: (UninformativeReason, u64))
    requires
        0 <= i < b.len(),
    ensures
        sum_reasons(b.update(i, e)) == sum_reasons(b) - b[i].1 + e.1,
    decreases b.len(),
{
    if i < b.len() - 1 {
        assert(b.update(i, e).drop_last() =~= b.drop_last().update(i, e));
        lemma_sum_reasons_update(b.drop_last(), i, e);
    } else {
        assert(b.update(i, e).drop_last() =~= b.drop_last());
    }
}

proof fn lemma_sum_actual_update(t: Seq<CategoryConfusion>, i: int, e: CategoryConfusion)
    requires
        0 <= i < t.len(),
    ensures
        sum_actual(t.update(i, e)) == sum_actual(t) - actual_count(t[i]) + actual_count(e),
    decreases t.len(),
{
    if i < t.len() - 1 {
        assert(t.update(i, e).drop_last() =~= t.drop_last().update(i, e));
        lemma_sum_actual_update(t.drop_last(), i, e);
    } else {
        assert(t.update(i, e).drop_last() =~= t.drop_last());
    }
}

/// A tally adds exactly one to how often some category actually came.
proof fn lemma_tallied_sum(t: Seq<CategoryConfusion>, pred: EventCategory, actual: EventCategory, n: u64)
    requires
        table_within(t, n),
        n < u64::MAX,
    ensures
        sum_actual(tallied(t, pred, actual)) == sum_actual(t) + 1,
{
    let a = cat_index(actual);
    let p = cat_index(pred);
    assert(t[a].true_positives <= n && t[a].false_negatives <= n);
    if pred == actual {
        lemma_sum_actual_update(t, a, CategoryConfusion { true_positives: (t[a].true_positives + 1) as u64, ..t[a] });
    } else {
        let t1 = t.update(a, CategoryConfusion { false_negatives: (t[a].false_negatives + 1) as u64, ..t[a] });
        lemma_sum_actual_update(t, a, CategoryConfusion { false_negatives: (t[a].false_negatives + 1) as u64, ..t[a] });
        lemma_sum_actual_update(t1, p, CategoryConfusion { false_positives: (t1[p].false_positives + 1) as u64, ..t1[p] });
    }
}

/// Raising a reason's count adds one to the sum of the reasons.
proof fn lemma_bumped_sum(b: Seq<(UninformativeReason, u64)>, r: UninformativeReason, n: u64)
    requires
        forall|i: int| 0 <= i < b.len() ==> (#[trigger] b[i]).1 <= n,
        n < u64::MAX,
    ensures
        sum_reasons(bumped(b, r)) == sum_reasons(b) + 1,
{
    match reason_pos(b, r, 0) {
        Some(i) => {
            lemma_reason_pos_range(b, r, 0);
            lemma_sum_reasons_update(b, i, (r, (b[i].1 + 1) as u64));
        },
        None => {
            assert(b.push((r, 1u64)).drop_last() =~= b);
        },
    }
}

proof fn lemma_reason_pos_range(b: Seq<(UninformativeReason, u64)>, r: UninformativeReason, k: int)
    ensures
        reason_pos(b, r, k) matches Some(i) ==> k <= i < b.len() && b[i].0 == r,
    decreases b.len() - k,
{
    if 0 <= k < b.len() && b[k].0 != r {
        lemma_reason_pos_range(b, r, k + 1);
    }
}

/// Every count of a table of five categories is at most `n`.
pub open spec fn table_within(t: Seq<CategoryConfusion>, n: u64) -> bool {
    &&& t.len() == 5
    &&& forall|i: int|
        0 <= i < 5 ==> (#[trigger] t[i]).true_positives <= n && t[i].false_positives <= n && t[i].false_negatives
            <= n
}

pub struct BaselineTracker {
    /// Indexed by the position of the actual category in the fixed order.
    pub derva_confusions: Vec<CategoryConfusion>,
    pub b0_random_confusions: Vec<CategoryConfusion>,
    pub b1_no_change_confusions: Vec<CategoryConfusion>,
    pub b2_last_effect_confusions: Vec<CategoryConfusion>,
    pub b3_freq_majority_confusions: Vec<CategoryConfusion>,
    /// How often each category was observed, in the fixed order.
    pub category_counts: Vec<u64>,
    pub last_effect: EventCategory,
    pub b0_seed: u64,
    pub issued_receipts: u64,
    pub valid_at_issue_receipts: u64,
    pub informative_receipts: u64,
    /// The uninformative receipts by reason, in the order the reasons came.
    pub uninformative_breakdown: Vec<(UninformativeReason, u64)>,
    pub exact_event_matches: u64,
    pub exact_event_total: u64,
    /// The engine's hits in each completed block of five informative
    /// receipts; its accuracy there is the hits over five.
    pub window_hits: Vec<u64>,
    pub current_bucket_hits: u64,
    pub current_bucket_total: u64,
}

impl BaselineTracker {
    /// Each table holds the five categories, no count exceeds the receipts
    /// issued, and the current block is short of five.
    pub open spec fn wf(&self) -> bool {
        let n = self.issued_receipts;
        &&& table_within(self.derva_confusions@, n)
        &&& table_within(self.b0_random_confusions@, n)
        &&& table_within(self.b1_no_change_confusions@, n)
        &&& table_within(self.b2_last_effect_confusions@, n)
        &&& table_within(self.b3_freq_majority_confusions@, n)
        &&& self.category_counts@.len() == 5
        &&& forall|i: int| 0 <= i < 5 ==> #[trigger] self.category_counts@[i] <= n
        &&& forall|i: int| 0 <= i < self.uninformative_breakdown@.len() ==> (#[trigger] self.uninformative_breakdown@[i]).1 <= n
        &&& self.valid_at_issue_receipts <= n
        &&& self.informative_receipts <= n
        &&& self.exact_event_matches <= self.exact_event_total <= n
        &&& self.current_bucket_hits <= self.current_bucket_total < 5
    }

    /// The running sums of a tracker: every receipt issued is informative or
    /// counted by its reason; each informative one is counted once as an
    /// exact-event trial, once by its actual category, once as an actual
    /// category of every table, and once in the blocks of five.
    pub open spec fn balanced(&self) -> bool {
        &&& self.issued_receipts == self.informative_receipts + sum_reasons(self.uninformative_breakdown@)
        &&& self.exact_event_total == self.informative_receipts
        &&& sum_counts(self.category_counts@) == self.informative_receipts
        &&& sum_actual(self.derva_confusions@) == self.informative_receipts
        &&& sum_actual(self.b0_random_confusions@) == self.informative_receipts
        &&& sum_actual(self.b1_no_change_confusions@) == self.informative_receipts
        &&& sum_actual(self.b2_last_effect_confusions@) == self.informative_receipts
        &&& sum_actual(self.b3_freq_majority_confusions@) == self.informative_receipts
        &&& self.window_hits@.len() * 5 + self.current_bucket_total == self.informative_receipts
    }

    /// The tracker as `new` makes it: empty tables and counts, no receipt.
    pub open spec fn is_fresh(&self) -> bool {
        let z = seq![CategoryConfusion { true_positives: 0, false_positives: 0, false_negatives: 0 }; 5];
        &&& self.derva_confusions@ == z
        &&& self.b0_random_confusions@ == z
        &&& self.b1_no_change_confusions@ == z
        &&& self.b2_last_effect_confusions@ == z
        &&& self.b3_freq_majority_confusions@ == z
        &&& self.category_counts@ == seq![0u64; 5]
        &&& self.last_effect == EventCategory::NoChange
        &&& self.b0_seed == 0xCAFEF00Du64
        &&& self.issued_receipts == 0
        &&& self.valid_at_issue_receipts == 0
        &&& self.informative_receipts == 0
        &&& self.uninformative_breakdown@.len() == 0
        &&& self.exact_event_matches == 0
        &&& self.exact_event_total == 0
        &&& self.window_hits@.len() == 0
        &&& self.current_bucket_hits == 0
        &&& self.current_bucket_total == 0
    }

    pub fn new() -> (t: BaselineTracker)
        ensures
            t.wf(),
            t.is_fresh(),
            t.balanced(),
    {
        let t = BaselineTracker {
            derva_confusions: empty_table(),
            b0_random_confusions: empty_table(),
            b1_no_change_confusions: empty_table(),
            b2_last_effect_confusions: empty_table(),
            b3_freq_majority_confusions: empty_table(),
            category_counts: vec![0u64, 0u64, 0u64, 0u64, 0u64],
            last_effect: EventCategory::NoChange,
            b0_seed: 0xCAFEF00Du64,
            issued_receipts: 0,
            valid_at_issue_receipts: 0,
            informative_receipts: 0,
            uninformative_breakdown: Vec::new(),
            exact_event_matches: 0,
            exact_event_total: 0,
            window_hits: Vec::new(),
            current_bucket_hits: 0,
            current_bucket_total: 0,
        };
        assert(t.category_counts@ =~= seq![0u64; 5]);
        proof {
            let z = t.derva_confusions@;
            assert(sum_actual(z) == 0) by {
                reveal_with_fuel(sum_actual, 6);
            }
            assert(sum_counts(t.category_counts@) == 0) by {
                reveal_with_fuel(sum_counts, 6);
            }
        }
        t
    }

    /// The observed categories with how often each was seen, in the fixed order.
    pub fn category_support(&self) -> (s: Vec<(EventCategory, u64)>)
        requires
            self.category_counts@.len() == 5,
        ensures
            s@ == support_upto(self.category_counts@, 5),
    {
        let mut s: Vec<(EventCategory, u64)> = Vec::new();
        let mut k: usize = 0;
        while k < 5
            invariant
                k <= 5,
                self.category_counts@.len() == 5,
                s@ == support_upto(self.category_counts@, k as int),
            decreases 5 - k,
        {
            let c = self.category_counts[k];
            if c > 0 {
                s.push((category_at(k), c));
            }
            k = k + 1;
        }
        s
    }

    /// Scores one resolved receipt. Every receipt is counted, and as valid
    /// when it was valid at issue; an uninformative one is only counted by its
    /// reason. An informative one is tallied for the engine's predicted
    /// category and for each baseline's against the actual category, counts
    /// towards the exact-event rate and the current block of five, and makes
    /// the actual category the last one seen.
    #[verifier::spinoff_prover]
    #[verifier::rlimit(60)]
    pub fn record_prediction(
        &mut self,
        predicted_cat: EventCategory,
        actual_cat: EventCategory,
        outcome: PredictionOutcome,
        valid_at_issue: bool,
    )
        requires
            old(self).wf(),
            old(self).issued_receipts < u64::MAX,
        ensures
            final(self).wf(),
            old(self).balanced() ==> final(self).balanced(),
            final(self).issued_receipts == old(self).issued_receipts + 1,
            final(self).valid_at_issue_receipts == old(self).valid_at_issue_receipts + (if valid_at_issue {
                1int
            } else {
                0int
            }),
            match outcome {
                PredictionOutcome::Uninformative(r) => {
                    &&& final(self).uninformative_breakdown@ == bumped(old(self).uninformative_breakdown@, r)
                    &&& final(self).informative_receipts == old(self).informative_receipts
                    &&& final(self).derva_confusions == old(self).derva_confusions
                    &&& final(self).b0_random_confusions == old(self).b0_random_confusions
                    &&& final(self).b1_no_change_confusions == old(self).b1_no_change_confusions
                    &&& final(self).b2_last_effect_confusions == old(self).b2_last_effect_confusions
                    &&& final(self).b3_freq_majority_confusions == old(self).b3_freq_majority_confusions
                    &&& final(self).category_counts == old(self).category_counts
                    &&& final(self).last_effect == old(self).last_effect
                    &&& final(self).b0_seed == old(self).b0_seed
                    &&& final(self).exact_event_matches == old(self).exact_event_matches
                    &&& final(self).exact_event_total == old(self).exact_event_total
                    &&& final(self).window_hits == old(self).window_hits
                    &&& final(self).current_bucket_hits == old(self).current_bucket_hits
                    &&& final(self).current_bucket_total == old(self).current_bucket_total
                },
                _ => {
                    let seed = next_seed(old(self).b0_seed);
                    let ci = cat_index(actual_cat);
                    let hits = old(self).current_bucket_hits + (if predicted_cat == actual_cat {
                        1int
                    } else {
                        0int
                    });
                    let total = old(self).current_bucket_total + 1;
                    &&& final(self).uninformative_breakdown == old(self).uninformative_breakdown
                    &&& final(self).informative_receipts == old(self).informative_receipts + 1
                    &&& final(self).b0_seed == seed
                    &&& final(self).derva_confusions@ == tallied(old(self).derva_confusions@, predicted_cat, actual_cat)
                    &&& final(self).b0_random_confusions@ == tallied(old(self).b0_random_confusions@, drawn(seed), actual_cat)
                    &&& final(self).b1_no_change_confusions@ == tallied(
                        old(self).b1_no_change_confusions@,
                        EventCategory::NoChange,
                        actual_cat,
                    )
                    &&& final(self).b2_last_effect_confusions@ == tallied(
                        old(self).b2_last_effect_confusions@,
                        old(self).last_effect,
                        actual_cat,
                    )
                    &&& final(self).b3_freq_majority_confusions@ == tallied(
                        old(self).b3_freq_majority_confusions@,
                        majority(old(self).category_counts@),
                        actual_cat,
                    )
                    &&& final(self).category_counts@ == old(self).category_counts@.update(
                        ci,
                        (old(self).category_counts@[ci] + 1) as u64,
                    )
                    &&& final(self).last_effect == actual_cat
                    &&& final(self).exact_event_total == old(self).exact_event_total + 1
                    &&& final(self).exact_event_matches == old(self).exact_event_matches + (if outcome
                        == PredictionOutcome::ExactMatch {
                        1int
                    } else {
                        0int
                    })
                    &&& if total >= 5 {
                        &&& final(self).window_hits@ == old(self).window_hits@.push(hits as u64)
                        &&& final(self).current_bucket_hits == 0
                        &&& final(self).current_bucket_total == 0
                    } else {
                        &&& final(self).window_hits == old(self).window_hits
                        &&& final(self).current_bucket_hits == hits
                        &&& final(self).current_bucket_total == total
                    }
                },
            },
    {
        let ghost n = self.issued_receipts;
        let ghost t0 = *self;
        self.issued_receipts = self.issued_receipts + 1;
        if valid_at_issue {
            self.valid_at_issue_receipts = self.valid_at_issue_receipts + 1;
        }
        if let PredictionOutcome::Uninformative(reason) = outcome {
            bump(&mut self.uninformative_breakdown, reason, Ghost(n));
            proof {
                lemma_bumped_sum(t0.uninformative_breakdown@, reason, n);
            }
            return;
        }
        self.informative_receipts = self.informative_receipts + 1;

        self.b0_seed = self.b0_seed.wrapping_mul(6364136223846793005).wrapping_add(1442695040888963407);
        let b0_pred = category_at(((self.b0_seed >> 32u64) % 5) as usize);
        tally(&mut self.b0_random_confusions, b0_pred, actual_cat, Ghost(n));

        let b3_pred = majority_of(&self.category_counts);
        tally(&mut self.b3_freq_majority_confusions, b3_pred, actual_cat, Ghost(n));
        let ci = category_index(actual_cat);
        let c = self.category_counts[ci];
        self.category_counts.set(ci, c + 1);

        tally(&mut self.derva_confusions, predicted_cat, actual_cat, Ghost(n));
        if predicted_cat == actual_cat {
            self.current_bucket_hits = self.current_bucket_hits + 1;
        }
        self.current_bucket_total = self.current_bucket_total + 1;

        self.exact_event_total = self.exact_event_total + 1;
        if outcome == PredictionOutcome::ExactMatch {
            self.exact_event_matches = self.exact_event_matches + 1;
        }
        if self.current_bucket_total >= 5 {
            self.window_hits.push(self.current_bucket_hits);
            self.current_bucket_hits = 0;
            self.current_bucket_total = 0;
        }

        tally(&mut self.b1_no_change_confusions, EventCategory::NoChange, actual_cat, Ghost(n));
        let last = self.last_effect;
        tally(&mut self.b2_last_effect_confusions, last, actual_cat, Ghost(n));
        self.last_effect = actual_cat;
        proof {
            lemma_tallied_sum(t0.derva_confusions@, predicted_cat, actual_cat, n);
            lemma_tallied_sum(t0.b0_random_confusions@, drawn(self.b0_seed), actual_cat, n);
            lemma_tallied_sum(t0.b1_no_change_confusions@, EventCategory::NoChange, actual_cat, n);
            lemma_tallied_sum(t0.b2_last_effect_confusions@, t0.last_effect, actual_cat, n);
            lemma_tallied_sum(t0.b3_freq_majority_confusions@, majority(t0.category_counts@), actual_cat, n);
            let ci = cat_index(actual_cat);
            lemma_sum_counts_update(t0.category_counts@, ci, (t0.category_counts@[ci] + 1) as u64);
        }
    }
}

/// Tallies one prediction into a table of five categories.
fn tally(t: &mut Vec<CategoryConfusion>, pred: EventCategory, actual: EventCategory, Ghost(n): Ghost<u64>)
    requires
        table_within(old(t)@, n),
        n < u64::MAX,
    ensures
        final(t)@ == tallied(old(t)@, pred, actual),
        table_within(final(t)@, (n + 1) as u64),
{
    let a = category_index(actual);
    let mut e = t[a];
    if pred == actual {
        e.true_positives = e.true_positives + 1;
        t.set(a, e);
    } else {
        e.false_negatives = e.false_negatives + 1;
        t.set(a, e);
        let p = category_index(pred);
        let mut f = t[p];
        f.false_positives = f.false_positives + 1;
        t.set(p, f);
    }
}

/// The most frequent category of the counts.
fn majority_of(counts: &Vec<u64>) -> (c: EventCategory)
    requires
        counts@.len() == 5,
    ensures
        c == majority(counts@),
{
    let mut b: usize = 0;
    let mut k: usize = 1;
    while k < 5
        invariant
            1 <= k <= 5,
            counts@.len() == 5,
            b < k,
            b == best_upto(counts@, k as int),
        decreases 5 - k,
    {
        if counts[k] > counts[b] {
            b = k;
        }
        k = k + 1;
    }
    category_at(b)
}

/// Raises the count of reason `r` by one.
fn bump(b: &mut Vec<(UninformativeReason, u64)>, r: UninformativeReason, Ghost(n): Ghost<u64>)
    requires
        forall|i: int| 0 <= i < old(b)@.len() ==> (#[trigger] old(b)@[i]).1 <= n,
        n < u64::MAX,
    ensures
        final(b)@ == bumped(old(b)@, r),
        forall|i: int| 0 <= i < final(b)@.len() ==> (#[trigger] final(b)@[i]).1 <= n + 1,
{
    let mut k: usize = 0;
    while k < b.len()
        invariant
            k <= b@.len(),
            b@ == old(b)@,
            reason_pos(b@, r, 0) == reason_pos(b@, r, k as int),
            forall|i: int| 0 <= i < old(b)@.len() ==> (#[trigger] old(b)@[i]).1 <= n,
            n < u64::MAX,
        decreases b@.len() - k,
    {
        if b[k].0 == r {
            let c = b[k].1;
            b.set(k, (r, c + 1));
            return;
        }
        k = k + 1;
    }
    b.push((r, 1));
}

/// A confusion table of five categories with every count zero.
fn empty_table() -> (t: Vec<CategoryConfusion>)
    ensures
        t@ == seq![CategoryConfusion { true_positives: 0, false_positives: 0, false_negatives: 0 }; 5],
{
    let z = CategoryConfusion { true_positives: 0, false_positives: 0, false_negatives: 0 };
    let t = vec![z, z, z, z, z];
    assert(t@ =~= seq![z; 5]);
    t
}

/// The position of a category in the fixed order.
pub fn category_index(c: EventCategory) -> (i: usize)
    ensures
        i == cat_index(c),
        i < 5,
{
    match c {
        EventCategory::NoChange => 0,
        EventCategory::Moved => 1,
        EventCategory::ColorChanged => 2,
        EventCategory::Appeared => 3,
        EventCategory::Disappeared => 4,
    }
}

/// The category at a position of the fixed order.
pub fn category_at(i: usize) -> (c: EventCategory)
    ensures
        c == cat_at(i as int),
{
    if i == 1 {
        EventCategory::Moved
    } else if i == 2 {
        EventCategory::ColorChanged
    } else if i == 3 {
        EventCategory::Appeared
    } else if i == 4 {
        EventCategory::Disappeared
    } else {
        EventCategory::NoChange
    }
}

} // verus!
