//! Solution quality as an exact ratio, and the running aggregates of one
//! benchmark cell.

use vstd::prelude::*;
use vstd::seq_lib::to_multiset_contains;
use crate::settings::Settings;

verus! {

/// The quality of one solve: the containers the solver used over the
/// minimal number for the same items. The ratio is kept exact; a ratio over
/// zero stands above every other.
#[derive(Clone, Copy, Debug, PartialEq, Eq, Structural)]
pub struct Quality {
    pub containers: usize,
    pub optimal: u32,
}

impl Quality {
    /// The ratio means something: it is not zero over zero.
    pub open spec fn wf(self) -> bool {
        self.containers > 0 || self.optimal > 0
    }

    /// The ratio is at least one.
    pub open spec fn at_least_one(self) -> bool {
        self.containers >= self.optimal
    }

    /// The ratio is exactly one: the solver used the minimal number of
    /// containers.
    pub open spec fn is_one(self) -> bool {
        self.containers == self.optimal
    }

    /// `self` is at most `other`, as ratios.
    pub open spec fn at_most(self, other: Quality) -> bool {
        self.containers * other.optimal <= other.containers * self.optimal
    }

    /// `self` is strictly below `other`, as ratios.
    pub open spec fn below(self, other: Quality) -> bool {
        self.containers * other.optimal < other.containers * self.optimal
    }

    /// `self` and `other` are the same ratio, whatever their terms.
    pub open spec fn same_ratio(self, other: Quality) -> bool {
        self.containers * other.optimal == other.containers * self.optimal
    }

    /// The smaller of two ratios; of two equal ones, the first.
    pub open spec fn lesser(self, other: Quality) -> Quality {
        if other.below(self) {
            other
        } else {
            self
        }
    }

    /// The larger of two ratios; of two equal ones, the first.
    pub open spec fn greater(self, other: Quality) -> Quality {
        if self.below(other) {
            other
        } else {
            self
        }
    }

    /// The largest finite ratio: what the best case starts from, so that the
    /// first finite sample replaces it.
    pub open spec fn highest() -> Quality {
        Quality { containers: usize::MAX, optimal: 1 }
    }

    /// The ratio zero: what the worst case starts from.
    pub open spec fn lowest() -> Quality {
        Quality { containers: 0, optimal: 1 }
    }

    /// The quality of a solve that used `containers` where `optimal` would do.
    pub fn new(containers: usize, optimal: u32) -> (q: Quality)
        ensures
            q == (Quality { containers, optimal }),
    {
        Quality { containers, optimal }
    }

    /// Whether the solve was optimal.
    pub fn is_optimal(&self) -> (b: bool)
        ensures
            b == self.is_one(),
    {
        self.optimal as u64 == self.containers as u64
    }

    /// Decides [`Quality::below`] by cross-multiplication.
    pub fn is_below(&self, other: &Quality) -> (b: bool)
        ensures
            b == self.below(*other),
    {
        let left: u128 = Self::product(self.containers, other.optimal);
        let right: u128 = Self::product(other.containers, self.optimal);
        left < right
    }

    fn product(containers: usize, optimal: u32) -> (p: u128)
        ensures
            p == containers * optimal,
    {
        assert(containers * optimal <= 0xffff_ffff_ffff_ffff * 0xffff_ffff) by (nonlinear_arith)
            requires
                0 <= containers <= 0xffff_ffff_ffff_ffff,
                0 <= optimal <= 0xffff_ffff,
        ;
        containers as u128 * optimal as u128
    }
}

/// What one timed solve contributes to its cell.
#[derive(Clone, Copy, Debug, PartialEq, Eq, Structural)]
pub struct Sample {
    pub quality: Quality,
    pub elapsed_us: u128,
}

/// The running aggregates of one (scenario, solver variant) cell.
#[derive(Clone, Debug)]
pub struct ProblemResult {
    pub solver_name: String,
    pub solver_sorted: bool,
    pub item_size_min: u32,
    pub item_size_max: u32,
    pub item_limit: u32,
    pub container_size: u32,
    pub iterations: u32,
    pub optimal_solutions_found: u32,
    pub quality_best_case: Quality,
    pub quality_worst_case: Quality,
    pub time_us_best_case: u128,
    pub time_us_worst_case: u128,
}

/// A cell as a mathematical value.
pub struct ProblemResultView {
    pub solver_name: Seq<char>,
    pub solver_sorted: bool,
    pub item_size_min: u32,
    pub item_size_max: u32,
    pub item_limit: u32,
    pub container_size: u32,
    pub iterations: nat,
    pub optimal_solutions_found: nat,
    pub quality_best_case: Quality,
    pub quality_worst_case: Quality,
    pub time_us_best_case: u128,
    pub time_us_worst_case: u128,
}

impl View for ProblemResult {
    type V = ProblemResultView;

    open spec fn view(&self) -> ProblemResultView {
        ProblemResultView {
            solver_name: self.solver_name@,
            solver_sorted: self.solver_sorted,
            item_size_min: self.item_size_min,
            item_size_max: self.item_size_max,
            item_limit: self.item_limit,
            container_size: self.container_size,
            iterations: self.iterations as nat,
            optimal_solutions_found: self.optimal_solutions_found as nat,
            quality_best_case: self.quality_best_case,
            quality_worst_case: self.quality_worst_case,
            time_us_best_case: self.time_us_best_case,
            time_us_worst_case: self.time_us_worst_case,
        }
    }
}

impl ProblemResultView {
    /// The cell that no iteration has reached: nothing described, nothing
    /// counted, the best cases at their highest and the worst at their
    /// lowest.
    pub open spec fn untouched() -> ProblemResultView {
        ProblemResultView {
            solver_name: Seq::empty(),
            solver_sorted: false,
            item_size_min: 0,
            item_size_max: 0,
            item_limit: 0,
            container_size: 0,
            iterations: 0,
            optimal_solutions_found: 0,
            quality_best_case: Quality::highest(),
            quality_worst_case: Quality::lowest(),
            time_us_best_case: u128::MAX,
            time_us_worst_case: 0,
        }
    }

    /// The cell of the solver `name`, pre-sorted or not, on `settings`,
    /// before its first sample.
    pub open spec fn fresh(name: Seq<char>, sorted: bool, settings: Settings) -> ProblemResultView {
        ProblemResultView {
            solver_name: name,
            solver_sorted: sorted,
            item_size_min: settings.item_size_min,
            item_size_max: settings.item_size_max,
            item_limit: settings.item_limit,
            container_size: settings.container_size,
            ..Self::untouched()
        }
    }

    /// No more optimal solves were counted than solves.
    pub open spec fn wf(self) -> bool {
        self.optimal_solutions_found <= self.iterations
    }

    /// The cell after `sample` was folded in.
    pub open spec fn with_sample(self, sample: Sample) -> ProblemResultView {
        ProblemResultView {
            iterations: self.iterations + 1,
            optimal_solutions_found: if sample.quality.is_one() {
                self.optimal_solutions_found + 1
            } else {
                self.optimal_solutions_found
            },
            quality_best_case: self.quality_best_case.lesser(sample.quality),
            quality_worst_case: self.quality_worst_case.greater(sample.quality),
            time_us_best_case: if sample.elapsed_us < self.time_us_best_case {
                sample.elapsed_us
            } else {
                self.time_us_best_case
            },
            time_us_worst_case: if sample.elapsed_us > self.time_us_worst_case {
                sample.elapsed_us
            } else {
                self.time_us_worst_case
            },
            ..self
        }
    }

    /// The cell after each of `samples` was folded in, in order.
    pub open spec fn with_samples(self, samples: Seq<Sample>) -> ProblemResultView
        decreases samples.len(),
    {
        if samples.len() == 0 {
            self
        } else {
            self.with_samples(samples.drop_last()).with_sample(samples.last())
        }
    }
}

impl ProblemResult {
    /// A fresh cell for the solver `solver_name`, pre-sorted or not, on
    /// `settings`.
    pub fn new(solver_name: String, solver_sorted: bool, settings: &Settings) -> (cell:
        ProblemResult)
        ensures
            cell@ == ProblemResultView::fresh(solver_name@, solver_sorted, *settings),
    {
        ProblemResult {
            solver_name,
            solver_sorted,
            item_size_min: settings.item_size_min,
            item_size_max: settings.item_size_max,
            item_limit: settings.item_limit,
            container_size: settings.container_size,
            iterations: 0,
            optimal_solutions_found: 0,
            quality_best_case: Quality { containers: usize::MAX, optimal: 1 },
            quality_worst_case: Quality { containers: 0, optimal: 1 },
            time_us_best_case: u128::MAX,
            time_us_worst_case: 0,
        }
    }

    /// Folds one sample in: counts it, counts it as optimal where its quality
    /// is exactly one, and moves the best and worst cases of quality and of
    /// time where the sample lies beyond them.
    pub fn record(&mut self, sample: Sample)
        requires
            old(self)@.wf(),
            old(self).iterations < u32::MAX,
        ensures
            final(self)@ == old(self)@.with_sample(sample),
            final(self)@.wf(),
    {
        self.iterations += 1;
        if sample.quality.is_optimal() {
            self.optimal_solutions_found += 1;
        }
        if sample.quality.is_below(&self.quality_best_case) {
            self.quality_best_case = sample.quality;
        }
        if self.quality_worst_case.is_below(&sample.quality) {
            self.quality_worst_case = sample.quality;
        }
        if sample.elapsed_us < self.time_us_best_case {
            self.time_us_best_case = sample.elapsed_us;
        }
        if sample.elapsed_us > self.time_us_worst_case {
            self.time_us_worst_case = sample.elapsed_us;
        }
    }
}

impl Default for ProblemResult {
    /// The cell that no iteration has reached.
    fn default() -> (cell: ProblemResult)
        ensures
            cell@ == ProblemResultView::untouched(),
    {
        ProblemResult {
            solver_name: String::new(),
            solver_sorted: false,
            item_size_min: 0,
            item_size_max: 0,
            item_limit: 0,
            container_size: 0,
            iterations: 0,
            optimal_solutions_found: 0,
            quality_best_case: Quality { containers: usize::MAX, optimal: 1 },
            quality_worst_case: Quality { containers: 0, optimal: 1 },
            time_us_best_case: u128::MAX,
            time_us_worst_case: 0,
        }
    }
}

/// The order of ratios is transitive through a ratio that means something.
pub proof fn lemma_at_most_transitive(a: Quality, b: Quality, c: Quality)
    requires
        b.wf(),
        a.at_most(b),
        b.at_most(c),
    ensures
        a.at_most(c),
{
    let (an, ad) = (a.containers as int, a.optimal as int);
    let (bn, bd) = (b.containers as int, b.optimal as int);
    let (cn, cd) = (c.containers as int, c.optimal as int);
    if bd == 0 {
        assert(cd == 0) by (nonlinear_arith)
            requires
                bn > 0,
                cd >= 0,
                bn * cd <= cn * 0,
        ;
        assert(an * cd <= cn * ad) by (nonlinear_arith)
            requires
                cd == 0,
                cn >= 0,
                ad >= 0,
        ;
    } else {
        assert(an * cd <= cn * ad) by (nonlinear_arith)
            requires
                bd > 0,
                an >= 0,
                ad >= 0,
                bn >= 0,
                cn >= 0,
                cd >= 0,
                an * bd <= bn * ad,
                bn * cd <= cn * bd,
        ;
    }
}

/// Every sample's quality means something.
pub open spec fn qualities_wf(samples: Seq<Sample>) -> bool {
    forall|k: int| 0 <= k < samples.len() ==> (#[trigger] samples[k]).quality.wf()
}

/// `value` is the least of `start` and the elapsed times of `samples`.
pub open spec fn is_least_time(value: u128, start: u128, samples: Seq<Sample>) -> bool {
    &&& value <= start
    &&& forall|k: int| 0 <= k < samples.len() ==> value <= (#[trigger] samples[k]).elapsed_us
    &&& (value == start || exists|k: int|
        0 <= k < samples.len() && value == (#[trigger] samples[k]).elapsed_us)
}

/// `value` is the greatest of `start` and the elapsed times of `samples`.
pub open spec fn is_greatest_time(value: u128, start: u128, samples: Seq<Sample>) -> bool {
    &&& value >= start
    &&& forall|k: int| 0 <= k < samples.len() ==> value >= (#[trigger] samples[k]).elapsed_us
    &&& (value == start || exists|k: int|
        0 <= k < samples.len() && value == (#[trigger] samples[k]).elapsed_us)
}

/// `value` is a least one of `start` and the qualities of `samples`.
pub open spec fn is_least_quality(value: Quality, start: Quality, samples: Seq<Sample>) -> bool {
    &&& value.wf()
    &&& value.at_most(start)
    &&& forall|k: int| 0 <= k < samples.len() ==> value.at_most((#[trigger] samples[k]).quality)
    &&& (value == start || exists|k: int|
        0 <= k < samples.len() && value == (#[trigger] samples[k]).quality)
}

/// `value` is a greatest one of `start` and the qualities of `samples`.
pub open spec fn is_greatest_quality(value: Quality, start: Quality, samples: Seq<Sample>) -> bool {
    &&& value.wf()
    &&& start.at_most(value)
    &&& forall|k: int| 0 <= k < samples.len() ==> (#[trigger] samples[k]).quality.at_most(value)
    &&& (value == start || exists|k: int|
        0 <= k < samples.len() && value == (#[trigger] samples[k]).quality)
}

/// What the running best and worst cases are after any samples: the least
/// and the greatest of the starting value and all samples, for time and for
/// quality alike.
pub proof fn lemma_running_extremes(start: ProblemResultView, samples: Seq<Sample>)
    requires
        start.quality_best_case.wf(),
        start.quality_worst_case.wf(),
        qualities_wf(samples),
    ensures
        is_least_time(
            start.with_samples(samples).time_us_best_case,
            start.time_us_best_case,
            samples,
        ),
        is_greatest_time(
            start.with_samples(samples).time_us_worst_case,
            start.time_us_worst_case,
            samples,
        ),
        is_least_quality(
            start.with_samples(samples).quality_best_case,
            start.quality_best_case,
            samples,
        ),
        is_greatest_quality(
            start.with_samples(samples).quality_worst_case,
            start.quality_worst_case,
            samples,
        ),
    decreases samples.len(),
{
    if samples.len() > 0 {
        let earlier = samples.drop_last();
        let last = samples.last();
        let before = start.with_samples(earlier);
        let after = start.with_samples(samples);
        assert forall|k: int| 0 <= k < earlier.len() implies (#[trigger] earlier[k]).quality.wf() by {
            assert(earlier[k] == samples[k]);
        }
        lemma_running_extremes(start, earlier);
        assert(last == samples[samples.len() - 1]);
        assert(last.quality.wf());

        assert forall|k: int| 0 <= k < samples.len() implies after.time_us_best_case <= (
        #[trigger] samples[k]).elapsed_us && after.time_us_worst_case >= samples[k].elapsed_us by {
            if k < earlier.len() {
                assert(earlier[k] == samples[k]);
            }
        }
        if after.time_us_best_case != start.time_us_best_case {
            if after.time_us_best_case == before.time_us_best_case {
                let k = choose|k: int|
                    0 <= k < earlier.len() && before.time_us_best_case == (
                    #[trigger] earlier[k]).elapsed_us;
                assert(samples[k] == earlier[k]);
            }
        }
        if after.time_us_worst_case != start.time_us_worst_case {
            if after.time_us_worst_case == before.time_us_worst_case {
                let k = choose|k: int|
                    0 <= k < earlier.len() && before.time_us_worst_case == (
                    #[trigger] earlier[k]).elapsed_us;
                assert(samples[k] == earlier[k]);
            }
        }

        let best = after.quality_best_case;
        assert(best.at_most(before.quality_best_case) && best.at_most(last.quality));
        lemma_at_most_transitive(best, before.quality_best_case, start.quality_best_case);
        assert forall|k: int| 0 <= k < samples.len() implies best.at_most(
            (#[trigger] samples[k]).quality,
        ) by {
            if k < earlier.len() {
                assert(earlier[k] == samples[k]);
                lemma_at_most_transitive(best, before.quality_best_case, samples[k].quality);
            }
        }
        if best != start.quality_best_case {
            if best == before.quality_best_case {
                let k = choose|k: int|
                    0 <= k < earlier.len() && before.quality_best_case == (
                    #[trigger] earlier[k]).quality;
                assert(samples[k] == earlier[k]);
            }
        }

        let worst = after.quality_worst_case;
        assert(before.quality_worst_case.at_most(worst) && last.quality.at_most(worst));
        lemma_at_most_transitive(start.quality_worst_case, before.quality_worst_case, worst);
        assert forall|k: int| 0 <= k < samples.len() implies (#[trigger] samples[k]).quality.at_most(
            worst,
        ) by {
            if k < earlier.len() {
                assert(earlier[k] == samples[k]);
                lemma_at_most_transitive(samples[k].quality, before.quality_worst_case, worst);
            }
        }
        if worst != start.quality_worst_case {
            if worst == before.quality_worst_case {
                let k = choose|k: int|
                    0 <= k < earlier.len() && before.quality_worst_case == (
                    #[trigger] earlier[k]).quality;
                assert(samples[k] == earlier[k]);
            }
        }
    }
}

/// Each sample of `b` is one of `a`, where both hold the same samples.
proof fn lemma_member_of_both(a: Seq<Sample>, b: Seq<Sample>, j: int) -> (k: int)
    requires
        a.to_multiset() == b.to_multiset(),
        0 <= j < b.len(),
    ensures
        0 <= k < a.len(),
        a[k] == b[j],
{
    to_multiset_contains(b, b[j]);
    to_multiset_contains(a, b[j]);
    assert(b.contains(b[j]));
    a.index_of(b[j])
}

/// The running best and worst cases do not depend on the order of the
/// samples: the same samples in another order give the same best and worst
/// time, and a best and a worst quality of the same ratio.
pub proof fn lemma_extremes_ignore_order(start: ProblemResultView, a: Seq<Sample>, b: Seq<Sample>)
    requires
        start.quality_best_case.wf(),
        start.quality_worst_case.wf(),
        qualities_wf(a),
        a.to_multiset() == b.to_multiset(),
    ensures
        start.with_samples(a).time_us_best_case == start.with_samples(b).time_us_best_case,
        start.with_samples(a).time_us_worst_case == start.with_samples(b).time_us_worst_case,
        start.with_samples(a).quality_best_case.same_ratio(
            start.with_samples(b).quality_best_case,
        ),
        start.with_samples(a).quality_worst_case.same_ratio(
            start.with_samples(b).quality_worst_case,
        ),
{
    assert forall|j: int| 0 <= j < b.len() implies (#[trigger] b[j]).quality.wf() by {
        let k = lemma_member_of_both(a, b, j);
    }
    lemma_running_extremes(start, a);
    lemma_running_extremes(start, b);
    let ra = start.with_samples(a);
    let rb = start.with_samples(b);
    lemma_bounded_by_other(start, a, b);
    lemma_bounded_by_other(start, b, a);
}

/// The extremes over `a` bound the extremes over `b`, where both hold the
/// same samples.
proof fn lemma_bounded_by_other(start: ProblemResultView, a: Seq<Sample>, b: Seq<Sample>)
    requires
        a.to_multiset() == b.to_multiset(),
        is_least_time(start.with_samples(a).time_us_best_case, start.time_us_best_case, a),
        is_least_time(start.with_samples(b).time_us_best_case, start.time_us_best_case, b),
        is_greatest_time(start.with_samples(a).time_us_worst_case, start.time_us_worst_case, a),
        is_greatest_time(start.with_samples(b).time_us_worst_case, start.time_us_worst_case, b),
        is_least_quality(start.with_samples(a).quality_best_case, start.quality_best_case, a),
        is_least_quality(start.with_samples(b).quality_best_case, start.quality_best_case, b),
        is_greatest_quality(
            start.with_samples(a).quality_worst_case,
            start.quality_worst_case,
            a,
        ),
        is_greatest_quality(
            start.with_samples(b).quality_worst_case,
            start.quality_worst_case,
            b,
        ),
    ensures
        start.with_samples(a).time_us_best_case <= start.with_samples(b).time_us_best_case,
        start.with_samples(a).time_us_worst_case >= start.with_samples(b).time_us_worst_case,
        start.with_samples(a).quality_best_case.at_most(start.with_samples(b).quality_best_case),
        start.with_samples(b).quality_worst_case.at_most(
            start.with_samples(a).quality_worst_case,
        ),
{
    let ra = start.with_samples(a);
    let rb = start.with_samples(b);
    if rb.time_us_best_case != start.time_us_best_case {
        let j = choose|j: int|
            0 <= j < b.len() && rb.time_us_best_case == (#[trigger] b[j]).elapsed_us;
        let k = lemma_member_of_both(a, b, j);
    }
    if rb.time_us_worst_case != start.time_us_worst_case {
        let j = choose|j: int|
            0 <= j < b.len() && rb.time_us_worst_case == (#[trigger] b[j]).elapsed_us;
        let k = lemma_member_of_both(a, b, j);
    }
    if rb.quality_best_case != start.quality_best_case {
        let j = choose|j: int|
            0 <= j < b.len() && rb.quality_best_case == (#[trigger] b[j]).quality;
        let k = lemma_member_of_both(a, b, j);
    }
    if rb.quality_worst_case != start.quality_worst_case {
        let j = choose|j: int|
            0 <= j < b.len() && rb.quality_worst_case == (#[trigger] b[j]).quality;
        let k = lemma_member_of_both(a, b, j);
    }
}

} // verus!
