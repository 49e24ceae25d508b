//! The optimiser: it holds the palette and its weighted metrics, perturbs
//! the colour behind the weakest score and remembers the best palette seen.

use crate::color::{lemma_hyab_bounds, sRGB, Oklab, Score};
use crate::metric::{
    constraint_min, is_constraint_min, is_pair_min, lemma_constraint_reports_min,
    lemma_pair_reports_min, pair_min, Constraint, PairDistance, ScoreMetric, SrgbLut,
};
use crate::score::INFINITY;
use crate::update::{
    apply_pair_update, color_update, spec_color_pair_updates, spec_color_update,
    spec_color_updates, spec_pair_update, update_color, update_color_pair, ColorPairUpdate,
    ColorUpdate,
};
use vstd::prelude::*;

verus! {

/// The metric that holds the weakest weighted score, by its place in its
/// list, and the slot or the pair of slots behind that score.
#[derive(Clone, Copy, Debug, PartialEq, Eq)]
pub enum Metric {
    Pair(usize, (usize, usize)),
    Const(usize, usize),
}

/// A score divided by a weight, rounded towards zero.
pub open spec fn weighted(s: int, w: int) -> int {
    if s >= 0 {
        s / w
    } else {
        -((-s) / w)
    }
}

/// The weighted scores of a palette: one for each pair metric, given by its
/// weight and table, then one for each constraint.
pub open spec fn metric_scores(
    pairs: Seq<(Score, SrgbLut<Oklab>)>,
    constraints: Seq<(Score, SrgbLut<Score>)>,
    palette: Seq<sRGB>,
) -> Seq<int> {
    Seq::new(
        pairs.len() + constraints.len(),
        |m: int|
            if m < pairs.len() {
                weighted(pair_min(pairs[m].1, palette) as int, pairs[m].0 as int)
            } else {
                weighted(
                    constraint_min(constraints[m - pairs.len()].1, palette) as int,
                    constraints[m - pairs.len()].0 as int,
                )
            },
    )
}

/// The global score of a palette: the weakest of its weighted scores.
pub open spec fn global_score(
    pairs: Seq<(Score, SrgbLut<Oklab>)>,
    constraints: Seq<(Score, SrgbLut<Score>)>,
    palette: Seq<sRGB>,
) -> int {
    metric_scores(pairs, constraints, palette).min()
}

/// The weight and the table of each pair metric.
pub open spec fn pair_specs<'a>(metrics: Seq<(Score, PairDistance<'a>)>) -> Seq<
    (Score, SrgbLut<Oklab>),
> {
    Seq::new(metrics.len(), |m: int| (metrics[m].0, metrics[m].1.lut()))
}

/// The weight and the table of each constraint.
pub open spec fn constraint_specs<'a>(metrics: Seq<(Score, Constraint<'a>)>) -> Seq<
    (Score, SrgbLut<Score>),
> {
    Seq::new(metrics.len(), |m: int| (metrics[m].0, metrics[m].1.lut()))
}

/// Every pair metric has a positive weight and mirrors `palette`.
pub open spec fn pairs_mirror<'a>(metrics: Seq<(Score, PairDistance<'a>)>, palette: Seq<sRGB>) -> bool {
    forall|m: int|
        0 <= m < metrics.len() ==> (#[trigger] metrics[m]).0 > 0 && metrics[m].1.wf()
            && metrics[m].1.palette() == palette
}

/// Every constraint has a positive weight and mirrors `palette`.
pub open spec fn constraints_mirror<'a>(
    metrics: Seq<(Score, Constraint<'a>)>,
    palette: Seq<sRGB>,
) -> bool {
    forall|m: int|
        0 <= m < metrics.len() ==> (#[trigger] metrics[m]).0 > 0 && metrics[m].1.wf()
            && metrics[m].1.palette() == palette
}

/// The place of the metric that `tag` names among the pair metrics followed
/// by the constraints.
pub open spec fn metric_number(tag: Metric, pairs: int) -> int {
    match tag {
        Metric::Pair(m, _) => m as int,
        Metric::Const(m, _) => pairs + m,
    }
}

/// `tag` names the first metric whose weighted score is the global score of
/// `palette`, and a slot, or a pair of slots, that shows that metric's
/// weakest score.
pub open spec fn is_weakest(
    tag: Metric,
    pairs: Seq<(Score, SrgbLut<Oklab>)>,
    constraints: Seq<(Score, SrgbLut<Score>)>,
    palette: Seq<sRGB>,
) -> bool {
    &&& shows_global_score(tag, pairs, constraints, palette)
    &&& forall|k: int|
        0 <= k < metric_number(tag, pairs.len() as int) ==> #[trigger] metric_scores(
            pairs,
            constraints,
            palette,
        )[k] > global_score(pairs, constraints, palette)
}

/// `tag` names a metric whose weighted score is the global score of
/// `palette`, and a slot, or a pair of slots, that shows that metric's
/// weakest score.
pub open spec fn shows_global_score(
    tag: Metric,
    pairs: Seq<(Score, SrgbLut<Oklab>)>,
    constraints: Seq<(Score, SrgbLut<Score>)>,
    palette: Seq<sRGB>,
) -> bool {
    match tag {
        Metric::Pair(m, key) => {
            &&& m < pairs.len()
            &&& is_pair_min(pairs[m as int].1, palette, (pair_min(pairs[m as int].1, palette), key))
            &&& weighted(pair_min(pairs[m as int].1, palette) as int, pairs[m as int].0 as int)
                == global_score(pairs, constraints, palette)
        },
        Metric::Const(m, slot) => {
            &&& m < constraints.len()
            &&& is_constraint_min(
                constraints[m as int].1,
                palette,
                (constraint_min(constraints[m as int].1, palette), slot),
            )
            &&& weighted(
                constraint_min(constraints[m as int].1, palette) as int,
                constraints[m as int].0 as int,
            ) == global_score(pairs, constraints, palette)
        },
    }
}

/// Dividing by a positive weight keeps a score between zero and itself.
proof fn lemma_weighted_bounds(s: int, w: int)
    requires
        w > 0,
    ensures
        s >= 0 ==> 0 <= weighted(s, w) <= s,
        s < 0 ==> s <= weighted(s, w) <= 0,
{
    if s >= 0 {
        assert(0 <= s / w <= s) by (nonlinear_arith)
            requires
                s >= 0,
                w > 0,
        ;
    } else {
        assert(0 <= (-s) / w <= -s) by (nonlinear_arith)
            requires
                -s >= 0,
                w > 0,
        ;
    }
}

/// A score divided by its weight.
fn weigh(s: Score, w: Score) -> (r: Score)
    requires
        w > 0,
    ensures
        r == weighted(s as int, w as int),
{
    proof {
        lemma_weighted_bounds(s as int, w as int);
    }
    s / w
}

/// Scans the metrics, the pair metrics first, for the weakest weighted
/// score. Returns it with the first metric that shows it; where no score is
/// below `INFINITY`, with the first slot of the first constraint.
fn weakest<'a>(
    pair_metrics: &Vec<(Score, PairDistance<'a>)>,
    constraints: &Vec<(Score, Constraint<'a>)>,
    Ghost(palette): Ghost<Seq<sRGB>>,
) -> (min_score: (Score, Metric))
    requires
        pair_metrics.len() + constraints.len() > 0,
        pairs_mirror(pair_metrics@, palette),
        constraints_mirror(constraints@, palette),
    ensures
        min_score.0 == global_score(
            pair_specs(pair_metrics@),
            constraint_specs(constraints@),
            palette,
        ),
        is_weakest(
            min_score.1,
            pair_specs(pair_metrics@),
            constraint_specs(constraints@),
            palette,
        ),
{
    let ghost ps = pair_specs(pair_metrics@);
    let ghost cs = constraint_specs(constraints@);
    let ghost all = metric_scores(ps, cs, palette);
    let mut min_score = (INFINITY, Metric::Const(0, 0));
    let ghost mut found: int = -1;
    let mut i: usize = 0;
    while i < pair_metrics.len()
        invariant
            i <= pair_metrics.len(),
            pairs_mirror(pair_metrics@, palette),
            ps == pair_specs(pair_metrics@),
            cs == constraint_specs(constraints@),
            all == metric_scores(ps, cs, palette),
            -1 <= found < i,
            forall|m: int| 0 <= m < i ==> min_score.0 <= #[trigger] all[m],
            found == -1 ==> min_score == (INFINITY, Metric::Const(0, 0)) && i == 0,
            found >= 0 ==> min_score.0 == all[found] && is_weakest_of(
                min_score.1,
                found,
                ps,
                cs,
                palette,
            ),
            forall|m: int| 0 <= m < found ==> min_score.0 < #[trigger] all[m],
        decreases pair_metrics.len() - i,
    {
        let (s, pair_index) = pair_metrics[i].1.get_min_score();
        let score = weigh(s, pair_metrics[i].0);
        proof {
            assert(pair_metrics@[i as int].0 > 0);
            let lut = ps[i as int].1;
            lemma_hyab_bounds(
                lut.spec_get(palette[pair_index.0 as int]),
                lut.spec_get(palette[pair_index.1 as int]),
            );
            lemma_weighted_bounds(s as int, pair_metrics@[i as int].0 as int);
            assert(all[i as int] == score);
        }
        if score < min_score.0 {
            min_score = (score, Metric::Pair(i, pair_index));
            proof {
                found = i as int;
            }
        }
        i += 1;
    }
    let mut j: usize = 0;
    while j < constraints.len()
        invariant
            i == pair_metrics.len(),
            j <= constraints.len(),
            constraints_mirror(constraints@, palette),
            ps == pair_specs(pair_metrics@),
            cs == constraint_specs(constraints@),
            all == metric_scores(ps, cs, palette),
            -1 <= found < i + j,
            forall|m: int| 0 <= m < i + j ==> min_score.0 <= #[trigger] all[m],
            found == -1 ==> min_score == (INFINITY, Metric::Const(0, 0)) && i == 0,
            found >= 0 ==> min_score.0 == all[found] && is_weakest_of(
                min_score.1,
                found,
                ps,
                cs,
                palette,
            ),
            forall|m: int| 0 <= m < found ==> min_score.0 < #[trigger] all[m],
        decreases constraints.len() - j,
    {
        let (s, slot) = constraints[j].1.get_min_score();
        let score = weigh(s, constraints[j].0);
        proof {
            assert(constraints@[j as int].0 > 0);
            assert(all[i + j] == score);
        }
        if score < min_score.0 {
            min_score = (score, Metric::Const(j, slot));
            proof {
                found = i + j;
            }
        }
        j += 1;
    }
    proof {
        all.min_ensures();
        if found == -1 {
            // No score is below INFINITY: all of them are INFINITY, and so
            // is every value that the first constraint's table gives.
            let lut = cs[0].1;
            let w = cs[0].0 as int;
            let r = (constraint_min(lut, palette), 0usize);
            let q = choose|q: (Score, usize)| is_constraint_min(lut, palette, q);
            assert(constraints@[0].0 > 0);
            assert(constraints@[0].1.wf());
            lemma_constraint_reports_min(constraints@[0].1);
            assert(is_constraint_min(lut, palette, q));
            assert(all[0] == weighted(q.0 as int, w));
            lemma_weighted_bounds(q.0 as int, w);
            assert(q.0 == INFINITY);
            assert(is_constraint_min(lut, palette, r));
            assert(all.min() >= INFINITY);
            assert(all.contains(all.min()));
        } else {
            assert(all.contains(all[found]));
        }
    }
    min_score
}

/// `tag` names metric number `m` of the pair metrics followed by the
/// constraints, and a slot, or a pair, that shows its weakest score.
spec fn is_weakest_of(
    tag: Metric,
    m: int,
    pairs: Seq<(Score, SrgbLut<Oklab>)>,
    constraints: Seq<(Score, SrgbLut<Score>)>,
    palette: Seq<sRGB>,
) -> bool {
    match tag {
        Metric::Pair(k, key) => {
            &&& k == m < pairs.len()
            &&& is_pair_min(pairs[m].1, palette, (pair_min(pairs[m].1, palette), key))
        },
        Metric::Const(k, slot) => {
            &&& 0 <= m - pairs.len() == k < constraints.len()
            &&& is_constraint_min(
                constraints[k as int].1,
                palette,
                (constraint_min(constraints[k as int].1, palette), slot),
            )
        },
    }
}

/// A copy of `colors`.
fn copy_palette(colors: &Vec<sRGB>) -> (copy: Vec<sRGB>)
    ensures
        copy@ == colors@,
{
    let mut copy: Vec<sRGB> = Vec::with_capacity(colors.len());
    let mut i: usize = 0;
    while i < colors.len()
        invariant
            i <= colors.len(),
            copy@ == colors@.subrange(0, i as int),
        decreases colors.len() - i,
    {
        copy.push(colors[i]);
        assert(copy@ =~= colors@.subrange(0, i + 1));
        i += 1;
    }
    assert(colors@.subrange(0, colors.len() as int) =~= colors@);
    copy
}

/// Reports to every pair metric that slot `index` is now `c`.
fn update_pairs<'a>(
    metrics: &mut Vec<(Score, PairDistance<'a>)>,
    index: usize,
    c: &sRGB,
    Ghost(palette): Ghost<Seq<sRGB>>,
)
    requires
        pairs_mirror(old(metrics)@, palette),
        index < palette.len(),
    ensures
        pairs_mirror(final(metrics)@, palette.update(index as int, *c)),
        pair_specs(final(metrics)@) == pair_specs(old(metrics)@),
{
    let ghost specs = pair_specs(metrics@);
    let mut i: usize = 0;
    while i < metrics.len()
        invariant
            i <= metrics.len(),
            index < palette.len(),
            metrics.len() == specs.len(),
            pair_specs(metrics@) =~= specs,
            forall|m: int|
                0 <= m < i ==> (#[trigger] metrics@[m]).0 > 0 && metrics@[m].1.wf()
                    && metrics@[m].1.palette() == palette.update(index as int, *c),
            forall|m: int|
                i <= m < metrics.len() ==> (#[trigger] metrics@[m]).0 > 0 && metrics@[m].1.wf()
                    && metrics@[m].1.palette() == palette,
        decreases metrics.len() - i,
    {
        let ghost before = metrics@;
        assert(before[i as int].0 > 0);
        metrics[i].1.update(index, c);
        proof {
            assert(metrics@.len() == before.len());
            assert forall|m: int| 0 <= m < metrics.len() && m != i implies #[trigger] metrics@[m]
                == before[m] by {}
            assert(metrics@[i as int].0 == before[i as int].0);
            assert forall|m: int| 0 <= m < specs.len() implies pair_specs(metrics@)[m]
                == specs[m] by {
                assert(specs[m] == pair_specs(before)[m]);
                if m != i {
                    assert(metrics@[m] == before[m]);
                }
            }
        }
        i += 1;
    }
}

/// Reports to every constraint that slot `index` is now `c`.
fn update_constraints<'a>(
    metrics: &mut Vec<(Score, Constraint<'a>)>,
    index: usize,
    c: &sRGB,
    Ghost(palette): Ghost<Seq<sRGB>>,
)
    requires
        constraints_mirror(old(metrics)@, palette),
        index < palette.len(),
    ensures
        constraints_mirror(final(metrics)@, palette.update(index as int, *c)),
        constraint_specs(final(metrics)@) == constraint_specs(old(metrics)@),
{
    let ghost specs = constraint_specs(metrics@);
    let mut i: usize = 0;
    while i < metrics.len()
        invariant
            i <= metrics.len(),
            index < palette.len(),
            metrics.len() == specs.len(),
            constraint_specs(metrics@) =~= specs,
            forall|m: int|
                0 <= m < i ==> (#[trigger] metrics@[m]).0 > 0 && metrics@[m].1.wf()
                    && metrics@[m].1.palette() == palette.update(index as int, *c),
            forall|m: int|
                i <= m < metrics.len() ==> (#[trigger] metrics@[m]).0 > 0 && metrics@[m].1.wf()
                    && metrics@[m].1.palette() == palette,
        decreases metrics.len() - i,
    {
        let ghost before = metrics@;
        assert(before[i as int].0 > 0);
        metrics[i].1.update(index, c);
        proof {
            assert(metrics@.len() == before.len());
            assert forall|m: int| 0 <= m < metrics.len() && m != i implies #[trigger] metrics@[m]
                == before[m] by {}
            assert(metrics@[i as int].0 == before[i as int].0);
            assert forall|m: int| 0 <= m < specs.len() implies constraint_specs(metrics@)[m]
                == specs[m] by {
                assert(specs[m] == constraint_specs(before)[m]);
                if m != i {
                    assert(metrics@[m] == before[m]);
                }
            }
        }
        i += 1;
    }
}

/// The first `done` slots of `target`, then the later slots of `palette`.
spec fn partly_reset(palette: Seq<sRGB>, target: Seq<sRGB>, done: int) -> Seq<sRGB> {
    Seq::new(
        palette.len(),
        |k: int|
            if k < done {
                target[k]
            } else {
                palette[k]
            },
    )
}

/// Reports to every pair metric, slot by slot, that the palette is now
/// `target`.
fn reset_pairs<'a>(
    metrics: &mut Vec<(Score, PairDistance<'a>)>,
    target: &Vec<sRGB>,
    Ghost(palette): Ghost<Seq<sRGB>>,
)
    requires
        pairs_mirror(old(metrics)@, palette),
        target.len() == palette.len(),
    ensures
        pairs_mirror(final(metrics)@, target@),
        pair_specs(final(metrics)@) == pair_specs(old(metrics)@),
{
    let ghost specs = pair_specs(metrics@);
    let mut i: usize = 0;
    while i < metrics.len()
        invariant
            i <= metrics.len(),
            target.len() == palette.len(),
            metrics.len() == specs.len(),
            pair_specs(metrics@) =~= specs,
            forall|m: int|
                0 <= m < i ==> (#[trigger] metrics@[m]).0 > 0 && metrics@[m].1.wf()
                    && metrics@[m].1.palette() == target@,
            forall|m: int|
                i <= m < metrics.len() ==> (#[trigger] metrics@[m]).0 > 0 && metrics@[m].1.wf()
                    && metrics@[m].1.palette() == palette,
        decreases metrics.len() - i,
    {
        let ghost before = metrics@;
        assert(before[i as int].0 > 0);
        assert(partly_reset(palette, target@, 0) =~= palette);
        let mut index: usize = 0;
        while index < target.len()
            invariant
                i < metrics.len(),
                index <= target.len(),
                target.len() == palette.len(),
                metrics.len() == before.len(),
                forall|m: int| 0 <= m < metrics.len() && m != i ==> #[trigger] metrics@[m] == before[m],
                metrics@[i as int].0 == before[i as int].0,
                metrics@[i as int].1.lut() == before[i as int].1.lut(),
                metrics@[i as int].1.wf(),
                metrics@[i as int].1.palette() == partly_reset(palette, target@, index as int),
            decreases target.len() - index,
        {
            metrics[i].1.update(index, &target[index]);
            assert(partly_reset(palette, target@, index as int).update(
                index as int,
                target@[index as int],
            ) =~= partly_reset(palette, target@, index + 1));
            index += 1;
        }
        proof {
            assert(partly_reset(palette, target@, target.len() as int) =~= target@);
            assert forall|m: int| 0 <= m < specs.len() implies pair_specs(metrics@)[m]
                == specs[m] by {
                assert(specs[m] == pair_specs(before)[m]);
                if m != i {
                    assert(metrics@[m] == before[m]);
                }
            }
        }
        i += 1;
    }
}

/// Reports to every constraint, slot by slot, that the palette is now
/// `target`.
fn reset_constraints<'a>(
    metrics: &mut Vec<(Score, Constraint<'a>)>,
    target: &Vec<sRGB>,
    Ghost(palette): Ghost<Seq<sRGB>>,
)
    requires
        constraints_mirror(old(metrics)@, palette),
        target.len() == palette.len(),
    ensures
        constraints_mirror(final(metrics)@, target@),
        constraint_specs(final(metrics)@) == constraint_specs(old(metrics)@),
{
    let ghost specs = constraint_specs(metrics@);
    let mut i: usize = 0;
    while i < metrics.len()
        invariant
            i <= metrics.len(),
            target.len() == palette.len(),
            metrics.len() == specs.len(),
            constraint_specs(metrics@) =~= specs,
            forall|m: int|
                0 <= m < i ==> (#[trigger] metrics@[m]).0 > 0 && metrics@[m].1.wf()
                    && metrics@[m].1.palette() == target@,
            forall|m: int|
                i <= m < metrics.len() ==> (#[trigger] metrics@[m]).0 > 0 && metrics@[m].1.wf()
                    && metrics@[m].1.palette() == palette,
        decreases metrics.len() - i,
    {
        let ghost before = metrics@;
        assert(before[i as int].0 > 0);
        assert(partly_reset(palette, target@, 0) =~= palette);
        let mut index: usize = 0;
        while index < target.len()
            invariant
                i < metrics.len(),
                index <= target.len(),
                target.len() == palette.len(),
                metrics.len() == before.len(),
                forall|m: int| 0 <= m < metrics.len() && m != i ==> #[trigger] metrics@[m] == before[m],
                metrics@[i as int].0 == before[i as int].0,
                metrics@[i as int].1.lut() == before[i as int].1.lut(),
                metrics@[i as int].1.wf(),
                metrics@[i as int].1.palette() == partly_reset(palette, target@, index as int),
            decreases target.len() - index,
        {
            metrics[i].1.update(index, &target[index]);
            assert(partly_reset(palette, target@, index as int).update(
                index as int,
                target@[index as int],
            ) =~= partly_reset(palette, target@, index + 1));
            index += 1;
        }
        proof {
            assert(partly_reset(palette, target@, target.len() as int) =~= target@);
            assert forall|m: int| 0 <= m < specs.len() implies constraint_specs(metrics@)[m]
                == specs[m] by {
                assert(specs[m] == constraint_specs(before)[m]);
                if m != i {
                    assert(metrics@[m] == before[m]);
                }
            }
        }
        i += 1;
    }
}

/// The live palette, its weighted metrics, the metric that is weakest now,
/// and the best score seen with its palette.
pub struct Optimizer<'a> {
    colors: Vec<sRGB>,
    min_score_metric: Metric,
    pair_metrics: Vec<(Score, PairDistance<'a>)>,
    constraints: Vec<(Score, Constraint<'a>)>,
    best_colors: (Score, Vec<sRGB>),
}

impl<'a> Optimizer<'a> {
    /// The live palette.
    pub closed spec fn palette(&self) -> Seq<sRGB> {
        self.colors@
    }

    /// The weight and the table of each pair metric.
    pub closed spec fn pairs(&self) -> Seq<(Score, SrgbLut<Oklab>)> {
        pair_specs(self.pair_metrics@)
    }

    /// The weight and the table of each constraint.
    pub closed spec fn constraints(&self) -> Seq<(Score, SrgbLut<Score>)> {
        constraint_specs(self.constraints@)
    }

    /// The pair metrics themselves.
    pub closed spec fn pair_metrics(&self) -> Seq<(Score, PairDistance<'a>)> {
        self.pair_metrics@
    }

    /// The constraints themselves.
    pub closed spec fn constraint_metrics(&self) -> Seq<(Score, Constraint<'a>)> {
        self.constraints@
    }

    /// The metric whose slot, or pair, the next step perturbs.
    pub closed spec fn active(&self) -> Metric {
        self.min_score_metric
    }

    /// The best score seen, and the palette that had it.
    pub closed spec fn best(&self) -> (Score, Seq<sRGB>) {
        (self.best_colors.0, self.best_colors.1@)
    }

    /// The global score that the metrics of this optimiser give `palette`.
    pub open spec fn score_of(&self, palette: Seq<sRGB>) -> int {
        global_score(self.pairs(), self.constraints(), palette)
    }

    /// There is a metric; every metric has a positive weight and mirrors the
    /// live palette; the active metric shows the global score; the best
    /// score is the global score of the best palette, which has the length
    /// of the live one, and no less than the live palette's.
    pub open spec fn wf(&self) -> bool {
        &&& self.pair_metrics().len() + self.constraint_metrics().len() > 0
        &&& self.pairs() == pair_specs(self.pair_metrics())
        &&& self.constraints() == constraint_specs(self.constraint_metrics())
        &&& pairs_mirror(self.pair_metrics(), self.palette())
        &&& constraints_mirror(self.constraint_metrics(), self.palette())
        &&& is_weakest(self.active(), self.pairs(), self.constraints(), self.palette())
        &&& self.best().1.len() == self.palette().len()
        &&& self.best().0 == self.score_of(self.best().1)
        &&& self.best().0 >= self.score_of(self.palette())
    }

    /// An optimiser that starts from `colors`, with metrics that mirror
    /// them. The best score is the global score of `colors`.
    pub fn new(
        pair_metrics: Vec<(Score, PairDistance<'a>)>,
        constraints: Vec<(Score, Constraint<'a>)>,
        colors: Vec<sRGB>,
    ) -> (optimizer: Self)
        requires
            pair_metrics.len() + constraints.len() > 0,
            pairs_mirror(pair_metrics@, colors@),
            constraints_mirror(constraints@, colors@),
        ensures
            optimizer.wf(),
            optimizer.palette() == colors@,
            optimizer.pair_metrics() == pair_metrics@,
            optimizer.constraint_metrics() == constraints@,
            optimizer.best() == (optimizer.score_of(colors@) as Score, colors@),
    {
        let best_colors = copy_palette(&colors);
        let min_score = weakest(&pair_metrics, &constraints, Ghost(colors@));
        Self {
            colors,
            min_score_metric: min_score.1,
            pair_metrics,
            constraints,
            best_colors: (min_score.0, best_colors),
        }
    }

    /// Puts `c` into slot `index`, reports the change to every metric, finds
    /// the weakest metric anew and keeps the palette where its global score
    /// is above the best seen.
    pub fn commit(&mut self, index: usize, c: sRGB)
        requires
            old(self).wf(),
            index < old(self).palette().len(),
        ensures
            final(self).wf(),
            final(self).palette() == old(self).palette().update(index as int, c),
            final(self).pairs() == old(self).pairs(),
            final(self).constraints() == old(self).constraints(),
            final(self).best() == if final(self).score_of(final(self).palette()) > old(
                self,
            ).best().0 {
                (final(self).score_of(final(self).palette()) as Score, final(self).palette())
            } else {
                old(self).best()
            },
            final(self).best().0 >= old(self).best().0,
    {
        let ghost before = self.colors@;
        self.colors[index] = c;
        update_pairs(&mut self.pair_metrics, index, &c, Ghost(before));
        update_constraints(&mut self.constraints, index, &c, Ghost(before));
        let min_score = weakest(&self.pair_metrics, &self.constraints, Ghost(self.colors@));
        self.min_score_metric = min_score.1;
        if min_score.0 > self.best_colors.0 {
            self.best_colors = (min_score.0, copy_palette(&self.colors));
        }
    }

    /// The candidate that the draw `cu` proposes: for a pair metric, a step
    /// of the colour of the weakest pair that the draw picks; for a
    /// constraint, a step of the weakest colour.
    pub open spec fn candidate(&self, cu: ColorPairUpdate) -> (usize, sRGB) {
        match self.active() {
            Metric::Pair(_, pair) => spec_pair_update(self.palette(), pair, cu),
            Metric::Const(_, slot) => (slot, spec_color_update(self.palette()[slot as int], cu.cu)),
        }
    }

    /// Whether the active metric expects colour `c` in slot `index` to raise
    /// its weakest score.
    pub open spec fn accepts(&self, index: usize, c: sRGB) -> bool {
        match self.active() {
            Metric::Pair(m, _) => self.pair_metrics()[m as int].1.spec_test_improvement(index, c),
            Metric::Const(m, _) => self.constraint_metrics()[m as int].1.spec_test_improvement(
                index,
                c,
            ),
        }
    }

    /// The candidate that two draws lead to: that of the first where the
    /// active metric accepts it, else that of the second, accepted or not.
    pub open spec fn chosen(&self, first: ColorPairUpdate, second: ColorPairUpdate) -> (
        usize,
        sRGB,
    ) {
        let one = self.candidate(first);
        if self.accepts(one.0, one.1) {
            one
        } else {
            self.candidate(second)
        }
    }

    /// `self` is what `prev` becomes when the candidate is committed: the
    /// palette has the candidate's colour in its slot, the metrics are the
    /// same ones, and the best palette is replaced where the new global
    /// score is above the best score.
    pub open spec fn is_step_of(&self, prev: Self, cand: (usize, sRGB)) -> bool {
        &&& self.wf()
        &&& self.palette() == prev.palette().update(cand.0 as int, cand.1)
        &&& self.pairs() == prev.pairs()
        &&& self.constraints() == prev.constraints()
        &&& self.best() == if self.score_of(self.palette()) > prev.best().0 {
            (self.score_of(self.palette()) as Score, self.palette())
        } else {
            prev.best()
        }
    }

    /// `self` is what one update makes of `prev`, whatever was drawn.
    pub open spec fn is_update_of(&self, prev: Self) -> bool {
        exists|first: ColorPairUpdate, second: ColorPairUpdate|
            self.is_step_of(prev, #[trigger] prev.chosen(first, second))
    }

    /// `self` is what going back to the best palette makes of `prev`: the
    /// live palette is the best one, its global score is the best score, and
    /// nothing else has changed.
    pub open spec fn is_restore_of(&self, prev: Self) -> bool {
        &&& self.wf()
        &&& self.palette() == prev.best().1
        &&& self.best() == prev.best()
        &&& self.pairs() == prev.pairs()
        &&& self.constraints() == prev.constraints()
        &&& self.score_of(self.palette()) == self.best().0
    }

    /// One step of the optimisation with random draws: a candidate is drawn
    /// for the active metric; where the metric does not accept it, a second
    /// one is drawn and taken as it is; the candidate is committed.
    pub fn update(&mut self)
        requires
            old(self).wf(),
        ensures
            final(self).wf(),
            final(self).is_update_of(*old(self)),
            final(self).best().0 >= old(self).best().0,
    {
        let m = self.min_score_metric;
        let ghost first: ColorPairUpdate;
        let ghost second: ColorPairUpdate;
        let (index, c) = match m {
            Metric::Pair(i, pair) => {
                let (mut index, mut c) = update_color_pair(&self.colors, pair);
                proof {
                    first = choose|cu: ColorPairUpdate|
                        spec_color_pair_updates().contains(cu) && (index, c)
                            == #[trigger] spec_pair_update(self.colors@, pair, cu);
                    second = first;
                }
                if !self.pair_metrics[i].1.test_improvement(index, &c) {
                    let r = update_color_pair(&self.colors, pair);
                    index = r.0;
                    c = r.1;
                    proof {
                        second = choose|cu: ColorPairUpdate|
                            spec_color_pair_updates().contains(cu) && r
                                == #[trigger] spec_pair_update(self.colors@, pair, cu);
                    }
                }
                (index, c)
            },
            Metric::Const(i, index) => {
                let mut c = update_color(&self.colors, index);
                proof {
                    let cu = choose|cu: ColorUpdate|
                        spec_color_updates().contains(cu) && c == #[trigger] spec_color_update(
                            self.colors@[index as int],
                            cu,
                        );
                    first = ColorPairUpdate { which: crate::update::Which::First, cu };
                    second = first;
                }
                if !self.constraints[i].1.test_improvement(index, &c) {
                    c = update_color(&self.colors, index);
                    proof {
                        let cu = choose|cu: ColorUpdate|
                            spec_color_updates().contains(cu) && c == #[trigger] spec_color_update(
                                self.colors@[index as int],
                                cu,
                            );
                        second = ColorPairUpdate { which: crate::update::Which::First, cu };
                    }
                }
                (index, c)
            },
        };
        assert((index, c) == self.chosen(first, second));
        self.commit(index, c);
        assert(self.is_step_of(*old(self), old(self).chosen(first, second)));
    }

    /// One step of the optimisation with the draws given: the candidate of
    /// `first` where the active metric accepts it, else that of `second`, is
    /// committed.
    pub fn update_with(&mut self, first: ColorPairUpdate, second: ColorPairUpdate)
        requires
            old(self).wf(),
        ensures
            final(self).is_step_of(*old(self), old(self).chosen(first, second)),
            final(self).best().0 >= old(self).best().0,
    {
        let one = self.propose(&first);
        let (index, c) = if self.test_candidate(one.0, &one.1) {
            one
        } else {
            self.propose(&second)
        };
        self.commit(index, c);
    }

    /// The candidate that the draw `cu` proposes for the active metric.
    fn propose(&self, cu: &ColorPairUpdate) -> (cand: (usize, sRGB))
        requires
            self.wf(),
        ensures
            cand == self.candidate(*cu),
            cand.0 < self.palette().len(),
    {
        match self.min_score_metric {
            Metric::Pair(_, pair) => apply_pair_update(&self.colors, pair, cu),
            Metric::Const(_, slot) => (slot, color_update(self.colors[slot], &cu.cu)),
        }
    }

    /// Whether the active metric accepts colour `c` in slot `index`.
    fn test_candidate(&self, index: usize, c: &sRGB) -> (b: bool)
        requires
            self.wf(),
            index < self.palette().len(),
        ensures
            b == self.accepts(index, *c),
    {
        match self.min_score_metric {
            Metric::Pair(m, _) => self.pair_metrics[m].1.test_improvement(index, c),
            Metric::Const(m, _) => self.constraints[m].1.test_improvement(index, c),
        }
    }

    /// Goes back to the best palette seen: the live palette becomes the best
    /// one, every metric is told of every slot, and the weakest metric is
    /// found anew. The global score is then the best score again.
    pub fn restore_best(&mut self)
        requires
            old(self).wf(),
        ensures
            final(self).is_restore_of(*old(self)),
    {
        let ghost before = self.colors@;
        self.colors = copy_palette(&self.best_colors.1);
        reset_pairs(&mut self.pair_metrics, &self.colors, Ghost(before));
        reset_constraints(&mut self.constraints, &self.colors, Ghost(before));
        let min_score = weakest(&self.pair_metrics, &self.constraints, Ghost(self.colors@));
        self.min_score_metric = min_score.1;
    }

    /// The best global score seen.
    pub fn get_best_score(&self) -> (score: Score)
        ensures
            score == self.best().0,
    {
        self.best_colors.0
    }

    /// The best global score seen, and the palette that had it.
    pub fn get_best(self) -> (best: (Score, Vec<sRGB>))
        ensures
            best.0 == self.best().0,
            best.1@ == self.best().1,
    {
        self.best_colors
    }

    /// The live palette.
    pub fn get_colors(&self) -> (colors: Vec<sRGB>)
        ensures
            colors@ == self.palette(),
    {
        copy_palette(&self.colors)
    }

    /// The global score of the live palette, computed anew from the metrics.
    pub fn get_score(&self) -> (score: Score)
        requires
            self.wf(),
        ensures
            score == self.score_of(self.palette()),
    {
        weakest(&self.pair_metrics, &self.constraints, Ghost(self.colors@)).0
    }
}

/// In a well-formed optimiser every pair metric reports the smallest
/// distance of the live palette: the one that a computation from the table
/// and the palette alone gives.
pub proof fn lemma_pair_metric_is_current(optimizer: Optimizer, m: int)
    requires
        optimizer.wf(),
        0 <= m < optimizer.pair_metrics().len(),
    ensures
        optimizer.pair_metrics()[m].1.palette() == optimizer.palette(),
        optimizer.pair_metrics()[m].1.lut() == optimizer.pairs()[m].1,
        is_pair_min(
            optimizer.pairs()[m].1,
            optimizer.palette(),
            optimizer.pair_metrics()[m].1.spec_min_score(),
        ),
        optimizer.pair_metrics()[m].1.spec_min_score().0 == pair_min(
            optimizer.pairs()[m].1,
            optimizer.palette(),
        ),
{
    assert(optimizer.pair_metrics()[m].0 > 0);
    lemma_pair_reports_min(optimizer.pair_metrics()[m].1);
}

/// In a well-formed optimiser every constraint reports the weakest
/// constraint score of the live palette: the one that a computation from the
/// table and the palette alone gives.
pub proof fn lemma_constraint_is_current(optimizer: Optimizer, m: int)
    requires
        optimizer.wf(),
        0 <= m < optimizer.constraint_metrics().len(),
    ensures
        optimizer.constraint_metrics()[m].1.palette() == optimizer.palette(),
        optimizer.constraint_metrics()[m].1.lut() == optimizer.constraints()[m].1,
        is_constraint_min(
            optimizer.constraints()[m].1,
            optimizer.palette(),
            optimizer.constraint_metrics()[m].1.spec_min_score(),
        ),
        optimizer.constraint_metrics()[m].1.spec_min_score().0 == constraint_min(
            optimizer.constraints()[m].1,
            optimizer.palette(),
        ),
{
    assert(optimizer.constraint_metrics()[m].0 > 0);
    lemma_constraint_reports_min(optimizer.constraint_metrics()[m].1);
}

/// Along a run of updates and of returns to the best palette, every state is
/// well-formed, so its metrics report the scores of its live palette, and
/// the best score never falls.
pub proof fn lemma_best_score_never_falls(run: Seq<Optimizer>, i: int, j: int)
    requires
        0 <= i <= j < run.len(),
        run[0].wf(),
        forall|k: int|
            0 < k < run.len() ==> (#[trigger] run[k]).is_update_of(run[k - 1])
                || run[k].is_restore_of(run[k - 1]),
    ensures
        run[j].wf(),
        run[i].best().0 <= run[j].best().0,
    decreases j - i,
{
    if j > 0 {
        assert(run[j].is_update_of(run[j - 1]) || run[j].is_restore_of(run[j - 1]));
    }
    if i < j {
        lemma_best_score_never_falls(run, i, j - 1);
    }
}

} // verus!
