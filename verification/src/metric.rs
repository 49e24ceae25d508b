//! Lookup tables over the sRGB cube and the two metrics that score a palette
//! through them.

use crate::color::{
    as_index, color_at, from_index, hyab, index_of, lemma_color_at_index, lemma_hyab_bounds,
    lemma_hyab_symmetric, sRGB, HyAB, Oklab, Score,
};
use crate::score::{
    get_pair_score, get_pair_scores, is_first_nearest, is_nearest, ScoreIndex, Scores,
};
use vstd::prelude::*;

verus! {

/// One value for each of the 2^24 sRGB colours, in the order of their
/// canonical indices.
pub struct SrgbLut<T> {
    data: Vec<T>,
}

/// `v` is the smallest of the values that `f` gave for `c` against each
/// background in turn.
pub open spec fn is_min_over<T2, F: Fn(&T2, &sRGB) -> Score>(
    f: F,
    backgrounds: Seq<T2>,
    c: sRGB,
    v: Score,
) -> bool {
    exists|vals: Seq<Score>|
        {
            &&& vals.len() == backgrounds.len()
            &&& forall|k: int|
                0 <= k < vals.len() ==> call_ensures(f, (&backgrounds[k], &c), #[trigger] vals[k])
            &&& forall|k: int| 0 <= k < vals.len() ==> v <= #[trigger] vals[k]
            &&& exists|k: int| 0 <= k < vals.len() && #[trigger] vals[k] == v
        }
}

impl<T> SrgbLut<T> {
    /// The table covers the whole sRGB cube.
    #[verifier::type_invariant]
    spec fn covers_cube(&self) -> bool {
        self.data@.len() == 0x100_0000
    }
}

impl<T: Copy> SrgbLut<T> {
    /// The table's entries, by canonical index.
    pub closed spec fn view(&self) -> Seq<T> {
        self.data@
    }

    /// The entry for colour `c`.
    pub open spec fn spec_get(&self, c: sRGB) -> T {
        self@[index_of(c)]
    }

    /// The table of `f`: the entry for each colour is what `f` returned for
    /// it.
    pub fn new<F: Fn(sRGB) -> T>(f: F) -> (lut: Self)
        requires
            forall|c: sRGB| call_requires(f, (c,)),
        ensures
            forall|c: sRGB| call_ensures(f, (c,), #[trigger] lut.spec_get(c)),
    {
        let mut data: Vec<T> = Vec::with_capacity(1 << 24);
        let mut i: usize = 0;
        while i < 0x100_0000
            invariant
                i <= 0x100_0000,
                data.len() == i,
                forall|c: sRGB| call_requires(f, (c,)),
                forall|k: int| 0 <= k < i ==> call_ensures(f, (color_at(k),), #[trigger] data@[k]),
            decreases 0x100_0000 - i,
        {
            let c = from_index(i);
            data.push(f(c));
            i += 1;
        }
        let lut = SrgbLut { data };
        proof {
            assert forall|c: sRGB| call_ensures(f, (c,), #[trigger] lut.spec_get(c)) by {
                lemma_color_at_index(c);
            }
        }
        lut
    }

    /// The entry for colour `c`.
    pub fn get(&self, c: &sRGB) -> (v: T)
        ensures
            v == self.spec_get(*c),
    {
        proof {
            use_type_invariant(self);
        }
        self.data[as_index(c)]
    }
}

/// The smallest value that `f` gives for `c` against the backgrounds.
fn min_over<T2, F: Fn(&T2, &sRGB) -> Score>(backgrounds: &Vec<T2>, f: &F, c: &sRGB) -> (v: Score)
    requires
        backgrounds.len() > 0,
        forall|k: int, d: sRGB|
            0 <= k < backgrounds.len() ==> call_requires(*f, (&#[trigger] backgrounds@[k], &d)),
    ensures
        is_min_over(*f, backgrounds@, *c, v),
{
    let mut best: Score = f(&backgrounds[0], c);
    let ghost mut vals: Seq<Score> = seq![best];
    let ghost mut w: int = 0;
    let mut k: usize = 1;
    while k < backgrounds.len()
        invariant
            1 <= k <= backgrounds.len(),
            vals.len() == k,
            forall|j: int, d: sRGB|
                0 <= j < backgrounds.len() ==> call_requires(
                    *f,
                    (&#[trigger] backgrounds@[j], &d),
                ),
            forall|j: int|
                0 <= j < k ==> call_ensures(*f, (&backgrounds@[j], c), #[trigger] vals[j]),
            forall|j: int| 0 <= j < k ==> best <= #[trigger] vals[j],
            0 <= w < k && vals[w] == best,
        decreases backgrounds.len() - k,
    {
        let v = f(&backgrounds[k], c);
        proof {
            vals = vals.push(v);
        }
        if v < best {
            best = v;
            proof {
                w = k as int;
            }
        }
        k += 1;
    }
    best
}

impl SrgbLut<Score> {
    /// The table whose entry for each colour is the smallest value that `f`
    /// gives for it against the backgrounds.
    pub fn new_constraint<T2, F: Fn(&T2, &sRGB) -> Score>(backgrounds: &Vec<T2>, f: F) -> (lut:
        Self)
        requires
            backgrounds.len() > 0,
            forall|k: int, c: sRGB|
                0 <= k < backgrounds.len() ==> call_requires(f, (&#[trigger] backgrounds@[k], &c)),
        ensures
            forall|c: sRGB| is_min_over(f, backgrounds@, c, #[trigger] lut.spec_get(c)),
    {
        let mut data: Vec<Score> = Vec::with_capacity(1 << 24);
        let mut i: usize = 0;
        while i < 0x100_0000
            invariant
                i <= 0x100_0000,
                data.len() == i,
                backgrounds.len() > 0,
                forall|k: int, c: sRGB|
                    0 <= k < backgrounds.len() ==> call_requires(
                        f,
                        (&#[trigger] backgrounds@[k], &c),
                    ),
                forall|k: int|
                    0 <= k < i ==> is_min_over(f, backgrounds@, color_at(k), #[trigger] data@[k]),
            decreases 0x100_0000 - i,
        {
            let c = from_index(i);
            data.push(min_over(backgrounds, &f, &c));
            i += 1;
        }
        let lut = SrgbLut { data };
        proof {
            assert forall|c: sRGB| is_min_over(f, backgrounds@, c, #[trigger] lut.spec_get(c)) by {
                lemma_color_at_index(c);
            }
        }
        lut
    }
}

/// A metric scores every slot of a palette and keeps track of the weakest.
/// It mirrors the palette: each change of a slot is reported to it.
pub trait ScoreMetric<T: ScoreIndex> {
    /// The metric's state is consistent with the palette that it mirrors.
    spec fn wf(&self) -> bool;

    /// The palette that the metric mirrors.
    spec fn palette(&self) -> Seq<sRGB>;

    /// The weakest score and the key of the slot, or slots, that it is from.
    spec fn spec_min_score(&self) -> (Score, T);

    /// Whether `updated_color` in slot `updated_index` promises to raise the
    /// weakest score.
    spec fn spec_test_improvement(&self, updated_index: usize, updated_color: sRGB) -> bool;

    /// The weakest score and the key of the slot, or slots, that it is from.
    fn get_min_score(&self) -> (r: (Score, T))
        requires
            self.wf(),
        ensures
            r == self.spec_min_score(),
    ;

    /// Takes note that slot `updated_index` of the palette now holds
    /// `updated_color`.
    fn update(&mut self, updated_index: usize, updated_color: &sRGB)
        requires
            old(self).wf(),
            updated_index < old(self).palette().len(),
        ensures
            final(self).wf(),
            final(self).palette() == old(self).palette().update(
                updated_index as int,
                *updated_color,
            ),
    ;

    /// A cheap guess whether `updated_color` in slot `updated_index` would
    /// raise the weakest score.
    fn test_improvement(&self, updated_index: usize, updated_color: &sRGB) -> (b: bool)
        requires
            self.wf(),
            updated_index < self.palette().len(),
        ensures
            b == self.spec_test_improvement(updated_index, *updated_color),
    ;
}

/// `r` is the weakest constraint score of `palette` under `lut`, with the
/// slot that it is from.
pub open spec fn is_constraint_min(lut: SrgbLut<Score>, palette: Seq<sRGB>, r: (Score, usize)) -> bool {
    &&& r.1 < palette.len()
    &&& r.0 == lut.spec_get(palette[r.1 as int])
    &&& forall|i: int| 0 <= i < palette.len() ==> r.0 <= lut.spec_get(#[trigger] palette[i])
}

/// The weakest constraint score of `palette` under `lut`.
pub open spec fn constraint_min(lut: SrgbLut<Score>, palette: Seq<sRGB>) -> Score {
    (choose|r: (Score, usize)| is_constraint_min(lut, palette, r)).0
}

/// A palette has one weakest constraint score, whichever slot shows it.
pub proof fn lemma_constraint_min_unique(lut: SrgbLut<Score>, palette: Seq<sRGB>, r: (Score, usize))
    requires
        is_constraint_min(lut, palette, r),
    ensures
        constraint_min(lut, palette) == r.0,
{
    let q = choose|q: (Score, usize)| is_constraint_min(lut, palette, q);
    assert(is_constraint_min(lut, palette, q));
    assert(q.0 <= lut.spec_get(palette[r.1 as int]));
    assert(r.0 <= lut.spec_get(palette[q.1 as int]));
}

/// Scores each colour by itself, through a table of constraint values.
pub struct Constraint<'a> {
    constraint_lut: &'a SrgbLut<Score>,
    scores: Scores<usize>,
    colors: Ghost<Seq<sRGB>>,
}

impl<'a> Constraint<'a> {
    /// The table of constraint values.
    pub closed spec fn lut(&self) -> SrgbLut<Score> {
        *self.constraint_lut
    }

    /// The constraint metric of `colors` under the table.
    pub fn new(colors: &Vec<sRGB>, constraint_lut: &'a SrgbLut<Score>) -> (metric: Self)
        requires
            colors.len() > 0,
        ensures
            metric.wf(),
            metric.palette() == colors@,
            metric.lut() == *constraint_lut,
    {
        let mut data: Vec<Score> = Vec::with_capacity(colors.len());
        let mut i: usize = 0;
        while i < colors.len()
            invariant
                i <= colors.len(),
                data.len() == i,
                forall|k: int| 0 <= k < i ==> data@[k] == constraint_lut.spec_get(colors@[k]),
            decreases colors.len() - i,
        {
            data.push(constraint_lut.get(&colors[i]));
            i += 1;
        }
        Constraint { constraint_lut, scores: Scores::new(&data), colors: Ghost(colors@) }
    }
}

impl<'a> ScoreMetric<usize> for Constraint<'a> {
    /// The heap holds, for every slot, the table's value of its colour.
    closed spec fn wf(&self) -> bool {
        &&& self.scores.wf()
        &&& self.scores@.len() == self.colors@.len()
        &&& forall|i: int|
            0 <= i < self.colors@.len() ==> #[trigger] self.scores@[i] == (
                self.constraint_lut.spec_get(self.colors@[i]),
                i as usize,
            )
    }

    closed spec fn palette(&self) -> Seq<sRGB> {
        self.colors@
    }

    closed spec fn spec_min_score(&self) -> (Score, usize) {
        self.scores.spec_min()
    }

    open spec fn spec_test_improvement(&self, updated_index: usize, updated_color: sRGB) -> bool {
        self.lut().spec_get(updated_color) > self.spec_min_score().0
    }

    /// The weakest constraint score of the palette, and its slot.
    fn get_min_score(&self) -> (r: (Score, usize))
        ensures
            is_constraint_min(self.lut(), self.palette(), r),
            r.0 == constraint_min(self.lut(), self.palette()),
    {
        proof {
            lemma_constraint_reports_min(*self);
        }
        self.scores.get_min_score()
    }

    /// Gives the slot the table's value of its new colour.
    fn update(&mut self, updated_index: usize, updated_color: &sRGB)
        ensures
            final(self).lut() == old(self).lut(),
    {
        self.scores.update(updated_index, self.constraint_lut.get(updated_color));
        self.colors = Ghost(self.colors@.update(updated_index as int, *updated_color));
    }

    /// Whether the constraint value of `updated_color` is above the weakest
    /// score: without that, no change of one slot raises the minimum.
    fn test_improvement(&self, _updated_index: usize, updated_color: &sRGB) -> (b: bool) {
        self.constraint_lut.get(updated_color) > self.scores.get_min_score().0
    }
}

/// The colours of `palette` as `lut` maps them.
pub open spec fn mapped(lut: SrgbLut<Oklab>, palette: Seq<sRGB>) -> Seq<Oklab> {
    Seq::new(palette.len(), |i: int| lut.spec_get(palette[i]))
}

/// `r` is the smallest distance between two colours of `palette` as `lut`
/// maps them, with the pair `(a, b)`, `a < b`, that it is from.
pub open spec fn is_pair_min(
    lut: SrgbLut<Oklab>,
    palette: Seq<sRGB>,
    r: (Score, (usize, usize)),
) -> bool {
    &&& r.1.0 < r.1.1 < palette.len()
    &&& r.0 == hyab(lut.spec_get(palette[r.1.0 as int]), lut.spec_get(palette[r.1.1 as int]))
    &&& forall|i: int, k: int|
        0 <= i < k < palette.len() ==> r.0 <= #[trigger] hyab(
            lut.spec_get(palette[i]),
            lut.spec_get(palette[k]),
        )
}

/// The smallest distance between two colours of `palette` as `lut` maps
/// them.
pub open spec fn pair_min(lut: SrgbLut<Oklab>, palette: Seq<sRGB>) -> Score {
    (choose|r: (Score, (usize, usize))| is_pair_min(lut, palette, r)).0
}

/// A palette has one smallest distance, whichever pair shows it.
pub proof fn lemma_pair_min_unique(
    lut: SrgbLut<Oklab>,
    palette: Seq<sRGB>,
    r: (Score, (usize, usize)),
)
    requires
        is_pair_min(lut, palette, r),
    ensures
        pair_min(lut, palette) == r.0,
{
    let q = choose|q: (Score, (usize, usize))| is_pair_min(lut, palette, q);
    assert(is_pair_min(lut, palette, q));
    assert(q.0 <= hyab(lut.spec_get(palette[r.1.0 as int]), lut.spec_get(palette[r.1.1 as int])));
    assert(r.0 <= hyab(lut.spec_get(palette[q.1.0 as int]), lut.spec_get(palette[q.1.1 as int])));
}

/// Scores each colour by the distance to its nearest neighbour, in the
/// colour space that a table maps sRGB to. Every pair is kept once, under the
/// smaller of its two slots.
pub struct PairDistance<'a> {
    color_lut: &'a SrgbLut<Oklab>,
    pre_colors: Vec<Oklab>,
    pre_scores: Vec<(Score, usize)>,
    scores: Scores<(usize, usize)>,
    colors: Ghost<Seq<sRGB>>,
}

impl<'a> PairDistance<'a> {
    /// The table that maps sRGB to the colour space of this metric.
    pub closed spec fn lut(&self) -> SrgbLut<Oklab> {
        *self.color_lut
    }

    /// The heap mirrors the nearest-neighbour records slot by slot.
    spec fn synced(&self) -> bool {
        &&& self.pre_scores.len() == self.pre_colors.len()
        &&& self.scores.wf()
        &&& self.scores@.len() == self.pre_colors.len()
        &&& forall|i: int|
            0 <= i < self.pre_colors.len() ==> #[trigger] self.scores@[i] == (
                self.pre_scores@[i].0,
                (i as usize, self.pre_scores@[i].1),
            )
    }

    /// The pair metric of `colors` in the colour space of the table.
    pub fn new(colors: &Vec<sRGB>, color_lut: &'a SrgbLut<Oklab>) -> (metric: Self)
        requires
            colors.len() >= 2,
        ensures
            metric.wf(),
            metric.palette() == colors@,
            metric.lut() == *color_lut,
    {
        let mut pre_colors: Vec<Oklab> = Vec::with_capacity(colors.len());
        let mut i: usize = 0;
        while i < colors.len()
            invariant
                i <= colors.len(),
                pre_colors.len() == i,
                forall|k: int| 0 <= k < i ==> pre_colors@[k] == color_lut.spec_get(colors@[k]),
            decreases colors.len() - i,
        {
            pre_colors.push(color_lut.get(&colors[i]));
            i += 1;
        }
        let pre_scores = get_pair_scores(&pre_colors);
        let scores = Scores::new_pairs(&pre_scores);
        proof {
            assert(pre_colors@ =~= mapped(*color_lut, colors@));
        }
        Self { color_lut, pre_colors, pre_scores, scores, colors: Ghost(colors@) }
    }

    /// Scans anew for the nearest later neighbour of slot `i` and records
    /// it.
    fn update_pair_score(&mut self, i: usize)
        requires
            old(self).synced(),
            i < old(self).pre_colors.len(),
        ensures
            final(self).synced(),
            final(self).pre_colors == old(self).pre_colors,
            final(self).color_lut == old(self).color_lut,
            final(self).colors == old(self).colors,
            final(self).pre_scores@.len() == old(self).pre_scores@.len(),
            is_first_nearest(final(self).pre_colors@, i as int, final(self).pre_scores@[i as int]),
            forall|k: int|
                0 <= k < old(self).pre_scores@.len() && k != i ==> final(self).pre_scores@[k]
                    == old(self).pre_scores@[k],
    {
        let (val, ind) = get_pair_score(i, &self.pre_colors);
        self.pre_scores[i] = (val, ind);
        self.scores.update((i, ind), val);
    }
}

impl<'a> ScoreMetric<(usize, usize)> for PairDistance<'a> {
    /// There are two colours or more; the mapped colours are those of the
    /// palette; every slot's record is a nearest later neighbour; the heap
    /// mirrors the records.
    closed spec fn wf(&self) -> bool {
        &&& self.colors@.len() >= 2
        &&& self.pre_colors@ == mapped(*self.color_lut, self.colors@)
        &&& self.synced()
        &&& forall|i: int|
            0 <= i < self.pre_colors.len() ==> is_nearest(
                self.pre_colors@,
                i,
                #[trigger] self.pre_scores@[i],
            )
    }

    closed spec fn palette(&self) -> Seq<sRGB> {
        self.colors@
    }

    closed spec fn spec_min_score(&self) -> (Score, (usize, usize)) {
        self.scores.spec_min()
    }

    open spec fn spec_test_improvement(&self, updated_index: usize, updated_color: sRGB) -> bool {
        let (old_score, (i, j)) = self.spec_min_score();
        let other = if updated_index == i {
            j
        } else {
            i
        };
        hyab(self.lut().spec_get(updated_color), self.lut().spec_get(self.palette()[other as int]))
            > old_score
    }

    /// The smallest distance between two colours of the palette, and the
    /// pair of slots that it is from.
    fn get_min_score(&self) -> (r: (Score, (usize, usize)))
        ensures
            is_pair_min(self.lut(), self.palette(), r),
            r.0 == pair_min(self.lut(), self.palette()),
    {
        proof {
            lemma_pair_reports_min(*self);
        }
        self.scores.get_min_score()
    }

    /// Maps the new colour, then mends the records: an earlier slot takes
    /// the new colour as its neighbour where that is nearer, and is scanned
    /// anew where its neighbour was the changed slot; the changed slot is
    /// scanned anew.
    fn update(&mut self, updated_index: usize, updated_color: &sRGB)
        ensures
            final(self).lut() == old(self).lut(),
    {
        let new_color = self.color_lut.get(updated_color);
        let ghost before = self.pre_colors@;
        assert(before.len() == self.colors@.len());
        self.pre_colors[updated_index] = new_color;
        self.colors = Ghost(self.colors@.update(updated_index as int, *updated_color));
        let ghost after = self.pre_colors@;
        assert(after =~= mapped(*self.color_lut, self.colors@));

        // Recompute scores of indexes before updated_index
        let mut i: usize = 0;
        while i < updated_index
            invariant
                i <= updated_index < after.len(),
                after == before.update(updated_index as int, new_color),
                before.len() == after.len(),
                old(self).colors@.len() == after.len(),
                self.pre_colors@ == after,
                self.color_lut == old(self).color_lut,
                self.colors@ == old(self).colors@.update(updated_index as int, *updated_color),
                self.synced(),
                forall|k: int| 0 <= k < i ==> is_nearest(after, k, #[trigger] self.pre_scores@[k]),
                forall|k: int|
                    i <= k < after.len() ==> is_nearest(before, k, #[trigger] self.pre_scores@[k]),
            decreases updated_index - i,
        {
            let (prev_score, prev_index) = self.pre_scores[i];
            let score = HyAB(&new_color, &self.pre_colors[i]);
            proof {
                lemma_hyab_symmetric(new_color, after[i as int]);
                assert(is_nearest(before, i as int, self.pre_scores@[i as int]));
            }
            if score < prev_score {
                self.pre_scores[i] = (score, updated_index);
                self.scores.update((i, updated_index), score);
                proof {
                    assert forall|k: int| i < k < after.len() implies score <= #[trigger] hyab(
                        after[i as int],
                        after[k],
                    ) by {
                        if k != updated_index {
                            assert(prev_score <= hyab(before[i as int], before[k]));
                        }
                    }
                }
            } else if prev_index == updated_index {
                // Have to recompute score for this element
                self.update_pair_score(i);
            } else {
                proof {
                    assert forall|k: int|
                        i < k < after.len() implies prev_score <= #[trigger] hyab(
                        after[i as int],
                        after[k],
                    ) by {
                        if k != updated_index {
                            assert(prev_score <= hyab(before[i as int], before[k]));
                        }
                    }
                }
            }
            i += 1;
        }

        // Recompute score of updated_index
        self.update_pair_score(updated_index);
        proof {
            assert forall|k: int| 0 <= k < self.pre_colors.len() implies is_nearest(
                self.pre_colors@,
                k,
                #[trigger] self.pre_scores@[k],
            ) by {
                if k > updated_index {
                    assert(is_nearest(before, k, self.pre_scores@[k]));
                    if k + 1 < after.len() {
                        assert forall|j: int| k < j < after.len() implies self.pre_scores@[k].0
                            <= #[trigger] hyab(after[k], after[j]) by {
                            assert(self.pre_scores@[k].0 <= hyab(before[k], before[j]));
                        }
                    }
                }
            }
        }
    }

    /// Whether `updated_color` in slot `updated_index` is farther from the
    /// other colour of the weakest pair than that pair's distance; where the
    /// slot is not of the weakest pair, the pair's first colour is taken.
    fn test_improvement(&self, updated_index: usize, updated_color: &sRGB) -> (b: bool) {
        let new_color = self.color_lut.get(updated_color);
        let (old_score, (i, j)) = self.get_min_score();
        let color = if updated_index == i {
            self.pre_colors[j]
        } else {
            self.pre_colors[i]
        };
        return HyAB(&new_color, &color) > old_score;
    }
}

/// What a well-formed constraint reports as its weakest score is the weakest
/// constraint score of the palette that it mirrors, computed from nothing
/// but the table and the palette.
pub proof fn lemma_constraint_reports_min(metric: Constraint)
    requires
        metric.wf(),
    ensures
        is_constraint_min(metric.lut(), metric.palette(), metric.spec_min_score()),
        metric.spec_min_score().0 == constraint_min(metric.lut(), metric.palette()),
{
    let r = metric.scores.spec_min();
    crate::score::lemma_root_is_minimum(metric.scores);
    assert(metric.scores@[r.1 as int] == r);
    assert forall|i: int| 0 <= i < metric.colors@.len() implies r.0
        <= metric.constraint_lut.spec_get(#[trigger] metric.colors@[i]) by {
        assert(r.0 <= metric.scores@[i].0);
    }
    lemma_constraint_min_unique(*metric.constraint_lut, metric.colors@, r);
}

/// What a well-formed pair metric reports as its weakest score is the
/// smallest distance between two colours of the palette that it mirrors,
/// computed from nothing but the table and the palette.
pub proof fn lemma_pair_reports_min(metric: PairDistance)
    requires
        metric.wf(),
    ensures
        is_pair_min(metric.lut(), metric.palette(), metric.spec_min_score()),
        metric.spec_min_score().0 == pair_min(metric.lut(), metric.palette()),
{
    let r = metric.scores.spec_min();
    crate::score::lemma_root_is_minimum(metric.scores);
    let n = metric.colors@.len() as int;
    let lut = *metric.color_lut;
    let cs = metric.pre_colors@;
    let a = r.1.0 as int;
    assert(metric.scores@[a] == r);
    assert(is_nearest(cs, 0, metric.pre_scores@[0]));
    lemma_hyab_bounds(cs[0], cs[metric.pre_scores@[0].1 as int]);
    assert(r.0 <= metric.scores@[0].0);
    assert(is_nearest(cs, a, metric.pre_scores@[a]));
    assert forall|i: int, k: int| 0 <= i < k < n implies r.0 <= #[trigger] hyab(
        lut.spec_get(metric.colors@[i]),
        lut.spec_get(metric.colors@[k]),
    ) by {
        assert(is_nearest(cs, i, metric.pre_scores@[i]));
        assert(r.0 <= metric.scores@[i].0);
        assert(metric.pre_scores@[i].0 <= hyab(cs[i], cs[k]));
    }
    lemma_pair_min_unique(lut, metric.colors@, r);
}

} // verus!
