//! Perturbations: one step of one channel of one colour.

use crate::color::sRGB;
use rand::distributions::{Distribution, Slice};
use rand::thread_rng;
use vstd::prelude::*;

verus! {

/// Which colour of a pair is perturbed.
#[derive(Clone, Copy, Debug, PartialEq, Eq, Structural)]
pub enum Which {
    First,
    Second,
}

/// The channel that is perturbed.
#[derive(Clone, Copy, Debug, PartialEq, Eq, Structural)]
pub enum Axis {
    R,
    G,
    B,
}

/// The direction of the step.
#[derive(Clone, Copy, Debug, PartialEq, Eq, Structural)]
pub enum Sign {
    Positive,
    Negative,
}

/// A step of one channel.
#[derive(Clone, Copy, Debug, PartialEq, Eq, Structural)]
pub struct ColorUpdate {
    pub axis: Axis,
    pub sign: Sign,
}

/// A step of one channel of one colour of a pair.
#[derive(Clone, Copy, Debug, PartialEq, Eq, Structural)]
pub struct ColorPairUpdate {
    pub which: Which,
    pub cu: ColorUpdate,
}

/// The channel's position in an sRGB triple.
pub open spec fn axis_index(axis: Axis) -> int {
    match axis {
        Axis::R => 0,
        Axis::G => 1,
        Axis::B => 2,
    }
}

/// A channel value one step on: up for `Positive`, down for `Negative`, and
/// the other way where the step would leave the range.
pub open spec fn stepped(v: u8, sign: Sign) -> u8 {
    if (sign == Sign::Positive && v != 0xFF) || v == 0x00 {
        (v + 1) as u8
    } else {
        (v - 1) as u8
    }
}

/// The colour `c` after the step `cu`.
pub open spec fn spec_color_update(c: sRGB, cu: ColorUpdate) -> sRGB {
    match cu.axis {
        Axis::R => [stepped(c[0], cu.sign), c[1], c[2]],
        Axis::G => [c[0], stepped(c[1], cu.sign), c[2]],
        Axis::B => [c[0], c[1], stepped(c[2], cu.sign)],
    }
}

/// The slot that `cu` picks from the pair, and its colour after the step.
pub open spec fn spec_pair_update(colors: Seq<sRGB>, pair: (usize, usize), cu: ColorPairUpdate) -> (
    usize,
    sRGB,
) {
    let index = match cu.which {
        Which::First => pair.0,
        Which::Second => pair.1,
    };
    (index, spec_color_update(colors[index as int], cu.cu))
}

/// A channel value one step on.
fn step(v: u8, sign: Sign) -> (r: u8)
    ensures
        r == stepped(v, sign),
{
    if (sign == Sign::Positive && v != 0xFF) || v == 0x00 {
        v + 1
    } else {
        v - 1
    }
}

/// The colour `c` after the step `cu`.
pub fn color_update(c: sRGB, cu: &ColorUpdate) -> (r: sRGB)
    ensures
        r == spec_color_update(c, *cu),
{
    match cu.axis {
        Axis::R => [step(c[0], cu.sign), c[1], c[2]],
        Axis::G => [c[0], step(c[1], cu.sign), c[2]],
        Axis::B => [c[0], c[1], step(c[2], cu.sign)],
    }
}

/// The six steps of one colour: each channel, up and down.
pub open spec fn spec_color_updates() -> Seq<ColorUpdate> {
    seq![
        ColorUpdate { axis: Axis::R, sign: Sign::Positive },
        ColorUpdate { axis: Axis::R, sign: Sign::Negative },
        ColorUpdate { axis: Axis::G, sign: Sign::Positive },
        ColorUpdate { axis: Axis::G, sign: Sign::Negative },
        ColorUpdate { axis: Axis::B, sign: Sign::Positive },
        ColorUpdate { axis: Axis::B, sign: Sign::Negative },
    ]
}

/// The twelve steps of a pair: the six steps of its first colour, then the
/// six of its second.
pub open spec fn spec_color_pair_updates() -> Seq<ColorPairUpdate> {
    Seq::new(
        12,
        |k: int|
            ColorPairUpdate {
                which: if k < 6 {
                    Which::First
                } else {
                    Which::Second
                },
                cu: spec_color_updates()[k % 6],
            },
    )
}

/// The six steps of one colour.
pub fn color_updates() -> (table: Vec<ColorUpdate>)
    ensures
        table@ == spec_color_updates(),
{
    let mut table: Vec<ColorUpdate> = Vec::with_capacity(6);
    table.push(ColorUpdate { axis: Axis::R, sign: Sign::Positive });
    table.push(ColorUpdate { axis: Axis::R, sign: Sign::Negative });
    table.push(ColorUpdate { axis: Axis::G, sign: Sign::Positive });
    table.push(ColorUpdate { axis: Axis::G, sign: Sign::Negative });
    table.push(ColorUpdate { axis: Axis::B, sign: Sign::Positive });
    table.push(ColorUpdate { axis: Axis::B, sign: Sign::Negative });
    assert(table@ =~= spec_color_updates());
    table
}

/// The twelve steps of a pair.
pub fn color_pair_updates() -> (table: Vec<ColorPairUpdate>)
    ensures
        table@ == spec_color_pair_updates(),
{
    let steps = color_updates();
    let mut table: Vec<ColorPairUpdate> = Vec::with_capacity(12);
    let mut k: usize = 0;
    while k < 12
        invariant
            k <= 12,
            table.len() == k,
            steps@ == spec_color_updates(),
            forall|j: int| 0 <= j < k ==> table@[j] == spec_color_pair_updates()[j],
        decreases 12 - k,
    {
        let which = if k < 6 {
            Which::First
        } else {
            Which::Second
        };
        table.push(ColorPairUpdate { which, cu: steps[k % 6] });
        k += 1;
    }
    assert(table@ =~= spec_color_pair_updates());
    table
}

/// Draws one item of `items` with `rand::distributions::Slice`, fed by the
/// thread-local generator. Trusted: the item returned is one of `items`;
/// which one is left open.
#[verifier::external_body]
fn sample<T: Copy>(items: &Vec<T>) -> (item: T)
    requires
        items.len() > 0,
    ensures
        items@.contains(item),
{
    *Slice::new(items.as_slice()).unwrap().sample(&mut thread_rng())
}

/// A random step of colour `i`: any of the six.
pub fn update_color(colors: &Vec<sRGB>, i: usize) -> (c: sRGB)
    requires
        i < colors.len(),
    ensures
        exists|cu: ColorUpdate|
            spec_color_updates().contains(cu) && c == #[trigger] spec_color_update(
                colors@[i as int],
                cu,
            ),
{
    let table = color_updates();
    let cu = sample(&table);
    color_update(colors[i], &cu)
}

/// A random step of one colour of the pair: any of the twelve. Returns the
/// slot that was picked and its colour after the step.
pub fn update_color_pair(colors: &Vec<sRGB>, pair: (usize, usize)) -> (r: (usize, sRGB))
    requires
        pair.0 < colors.len(),
        pair.1 < colors.len(),
    ensures
        exists|cu: ColorPairUpdate|
            spec_color_pair_updates().contains(cu) && r == #[trigger] spec_pair_update(
                colors@,
                pair,
                cu,
            ),
{
    let table = color_pair_updates();
    let cu = sample(&table);
    apply_pair_update(colors, pair, &cu)
}

/// The step `cu` of the pair: the slot that it picks and that slot's colour
/// after the step.
pub fn apply_pair_update(colors: &Vec<sRGB>, pair: (usize, usize), cu: &ColorPairUpdate) -> (r: (
    usize,
    sRGB,
))
    requires
        pair.0 < colors.len(),
        pair.1 < colors.len(),
    ensures
        r == spec_pair_update(colors@, pair, *cu),
{
    let index = match cu.which {
        Which::First => pair.0,
        Which::Second => pair.1,
    };
    (index, color_update(colors[index], &cu.cu))
}

} // verus!
