use palette_optimizer::color::sRGB;
use palette_optimizer::update::{
    apply_pair_update, color_pair_updates, color_update, color_updates, update_color,
    update_color_pair, Axis, ColorPairUpdate, ColorUpdate, Sign, Which,
};

fn up(axis: Axis) -> ColorUpdate {
    ColorUpdate { axis, sign: Sign::Positive }
}

fn down(axis: Axis) -> ColorUpdate {
    ColorUpdate { axis, sign: Sign::Negative }
}

/// The number of channels in which two colours differ, and the sum of the
/// differences.
fn difference(c: &sRGB, d: &sRGB) -> (usize, i32) {
    let mut channels = 0;
    let mut total = 0;
    for k in 0..3 {
        if c[k] != d[k] {
            channels += 1;
            total += (c[k] as i32 - d[k] as i32).abs();
        }
    }
    (channels, total)
}

#[test]
fn step_inside_the_range() {
    let c: sRGB = [10, 20, 30];
    assert_eq!(color_update(c, &up(Axis::R)), [11, 20, 30]);
    assert_eq!(color_update(c, &down(Axis::R)), [9, 20, 30]);
    assert_eq!(color_update(c, &up(Axis::G)), [10, 21, 30]);
    assert_eq!(color_update(c, &down(Axis::G)), [10, 19, 30]);
    assert_eq!(color_update(c, &up(Axis::B)), [10, 20, 31]);
    assert_eq!(color_update(c, &down(Axis::B)), [10, 20, 29]);
}

#[test]
fn step_turns_back_at_the_ends() {
    assert_eq!(color_update([0xFF, 0, 7], &up(Axis::R)), [0xFE, 0, 7]);
    assert_eq!(color_update([0xFF, 0, 7], &down(Axis::R)), [0xFE, 0, 7]);
    assert_eq!(color_update([0xFF, 0, 7], &up(Axis::G)), [0xFF, 1, 7]);
    assert_eq!(color_update([0xFF, 0, 7], &down(Axis::G)), [0xFF, 1, 7]);
    assert_eq!(color_update([3, 3, 0], &down(Axis::B)), [3, 3, 1]);
    assert_eq!(color_update([3, 3, 0xFF], &up(Axis::B)), [3, 3, 0xFE]);
    assert_eq!(color_update([3, 3, 0xFE], &up(Axis::B)), [3, 3, 0xFF]);
    assert_eq!(color_update([3, 3, 1], &down(Axis::B)), [3, 3, 0]);
}

#[test]
fn six_steps_of_a_colour() {
    assert_eq!(
        color_updates(),
        vec![
            up(Axis::R),
            down(Axis::R),
            up(Axis::G),
            down(Axis::G),
            up(Axis::B),
            down(Axis::B)
        ]
    );
}

#[test]
fn twelve_steps_of_a_pair() {
    let table = color_pair_updates();
    let steps = color_updates();
    assert_eq!(table.len(), 12);
    for k in 0..12 {
        let which = if k < 6 { Which::First } else { Which::Second };
        assert_eq!(table[k], ColorPairUpdate { which, cu: steps[k % 6] });
    }
}

#[test]
fn pair_step_picks_its_colour() {
    let colors: Vec<sRGB> = vec![[1, 2, 3], [40, 50, 60], [0, 0, 0], [255, 255, 255]];
    let first = ColorPairUpdate { which: Which::First, cu: up(Axis::G) };
    let second = ColorPairUpdate { which: Which::Second, cu: down(Axis::B) };
    assert_eq!(apply_pair_update(&colors, (1, 3), &first), (1, [40, 51, 60]));
    assert_eq!(apply_pair_update(&colors, (1, 3), &second), (3, [255, 255, 254]));
    assert_eq!(apply_pair_update(&colors, (2, 0), &first), (2, [0, 1, 0]));
    assert_eq!(apply_pair_update(&colors, (2, 0), &second), (0, [1, 2, 2]));
}

#[test]
fn random_step_is_one_channel_by_one() {
    let colors: Vec<sRGB> = vec![[0, 128, 255], [17, 0, 3]];
    let mut seen = Vec::new();
    for _ in 0..500 {
        let c = update_color(&colors, 0);
        assert_eq!(difference(&colors[0], &c), (1, 1));
        assert!(color_updates().iter().any(|cu| color_update(colors[0], cu) == c));
        if !seen.contains(&c) {
            seen.push(c);
        }
    }
    // at the ends of the range both directions give one colour: [0, 128, 255]
    // has four neighbours by a step, and 500 draws find them all
    assert_eq!(seen.len(), 4);
}

#[test]
fn random_pair_step_is_of_one_of_the_pair() {
    let colors: Vec<sRGB> = vec![[9, 9, 9], [100, 100, 100], [200, 200, 200]];
    let mut picked = [0usize; 3];
    for _ in 0..500 {
        let (index, c) = update_color_pair(&colors, (0, 2));
        assert!(index == 0 || index == 2);
        assert_eq!(difference(&colors[index], &c), (1, 1));
        picked[index] += 1;
    }
    assert!(picked[0] > 0);
    assert_eq!(picked[1], 0);
    assert!(picked[2] > 0);
}
