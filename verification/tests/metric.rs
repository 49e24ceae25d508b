use palette_optimizer::color::{as_index, sRGB, HyAB, Oklab, Score};
use palette_optimizer::metric::{Constraint, PairDistance, ScoreMetric, SrgbLut};
use rand::{random, thread_rng, Rng};
use std::iter::repeat_with;

/// A cheap map from sRGB to Oklab coordinates, one to one.
fn plain(c: sRGB) -> Oklab {
    Oklab { L: 300 * c[0] as i32, a: 200 * c[1] as i32 - 25000, b: 100 * c[2] as i32 - 12000 }
}

/// A cheap constraint value.
fn value(c: sRGB) -> Score {
    let x = c[0] as Score * 7 + c[1] as Score * 3 - c[2] as Score * 5;
    (x * x) % 1009 - 200
}

/// The smallest distance of the palette, computed from nothing.
fn pair_minimum(colors: &Vec<sRGB>) -> Score {
    let mut best = Score::MAX;
    for i in 0..colors.len() {
        for k in i + 1..colors.len() {
            best = best.min(HyAB(&plain(colors[i]), &plain(colors[k])));
        }
    }
    best
}

/// The weakest constraint value of the palette, computed from nothing.
fn constraint_minimum(colors: &Vec<sRGB>) -> Score {
    colors.iter().map(|c| value(*c)).min().unwrap()
}

#[test]
fn lut_holds_what_the_function_gives() {
    let lut = SrgbLut::new(plain);
    for _ in 0..1000 {
        let c: sRGB = random();
        assert_eq!(lut.get(&c), plain(c));
    }
    assert_eq!(lut.get(&[0, 0, 0]), plain([0, 0, 0]));
    assert_eq!(lut.get(&[255, 255, 255]), plain([255, 255, 255]));
    assert_eq!(lut.get(&[1, 2, 3]), Oklab { L: 300, a: -24600, b: -11700 });
}

#[test]
fn lut_is_in_the_order_of_the_indices() {
    let lut = SrgbLut::new(|c: sRGB| as_index(&c));
    for _ in 0..1000 {
        let c: sRGB = random();
        assert_eq!(lut.get(&c), as_index(&c));
    }
    assert_eq!(lut.get(&[0x12, 0x34, 0x56]), 0x123456);
}

#[test]
fn constraint_lut_takes_the_minimum_over_the_backgrounds() {
    let backgrounds: Vec<Score> = vec![40, -3, 17];
    let f = |bg: &Score, c: &sRGB| (c[0] as Score - *bg).abs() * 10 + c[2] as Score;
    let lut = SrgbLut::new_constraint(&backgrounds, f);
    assert_eq!(lut.get(&[40, 0, 5]), 5);
    assert_eq!(lut.get(&[0, 9, 0]), 30);
    assert_eq!(lut.get(&[17, 9, 1]), 1);
    assert_eq!(lut.get(&[255, 0, 255]), 2150 + 255);
    for _ in 0..1000 {
        let c: sRGB = random();
        let expected = backgrounds.iter().map(|bg| f(bg, &c)).min().unwrap();
        assert_eq!(lut.get(&c), expected);
    }
}

#[test]
fn constraint_lut_of_one_background() {
    let backgrounds: Vec<sRGB> = vec![[10, 20, 30]];
    let lut = SrgbLut::new_constraint(&backgrounds, |bg: &sRGB, c: &sRGB| {
        bg[0] as Score + c[1] as Score
    });
    assert_eq!(lut.get(&[0, 0, 0]), 10);
    assert_eq!(lut.get(&[0, 200, 0]), 210);
}

#[test]
fn constraint_reports_the_weakest_colour() {
    let lut = SrgbLut::new(value);
    let mut colors: Vec<sRGB> = vec![[1, 2, 3], [200, 100, 50], [0, 0, 0], [9, 9, 9]];
    let mut metric = Constraint::new(&colors, &lut);
    let (score, slot) = metric.get_min_score();
    assert_eq!(score, constraint_minimum(&colors));
    assert_eq!(value(colors[slot]), score);
    // value([0, 0, 0]) is -200, the least value there is
    assert_eq!((score, slot), (-200, 2));

    colors[2] = [3, 0, 0];
    metric.update(2, &[3, 0, 0]);
    let (score, slot) = metric.get_min_score();
    assert_eq!(score, constraint_minimum(&colors));
    assert_eq!(value(colors[slot]), score);
}

#[test]
fn constraint_accepts_what_is_above_its_minimum() {
    let lut = SrgbLut::new(|c: sRGB| c[0] as Score);
    let colors: Vec<sRGB> = vec![[50, 0, 0], [20, 0, 0], [90, 0, 0]];
    let metric = Constraint::new(&colors, &lut);
    assert_eq!(metric.get_min_score(), (20, 1));
    assert!(metric.test_improvement(1, &[21, 0, 0]));
    assert!(!metric.test_improvement(1, &[20, 0, 0]));
    assert!(!metric.test_improvement(1, &[19, 0, 0]));
    // the slot does not matter
    assert!(metric.test_improvement(0, &[21, 0, 0]));
    assert!(!metric.test_improvement(2, &[20, 7, 7]));
}

#[test]
fn constraint_follows_a_random_walk() {
    let lut = SrgbLut::new(value);
    let n = 30;
    let mut colors: Vec<sRGB> = repeat_with(random).take(n).collect();
    let mut metric = Constraint::new(&colors, &lut);
    for _ in 0..3000 {
        let i = thread_rng().gen_range(0..n);
        let c: sRGB = random();
        colors[i] = c;
        metric.update(i, &c);
        let (score, slot) = metric.get_min_score();
        assert_eq!(score, constraint_minimum(&colors));
        assert_eq!(value(colors[slot]), score);
    }
}

#[test]
fn pair_distance_reports_the_nearest_pair() {
    let lut = SrgbLut::new(plain);
    let colors: Vec<sRGB> = vec![[0, 0, 0], [100, 0, 0], [10, 0, 0], [90, 0, 0], [12, 0, 0]];
    let mut metric = PairDistance::new(&colors, &lut);
    // [10, 0, 0] and [12, 0, 0] are 2 * 300 apart
    assert_eq!(metric.get_min_score(), (600, (2, 4)));

    metric.update(4, &[50, 0, 0]);
    // now [0, 0, 0] and [10, 0, 0], or [100, 0, 0] and [90, 0, 0]
    let (score, (a, b)) = metric.get_min_score();
    assert_eq!(score, 3000);
    assert!((a, b) == (0, 2) || (a, b) == (1, 3));

    metric.update(0, &[89, 0, 0]);
    assert_eq!(metric.get_min_score(), (300, (0, 3)));

    metric.update(3, &[0, 0, 0]);
    // [10, 0, 0] and [0, 0, 0]
    assert_eq!(metric.get_min_score(), (3000, (2, 3)));

    metric.update(2, &[70, 0, 0]);
    // [89, 0, 0] and [100, 0, 0]
    assert_eq!(metric.get_min_score(), (3300, (0, 1)));
}

#[test]
fn pair_distance_of_two() {
    let lut = SrgbLut::new(plain);
    let colors: Vec<sRGB> = vec![[0, 0, 0], [0, 0, 0]];
    let mut metric = PairDistance::new(&colors, &lut);
    assert_eq!(metric.get_min_score(), (0, (0, 1)));
    metric.update(1, &[0, 3, 4]);
    // da = 600, db = 400
    assert_eq!(metric.get_min_score(), (721, (0, 1)));
    metric.update(0, &[1, 3, 4]);
    assert_eq!(metric.get_min_score(), (300, (0, 1)));
}

#[test]
fn pair_distance_tests_against_the_weakest_pair() {
    let lut = SrgbLut::new(plain);
    let colors: Vec<sRGB> = vec![[0, 0, 0], [100, 0, 0], [10, 0, 0], [90, 0, 0], [12, 0, 0]];
    let metric = PairDistance::new(&colors, &lut);
    assert_eq!(metric.get_min_score(), (600, (2, 4)));
    // slot 2 against slot 4, [12, 0, 0]
    assert!(metric.test_improvement(2, &[9, 0, 0]));
    assert!(!metric.test_improvement(2, &[11, 0, 0]));
    assert!(!metric.test_improvement(2, &[10, 0, 0]));
    assert!(metric.test_improvement(2, &[15, 0, 0]));
    // slot 4 against slot 2, [10, 0, 0]
    assert!(metric.test_improvement(4, &[13, 0, 0]));
    assert!(!metric.test_improvement(4, &[12, 0, 0]));
    assert!(!metric.test_improvement(4, &[8, 0, 0]));
    // a slot outside the pair is held against the pair's first colour
    assert!(metric.test_improvement(0, &[0, 0, 0]));
    assert!(!metric.test_improvement(0, &[10, 0, 0]));
    assert!(!metric.test_improvement(1, &[12, 0, 0]));
    assert!(metric.test_improvement(1, &[13, 0, 0]));
}

#[test]
fn pair_distance_follows_a_random_walk() {
    let lut = SrgbLut::new(plain);
    let n = 25;
    let mut colors: Vec<sRGB> = repeat_with(random).take(n).collect();
    let mut metric = PairDistance::new(&colors, &lut);
    assert_eq!(metric.get_min_score().0, pair_minimum(&colors));
    for step in 0..3000 {
        let i = thread_rng().gen_range(0..n);
        // now and then a colour that is in the palette already
        let c: sRGB = if step % 7 == 0 { colors[thread_rng().gen_range(0..n)] } else { random() };
        colors[i] = c;
        metric.update(i, &c);
        let (score, (a, b)) = metric.get_min_score();
        assert_eq!(score, pair_minimum(&colors));
        assert!(a < b && b < n);
        assert_eq!(HyAB(&plain(colors[a]), &plain(colors[b])), score);
    }
}

#[test]
fn pair_distance_follows_single_steps() {
    let lut = SrgbLut::new(plain);
    let n = 12;
    let mut colors: Vec<sRGB> = repeat_with(|| [thread_rng().gen_range(0..6), 0, 0]).take(n).collect();
    let mut metric = PairDistance::new(&colors, &lut);
    for _ in 0..3000 {
        let i = thread_rng().gen_range(0..n);
        let c: sRGB = [thread_rng().gen_range(0..6), thread_rng().gen_range(0..2), 0];
        colors[i] = c;
        metric.update(i, &c);
        assert_eq!(metric.get_min_score().0, pair_minimum(&colors));
    }
}
