use palette_optimizer::color::{HyAB, Oklab, Score};
use palette_optimizer::score::{
    get_pair_score, get_pair_scores, left, parent, right, ScoreIndex, Scores, INFINITY,
};
use rand::{random, thread_rng, Rng};
use std::fmt::Debug;
use std::iter::repeat_with;

/// A random score: the 24 bits of a random float in [0, 1).
fn random_score() -> Score {
    (random::<f32>() * 16777216.0) as Score
}

fn verify_invariants<T: ScoreIndex + Copy + Debug>(
    scores: &Scores<T>,
    data: &Vec<Score>,
) -> Result<(), String> {
    let len = data.len();
    if len != scores.len() {
        return Err(format!("Length mismatch! {} {}", len, scores.len()));
    }
    if &scores.get_min_score().0 != data.iter().min().unwrap() {
        return Err(format!(
            "Mininmum mismatch! {} {}",
            scores.get_min_score().0,
            data.iter().min().unwrap()
        ));
    }
    for i in 0..len {
        let entry = scores.entry(scores.position(i));
        if entry.0 != data[i] || entry.1.get() != i {
            return Err(format!(
                "Heap has wrong entry! ({}, {}) {:?} {}",
                data[i],
                i,
                entry,
                scores.position(i)
            ));
        }
    }
    for i in 0..len {
        let val = scores.entry(i).0;
        let l = left(i);
        let r = right(i);

        if (l < len && scores.entry(l).0 < val) || (r < len && scores.entry(r).0 < val) {
            return Err(format!(
                "Heap property not satisfied! {:?} {} {} {} {}",
                scores.entry(i).1,
                i,
                val,
                l,
                r
            ));
        }
    }
    return Ok(());
}

fn heap_test(n: usize) {
    let mut data: Vec<Score> = repeat_with(random_score).take(n).collect();
    let mut scores = Scores::new(&data);
    match verify_invariants(&scores, &data) {
        Err(e) => panic!("{e}"),
        _ => (),
    }
    for iter in 0..1000 {
        let i = thread_rng().gen_range(0..n);
        let val = random_score();
        data[i] = val;
        scores.update(i, val);
        match verify_invariants(&scores, &data) {
            Err(e) => panic!("{iter} {i} {val} {e}"),
            _ => (),
        }
    }
}

#[test]
fn test_heap() {
    for p in 0..5 {
        let n = 10_usize.pow(p);
        heap_test(n);
        heap_test(n + 1);
    }
    for n in 1..1000 {
        let data: Vec<Score> = repeat_with(random_score).take(n).collect();
        let scores = Scores::new(&data);
        match verify_invariants(&scores, &data) {
            Err(e) => panic!("{n} {e}"),
            _ => (),
        }
    }
}

#[test]
fn heap_positions() {
    assert_eq!(parent(1), 0);
    assert_eq!(parent(2), 0);
    assert_eq!(parent(3), 1);
    assert_eq!(parent(4), 1);
    assert_eq!(parent(9), 4);
    assert_eq!(left(0), 1);
    assert_eq!(right(0), 2);
    assert_eq!(left(4), 9);
    assert_eq!(right(4), 10);
}

#[test]
fn keys_name_their_slot() {
    assert_eq!(7usize.get(), 7);
    assert_eq!((3usize, 9usize).get(), 3);
}

#[test]
fn heap_of_one() {
    let mut scores = Scores::new(&vec![5]);
    assert_eq!(scores.len(), 1);
    assert_eq!(scores.get_min_score(), (5, 0));
    scores.update(0, -3);
    assert_eq!(scores.get_min_score(), (-3, 0));
    scores.update(0, INFINITY);
    assert_eq!(scores.get_min_score(), (INFINITY, 0));
}

#[test]
fn heap_minimum_follows_updates() {
    let mut scores = Scores::new(&vec![40, 10, 30, 20, 50]);
    assert_eq!(scores.get_min_score(), (10, 1));
    scores.update(1, 60);
    assert_eq!(scores.get_min_score(), (20, 3));
    scores.update(4, 5);
    assert_eq!(scores.get_min_score(), (5, 4));
    scores.update(4, 25);
    assert_eq!(scores.get_min_score(), (20, 3));
    scores.update(3, 100);
    assert_eq!(scores.get_min_score(), (25, 4));
    // every slot still has the score that it was last given
    let expected = [40, 60, 30, 100, 25];
    for k in 0..5 {
        assert_eq!(scores.entry(scores.position(k)), (expected[k], k));
    }
}

#[test]
fn heap_with_equal_scores() {
    let mut scores = Scores::new(&vec![7, 7, 7, 7]);
    assert_eq!(scores.get_min_score().0, 7);
    scores.update(2, 7);
    assert_eq!(scores.get_min_score().0, 7);
    scores.update(3, 6);
    assert_eq!(scores.get_min_score(), (6, 3));
}

#[test]
fn pair_heap_keeps_partners() {
    let data: Vec<(Score, usize)> = vec![(30, 2), (10, 3), (20, 3), (INFINITY, 3)];
    let mut scores = Scores::new_pairs(&data);
    assert_eq!(scores.len(), 4);
    assert_eq!(scores.get_min_score(), (10, (1, 3)));
    for k in 0..4 {
        assert_eq!(scores.entry(scores.position(k)), (data[k].0, (k, data[k].1)));
    }
    // an update overwrites the partner with the score
    scores.update((1, 2), 40);
    assert_eq!(scores.get_min_score(), (20, (2, 3)));
    assert_eq!(scores.entry(scores.position(1)), (40, (1, 2)));
    scores.update((0, 1), 15);
    assert_eq!(scores.get_min_score(), (15, (0, 1)));
}

#[test]
fn pair_heap_invariants_under_random_updates() {
    let n = 50;
    let mut data: Vec<Score> = repeat_with(random_score).take(n).collect();
    let pairs: Vec<(Score, usize)> = data.iter().map(|s| (*s, n - 1)).collect();
    let mut scores = Scores::new_pairs(&pairs);
    for _ in 0..2000 {
        let i = thread_rng().gen_range(0..n);
        let partner = thread_rng().gen_range(0..n);
        let val = random_score();
        data[i] = val;
        scores.update((i, partner), val);
        assert_eq!(scores.entry(scores.position(i)), (val, (i, partner)));
        match verify_invariants(&scores, &data) {
            Err(e) => panic!("{e}"),
            _ => (),
        }
    }
}

fn grey(l: i32) -> Oklab {
    Oklab { L: l, a: 0, b: 0 }
}

#[test]
fn nearest_later_neighbour() {
    let colors = vec![grey(0), grey(100), grey(10), grey(90), grey(12)];
    assert_eq!(get_pair_score(0, &colors), (10, 2));
    assert_eq!(get_pair_score(1, &colors), (10, 3));
    assert_eq!(get_pair_score(2, &colors), (2, 4));
    assert_eq!(get_pair_score(3, &colors), (78, 4));
    // the last colour has no later neighbour
    assert_eq!(get_pair_score(4, &colors), (INFINITY, 4));
}

#[test]
fn nearest_later_neighbour_takes_the_first_of_equals() {
    let colors = vec![grey(0), grey(5), grey(-5), grey(5)];
    assert_eq!(get_pair_score(0, &colors), (5, 1));
    assert_eq!(get_pair_score(1, &colors), (0, 3));
}

#[test]
fn nearest_later_neighbours_of_all() {
    let colors = vec![grey(0), grey(100), grey(10), grey(90), grey(12)];
    assert_eq!(
        get_pair_scores(&colors),
        vec![(10, 2), (10, 3), (2, 4), (78, 4), (INFINITY, 4)]
    );
    assert_eq!(get_pair_scores(&vec![grey(1)]), vec![(INFINITY, 0)]);
    assert_eq!(get_pair_scores(&vec![]), vec![]);
}

#[test]
fn nearest_later_neighbours_match_a_full_scan() {
    let n = 40;
    let colors: Vec<Oklab> = repeat_with(|| Oklab {
        L: thread_rng().gen_range(0..6553600),
        a: thread_rng().gen_range(-2000000..2000000),
        b: thread_rng().gen_range(-2000000..2000000),
    })
    .take(n)
    .collect();
    let scores = get_pair_scores(&colors);
    assert_eq!(scores.len(), n);
    for i in 0..n - 1 {
        let expected = (i + 1..n).map(|k| HyAB(&colors[i], &colors[k])).min().unwrap();
        assert_eq!(scores[i].0, expected);
        assert!(scores[i].1 > i);
        assert_eq!(HyAB(&colors[i], &colors[scores[i].1]), expected);
    }
    assert_eq!(scores[n - 1], (INFINITY, n - 1));
}
