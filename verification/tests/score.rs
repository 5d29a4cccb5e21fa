use context_smith::rank::rank;
use context_smith::score::Score;
use context_smith::top::{best_files, TopFiles};

fn score(x: f32) -> Score {
    Score::from_bits(x.to_bits()).unwrap()
}

const SAMPLES: [f32; 16] = [
    0.0,
    -0.0,
    1.0,
    -1.0,
    0.5,
    0.1,
    -0.1,
    3.25,
    1e-45,
    3e-45,
    1e-38,
    1.5e-38,
    f32::MIN_POSITIVE,
    f32::MAX,
    f32::INFINITY,
    f32::NEG_INFINITY,
];

#[test]
fn scores_order_as_numbers() {
    for a in SAMPLES {
        for b in SAMPLES {
            assert_eq!(score(a).above(score(b)), a > b, "{a} above {b}");
        }
    }
}

#[test]
fn half_is_times_one_half() {
    for a in SAMPLES {
        let half = a * 0.5;
        assert_eq!(score(a).half().to_bits(), half.to_bits(), "half of {a}");
    }
    let mut bits: u32 = 1;
    for _ in 0..2000 {
        bits = bits.wrapping_mul(1_664_525).wrapping_add(1_013_904_223);
        if let Some(s) = Score::from_bits(bits) {
            let half = f32::from_bits(bits) * 0.5;
            assert_eq!(s.half().to_bits(), half.to_bits());
        }
    }
}

#[test]
fn nan_is_no_score() {
    assert!(Score::from_bits(f32::NAN.to_bits()).is_none());
    assert!(Score::from_bits(0xffff_ffff).is_none());
    assert_eq!(Score::zero().to_bits(), 0);
}

#[test]
fn ranking_is_best_first_and_stable() {
    let scores = vec![score(0.5), score(2.0), score(0.5), score(-1.0), score(2.0)];
    assert_eq!(rank(&scores), vec![1, 4, 0, 2, 3]);
    assert!(rank(&vec![]).is_empty());
}

#[test]
fn best_files_leave_the_worst_out() {
    let all = vec![
        (5, score(0.5)),
        (1, score(0.9)),
        (4, score(0.5)),
        (2, score(-1.0)),
        (3, score(0.7)),
    ];
    let ids = |n: usize| -> Vec<i64> { best_files(&all, n).iter().map(|f| f.0).collect() };
    assert_eq!(ids(10), vec![1, 3, 4, 5, 2]);
    assert_eq!(ids(3), vec![1, 3, 4]);
    assert!(ids(0).is_empty());
}

#[test]
fn offers_are_kept_while_they_are_good_enough() {
    let mut top = TopFiles::new(2);
    for (id, x) in [(1, 0.1), (2, 0.3), (3, 0.2), (4, 0.3)] {
        top.offer(id, score(x));
    }
    let ids: Vec<i64> = top.finish().iter().map(|f| f.0).collect();
    assert_eq!(ids, vec![2, 4]);
}
