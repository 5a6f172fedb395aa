use clustering::class::Class;

#[derive(Clone, Copy, Debug, PartialEq)]
struct Measure {
    x: f32,
    y: f32,
}

impl Measure {
    fn new(x: f32, y: f32) -> Measure {
        Measure { x, y }
    }
}

fn absorbed(mean: Measure, n: usize, m: Measure) -> Measure {
    let k = (n + 1) as f32;
    Measure::new((mean.x * n as f32 + m.x) / k, (mean.y * n as f32 + m.y) / k)
}

fn blended(a: Measure, na: usize, b: Measure, nb: usize) -> Measure {
    let k = (na + nb) as f32;
    Measure::new(
        (a.x * na as f32 + b.x * nb as f32) / k,
        (a.y * na as f32 + b.y * nb as f32) / k,
    )
}

#[test]
fn test_class() {
    let mut cls = Class::new(&Measure::new(1.0, 2.0));
    assert!(cls.mean.x == 1.0 && cls.mean.y == 2.0);
    assert!(cls.n == 1);
    cls.append(&Measure::new(3.0, 4.0), &absorbed);
    assert!(cls.mean.x == 2.0 && cls.mean.y == 3.0);
    assert!(cls.n == 2);
}

#[test]
fn absorbing_one_point_gives_the_midpoint() {
    let mut cls = Class::new(&Measure::new(1.0, 3.0));
    cls.append(&Measure::new(4.0, 5.0), &absorbed);
    assert_eq!(cls.mean, Measure::new(2.5, 4.0));
    assert_eq!(cls.n, 2);
}

#[test]
fn absorbing_weighs_the_old_mean_by_its_count() {
    let mut cls = Class { mean: Measure::new(2.0, 2.0), n: 3 };
    cls.append(&Measure::new(6.0, -2.0), &absorbed);
    assert_eq!(cls.mean, Measure::new(3.0, 1.0));
    assert_eq!(cls.n, 4);
}

#[test]
fn append_hands_the_old_mean_and_count_to_the_mean_function() {
    let mut cls = Class { mean: 7u32, n: 5 };
    cls.append(&100u32, &|mean: u32, n: usize, m: u32| mean * 1000 + (n as u32) * 10 + m / 100);
    assert_eq!(cls.mean, 7051);
    assert_eq!(cls.n, 6);
}

#[test]
fn merging_weighs_both_means_by_their_counts() {
    let mut a = Class { mean: Measure::new(0.0, 0.0), n: 2 };
    let b = Class { mean: Measure::new(3.0, 6.0), n: 1 };
    a.merge(&b, &blended);
    assert_eq!(a.mean, Measure::new(1.0, 2.0));
    assert_eq!(a.n, 3);
    assert_eq!(b.n, 1);
}

#[test]
fn merging_a_class_equals_absorbing_its_points() {
    let p = [
        Measure::new(1.0, 1.0),
        Measure::new(3.0, 5.0),
        Measure::new(8.0, 0.0),
        Measure::new(4.0, 2.0),
    ];
    let mut left = Class::new(&p[0]);
    left.append(&p[1], &absorbed);
    let mut right = Class::new(&p[2]);
    right.append(&p[3], &absorbed);
    left.merge(&right, &blended);

    let mut all = Class::new(&p[0]);
    all.append(&p[1], &absorbed);
    all.append(&p[2], &absorbed);
    all.append(&p[3], &absorbed);

    assert_eq!(left.n, all.n);
    assert_eq!(left.n, 4);
    assert!((left.mean.x - all.mean.x).abs() < 1e-5);
    assert!((left.mean.y - all.mean.y).abs() < 1e-5);
    assert_eq!(left.mean, Measure::new(4.0, 2.0));
}
