use raytracer::maths::random_usize_between;

#[test]
fn draws_stay_in_range() {
    for _ in 0..1000 {
        let v = random_usize_between(0, 2);
        assert!(v <= 2);
    }
}

#[test]
fn singleton_range_is_constant() {
    for _ in 0..10 {
        assert_eq!(random_usize_between(5, 5), 5);
    }
}

#[test]
fn axis_draw_reaches_every_axis() {
    let mut seen = [false; 3];
    for _ in 0..1000 {
        seen[random_usize_between(0, 2)] = true;
    }
    assert_eq!(seen, [true, true, true]);
}
