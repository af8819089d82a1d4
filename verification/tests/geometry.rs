use gat::geometry::{
    cut, fit, hold, over_cap, shrink, square_side, Budget, CellSize, Coarse, Held,
};

fn budget(cols: u32, rows: u32) -> Budget {
    Budget {
        cols,
        rows,
        cell: CellSize { w: 10, h: 20 },
        upscale: false,
        fill_width: false,
        fill_height: false,
    }
}

#[test]
fn small_image_is_left_alone() {
    assert_eq!(fit(50, 40, &budget(80, 24)), (50, 40));
}

#[test]
fn large_image_is_letterboxed_by_the_tighter_axis() {
    // 800x480 available; the image is 4x too wide and 2x too tall,
    // so width limits first
    assert_eq!(fit(3200, 960, &budget(80, 24)), (800, 240));
}

#[test]
fn upscale_grows_a_small_image_to_the_tighter_axis() {
    let mut b = budget(80, 24);
    b.upscale = true;
    assert_eq!(fit(80, 48, &b), (800, 480));
}

#[test]
fn fill_width_lets_height_overflow() {
    let mut b = budget(80, 24);
    b.fill_width = true;
    assert_eq!(fit(400, 400, &b), (800, 800));
}

#[test]
fn filling_both_ways_takes_the_larger_of_the_two() {
    let mut b = budget(80, 24);
    b.fill_width = true;
    b.fill_height = true;
    assert_eq!(fit(400, 400, &b), (800, 800));
    assert_eq!(fit(800, 100, &b), (3840, 480));
}

#[test]
fn a_coarser_cell_keeps_its_aspect_and_whole_rows() {
    for (w, h) in [(9u32, 18u32), (10, 21), (7, 15)] {
        for (num, den) in [(13u32, 10u32), (20, 10), (37, 10)] {
            let small = CellSize { w, h }.coarser(num, den);
            let by = f64::from(num) / f64::from(den);
            assert!(small.h >= 1, "{w}x{h} by {by} gave {small:?}");
            let wide = small.w.0 as f64 / f64::from(small.w.1);
            let aspect = wide / f64::from(small.h) - f64::from(w) / f64::from(h);
            assert!(aspect.abs() < 1e-9, "{w}x{h} by {by} gave {small:?}");
            let per = f64::from(small.per.0) / f64::from(small.per.1);
            assert!(per >= by, "{w}x{h} by {by} shrank only {per}");
        }
    }
    let same = Coarse { h: 18, w: (9 * 18, 18), per: (18, 18) };
    assert_eq!(CellSize::fallback().coarser(1, 1), same);
}

#[test]
fn the_cap_shrinks_by_the_longer_side_and_never_grows() {
    assert_eq!(over_cap(800, 600, 1024), (1024, 1024));
    assert_eq!(over_cap(2048, 600, 1024), (2048, 1024));
    assert_eq!(over_cap(600, 4096, 1024), (4096, 1024));
}

#[test]
fn a_picture_is_brought_within_a_count_of_pixels() {
    assert_eq!((square_side(0), square_side(99), square_side(100)), (0, 9, 10));
    assert_eq!(square_side(u64::MAX), u32::MAX);
    let of = |w, h, num, den| Held { w, h, num, den };
    assert_eq!(hold(400, 100, 10_000), of(200, 50, 131_072, 65_536));
    assert_eq!(hold(100, 400, 10_000), of(50, 200, 131_072, 65_536));
    assert_eq!(hold(100, 100, 10_000), of(100, 100, 1, 1));

    // each side to the nearest, 1365.3 by 768.0
    assert_eq!(hold(1920, 1080, 1_048_576), of(1365, 768, 92_160, 65_536));

    // and down where that is a pixel too many: 2.8 by 2.8
    assert_eq!(hold(3, 3, 8), of(2, 2, 69_511, 65_536));

    // a sliver goes by its longer side, and a huge picture by whole pixels
    assert_eq!(hold(500, 1, 30), of(30, 1, 500, 30));
    assert_eq!(hold(4_000_000_000, 4_000_000_000, 1), of(1, 1, 4_000_000_000, 1));
    for (w, h, px) in [(400u32, 100u32, 10_000u64), (1000, 999, 7), (1, 500, 30), (37, 41, 1517)] {
        let r = hold(w, h, px);
        assert!(u64::from(r.w) * u64::from(r.h) <= px, "{w}x{h} within {px} is {r:?}");
        assert_eq!(u64::from(w) * u64::from(h) <= px, (r.w, r.h) == (w, h));
        for (side, was) in [(r.w, w), (r.h, h)] {
            let stands = f64::from(side) * f64::from(r.num) / f64::from(r.den);
            let reach = 2.0 * f64::from(r.num) / f64::from(r.den);
            assert!((stands - f64::from(was)).abs() <= reach, "{w}x{h} within {px} is {r:?}");
        }
    }
    assert_eq!((shrink(21, 10, 37), shrink(1, 1, 9)), (5, 1));
}

#[test]
fn aspect_ratio_survives_the_round_trip() {
    let (w, h) = fit(1920, 1080, &budget(80, 24));
    let err = (w as f64 / h as f64) - (1920.0 / 1080.0);
    assert!(err.abs() < 0.01, "got {w}x{h}");
}

#[test]
fn slices_meet_and_the_last_is_what_is_left() {
    assert_eq!(cut(100, 30), vec![(0, 30), (30, 30), (60, 30), (90, 10)]);
    assert_eq!(cut(30, 30), vec![(0, 30)]);
    assert!(cut(0, 30).is_empty());
}
