use mkbubble::foreground::foreground;
use mkbubble::geometry::{pixels_in_circle, Circle, Pixel};
use mkbubble::grow::check_circle;
use mkbubble::output::format_circles;
use mkbubble::packing::{carve, pack, pack_step, pack_two_pass, remove_pixels, PackConfig, MAX_RADIUS};
use mkbubble::seed::SeedPolicy;
use mkbubble::pixel_set::PixelSet;

fn px(x: u32, y: u32) -> Pixel {
    Pixel { x, y }
}

fn config(grow_from: u32, max_radius: u32, min_radius: u32, overlap_margin: u32) -> PackConfig {
    PackConfig { grow_from, max_radius, min_radius, overlap_margin }
}

fn image_with_blocks(width: u32, height: u32, blocks: &[(u32, u32, u32, u32)]) -> PixelSet {
    let mut bright = vec![false; (width * height) as usize];
    for &(x0, y0, w, h) in blocks {
        for y in y0..y0 + h {
            for x in x0..x0 + w {
                bright[(y * width + x) as usize] = true;
            }
        }
    }
    foreground(width, height, &bright)
}

#[test]
fn step_accepts_a_large_circle_and_takes_its_disc() {
    let mut mask = image_with_blocks(5, 5, &[(0, 0, 5, 5)]);
    let accepted = pack_step(&mut mask, px(2, 2), &config(2, 25, 2, 0));
    assert_eq!(accepted, Some(Circle { x: 2, y: 2, r: 2 }));
    assert_eq!(mask.len(), 12);
    for p in pixels_in_circle(2, 2, 2) {
        assert!(!mask.contains(p));
    }
    assert!(mask.contains(px(0, 0)));
    assert!(mask.contains(px(4, 3)));
}

#[test]
fn step_rejects_a_small_circle_and_takes_the_seed_alone() {
    let mut mask = image_with_blocks(5, 5, &[(0, 0, 5, 5)]);
    let accepted = pack_step(&mut mask, px(2, 2), &config(3, 25, 3, 0));
    assert_eq!(accepted, None);
    assert_eq!(mask.len(), 24);
    assert!(!mask.contains(px(2, 2)));
    assert!(mask.contains(px(2, 1)));
}

#[test]
fn step_with_a_seed_outside_the_set_changes_nothing_on_rejection() {
    let mut mask = image_with_blocks(4, 4, &[(0, 0, 2, 2)]);
    let before = mask.pixels();
    let accepted = pack_step(&mut mask, px(3, 3), &config(3, 25, 3, 0));
    assert_eq!(accepted, None);
    assert_eq!(mask.pixels(), before);
}

#[test]
fn step_leaves_a_ring_behind_with_an_overlap_margin() {
    let mut mask = image_with_blocks(9, 9, &[(0, 0, 9, 9)]);
    let accepted = pack_step(&mut mask, px(4, 4), &config(3, 25, 3, 1));
    assert_eq!(accepted, Some(Circle { x: 4, y: 4, r: 4 }));
    assert_eq!(mask.len(), 81 - 29);
    assert!(mask.contains(px(8, 4)));
    assert!(mask.contains(px(4, 0)));
    assert!(!mask.contains(px(7, 4)));
    assert!(!mask.contains(px(4, 4)));
}

#[test]
fn step_with_a_margin_above_the_radius_takes_the_centre() {
    let mut mask = image_with_blocks(9, 9, &[(0, 0, 9, 9)]);
    let accepted = pack_step(&mut mask, px(4, 4), &config(3, 25, 3, 10));
    assert_eq!(accepted, Some(Circle { x: 4, y: 4, r: 4 }));
    assert_eq!(mask.len(), 80);
    assert!(!mask.contains(px(4, 4)));
}

#[test]
fn step_accepts_an_untested_circle_of_radius_one_when_asked_to() {
    let mut mask = PixelSet::new();
    mask.insert(px(6, 6));
    mask.insert(px(0, 0));
    let accepted = pack_step(&mut mask, px(6, 6), &config(3, 25, 1, 0));
    assert_eq!(accepted, Some(Circle { x: 6, y: 6, r: 1 }));
    assert_eq!(mask.pixels(), vec![px(0, 0)]);
}

#[test]
fn step_removes_in_row_major_order_with_swaps() {
    let mut mask = PixelSet::new();
    for p in [px(1, 1), px(0, 0), px(5, 5), px(1, 0), px(6, 6), px(0, 1), px(7, 7)] {
        mask.insert(p);
    }
    remove_pixels(&mut mask, &pixels_in_circle(0, 0, 1));
    assert_eq!(mask.pixels(), vec![px(1, 1), px(7, 7), px(5, 5), px(6, 6)]);
}

#[test]
fn accepted_circle_is_valid_before_removal_and_maximal() {
    let mut mask = image_with_blocks(30, 30, &[(2, 3, 17, 13)]);
    let before = image_with_blocks(30, 30, &[(2, 3, 17, 13)]);
    let cfg = config(3, 25, 3, 0);
    let accepted = pack_step(&mut mask, px(10, 9), &cfg);
    let c = accepted.unwrap();
    assert_eq!((c.x, c.y, c.r), (10, 9, 6));
    assert!(c.r >= cfg.min_radius);
    assert!(check_circle(&before, c.x, c.y, c.r));
    assert!(!check_circle(&before, c.x, c.y, c.r + 1));
    assert!(mask.len() < before.len());
}

#[test]
fn bright_square_gives_one_circle_near_its_centre() {
    let mut mask = image_with_blocks(5, 5, &[(0, 0, 5, 5)]);
    let cfg = config(2, 25, 2, 0);
    let mut circles = Vec::new();
    if let Some(c) = pack_step(&mut mask, px(2, 2), &cfg) {
        circles.push(c);
    }
    circles.extend(pack(&mut mask, &SeedPolicy::First, &cfg));
    assert_eq!(circles, vec![Circle { x: 2, y: 2, r: 2 }]);
    assert!(mask.is_empty());
}

#[test]
fn dark_image_gives_no_circle() {
    let mut mask = image_with_blocks(8, 6, &[]);
    assert!(mask.is_empty());
    assert_eq!(mask.first(), None);
    let circles = pack(&mut mask, &SeedPolicy::First, &config(3, 25, 3, 0));
    assert!(circles.is_empty());
    assert_eq!(format_circles(&circles, 6), "[],");
}

#[test]
fn two_far_blocks_give_two_circles() {
    let blocks = [(5, 5, 20, 20), (60, 10, 20, 20)];
    let mut mask = image_with_blocks(100, 40, &blocks);
    let cfg = config(3, 25, 3, 0);
    let mut circles = Vec::new();
    for seed in [px(14, 14), px(69, 19)] {
        if let Some(c) = pack_step(&mut mask, seed, &cfg) {
            circles.push(c);
        }
    }
    circles.extend(pack(&mut mask, &SeedPolicy::First, &cfg));
    assert_eq!(
        circles,
        vec![Circle { x: 14, y: 14, r: 9 }, Circle { x: 69, y: 19, r: 9 }]
    );
    assert!(mask.is_empty());
    for c in &circles {
        let inside_first = c.x >= 5 && c.x < 25 && c.y >= 5 && c.y < 25;
        let inside_second = c.x >= 60 && c.x < 80 && c.y >= 10 && c.y < 30;
        assert!(inside_first || inside_second);
        for p in pixels_in_circle(c.x, c.y, c.r) {
            assert!(!(p.x >= 25 && p.x < 60));
        }
    }
}

#[test]
fn first_member_seeding_packs_a_bright_square() {
    let mut mask = image_with_blocks(5, 5, &[(0, 0, 5, 5)]);
    let circles = pack(&mut mask, &SeedPolicy::First, &config(2, 25, 2, 0));
    assert_eq!(circles[0], Circle { x: 0, y: 0, r: 4 });
    assert!(mask.is_empty());
    for c in &circles {
        assert!(c.r >= 2);
    }
}

#[test]
fn packing_ends_with_an_empty_set_and_few_circles() {
    let blocks = [(0, 0, 12, 9), (20, 4, 7, 15)];
    let mut mask = image_with_blocks(30, 20, &blocks);
    let start = image_with_blocks(30, 20, &blocks);
    let cfg = config(3, 25, 3, 0);
    let circles = pack(&mut mask, &SeedPolicy::First, &cfg);
    assert!(mask.is_empty());
    assert!(!circles.is_empty());
    assert!(circles.len() <= start.len());
    for c in &circles {
        assert!(c.r >= 3 && c.r <= 25);
        assert!(start.contains(px(c.x, c.y)));
        assert!(check_circle(&start, c.x, c.y, c.r));
    }
}

#[test]
fn circles_without_margin_do_not_share_a_pixel() {
    let mut mask = image_with_blocks(24, 24, &[(0, 0, 24, 24)]);
    let circles = pack(&mut mask, &SeedPolicy::First, &config(3, 25, 3, 0));
    let mut seen = PixelSet::new();
    for c in &circles {
        for p in pixels_in_circle(c.x, c.y, c.r) {
            assert!(seen.insert(p));
        }
    }
}

#[test]
fn each_step_shrinks_the_set() {
    let mut mask = image_with_blocks(12, 12, &[(1, 1, 10, 10)]);
    let cfg = config(3, 25, 3, 0);
    let mut steps = 0;
    let start = mask.len();
    while let Some(seed) = mask.first() {
        let before = mask.len();
        pack_step(&mut mask, seed, &cfg);
        assert!(mask.len() < before);
        steps += 1;
    }
    assert!(steps <= start);
}

#[test]
fn repeated_runs_give_the_same_circles_and_text() {
    let blocks = [(0, 0, 22, 17), (30, 0, 9, 9)];
    let cfg = config(3, 25, 3, 1);
    let mut first = image_with_blocks(40, 20, &blocks);
    let mut second = image_with_blocks(40, 20, &blocks);
    let a = pack(&mut first, &SeedPolicy::First, &cfg);
    let b = pack(&mut second, &SeedPolicy::First, &cfg);
    assert!(!a.is_empty());
    assert_eq!(a, b);
    assert_eq!(format_circles(&a, 20), format_circles(&b, 20));
}

#[test]
fn strict_threshold_accepts_maximal_circles_only() {
    let mut mask = image_with_blocks(60, 60, &[(0, 0, 60, 60)]);
    let circles = pack(&mut mask, &SeedPolicy::First, &config(3, 8, 8, 0));
    assert!(!circles.is_empty());
    for c in &circles {
        assert_eq!(c.r, 8);
    }
}

#[test]
fn bright_square_with_farthest_seeding_gives_one_central_circle() {
    let mut mask = image_with_blocks(5, 5, &[(0, 0, 5, 5)]);
    let policy = SeedPolicy::Farthest { width: 5, height: 5 };
    let circles = pack(&mut mask, &policy, &config(2, 25, 2, 0));
    assert_eq!(circles, vec![Circle { x: 2, y: 2, r: 2 }]);
    assert!(mask.is_empty());
    assert_eq!(format_circles(&circles, 5), "[[2,3,2]],");
}

#[test]
fn two_far_blocks_with_farthest_seeding_give_two_circles() {
    let blocks = [(3, 5, 20, 20), (37, 5, 20, 20)];
    let mut mask = image_with_blocks(60, 30, &blocks);
    let policy = SeedPolicy::Farthest { width: 60, height: 30 };
    let circles = pack(&mut mask, &policy, &PackConfig::default());
    assert_eq!(
        circles,
        vec![Circle { x: 12, y: 14, r: 9 }, Circle { x: 46, y: 14, r: 9 }]
    );
    for c in &circles {
        for p in pixels_in_circle(c.x, c.y, c.r) {
            assert!(!(p.x >= 23 && p.x < 37));
        }
    }
    assert!(mask.is_empty());
}

#[test]
fn dark_image_with_farthest_seeding_gives_no_circle() {
    let mut mask = image_with_blocks(8, 6, &[]);
    let policy = SeedPolicy::Farthest { width: 8, height: 6 };
    let circles = pack(&mut mask, &policy, &PackConfig::default());
    assert!(circles.is_empty());
    assert_eq!(format_circles(&circles, 6), "[],");
}

#[test]
fn farthest_seeding_is_repeatable() {
    let blocks = [(2, 2, 15, 11), (20, 1, 8, 17)];
    let policy = SeedPolicy::Farthest { width: 30, height: 20 };
    let cfg = config(3, 25, 3, 1);
    let mut first = image_with_blocks(30, 20, &blocks);
    let mut second = image_with_blocks(30, 20, &blocks);
    let a = pack(&mut first, &policy, &cfg);
    let b = pack(&mut second, &policy, &cfg);
    assert!(!a.is_empty());
    assert_eq!(a, b);
    assert_eq!(format_circles(&a, 20), format_circles(&b, 20));
}

#[test]
fn standard_configuration_has_the_documented_values() {
    let cfg = PackConfig::default();
    assert_eq!(MAX_RADIUS, 25);
    assert_eq!(cfg, config(3, 25, 3, 0));
}

#[test]
fn carve_takes_the_reduced_discs_away() {
    let mut mask = image_with_blocks(9, 9, &[(0, 0, 9, 9)]);
    carve(&mut mask, &vec![Circle { x: 4, y: 4, r: 4 }], 2);
    assert_eq!(mask.len(), 81 - 13);
    assert!(!mask.contains(px(4, 4)));
    assert!(!mask.contains(px(6, 4)));
    assert!(mask.contains(px(7, 4)));
    let mut other = image_with_blocks(9, 9, &[(0, 0, 9, 9)]);
    carve(&mut other, &vec![Circle { x: 4, y: 4, r: 1 }, Circle { x: 0, y: 0, r: 0 }], 5);
    assert_eq!(other.len(), 79);
    assert!(!other.contains(px(4, 4)));
    assert!(!other.contains(px(0, 0)));
}

#[test]
fn two_passes_place_the_largest_circles_first() {
    let mask = image_with_blocks(30, 12, &[(0, 0, 30, 12)]);
    let policy = SeedPolicy::Farthest { width: 30, height: 12 };
    let cfg = config(2, 5, 2, 1);
    let circles = pack_two_pass(&mask, &policy, &cfg);
    assert_eq!(mask.len(), 360);
    let mut strict_run = mask.copy();
    let large = pack(&mut strict_run, &policy, &config(2, 5, 5, 0));
    assert!(!large.is_empty());
    assert!(circles.len() > large.len());
    assert_eq!(circles[..large.len()], large[..]);
    for c in &large {
        assert_eq!(c.r, 5);
    }
    let mut rest = mask.copy();
    carve(&mut rest, &large, 1);
    let small = pack(&mut rest, &policy, &cfg);
    assert_eq!(circles[large.len()..], small[..]);
    for c in &circles {
        assert!(check_circle(&mask, c.x, c.y, c.r));
    }
}

#[test]
fn farthest_seeding_does_not_depend_on_insertion_order() {
    let blocks = [(2, 2, 15, 11), (20, 1, 8, 17)];
    let policy = SeedPolicy::Farthest { width: 30, height: 20 };
    let cfg = config(3, 25, 3, 0);
    let mut forward = image_with_blocks(30, 20, &blocks);
    let mut backward = PixelSet::new();
    for p in forward.pixels().into_iter().rev() {
        backward.insert(p);
    }
    let a = pack(&mut forward, &policy, &cfg);
    let b = pack(&mut backward, &policy, &cfg);
    assert!(!a.is_empty());
    assert_eq!(a, b);
}
