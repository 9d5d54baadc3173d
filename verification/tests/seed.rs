use mkbubble::coverage::{add_pixels, covered_pixels};
use mkbubble::geometry::{pixels_in_circle, Circle, Pixel};
use mkbubble::packing::remove_pixels;
use mkbubble::pixel_set::PixelSet;
use mkbubble::seed::{
    border_distance, clearance_of, dark_pixels, distance_squared, farthest_interior_point, nearest,
    select_seed, SeedPolicy,
};

fn px(x: u32, y: u32) -> Pixel {
    Pixel { x, y }
}

fn block(x0: u32, y0: u32, w: u32, h: u32) -> PixelSet {
    let mut set = PixelSet::new();
    for y in y0..y0 + h {
        for x in x0..x0 + w {
            set.insert(px(x, y));
        }
    }
    set
}

#[test]
fn squared_distance_is_symmetric_and_exact() {
    assert_eq!(distance_squared(px(1, 2), px(4, 6)), 25);
    assert_eq!(distance_squared(px(4, 6), px(1, 2)), 25);
    assert_eq!(distance_squared(px(7, 7), px(7, 7)), 0);
    assert_eq!(
        distance_squared(px(0, 0), px(u32::MAX, u32::MAX)),
        2 * (u32::MAX as u128) * (u32::MAX as u128)
    );
}

#[test]
fn dark_pixels_are_the_image_without_the_set() {
    let set = block(1, 0, 2, 2);
    assert_eq!(
        dark_pixels(&set, 3, 3),
        vec![px(0, 0), px(0, 1), px(0, 2), px(1, 2), px(2, 2)]
    );
    assert!(dark_pixels(&set, 0, 5).is_empty());
    assert!(dark_pixels(&block(0, 0, 4, 4), 4, 4).is_empty());
}

#[test]
fn nearest_is_the_smallest_squared_distance() {
    let pixels = vec![px(10, 10), px(3, 4), px(0, 9)];
    assert_eq!(nearest(&pixels, px(0, 0)), Some(25));
    assert_eq!(nearest(&pixels, px(9, 9)), Some(2));
    assert_eq!(nearest(&Vec::new(), px(9, 9)), None);
}

#[test]
fn border_distance_is_the_gap_to_the_nearest_edge() {
    assert_eq!(border_distance(5, 5, px(2, 2)), 3);
    assert_eq!(border_distance(5, 5, px(0, 2)), 1);
    assert_eq!(border_distance(5, 5, px(4, 2)), 1);
    assert_eq!(border_distance(10, 4, px(5, 2)), 2);
    assert_eq!(border_distance(10, 40, px(6, 20)), 4);
    assert_eq!(border_distance(u32::MAX, u32::MAX, px(u32::MAX - 1, 0)), 1);
    assert_eq!(border_distance(5, 5, px(5, 2)), 0);
    assert_eq!(border_distance(5, 5, px(2, 9)), 0);
}

#[test]
fn clearance_is_the_distance_to_the_nearest_dark_pixel() {
    let mut set = block(0, 0, 9, 9);
    set.remove(px(4, 6));
    set.remove(px(1, 1));
    assert_eq!(clearance_of(&set, 9, 9, px(4, 4)), 4);
    assert_eq!(clearance_of(&set, 9, 9, px(6, 3)), 13);
    assert_eq!(clearance_of(&set, 9, 9, px(3, 2)), 5);
    assert_eq!(clearance_of(&set, 9, 9, px(0, 0)), 2);
    assert_eq!(clearance_of(&set, 9, 9, px(8, 8)), 20);
    assert_eq!(clearance_of(&set, 9, 9, px(20, 20)), 452);
}

#[test]
fn clearance_in_an_image_without_dark_pixels_is_the_border_gap() {
    let set = block(0, 0, 9, 9);
    assert_eq!(clearance_of(&set, 9, 9, px(4, 4)), 25);
    assert_eq!(clearance_of(&set, 9, 9, px(0, 0)), 1);
    assert_eq!(clearance_of(&set, 9, 9, px(7, 3)), 4);
    assert_eq!(clearance_of(&set, 9, 9, px(20, 20)), 0);
}

#[test]
fn farthest_point_of_a_bright_image_is_its_centre() {
    assert_eq!(farthest_interior_point(&block(0, 0, 5, 5), 5, 5), Some(px(2, 2)));
    assert_eq!(farthest_interior_point(&block(0, 0, 9, 3), 9, 3), Some(px(1, 1)));
}

#[test]
fn farthest_point_of_a_block_is_its_centre() {
    assert_eq!(farthest_interior_point(&block(3, 4, 7, 7), 20, 20), Some(px(6, 7)));
    assert_eq!(farthest_interior_point(&block(0, 0, 7, 7), 20, 20), Some(px(0, 0)));
}

#[test]
fn farthest_point_ignores_the_border_where_a_pixel_is_dark() {
    let mut set = PixelSet::new();
    set.insert(px(1, 0));
    set.insert(px(2, 0));
    assert_eq!(farthest_interior_point(&set, 3, 1), Some(px(2, 0)));
    let mut reversed = PixelSet::new();
    reversed.insert(px(2, 0));
    reversed.insert(px(1, 0));
    assert_eq!(farthest_interior_point(&reversed, 3, 1), Some(px(2, 0)));
}

#[test]
fn farthest_point_among_equals_is_the_first_row_by_row() {
    assert_eq!(farthest_interior_point(&block(0, 0, 4, 4), 4, 4), Some(px(1, 1)));
    let mut reversed = PixelSet::new();
    for y in (0..4u32).rev() {
        for x in (0..4u32).rev() {
            reversed.insert(px(x, y));
        }
    }
    assert_eq!(farthest_interior_point(&reversed, 4, 4), Some(px(1, 1)));
    let mut pair = PixelSet::new();
    for p in [px(5, 2), px(2, 5), px(2, 2), px(5, 5)] {
        pair.insert(p);
    }
    assert_eq!(farthest_interior_point(&pair, 8, 8), Some(px(2, 2)));
    let mut row = PixelSet::new();
    for p in [px(6, 3), px(1, 3)] {
        row.insert(p);
    }
    assert_eq!(farthest_interior_point(&row, 8, 8), Some(px(1, 3)));
}

#[test]
fn farthest_point_does_not_depend_on_the_order_of_the_set() {
    let forward = block(2, 3, 9, 6);
    let mut backward = PixelSet::new();
    for p in forward.pixels().into_iter().rev() {
        backward.insert(p);
    }
    let mut shuffled = block(2, 3, 9, 6);
    for p in [px(2, 3), px(6, 5), px(10, 8), px(7, 6)] {
        shuffled.remove(p);
        shuffled.insert(p);
    }
    let seed = farthest_interior_point(&forward, 15, 12);
    assert_eq!(seed, Some(px(4, 5)));
    assert_eq!(farthest_interior_point(&backward, 15, 12), seed);
    assert_eq!(farthest_interior_point(&shuffled, 15, 12), seed);
    assert_eq!(forward.len(), 54);
}

#[test]
fn farthest_point_of_two_blocks_is_a_central_pixel_of_the_first() {
    let mut set = block(10, 10, 20, 20);
    add_pixels(&mut set, &block(60, 60, 20, 20).pixels());
    assert_eq!(set.len(), 800);
    assert_eq!(clearance_of(&set, 100, 100, px(19, 19)), 100);
    assert_eq!(clearance_of(&set, 100, 100, px(70, 70)), 100);
    assert_eq!(clearance_of(&set, 100, 100, px(21, 20)), 81);
    assert_eq!(farthest_interior_point(&set, 100, 100), Some(px(19, 19)));
}

#[test]
fn farthest_point_moves_to_the_untouched_block() {
    let mut set = block(10, 10, 20, 20);
    add_pixels(&mut set, &block(60, 60, 20, 20).pixels());
    remove_pixels(&mut set, &pixels_in_circle(19, 19, 9));
    assert_eq!(set.len(), 800 - 253);
    assert_eq!(farthest_interior_point(&set, 100, 100), Some(px(69, 69)));
}

#[test]
fn farthest_point_of_the_empty_set_is_none() {
    assert_eq!(farthest_interior_point(&PixelSet::new(), 10, 10), None);
}

#[test]
fn farthest_point_prefers_the_larger_block() {
    let mut set = block(0, 0, 3, 3);
    add_pixels(&mut set, &block(10, 10, 7, 7).pixels());
    assert_eq!(farthest_interior_point(&set, 30, 30), Some(px(13, 13)));
}

#[test]
fn select_seed_follows_the_policy() {
    let mut set = PixelSet::new();
    for p in [px(0, 0), px(2, 2), px(1, 2), px(3, 2), px(2, 1), px(2, 3)] {
        set.insert(p);
    }
    assert_eq!(select_seed(&set, &SeedPolicy::First), Some(px(0, 0)));
    let policy = SeedPolicy::Farthest { width: 6, height: 6 };
    assert_eq!(select_seed(&set, &policy), Some(px(2, 2)));
    assert_eq!(select_seed(&PixelSet::new(), &SeedPolicy::First), None);
    assert_eq!(select_seed(&PixelSet::new(), &policy), None);
}

#[test]
fn add_pixels_appends_the_new_ones_only() {
    let mut set = PixelSet::new();
    set.insert(px(1, 1));
    add_pixels(&mut set, &vec![px(0, 0), px(1, 1), px(2, 2), px(0, 0)]);
    assert_eq!(set.pixels(), vec![px(1, 1), px(0, 0), px(2, 2)]);
}

#[test]
fn covered_pixels_are_the_union_of_the_discs() {
    let circles = vec![Circle { x: 2, y: 2, r: 1 }, Circle { x: 3, y: 2, r: 1 }];
    let set = covered_pixels(&circles);
    assert_eq!(
        set.pixels(),
        vec![px(2, 1), px(1, 2), px(2, 2), px(3, 2), px(2, 3), px(3, 1), px(4, 2), px(3, 3)]
    );
    assert!(covered_pixels(&Vec::new()).is_empty());
}
