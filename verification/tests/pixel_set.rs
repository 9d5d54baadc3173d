use mkbubble::foreground::foreground;
use mkbubble::geometry::Pixel;
use mkbubble::pixel_set::PixelSet;

fn px(x: u32, y: u32) -> Pixel {
    Pixel { x, y }
}

#[test]
fn new_set_is_empty() {
    let set = PixelSet::new();
    assert_eq!(set.len(), 0);
    assert!(set.is_empty());
    assert_eq!(set.first(), None);
    assert_eq!(set.get(0), None);
    assert!(!set.contains(px(0, 0)));
    assert!(set.pixels().is_empty());
}

#[test]
fn insert_keeps_arrival_order_and_refuses_repeats() {
    let mut set = PixelSet::new();
    assert!(set.insert(px(3, 1)));
    assert!(set.insert(px(0, 0)));
    assert!(!set.insert(px(3, 1)));
    assert!(set.insert(px(2, 2)));
    assert_eq!(set.len(), 3);
    assert!(!set.is_empty());
    assert_eq!(set.pixels(), vec![px(3, 1), px(0, 0), px(2, 2)]);
    assert_eq!(set.first(), Some(px(3, 1)));
    assert_eq!(set.get(2), Some(px(2, 2)));
    assert_eq!(set.get(3), None);
    assert!(set.contains(px(0, 0)));
    assert!(!set.contains(px(1, 3)));
}

#[test]
fn remove_moves_the_last_member_into_the_gap() {
    let mut set = PixelSet::new();
    for i in 0..5u32 {
        set.insert(px(i, 10 + i));
    }
    assert!(set.remove(px(1, 11)));
    assert_eq!(set.pixels(), vec![px(0, 10), px(4, 14), px(2, 12), px(3, 13)]);
    assert!(!set.remove(px(1, 11)));
    assert_eq!(set.len(), 4);
    assert!(set.remove(px(3, 13)));
    assert_eq!(set.pixels(), vec![px(0, 10), px(4, 14), px(2, 12)]);
    assert!(set.remove(px(0, 10)));
    assert_eq!(set.pixels(), vec![px(2, 12), px(4, 14)]);
    assert!(!set.contains(px(0, 10)));
    assert!(set.contains(px(4, 14)));
}

#[test]
fn remove_of_the_only_member_empties_the_set() {
    let mut set = PixelSet::new();
    set.insert(px(9, 9));
    assert!(set.remove(px(9, 9)));
    assert!(set.is_empty());
    assert!(!set.remove(px(9, 9)));
}

#[test]
fn pixels_are_told_apart_by_both_components() {
    let mut set = PixelSet::new();
    set.insert(px(1, 2));
    assert!(!set.contains(px(2, 1)));
    assert!(!set.contains(px(1, 3)));
    assert!(set.insert(px(2, 1)));
    assert_eq!(set.len(), 2);
}

#[test]
fn foreground_holds_the_bright_pixels_in_raster_order() {
    let bright = vec![
        false, true, false, //
        true, true, false,
    ];
    let set = foreground(3, 2, &bright);
    assert_eq!(set.pixels(), vec![px(1, 0), px(0, 1), px(1, 1)]);
}

#[test]
fn foreground_of_a_dark_image_is_empty() {
    let bright = vec![false; 12];
    let set = foreground(4, 3, &bright);
    assert!(set.is_empty());
    assert_eq!(set.first(), None);
}

#[test]
fn foreground_of_a_bright_image_is_every_pixel() {
    let bright = vec![true; 12];
    let set = foreground(4, 3, &bright);
    assert_eq!(set.len(), 12);
    assert_eq!(set.get(0), Some(px(0, 0)));
    assert_eq!(set.get(5), Some(px(1, 1)));
    assert_eq!(set.get(11), Some(px(3, 2)));
}

#[test]
fn foreground_of_an_image_without_pixels_is_empty() {
    let bright: Vec<bool> = Vec::new();
    assert!(foreground(0, 7, &bright).is_empty());
    assert!(foreground(7, 0, &bright).is_empty());
}

#[test]
fn copy_has_the_same_members_in_the_same_order() {
    let mut set = PixelSet::new();
    for p in [px(4, 4), px(1, 9), px(0, 0), px(7, 2)] {
        set.insert(p);
    }
    set.remove(px(4, 4));
    let mut twin = set.copy();
    assert_eq!(twin.pixels(), vec![px(7, 2), px(1, 9), px(0, 0)]);
    twin.remove(px(1, 9));
    assert_eq!(set.len(), 3);
    assert_eq!(twin.len(), 2);
}

#[test]
fn pixels_are_ordered_by_column_then_row() {
    assert!(px(1, 9) < px(2, 0));
    assert!(px(2, 0) < px(2, 1));
    assert!(px(3, 3) > px(2, 8));
    assert!(px(3, 3) <= px(3, 3));
    assert_eq!(px(5, 1).partial_cmp(&px(5, 1)), Some(std::cmp::Ordering::Equal));
    assert_eq!(px(5, 1).partial_cmp(&px(5, 2)), Some(std::cmp::Ordering::Less));
    assert_eq!(px(6, 1).partial_cmp(&px(5, 2)), Some(std::cmp::Ordering::Greater));
    assert_eq!(px(6, 1).cmp(&px(5, 2)), std::cmp::Ordering::Greater);
    assert_eq!(px(0, 1).cmp(&px(0, 2)), std::cmp::Ordering::Less);
    assert_eq!(px(4, 4), px(4, 4));
    assert!(px(4, 4) != px(4, 5));
}
