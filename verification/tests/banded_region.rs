use lilith::banded_region::BandedRegion;
use lilith::geometry::Rect;

fn value_at<V: Copy>(br: &BandedRegion<V>, x: i32, y: i32) -> Option<V> {
    for band in br.bands.iter() {
        if band.y_start <= y && y < band.y_end {
            for region in band.regions.iter() {
                if region.x_start <= x && x < region.x_end {
                    return Some(region.value);
                }
            }
        }
    }
    None
}

fn area(rects: &[(Rect, u32)]) -> i64 {
    rects.iter().map(|(r, _)| r.width() as i64 * r.height() as i64).sum()
}

#[test]
fn new_region_is_empty() {
    let br: BandedRegion<u32> = BandedRegion::new();
    assert!(br.bands.is_empty());
    assert_eq!(value_at(&br, 0, 0), None);
}

#[test]
fn insert_sets_every_point_of_the_rect() {
    let mut br = BandedRegion::new();
    br.insert(Rect::new(10, 20, 30, 40), 7u32);
    assert_eq!(value_at(&br, 10, 20), Some(7));
    assert_eq!(value_at(&br, 29, 39), Some(7));
    assert_eq!(value_at(&br, 30, 39), None);
    assert_eq!(value_at(&br, 29, 40), None);
    assert_eq!(value_at(&br, 9, 25), None);
}

#[test]
fn insert_overwrites_and_keeps_the_rest() {
    let mut br = BandedRegion::new();
    br.insert(Rect::new(0, 0, 100, 100), 1u32);
    br.insert(Rect::new(25, 25, 75, 75), 2u32);
    assert_eq!(value_at(&br, 10, 10), Some(1));
    assert_eq!(value_at(&br, 50, 50), Some(2));
    assert_eq!(value_at(&br, 74, 74), Some(2));
    assert_eq!(value_at(&br, 75, 74), Some(1));
    assert_eq!(value_at(&br, 99, 99), Some(1));
}

#[test]
fn remove_clears_only_the_rect() {
    let mut br = BandedRegion::new();
    br.insert(Rect::new(0, 0, 10, 10), true);
    br.remove(Rect::new(2, 2, 5, 5));
    assert_eq!(value_at(&br, 3, 3), None);
    assert_eq!(value_at(&br, 1, 1), Some(true));
    assert_eq!(value_at(&br, 5, 5), Some(true));
}

#[test]
fn update_applies_the_function_inside_the_rect() {
    let mut br = BandedRegion::new();
    br.insert(Rect::new(0, 0, 10, 10), 5u32);
    br.update(Rect::new(5, 0, 15, 10), |v: Option<&u32>| match v {
        Some(x) => Some(*x + 1),
        None => Some(100),
    });
    assert_eq!(value_at(&br, 4, 4), Some(5));
    assert_eq!(value_at(&br, 5, 4), Some(6));
    assert_eq!(value_at(&br, 12, 4), Some(100));
    assert_eq!(value_at(&br, 15, 4), None);
}

#[test]
fn drain_returns_disjoint_rects_covering_the_values_and_clears_them() {
    let mut br = BandedRegion::new();
    br.insert(Rect::new(0, 0, 10, 10), 1u32);
    br.insert(Rect::new(5, 5, 15, 15), 2u32);
    let rects = br.drain(Rect::new(0, 0, 100, 100));
    // 100 points of value 1 minus the 25 overwritten, plus 100 points of value 2
    assert_eq!(area(&rects), 175);
    for (r, v) in rects.iter() {
        assert!(!r.is_empty());
        if *v == 2 {
            assert!(r.tl.x >= 5 && r.tl.y >= 5 && r.br.x <= 15 && r.br.y <= 15);
        }
    }
    for i in 0..rects.len() {
        for j in i + 1..rects.len() {
            assert!(rects[i].0.intersect(rects[j].0).is_none());
        }
    }
    assert_eq!(value_at(&br, 3, 3), None);
    assert_eq!(value_at(&br, 12, 12), None);
}

#[test]
fn drain_leaves_points_outside_the_boundary() {
    let mut br = BandedRegion::new();
    br.insert(Rect::new(0, 0, 10, 10), 3u32);
    let rects = br.drain(Rect::new(0, 0, 5, 10));
    assert_eq!(area(&rects), 50);
    assert_eq!(value_at(&br, 4, 4), None);
    assert_eq!(value_at(&br, 5, 4), Some(3));
}

#[test]
fn query_reports_points_that_hold_values() {
    let mut br = BandedRegion::new();
    br.insert(Rect::new(0, 0, 4, 4), 9u32);
    let rects = br.query(Rect::new(0, 0, 4, 4));
    assert!(!rects.is_empty());
    for (r, v) in rects.iter() {
        assert_eq!(*v, 9);
        assert!(!r.is_empty());
        for x in r.tl.x..r.br.x {
            for y in r.tl.y..r.br.y {
                assert_eq!(value_at(&br, x, y), Some(9));
            }
        }
    }
    assert_eq!(area(&rects), 16);
}

#[test]
fn update_values_maps_every_value() {
    let mut br = BandedRegion::new();
    br.insert(Rect::new(0, 0, 5, 5), 1u32);
    br.insert(Rect::new(10, 10, 12, 12), 4u32);
    br.update_values(|_r: Rect, v: u32| v * 10);
    assert_eq!(value_at(&br, 2, 2), Some(10));
    assert_eq!(value_at(&br, 11, 11), Some(40));
    assert_eq!(value_at(&br, 7, 7), None);
}

#[test]
fn coalesce_merges_and_keeps_every_value() {
    let mut br = BandedRegion::new();
    br.insert(Rect::new(0, 0, 10, 10), 1u32);
    br.insert(Rect::new(10, 0, 20, 10), 1u32);
    br.insert(Rect::new(0, 10, 20, 20), 1u32);
    br.coalesce();
    assert_eq!(br.bands.len(), 1);
    assert_eq!(br.bands[0].regions.len(), 1);
    let r = &br.bands[0].regions[0];
    assert_eq!((br.bands[0].y_start, br.bands[0].y_end, r.x_start, r.x_end), (0, 20, 0, 20));
    assert_eq!(value_at(&br, 19, 19), Some(1));
    assert_eq!(value_at(&br, 20, 19), None);
}

#[test]
fn coalesce_keeps_different_values_apart() {
    let mut br = BandedRegion::new();
    br.insert(Rect::new(0, 0, 10, 10), 1u32);
    br.insert(Rect::new(10, 0, 20, 10), 2u32);
    br.coalesce();
    assert_eq!(br.bands.len(), 1);
    assert_eq!(br.bands[0].regions.len(), 2);
    assert_eq!(value_at(&br, 5, 5), Some(1));
    assert_eq!(value_at(&br, 15, 5), Some(2));
}

#[test]
fn test_banded_region() {
    let mut region = BandedRegion::new();
    // overlapping rectangles
    region.update(Rect::new(0, 0, 30, 30), |_| Some(true));
    region.update(Rect::new(20, 20, 50, 50), |_| Some(true));
    region.update(Rect::new(10, 25, 40, 35), |_| Some(true));
    // punch holes
    region.update(Rect::new(5, 5, 15, 15), |_| None);
    region.update(Rect::new(25, 25, 35, 35), |_| None);
    // adjacent (shared edge)
    region.update(Rect::new(50, 0, 60, 10), |_| Some(true));
    region.update(Rect::new(60, 0, 70, 10), |_| Some(true));
    // zero-area: nothing changes
    region.update(Rect::new(5, 5, 5, 10), |_| Some(true));
    // fully contained hole
    region.update(Rect::new(22, 0, 28, 5), |_| None);
    // re-add over a hole
    region.update(Rect::new(25, 25, 35, 35), |_| Some(true));
    let before: Vec<Option<bool>> =
        (0..80).flat_map(|y| (0..80).map(move |x| (x, y))).map(|(x, y)| value_at(&region, x, y)).collect();
    region.coalesce();
    let after: Vec<Option<bool>> =
        (0..80).flat_map(|y| (0..80).map(move |x| (x, y))).map(|(x, y)| value_at(&region, x, y)).collect();
    assert_eq!(before, after);
    assert_eq!(value_at(&region, 7, 7), None);
    assert_eq!(value_at(&region, 30, 30), Some(true));
    assert_eq!(value_at(&region, 24, 2), None);
    assert_eq!(value_at(&region, 65, 5), Some(true));
    assert_eq!(value_at(&region, 5, 7), None);
    let rects = region.query(Rect::new(10, 10, 30, 30));
    for (rect, v) in rects.iter() {
        assert!(*v);
        assert!(rect.tl.x >= 10 && rect.br.x <= 30 && rect.br.y <= 30);
    }
}

#[test]
fn query_covers_every_point_that_holds_a_value() {
    let mut br = BandedRegion::new();
    br.insert(Rect::new(0, 0, 10, 10), 1u32);
    br.insert(Rect::new(5, 5, 20, 15), 2u32);
    br.insert(Rect::new(12, 0, 16, 3), 1u32);
    br.insert(Rect::new(2, 12, 4, 30), 3u32);
    br.remove(Rect::new(6, 6, 8, 8));
    let boundary = Rect::new(1, 1, 18, 25);
    let rects = br.query(boundary);
    for y in boundary.tl.y..boundary.br.y {
        for x in boundary.tl.x..boundary.br.x {
            let covering: Vec<&(Rect, u32)> =
                rects.iter().filter(|(r, _)| r.tl.x <= x && x < r.br.x && r.tl.y <= y && y < r.br.y).collect();
            match value_at(&br, x, y) {
                Some(v) => {
                    assert_eq!(covering.len(), 1, "({}, {}) covered {} times", x, y, covering.len());
                    assert!(covering.iter().all(|(_, w)| *w == v));
                }
                None => assert!(covering.is_empty()),
            }
        }
    }
}
