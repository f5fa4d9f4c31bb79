use pinpointer::geometry::{Point, Rect};

fn rect(x0: i32, y0: i32, x1: i32, y1: i32) -> Rect {
    Rect::new(Point::new(x0, y0), Point::new(x1, y1))
}

#[test]
fn rect_new_orders_the_corners() {
    let r = Rect::new(Point::new(30, 10), Point::new(10, 20));
    assert_eq!(r, Rect { min_x: 10, min_y: 10, max_x: 30, max_y: 20 });
    let same = Rect::new(Point::new(10, 20), Point::new(30, 10));
    assert_eq!(r, same);
}

#[test]
fn rect_contains_counts_the_boundary() {
    let r = rect(0, 0, 4, 2);
    assert!(r.contains(&Point::new(2, 1)));
    assert!(r.contains(&Point::new(0, 0)));
    assert!(r.contains(&Point::new(4, 2)));
    assert!(r.contains(&Point::new(4, 1)));
    assert!(!r.contains(&Point::new(5, 1)));
    assert!(!r.contains(&Point::new(2, 3)));
    assert!(!r.contains(&Point::new(-1, 0)));
}

#[test]
fn split_x_cuts_in_the_middle() {
    let (left, right) = rect(0, 0, 4, 4).split_x();
    assert_eq!(left, rect(0, 0, 2, 4));
    assert_eq!(right, rect(2, 0, 4, 4));
}

#[test]
fn split_y_cuts_in_the_middle() {
    let (low, high) = rect(0, 0, 4, 4).split_y();
    assert_eq!(low, rect(0, 0, 4, 2));
    assert_eq!(high, rect(0, 2, 4, 4));
}

#[test]
fn split_of_an_odd_side_rounds_down() {
    let (left, right) = rect(-3, 0, 4, 1).split_x();
    assert_eq!(left, rect(-3, 0, 0, 1));
    assert_eq!(right, rect(0, 0, 4, 1));
}

#[test]
fn split_works_at_the_ends_of_the_grid() {
    let whole = rect(i32::MIN, i32::MIN, i32::MAX, i32::MAX);
    let (left, right) = whole.split_x();
    assert_eq!(left.max_x, -1);
    assert_eq!(right.min_x, -1);
    assert_eq!(left.min_x, i32::MIN);
    assert_eq!(right.max_x, i32::MAX);
}

#[test]
fn split_of_a_box_turned_inside_out_stays_between_its_corners() {
    let odd = Rect { min_x: 4, min_y: 0, max_x: -3, max_y: 8 };
    let (left, right) = odd.split_x();
    assert_eq!(left, Rect { min_x: 4, min_y: 0, max_x: 1, max_y: 8 });
    assert_eq!(right, Rect { min_x: 1, min_y: 0, max_x: -3, max_y: 8 });
}

#[test]
fn there_are_four_quadrants() {
    let r = rect(-10, -10, 10, 10);
    assert_eq!(r.quadrant(4), r);
    assert_eq!(r.quadrant(usize::MAX), r);
}

#[test]
fn quadrants_come_in_order() {
    let r = rect(-10, -10, 10, 10);
    assert_eq!(r.quadrant(0), rect(-10, -10, 0, 0));
    assert_eq!(r.quadrant(1), rect(-10, 0, 0, 10));
    assert_eq!(r.quadrant(2), rect(0, -10, 10, 0));
    assert_eq!(r.quadrant(3), rect(0, 0, 10, 10));
}

#[test]
fn quadrants_tile_the_box() {
    let r = rect(-7, 3, 12, 40);
    let area = |q: Rect| (q.max_x as i64 - q.min_x as i64) * (q.max_y as i64 - q.min_y as i64);
    let mut total = 0;
    for i in 0..4 {
        let q = r.quadrant(i);
        assert!(r.min_x <= q.min_x && q.max_x <= r.max_x);
        assert!(r.min_y <= q.min_y && q.max_y <= r.max_y);
        total += area(q);
    }
    assert_eq!(total, area(r));
    for x in -8..=13 {
        for y in 2..=41 {
            let p = Point::new(x, y);
            let in_some = (0..4).any(|i| r.quadrant(i).contains(&p));
            assert_eq!(r.contains(&p), in_some);
        }
    }
}

#[test]
fn bisectable_asks_for_multiples_of_a_power_of_two() {
    let r = rect(-10, -10, 10, 10);
    assert!(r.is_bisectable(0));
    assert!(r.is_bisectable(1));
    assert!(r.is_bisectable(2));
    assert!(!r.is_bisectable(3));
    assert!(rect(-180 << 20, -90 << 20, 180 << 20, 90 << 20).is_bisectable(15));
    assert!(rect(0, 0, 1 << 30, 1 << 30).is_bisectable(30));
    assert!(!rect(0, 0, 1 << 30, 1 << 30).is_bisectable(31));
    assert!(!rect(0, 0, 1 << 30, 1 << 30).is_bisectable(40));
    assert!(!rect(0, 0, 1 << 30, 1 << 30).is_bisectable(usize::MAX));
}

#[test]
fn a_box_without_interior_is_not_bisectable() {
    assert!(!rect(3, 0, 3, 8).is_bisectable(0));
    assert!(!rect(0, 5, 8, 5).is_bisectable(0));
    assert!(!Rect { min_x: 4, min_y: 0, max_x: 0, max_y: 4 }.is_bisectable(0));
}
