use pinpointer::geometry::{Point, Polygon, Rect};
use pinpointer::labeling::{LabeledPartitionTree, Region};

type Tree = LabeledPartitionTree<String>;

fn ring(corners: &[(i32, i32)]) -> Vec<Point> {
    corners.iter().map(|&(x, y)| Point::new(x, y)).collect()
}

fn polygon(corners: &[(i32, i32)]) -> Polygon {
    Polygon { exterior: ring(corners), interiors: vec![] }
}

fn region(polygons: Vec<Polygon>) -> Option<Region<String>> {
    Region::new("R".to_string(), &polygons)
}

fn build(polygons: Vec<Polygon>, max_depth: usize) -> Tree {
    let regions = vec![region(polygons).unwrap()];
    Tree::build(&regions, Rect::new(Point::new(-16, -16), Point::new(16, 16)), max_depth).unwrap()
}

fn sweep(tree: &Tree) -> usize {
    let mut found = 0;
    for x in -17..=17 {
        for y in -17..=17 {
            if tree.label(&Point::new(x, y)).is_some() {
                found += 1;
            }
        }
    }
    found
}

#[test]
fn a_square_is_valid() {
    assert!(polygon(&[(0, 0), (8, 0), (8, 8), (0, 8)]).is_valid());
    assert!(region(vec![polygon(&[(0, 0), (8, 0), (8, 8), (0, 8)])]).is_some());
}

#[test]
fn a_ring_of_one_or_two_points_is_refused() {
    assert!(!polygon(&[(3, 3)]).is_valid());
    assert!(!polygon(&[(-3, -3), (5, 5)]).is_valid());
    assert!(region(vec![polygon(&[(3, 3)])]).is_none());
    assert!(region(vec![polygon(&[(-3, -3), (5, 5)])]).is_none());
    assert!(region(vec![polygon(&[(0, 0), (8, 0), (8, 8)]), polygon(&[(3, 3)])]).is_none());
}

#[test]
fn a_ring_that_crosses_itself_is_refused() {
    let bow_tie = polygon(&[(-8, -8), (8, 8), (8, -8), (-8, 8)]);
    assert!(!bow_tie.is_valid());
    assert!(region(vec![bow_tie]).is_none());
}

#[test]
fn a_hole_outside_its_polygon_is_refused() {
    let odd = Polygon {
        exterior: ring(&[(0, 0), (4, 0), (4, 4), (0, 4)]),
        interiors: vec![ring(&[(8, 8), (12, 8), (12, 12), (8, 12)])],
    };
    assert!(!odd.is_valid());
    assert!(region(vec![odd]).is_none());
    let crossing = Polygon {
        exterior: ring(&[(0, 0), (8, 0), (8, 8), (0, 8)]),
        interiors: vec![ring(&[(4, 4), (12, 4), (12, 6), (4, 6)])],
    };
    assert!(!crossing.is_valid());
    assert!(region(vec![crossing]).is_none());
}

#[test]
fn polygons_that_overlap_are_refused() {
    let one = polygon(&[(0, 0), (8, 0), (8, 8), (0, 8)]);
    let other = polygon(&[(4, 4), (12, 4), (12, 12), (4, 12)]);
    assert!(one.is_valid());
    assert!(other.is_valid());
    assert!(region(vec![one.clone(), other]).is_none());
    assert!(region(vec![one.clone(), one]).is_none());
}

#[test]
fn polygons_that_share_a_side_are_refused() {
    let left = polygon(&[(0, 0), (4, 0), (4, 4), (0, 4)]);
    let right = polygon(&[(4, 0), (8, 0), (8, 4), (4, 4)]);
    assert!(region(vec![left.clone(), right]).is_none());
    // a corner in common is no fault
    let above = polygon(&[(4, 4), (8, 4), (8, 8), (4, 8)]);
    let tree = build(vec![left, above], 3);
    assert_eq!(tree.label(&Point::new(2, 2)), Some("R".to_string()));
    assert_eq!(tree.label(&Point::new(6, 6)), Some("R".to_string()));
    assert_eq!(tree.label(&Point::new(4, 4)), Some("R".to_string()));
    assert_eq!(tree.label(&Point::new(6, 2)), None);
}

#[test]
fn no_polygons_make_no_region() {
    assert!(region(vec![]).is_none());
}

#[test]
fn a_ring_that_encloses_nothing_is_refused() {
    let empty = polygon(&[]);
    assert!(!empty.has_area());
    assert!(!empty.is_valid());
    assert!(region(vec![empty]).is_none());
    let flat = polygon(&[(0, 0), (4, 0), (8, 0)]);
    assert!(!flat.has_area());
    assert!(!flat.is_valid());
    assert!(region(vec![flat]).is_none());
    let flat_hole = Polygon {
        exterior: ring(&[(0, 0), (8, 0), (8, 8), (0, 8)]),
        interiors: vec![ring(&[(2, 2), (4, 4), (6, 6)])],
    };
    assert!(!flat_hole.has_area());
    assert!(region(vec![flat_hole]).is_none());
    let empty_hole = Polygon {
        exterior: ring(&[(0, 0), (8, 0), (8, 8), (0, 8)]),
        interiors: vec![ring(&[])],
    };
    assert!(!empty_hole.has_area());
    assert!(region(vec![polygon(&[(0, 0), (8, 0), (8, 8)]), empty_hole]).is_none());
}

#[test]
fn a_ring_encloses_an_area_whichever_way_it_runs() {
    assert!(polygon(&[(0, 0), (8, 0), (8, 8)]).has_area());
    assert!(polygon(&[(0, 0), (8, 8), (8, 0)]).has_area());
    assert!(polygon(&[(0, 0), (8, 0), (8, 8), (0, 0)]).has_area());
    assert!(polygon(&[(i32::MIN, i32::MIN), (i32::MAX, i32::MIN), (i32::MAX, i32::MAX)]).has_area());
    // a bow tie of two equal wings encloses as much one way as the other
    assert!(!polygon(&[(-8, -8), (8, 8), (8, -8), (-8, 8)]).has_area());
    assert!(polygon(&[(-8, -8), (8, 8), (8, -8), (-4, 4)]).has_area());
    assert!(!polygon(&[(-8, -8), (8, 8), (8, -8), (-4, 4)]).is_valid());
}

#[test]
fn a_ring_may_repeat_its_first_point() {
    let open = build(vec![polygon(&[(0, 0), (8, 0), (8, 8), (0, 8)])], 3);
    let closed = build(vec![polygon(&[(0, 0), (8, 0), (8, 8), (0, 8), (0, 0)])], 3);
    assert_eq!(sweep(&open), 81);
    assert_eq!(sweep(&closed), 81);
    assert_eq!(open.size(), closed.size());
}

#[test]
fn a_ring_may_run_either_way_round() {
    let one = build(vec![polygon(&[(0, 0), (8, 0), (8, 8), (0, 8)])], 3);
    let other = build(vec![polygon(&[(0, 0), (0, 8), (8, 8), (8, 0)])], 3);
    assert_eq!(sweep(&one), 81);
    assert_eq!(sweep(&other), 81);
}

#[test]
fn corners_on_a_side_are_taken() {
    let tree = build(vec![polygon(&[(0, 0), (4, 0), (8, 0), (8, 8), (0, 8), (0, 4)])], 3);
    assert_eq!(sweep(&tree), 81);
}

#[test]
fn a_hole_may_touch_the_outer_ring_in_a_point() {
    let touching = Polygon {
        exterior: ring(&[(0, 0), (8, 0), (8, 8), (0, 8)]),
        interiors: vec![ring(&[(0, 4), (4, 2), (6, 4), (4, 6)])],
    };
    assert!(touching.is_valid());
    let tree = build(vec![touching], 3);
    assert_eq!(tree.label(&Point::new(7, 7)), Some("R".to_string()));
    assert_eq!(tree.label(&Point::new(3, 4)), None);
}

#[test]
fn a_region_may_reach_beyond_the_box() {
    let tree = build(vec![polygon(&[(-100, -100), (100, -100), (100, 100), (-100, 100)])], 3);
    assert_eq!(tree.size(), 1);
    assert_eq!(sweep(&tree), 33 * 33);
    let tree = build(vec![polygon(&[(-100, 0), (100, 0), (100, 100), (-100, 100)])], 3);
    assert_eq!(tree.label(&Point::new(0, 5)), Some("R".to_string()));
    assert_eq!(tree.label(&Point::new(0, -5)), None);
}

#[test]
fn the_whole_grid_can_be_a_box() {
    let far = 1 << 30;
    let regions = vec![
        Region::new("NE".to_string(), &vec![polygon(&[(0, 0), (far, 0), (far, far), (0, far)])])
            .unwrap(),
        Region::new(
            "SW".to_string(),
            &vec![polygon(&[(-far, -far), (0, -far), (0, 0), (-far, 0)])],
        )
        .unwrap(),
    ];
    let bbox = Rect::new(Point::new(-far, -far), Point::new(far, far));
    for depth in [0, 1, 5] {
        let tree = Tree::build(&regions, bbox, depth).unwrap();
        assert_eq!(tree.label(&Point::new(far / 2, far / 3)), Some("NE".to_string()));
        assert_eq!(tree.label(&Point::new(-far / 2, -7)), Some("SW".to_string()));
        assert_eq!(tree.label(&Point::new(-far / 2, far / 2)), None);
        assert_eq!(tree.label(&Point::new(far, far)), Some("NE".to_string()));
        assert_eq!(tree.label(&Point::new(i32::MAX, i32::MAX)), None);
        assert_eq!(tree.label(&Point::new(i32::MIN, i32::MIN)), None);
    }
    let edge = Rect::new(Point::new(i32::MIN, i32::MIN), Point::new(i32::MAX - 1, i32::MAX - 1));
    let tree = Tree::build(&regions, edge, 1).unwrap();
    assert_eq!(tree.size(), 4);
    assert_eq!(tree.label(&Point::new(5, 5)), Some("NE".to_string()));
}
