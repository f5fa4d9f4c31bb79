use pinpointer::geometry::{Point, Polygon, Rect};
use pinpointer::labeling::{LabeledPartitionTree, Region};

type Tree = LabeledPartitionTree<String>;

fn ring(corners: &[(i32, i32)]) -> Vec<Point> {
    corners.iter().map(|&(x, y)| Point::new(x, y)).collect()
}

/// A slanted region with a hole.
fn the_region() -> Vec<Region<String>> {
    let polygon = Polygon {
        exterior: ring(&[(-40, -30), (35, -45), (50, 20), (5, 48), (-45, 25)]),
        interiors: vec![ring(&[(-10, -10), (10, -12), (12, 9), (-8, 11)])],
    };
    vec![Region::new("R".to_string(), &vec![polygon]).unwrap()]
}

fn inside() -> Vec<Point> {
    ring(&[(-30, -20), (30, -30), (40, 10), (5, 40), (-35, 20), (0, -25), (20, 20), (-20, 0), (0, 20)])
}

fn outside() -> Vec<Point> {
    ring(&[(0, 0), (5, 5), (-5, -3), (60, 0), (-60, 0), (0, 60), (0, -60), (48, 40), (-45, -40), (64, 64)])
}

fn boxes_with(p: &Point) -> Vec<Rect> {
    let mut boxes = Vec::new();
    for &(left, right) in &[(1, 1), (0, 4), (4, 0), (16, 48), (64, 64)] {
        for &(down, up) in &[(1, 1), (0, 2), (8, 0), (32, 16)] {
            boxes.push(Rect::new(
                Point::new(p.x - left, p.y - down),
                Point::new(p.x + right, p.y + up),
            ));
        }
    }
    boxes
}

#[test]
fn the_region_holds_what_lies_inside() {
    let regions = the_region();
    for p in inside() {
        assert!(regions[0].outline().contains(&p), "({}, {})", p.x, p.y);
    }
    for p in outside() {
        assert!(!regions[0].outline().contains(&p), "({}, {})", p.x, p.y);
    }
}

#[test]
fn a_part_cut_out_holds_the_points_of_the_region_in_the_box() {
    let regions = the_region();
    for p in inside() {
        for r in boxes_with(&p) {
            let leaf = Tree::from_labeled_polygons(&vec![0], &regions, r, 0, 0);
            assert!(leaf.polygons()[0].outline.contains(&p), "({}, {}) in {r:?}", p.x, p.y);
            assert_eq!(leaf.label(&p), Some("R".to_string()));
        }
    }
}

#[test]
fn a_part_cut_out_holds_no_point_outside_the_region() {
    let regions = the_region();
    for p in outside() {
        for r in boxes_with(&p) {
            let leaf = Tree::from_labeled_polygons(&vec![0], &regions, r, 0, 0);
            assert!(!leaf.polygons()[0].outline.contains(&p), "({}, {}) in {r:?}", p.x, p.y);
            assert_eq!(leaf.label(&p), None);
        }
    }
}

#[test]
fn a_part_cut_out_holds_no_point_outside_the_box() {
    let regions = the_region();
    let r = Rect::new(Point::new(-20, -40), Point::new(0, -20));
    let leaf = Tree::from_labeled_polygons(&vec![0], &regions, r, 0, 0);
    for p in inside() {
        let in_box = r.contains(&p);
        assert_eq!(leaf.polygons()[0].outline.contains(&p), in_box, "({}, {})", p.x, p.y);
    }
}

#[test]
fn a_quadrant_with_a_point_of_the_region_keeps_the_region() {
    let regions = the_region();
    for p in inside() {
        for r in boxes_with(&p) {
            // a box that has `r` as its lower left quadrant
            let whole = Rect::new(
                Point::new(r.min_x, r.min_y),
                Point::new(2 * r.max_x - r.min_x, 2 * r.max_y - r.min_y),
            );
            assert_eq!(whole.quadrant(0), r);
            let tree = Tree::from_labeled_polygons(&vec![0], &regions, whole, 1, 0);
            assert_eq!(tree.label(&p), Some("R".to_string()), "({}, {}) in {r:?}", p.x, p.y);
            if !tree.children().is_empty() {
                assert_eq!(tree.children()[0].polygons().len(), 1);
            }
        }
    }
}

#[test]
fn a_box_inside_the_region_is_kept_whole() {
    let regions = the_region();
    let r = Rect::new(Point::new(-32, -24), Point::new(-16, -16));
    let tree = Tree::from_labeled_polygons(&vec![0], &regions, r, 3, 0);
    assert_eq!(tree.size(), 1);
    assert_eq!(tree.polygons().len(), 1);
    for x in -33..=-15 {
        for y in -25..=-15 {
            let p = Point::new(x, y);
            assert_eq!(tree.polygons()[0].outline.contains(&p), r.contains(&p), "({x}, {y})");
        }
    }
    // a box that reaches into the hole is not
    let r = Rect::new(Point::new(-16, -16), Point::new(0, 0));
    let tree = Tree::from_labeled_polygons(&vec![0], &regions, r, 3, 0);
    assert!(tree.size() > 1);
}

#[test]
fn a_box_apart_from_the_region_has_no_candidates_below() {
    let regions = the_region();
    let r = Rect::new(Point::new(64, 64), Point::new(128, 128));
    let tree = Tree::from_labeled_polygons(&vec![0], &regions, r, 3, 0);
    assert_eq!(tree.size(), 4);
    for child in tree.children() {
        assert!(child.polygons().is_empty());
        assert!(child.children().is_empty());
    }
    // inside the hole
    let r = Rect::new(Point::new(-4, -4), Point::new(4, 4));
    let tree = Tree::from_labeled_polygons(&vec![0], &regions, r, 3, 0);
    assert_eq!(tree.size(), 4);
}

#[test]
fn the_same_question_gets_the_same_answer() {
    let r = Rect::new(Point::new(-24, -40), Point::new(8, 24));
    let mut texts = Vec::new();
    for _ in 0..3 {
        let regions = the_region();
        let leaf = Tree::from_labeled_polygons(&vec![0], &regions, r, 0, 0);
        texts.push((
            regions[0].outline().to_json().unwrap(),
            leaf.polygons()[0].outline.to_json().unwrap(),
        ));
    }
    assert_eq!(texts[0], texts[1]);
    assert_eq!(texts[1], texts[2]);
    assert!(texts[0].0.contains("-40.0"));
    assert_ne!(texts[0].0, texts[0].1);
}

#[test]
fn a_box_kept_whole_is_the_polygon_of_its_corners() {
    let regions = the_region();
    let r = Rect::new(Point::new(-32, -24), Point::new(-16, -16));
    let tree = Tree::from_labeled_polygons(&vec![0], &regions, r, 3, 0);
    assert_eq!(tree.size(), 1);
    let corners = Polygon {
        exterior: ring(&[(-32, -24), (-16, -24), (-16, -16), (-32, -16), (-32, -24)]),
        interiors: vec![],
    };
    let same = Region::new("BOX".to_string(), &vec![corners]).unwrap();
    assert_eq!(tree.polygons()[0].outline.to_json(), same.outline().to_json());
    let other = Polygon {
        exterior: ring(&[(-16, -24), (-16, -16), (-32, -16), (-32, -24), (-16, -24)]),
        interiors: vec![],
    };
    let turned = Region::new("BOX".to_string(), &vec![other]).unwrap();
    assert_ne!(tree.polygons()[0].outline.to_json(), turned.outline().to_json());
}
