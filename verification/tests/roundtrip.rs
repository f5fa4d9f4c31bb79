use pinpointer::geometry::{Point, Polygon, Rect};
use pinpointer::kernel::Outline;
use pinpointer::labeling::{LabeledPartitionTree, Piece, Region};
use serde_json::Value;

type Tree = LabeledPartitionTree<String>;

fn shape(corners: &[(i32, i32)]) -> Polygon {
    Polygon {
        exterior: corners.iter().map(|&(x, y)| Point::new(x, y)).collect(),
        interiors: vec![],
    }
}

fn regions() -> Vec<Region<String>> {
    let region = |label: &str, polygons: Vec<Polygon>| {
        Region::new(label.to_string(), &polygons).unwrap()
    };
    vec![
        region("WEST", vec![shape(&[(-900, -400), (-100, -700), (-50, 600), (-800, 300)])]),
        region("EAST", vec![shape(&[(-50, 600), (-100, -700), (700, -500), (950, 800)])]),
        region(
            "ISLES",
            vec![
                shape(&[(-1000, 900), (-900, 900), (-950, 1000)]),
                shape(&[(800, -1000), (1000, -1000), (1000, -800)]),
            ],
        ),
    ]
}

fn to_value(tree: &Tree) -> Value {
    let bbox = tree.bbox();
    let pieces: Vec<Value> = tree
        .polygons()
        .iter()
        .map(|piece| {
            let text = piece.outline.to_json().unwrap();
            Value::Array(vec![
                Value::String(piece.label.clone()),
                serde_json::from_str::<Value>(&text).unwrap(),
            ])
        })
        .collect();
    Value::Array(vec![
        Value::Array(
            [bbox.min_x, bbox.min_y, bbox.max_x, bbox.max_y]
                .iter()
                .map(|&c| Value::from(c))
                .collect(),
        ),
        Value::Array(tree.children().iter().map(to_value).collect()),
        Value::Array(pieces),
    ])
}

fn from_value(value: &Value) -> Tree {
    let parts = value.as_array().unwrap();
    let c: Vec<i32> = parts[0]
        .as_array()
        .unwrap()
        .iter()
        .map(|v| v.as_i64().unwrap() as i32)
        .collect();
    let bbox = Rect::new(Point::new(c[0], c[1]), Point::new(c[2], c[3]));
    let children: Vec<Tree> = parts[1].as_array().unwrap().iter().map(from_value).collect();
    let pieces: Vec<Piece<String>> = parts[2]
        .as_array()
        .unwrap()
        .iter()
        .map(|piece| {
            let pair = piece.as_array().unwrap();
            Piece {
                label: pair[0].as_str().unwrap().to_string(),
                outline: Outline::from_json(&pair[1].to_string()).unwrap(),
            }
        })
        .collect();
    Tree::from_parts(bbox, children, pieces).unwrap()
}

#[test]
fn a_tree_read_back_answers_as_before() {
    let bbox = Rect::new(Point::new(-1024, -1024), Point::new(1024, 1024));
    let tree = Tree::build(&regions(), bbox, 5).unwrap();
    let text = serde_json::to_string(&to_value(&tree)).unwrap();
    let again = from_value(&serde_json::from_str::<Value>(&text).unwrap());
    assert_eq!(again.size(), tree.size());
    assert_eq!(again.height(), tree.height());
    assert_eq!(again.bboxes(), tree.bboxes());
    let mut state: u64 = 0x9E37_79B9_7F4A_7C15;
    let mut next = || {
        state = state.wrapping_mul(6364136223846793005).wrapping_add(1442695040888963407);
        ((state >> 33) % 2049) as i32 - 1024
    };
    let mut found = 0;
    for _ in 0..10_000 {
        let p = Point::new(next(), next());
        let before = tree.label(&p);
        assert_eq!(again.label(&p), before, "at ({}, {})", p.x, p.y);
        if before.is_some() {
            found += 1;
        }
    }
    assert!(found > 1000 && found < 9000, "{found}");
}

#[test]
fn an_outline_read_back_holds_the_same_points() {
    let leaf = Tree::from_labeled_polygons(
        &vec![0],
        &regions(),
        Rect::new(Point::new(-1024, -1024), Point::new(0, 0)),
        0,
        0,
    );
    let outline = &leaf.polygons()[0].outline;
    let text = outline.to_json().unwrap();
    let again = Outline::from_json(&text).unwrap();
    assert_eq!(again.to_json().unwrap(), text);
    for x in (-1024..=0).step_by(32) {
        for y in (-1024..=0).step_by(32) {
            let p = Point::new(x, y);
            assert_eq!(again.contains(&p), outline.contains(&p), "at ({x}, {y})");
        }
    }
}
