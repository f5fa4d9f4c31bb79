//! From the features of a map file to a collection of regions, and the name
//! of the file that keeps a tree.
//!
//! A map file lists features: pieces of the map, each with a label and some
//! polygons. A region of the collection is everything that the file lists
//! under one label. Features that carry the label for "unknown" belong to no
//! region, and a label under which no polygon is listed makes no region:
//! every region of the collection has at least one polygon. The polygons of
//! a region are valid, or there is no collection.
//!
//! A tree that took long to build is kept in a file. The file is named by
//! what the tree was built from, the property that labels the regions and the
//! depth limit, so that trees of different settings never share a file.
use crate::geometry::{shapes_of, Point, Polygon, PolygonShape};
use crate::kernel::{grid_outline, valid_grid};
use crate::labeling::Region;
use vstd::prelude::*;
use vstd::string::StringExecFns;

verus! {

/// A feature of a map file: a label and the polygons listed under it, in
/// grid units.
#[derive(Clone, Debug)]
pub struct Feature {
    pub label: String,
    pub polygons: Vec<Polygon>,
}

/// A feature as a mathematical value.
pub struct FeatureShape {
    pub label: Seq<char>,
    pub polygons: Seq<PolygonShape>,
}

impl View for Feature {
    type V = FeatureShape;

    open spec fn view(&self) -> FeatureShape {
        FeatureShape { label: self.label@, polygons: shapes_of(self.polygons@) }
    }
}

/// The features of a list as mathematical values.
pub open spec fn feature_shapes(features: Seq<Feature>) -> Seq<FeatureShape> {
    Seq::new(features.len(), |i: int| features[i]@)
}

/// The label that map files give to features of unknown belonging.
pub open spec fn unknown_label() -> Seq<char> {
    "-99"@
}

/// The labels under which the first `n` features list a polygon, the
/// unknown label left out, each once, in the order in which the features
/// first list a polygon under them.
pub open spec fn labels_upto(features: Seq<FeatureShape>, n: int) -> Seq<Seq<char>>
    decreases n,
{
    if n <= 0 {
        Seq::empty()
    } else {
        let before = labels_upto(features, n - 1);
        let label = features[n - 1].label;
        if label == unknown_label() || features[n - 1].polygons.len() == 0 || before.contains(
            label,
        ) {
            before
        } else {
            before.push(label)
        }
    }
}

/// The labels of the regions that the features make up.
pub open spec fn labels_of(features: Seq<FeatureShape>) -> Seq<Seq<char>> {
    labels_upto(features, features.len() as int)
}

/// The polygons that the first `n` features list under `label`, in the
/// order of the features.
pub open spec fn polygons_upto(features: Seq<FeatureShape>, label: Seq<char>, n: int) -> Seq<
    PolygonShape,
>
    decreases n,
{
    if n <= 0 {
        Seq::empty()
    } else {
        let before = polygons_upto(features, label, n - 1);
        if features[n - 1].label == label {
            before + features[n - 1].polygons
        } else {
            before
        }
    }
}

/// All polygons that the features list under `label`.
pub open spec fn polygons_of(features: Seq<FeatureShape>, label: Seq<char>) -> Seq<PolygonShape> {
    polygons_upto(features, label, features.len() as int)
}

/// Whether the `i`-th feature lists a polygon under `label`.
pub open spec fn lists_under(features: Seq<FeatureShape>, label: Seq<char>, i: int) -> bool {
    0 <= i < features.len() && features[i].label == label && features[i].polygons.len() > 0
}

/// The labels of the regions are the labels, other than the unknown label,
/// under which a feature lists a polygon, and no label comes twice.
pub proof fn lemma_labels(features: Seq<FeatureShape>, n: int)
    requires
        0 <= n <= features.len(),
    ensures
        labels_upto(features, n).no_duplicates(),
        forall|label: Seq<char>| #[trigger]
            labels_upto(features, n).contains(label) <==> label != unknown_label() && exists|
                i: int,
            |
                i < n && #[trigger] lists_under(features, label, i),
    decreases n,
{
    if n > 0 {
        lemma_labels(features, n - 1);
        let before = labels_upto(features, n - 1);
        let now = labels_upto(features, n);
        let last = features[n - 1].label;
        assert forall|label: Seq<char>| #[trigger]
            now.contains(label) <==> label != unknown_label() && exists|i: int|
                i < n && #[trigger] lists_under(features, label, i) by {
            if now.contains(label) {
                if before.contains(label) {
                    let i = choose|i: int| i < n - 1 && #[trigger] lists_under(features, label, i);
                    assert(i < n && lists_under(features, label, i));
                } else {
                    let j = choose|j: int| 0 <= j < now.len() && now[j] == label;
                    assert(now == before.push(last));
                    if j < before.len() {
                        assert(before[j] == label);
                        assert(before.contains(label));
                    }
                    assert(label == last);
                    assert(lists_under(features, label, n - 1));
                }
            }
            if label != unknown_label() && exists|i: int|
                i < n && #[trigger] lists_under(features, label, i) {
                let i = choose|i: int| i < n && #[trigger] lists_under(features, label, i);
                if i < n - 1 {
                    assert(before.contains(label));
                    let j = choose|j: int| 0 <= j < before.len() && before[j] == label;
                    assert(now[j] == label);
                } else if !before.contains(label) {
                    assert(now == before.push(last));
                    assert(now[before.len() as int] == label);
                } else {
                    let j = choose|j: int| 0 <= j < before.len() && before[j] == label;
                    assert(now[j] == label);
                }
            }
        }
        if now != before {
            assert(now == before.push(last));
            assert forall|i: int, j: int| 0 <= i < now.len() && 0 <= j < now.len() && i != j implies now[i]
                != now[j] by {
                if i == before.len() {
                    assert(before.contains(now[j]) ==> now[j] != last);
                    assert(before[j] == now[j]);
                } else if j == before.len() {
                    assert(before[i] == now[i]);
                }
            }
        }
    }
}

/// Among the first `n` features, at least as many polygons are listed under
/// a label as one of them lists under it.
proof fn lemma_polygons_listed(features: Seq<FeatureShape>, label: Seq<char>, n: int, i: int)
    requires
        0 <= i < n <= features.len(),
        features[i].label == label,
    ensures
        polygons_upto(features, label, n).len() >= features[i].polygons.len(),
    decreases n,
{
    if i < n - 1 {
        lemma_polygons_listed(features, label, n - 1, i);
    }
}

/// Every region has a polygon: under each label of a region, at least one
/// polygon is listed.
pub proof fn lemma_regions_have_polygons(features: Seq<FeatureShape>, j: int)
    requires
        0 <= j < labels_of(features).len(),
    ensures
        polygons_of(features, labels_of(features)[j]).len() >= 1,
{
    let label = labels_of(features)[j];
    let n = features.len() as int;
    lemma_labels(features, n);
    assert(labels_upto(features, n).contains(label));
    let i = choose|i: int| i < n && #[trigger] lists_under(features, label, i);
    lemma_polygons_listed(features, label, n, i);
}

/// Whether the label is the one for features of unknown belonging.
pub fn is_unknown(label: &String) -> (b: bool)
    ensures
        b == (label@ == unknown_label()),
{
    let unknown: String = "-99".to_owned();
    *label == unknown
}

/// A copy of the polygon.
fn copy_polygon(polygon: &Polygon) -> (copy: Polygon)
    ensures
        copy@ == polygon@,
{
    let exterior = copy_ring(&polygon.exterior);
    let mut interiors: Vec<Vec<Point>> = Vec::new();
    let mut i: usize = 0;
    while i < polygon.interiors.len()
        invariant
            i <= polygon.interiors.len(),
            interiors.len() == i,
            forall|j: int| 0 <= j < i ==> (#[trigger] interiors[j])@ == polygon.interiors[j]@,
        decreases polygon.interiors.len() - i,
    {
        interiors.push(copy_ring(&polygon.interiors[i]));
        i = i + 1;
    }
    let copy = Polygon { exterior, interiors };
    assert(copy@.interiors =~= polygon@.interiors);
    copy
}

/// A copy of the ring.
fn copy_ring(ring: &Vec<Point>) -> (copy: Vec<Point>)
    ensures
        copy@ == ring@,
{
    let mut copy: Vec<Point> = Vec::new();
    let mut i: usize = 0;
    while i < ring.len()
        invariant
            i <= ring.len(),
            copy@ == ring@.take(i as int),
        decreases ring.len() - i,
    {
        copy.push(ring[i]);
        i = i + 1;
    }
    assert(ring@.take(ring.len() as int) == ring@);
    copy
}

/// The labels of the regions that the features make up.
fn region_labels(features: &Vec<Feature>) -> (labels: Vec<String>)
    ensures
        labels.len() == labels_of(feature_shapes(features@)).len(),
        forall|j: int|
            0 <= j < labels.len() ==> (#[trigger] labels[j])@ == labels_of(
                feature_shapes(features@),
            )[j],
{
    let ghost shapes = feature_shapes(features@);
    let mut labels: Vec<String> = Vec::new();
    let mut i: usize = 0;
    while i < features.len()
        invariant
            i <= features.len(),
            shapes == feature_shapes(features@),
            labels.len() == labels_upto(shapes, i as int).len(),
            forall|j: int|
                0 <= j < labels.len() ==> (#[trigger] labels[j])@ == labels_upto(shapes, i as int)[j],
        decreases features.len() - i,
    {
        let label = &features[i].label;
        let ghost before = labels_upto(shapes, i as int);
        assert(shapes[i as int] == features[i as int]@);
        if !is_unknown(label) && features[i].polygons.len() > 0 {
            let mut seen = false;
            let mut j: usize = 0;
            while j < labels.len()
                invariant
                    j <= labels.len(),
                    labels.len() == before.len(),
                    forall|k: int| 0 <= k < labels.len() ==> (#[trigger] labels[k])@ == before[k],
                    seen <==> exists|k: int| 0 <= k < j && before[k] == label@,
                decreases labels.len() - j,
            {
                if labels[j] == *label {
                    seen = true;
                }
                j = j + 1;
            }
            if !seen {
                labels.push(label.clone());
            }
        }
        i = i + 1;
    }
    labels
}

/// All polygons that the features list under the label, in the order of the
/// features.
fn region_polygons(features: &Vec<Feature>, label: &String) -> (polygons: Vec<Polygon>)
    ensures
        shapes_of(polygons@) == polygons_of(feature_shapes(features@), label@),
{
    let ghost shapes = feature_shapes(features@);
    let mut polygons: Vec<Polygon> = Vec::new();
    let mut i: usize = 0;
    assert(shapes_of(polygons@) =~= polygons_upto(shapes, label@, 0));
    while i < features.len()
        invariant
            i <= features.len(),
            shapes == feature_shapes(features@),
            shapes_of(polygons@) == polygons_upto(shapes, label@, i as int),
        decreases features.len() - i,
    {
        let feature = &features[i];
        assert(shapes[i as int] == feature@);
        if feature.label == *label {
            let ghost before = polygons@;
            let mut k: usize = 0;
            while k < feature.polygons.len()
                invariant
                    k <= feature.polygons.len(),
                    shapes_of(polygons@) == shapes_of(before) + shapes_of(
                        feature.polygons@,
                    ).take(k as int),
                decreases feature.polygons.len() - k,
            {
                let ghost old_shapes = shapes_of(polygons@);
                polygons.push(copy_polygon(&feature.polygons[k]));
                assert(shapes_of(polygons@) =~= old_shapes.push(feature.polygons[k as int]@));
                assert(shapes_of(feature.polygons@).take(k + 1) =~= shapes_of(
                    feature.polygons@,
                ).take(k as int).push(feature.polygons[k as int]@));
                k = k + 1;
                assert(shapes_of(polygons@) =~= shapes_of(before) + shapes_of(
                    feature.polygons@,
                ).take(k as int));
            }
            assert(shapes_of(feature.polygons@).take(feature.polygons.len() as int) == shapes_of(
                feature.polygons@,
            ));
        }
        i = i + 1;
    }
    polygons
}

/// Why the features of a map file make no collection: the polygons listed
/// under `label` are not valid.
#[derive(Clone, Debug, PartialEq, Eq)]
pub struct InvalidRegion {
    pub label: String,
}

/// Whether the polygons listed under the `j`-th label of the regions are
/// valid: whether `geo` finds each of them valid, and the outline that they
/// make together.
pub open spec fn listed_valid(features: Seq<FeatureShape>, j: int) -> bool {
    valid_grid(polygons_of(features, labels_of(features)[j]))
}

/// The collection of regions that the features of a map file make up.
///
/// There is one region for each label under which a feature lists a
/// polygon, the unknown label `-99` left out, in the order in which the
/// features first list a polygon under the labels. The outline of a region
/// consists of all polygons that the features list under its label, in the
/// order of the features; there is at least one.
///
/// Fails if the polygons listed under a label are not valid, and names the
/// first such label.
pub fn load_labeled_collection_polygons(features: &Vec<Feature>) -> (loaded: Result<
    Vec<Region<String>>,
    InvalidRegion,
>)
    ensures
        match loaded {
            Ok(regions) => {
                &&& regions.len() == labels_of(feature_shapes(features@)).len()
                &&& forall|j: int|
                    0 <= j < regions.len() ==> {
                        &&& (#[trigger] regions[j])@.label@ == labels_of(
                            feature_shapes(features@),
                        )[j]
                        &&& polygons_of(feature_shapes(features@), regions[j]@.label@).len() >= 1
                        &&& listed_valid(feature_shapes(features@), j)
                        &&& regions[j]@.outline == grid_outline(
                            polygons_of(feature_shapes(features@), regions[j]@.label@),
                        )
                    }
            },
            Err(refused) => exists|j: int|
                {
                    &&& 0 <= j < labels_of(feature_shapes(features@)).len()
                    &&& refused.label@ == labels_of(feature_shapes(features@))[j]
                    &&& !#[trigger] listed_valid(feature_shapes(features@), j)
                    &&& forall|k: int| 0 <= k < j ==> listed_valid(feature_shapes(features@), k)
                },
        },
{
    let ghost shapes = feature_shapes(features@);
    let labels = region_labels(features);
    let mut regions: Vec<Region<String>> = Vec::new();
    let mut j: usize = 0;
    while j < labels.len()
        invariant
            j <= labels.len(),
            regions.len() == j,
            shapes == feature_shapes(features@),
            labels.len() == labels_of(shapes).len(),
            forall|k: int| 0 <= k < labels.len() ==> (#[trigger] labels[k])@ == labels_of(shapes)[k],
            forall|k: int|
                0 <= k < j ==> {
                    &&& (#[trigger] regions[k])@.label@ == labels_of(shapes)[k]
                    &&& polygons_of(shapes, regions[k]@.label@).len() >= 1
                    &&& listed_valid(shapes, k)
                    &&& regions[k]@.outline == grid_outline(polygons_of(shapes, regions[k]@.label@))
                },
        decreases labels.len() - j,
    {
        proof {
            lemma_regions_have_polygons(shapes, j as int);
        }
        let polygons = region_polygons(features, &labels[j]);
        match Region::new(labels[j].clone(), &polygons) {
            Some(region) => {
                regions.push(region);
            },
            None => {
                let refused = InvalidRegion { label: labels[j].clone() };
                proof {
                    assert forall|k: int| 0 <= k < j implies listed_valid(shapes, k) by {
                        assert(regions[k]@.label@ == labels_of(shapes)[k]);
                    }
                    assert(refused.label@ == labels_of(shapes)[j as int]);
                    assert(!listed_valid(shapes, j as int));
                }
                return Err(refused);
            },
        }
        j = j + 1;
    }
    Ok(regions)
}

/// The character for a digit: `0` for 0 up to `9` for 9 and anything above.
pub open spec fn digit_char(d: nat) -> char {
    if d == 0 {
        '0'
    } else if d == 1 {
        '1'
    } else if d == 2 {
        '2'
    } else if d == 3 {
        '3'
    } else if d == 4 {
        '4'
    } else if d == 5 {
        '5'
    } else if d == 6 {
        '6'
    } else if d == 7 {
        '7'
    } else if d == 8 {
        '8'
    } else {
        '9'
    }
}

/// The number in decimal notation, without leading zeros.
pub open spec fn decimal(n: nat) -> Seq<char>
    decreases n,
{
    if n < 10 {
        seq![digit_char(n)]
    } else {
        decimal(n / 10).push(digit_char(n % 10))
    }
}

/// The name of the file that keeps the tree built for the regions labeled
/// by the property `label`, down to the depth limit `max_depth`.
pub open spec fn cache_name(label: Seq<char>, max_depth: nat) -> Seq<char> {
    label + "_label_tree_"@ + decimal(max_depth) + ".json"@
}

/// Whether the character is a decimal digit.
pub open spec fn is_digit(c: char) -> bool {
    c == '0' || c == '1' || c == '2' || c == '3' || c == '4' || c == '5' || c == '6' || c == '7'
        || c == '8' || c == '9'
}

/// The number that a sequence of decimal digits stands for.
pub open spec fn decimal_value(digits: Seq<char>) -> nat
    decreases digits.len(),
{
    if digits.len() == 0 {
        0
    } else {
        let last = digits.last();
        let units: nat = if last == '0' {
            0
        } else if last == '1' {
            1
        } else if last == '2' {
            2
        } else if last == '3' {
            3
        } else if last == '4' {
            4
        } else if last == '5' {
            5
        } else if last == '6' {
            6
        } else if last == '7' {
            7
        } else if last == '8' {
            8
        } else {
            9
        };
        10 * decimal_value(digits.drop_last()) + units
    }
}

/// Decimal notation is made of digits, at least one, and stands for the
/// number that it was made from.
pub proof fn lemma_decimal(n: nat)
    ensures
        decimal(n).len() >= 1,
        forall|i: int| 0 <= i < decimal(n).len() ==> is_digit(#[trigger] decimal(n)[i]),
        decimal_value(decimal(n)) == n,
    decreases n,
{
    if n < 10 {
        assert(decimal(n).drop_last() =~= Seq::<char>::empty());
        assert(decimal_value(decimal(n).drop_last()) == 0);
    } else {
        lemma_decimal(n / 10);
        assert(decimal(n).drop_last() =~= decimal(n / 10));
        assert(decimal(n).last() == digit_char(n % 10));
    }
}

/// Different settings never share a file: the name tells the label and the
/// depth limit that it was made from.
pub proof fn lemma_cache_names_differ(
    label: Seq<char>,
    max_depth: nat,
    other_label: Seq<char>,
    other_max_depth: nat,
)
    requires
        cache_name(label, max_depth) == cache_name(other_label, other_max_depth),
    ensures
        label == other_label,
        max_depth == other_max_depth,
{
    reveal_strlit("_label_tree_");
    reveal_strlit(".json");
    let sep = "_label_tree_"@;
    let ext = ".json"@;
    let d1 = decimal(max_depth);
    let d2 = decimal(other_max_depth);
    let s1 = cache_name(label, max_depth);
    let s2 = cache_name(other_label, other_max_depth);
    lemma_decimal(max_depth);
    lemma_decimal(other_max_depth);
    assert(sep.len() == 12 && sep[11] == '_');
    assert(ext.len() == 5);
    assert(s1.len() == label.len() + 12 + d1.len() + 5);
    assert(s2.len() == other_label.len() + 12 + d2.len() + 5);
    if d1.len() < d2.len() {
        let at: int = label.len() as int + 11;
        assert(s1[at] == sep[11]);
        assert(s2[at] == d2[at - other_label.len() - 12]);
        assert(false);
    }
    if d2.len() < d1.len() {
        let at: int = other_label.len() as int + 11;
        assert(s2[at] == sep[11]);
        assert(s1[at] == d1[at - label.len() - 12]);
        assert(false);
    }
    assert(label =~= other_label) by {
        assert forall|i: int| 0 <= i < label.len() implies label[i] == other_label[i] by {
            assert(s1[i] == label[i]);
            assert(s2[i] == other_label[i]);
        }
    }
    assert(d1 =~= d2) by {
        assert forall|i: int| 0 <= i < d1.len() implies d1[i] == d2[i] by {
            assert(s1[label.len() + 12 + i] == d1[i]);
            assert(s2[label.len() + 12 + i] == d2[i]);
        }
    }
}

/// The text of one digit.
fn digit_text(d: usize) -> (text: &'static str)
    requires
        d < 10,
    ensures
        text@ == seq![digit_char(d as nat)],
{
    proof {
        reveal_strlit("0");
        reveal_strlit("1");
        reveal_strlit("2");
        reveal_strlit("3");
        reveal_strlit("4");
        reveal_strlit("5");
        reveal_strlit("6");
        reveal_strlit("7");
        reveal_strlit("8");
        reveal_strlit("9");
    }
    let text = if d == 0 {
        "0"
    } else if d == 1 {
        "1"
    } else if d == 2 {
        "2"
    } else if d == 3 {
        "3"
    } else if d == 4 {
        "4"
    } else if d == 5 {
        "5"
    } else if d == 6 {
        "6"
    } else if d == 7 {
        "7"
    } else if d == 8 {
        "8"
    } else {
        "9"
    };
    assert(text@ =~= seq![digit_char(d as nat)]);
    text
}

/// The number in decimal notation.
fn decimal_text(n: usize) -> (text: String)
    ensures
        text@ == decimal(n as nat),
    decreases n,
{
    if n < 10 {
        digit_text(n).to_owned()
    } else {
        let mut text = decimal_text(n / 10);
        text.append(digit_text(n % 10));
        assert(text@ =~= decimal((n / 10) as nat).push(digit_char((n % 10) as nat)));
        text
    }
}

/// The name of the file that keeps the tree built for the regions labeled
/// by the property `label`, down to the depth limit `max_depth`: the label,
/// `_label_tree_`, the limit in decimal notation, and `.json`.
pub fn cache_file_name(label: &str, max_depth: usize) -> (name: String)
    ensures
        name@ == cache_name(label@, max_depth as nat),
{
    let mut name = label.to_owned();
    name.append("_label_tree_");
    let limit = decimal_text(max_depth);
    name.append(limit.as_str());
    name.append(".json");
    name
}

} // verus!
