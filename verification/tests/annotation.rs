use imgcrop::annotation::{accepts, has_label, sort_by_name, Annotation, Bndbox, Object};

fn bndbox(xmin: u32, ymin: u32, xmax: u32, ymax: u32) -> Bndbox {
    Bndbox { xmin, ymin, xmax, ymax }
}

fn object(name: &str, n: u32) -> Object {
    Object { name: name.to_string(), bndbox: bndbox(n, n, n + 10, n + 20) }
}

fn annotation(objects: Option<Vec<Object>>) -> Annotation {
    Annotation { folder: "imgs".to_string(), filename: "a.png".to_string(), objects }
}

fn labels(names: &[&str]) -> Option<Vec<String>> {
    Some(names.iter().map(|n| n.to_string()).collect())
}

#[test]
fn bndbox_sides() {
    let b = bndbox(55, 145, 150, 220);
    assert_eq!(b.width(), 95);
    assert_eq!(b.height(), 75);
    assert!(!b.is_empty());
    assert!(b.is_ordered());
}

#[test]
fn bndbox_without_area_is_empty() {
    assert!(bndbox(5, 7, 5, 9).is_empty());
    assert!(bndbox(5, 7, 8, 7).is_empty());
    assert!(bndbox(0, 0, 0, 0).is_empty());
    assert_eq!(bndbox(5, 7, 5, 9).width(), 0);
    assert_eq!(bndbox(0, 0, u32::MAX, u32::MAX).width(), u32::MAX);
}

#[test]
fn bndbox_with_corners_out_of_order() {
    assert!(!bndbox(10, 0, 5, 5).is_ordered());
    assert!(!bndbox(0, 10, 5, 5).is_ordered());
}

#[test]
fn filter_without_labels_keeps_everything() {
    let a = annotation(Some(vec![object("b", 1), object("a", 2)]));
    let kept = a.with_filtered_objects(&None).unwrap();
    assert_eq!(kept, annotation(Some(vec![object("b", 1), object("a", 2)])));
}

#[test]
fn filter_keeps_exactly_the_listed_labels_in_order() {
    let a = annotation(Some(vec![object("b", 1), object("a", 2), object("c", 3), object("a", 4), object("B", 5)]));
    let kept = a.with_filtered_objects(&labels(&["a", "b", "zzz"])).unwrap();
    assert_eq!(kept.folder, "imgs");
    assert_eq!(kept.filename, "a.png");
    assert_eq!(kept.objects, Some(vec![object("b", 1), object("a", 2), object("a", 4)]));
}

#[test]
fn filter_that_leaves_nothing_drops_the_annotation() {
    assert_eq!(annotation(Some(vec![object("b", 1)])).with_filtered_objects(&labels(&["a"])), None);
    assert_eq!(annotation(Some(vec![object("b", 1)])).with_filtered_objects(&labels(&[])), None);
    assert_eq!(annotation(Some(vec![object("ab", 1)])).with_filtered_objects(&labels(&["a", "b"])), None);
    assert_eq!(annotation(Some(vec![])).with_filtered_objects(&None), None);
    assert_eq!(annotation(None).with_filtered_objects(&None), None);
    assert_eq!(annotation(None).with_filtered_objects(&labels(&["a"])), None);
}

#[test]
fn labels_are_matched_whole() {
    let list = vec!["FOO".to_string(), "bar".to_string()];
    assert!(has_label(&list, &"FOO".to_string()));
    assert!(has_label(&list, &"bar".to_string()));
    assert!(!has_label(&list, &"foo".to_string()));
    assert!(!has_label(&list, &"FO".to_string()));
    assert!(!has_label(&list, &"".to_string()));
    assert!(accepts(&None, &"anything".to_string()));
    assert!(accepts(&Some(list.clone()), &"bar".to_string()));
    assert!(!accepts(&Some(list), &"baz".to_string()));
}

#[test]
fn sorting_is_by_code_point_and_stable() {
    let sorted = sort_by_name(vec![
        object("b", 1),
        object("", 2),
        object("a", 3),
        object("Z", 4),
        object("ab", 5),
        object("a", 6),
        object("é", 7),
        object("z", 8),
        object("a", 9),
    ]);
    let got: Vec<(&str, u32)> = sorted.iter().map(|o| (o.name.as_str(), o.bndbox.xmin)).collect();
    assert_eq!(
        got,
        vec![("", 2), ("Z", 4), ("a", 3), ("a", 6), ("a", 9), ("ab", 5), ("b", 1), ("z", 8), ("é", 7)]
    );
}

#[test]
fn sorting_agrees_with_the_order_of_strings() {
    let names = ["delta", "Alpha", "alpha", "beta", "", "alpha ", "~", "0", "ß", "日本", "a\u{10000}", "a\u{ffff}"];
    let sorted = sort_by_name(names.iter().enumerate().map(|(i, n)| object(n, i as u32)).collect());
    let got: Vec<String> = sorted.into_iter().map(|o| o.name).collect();
    let mut expected: Vec<String> = names.iter().map(|n| n.to_string()).collect();
    expected.sort();
    assert_eq!(got, expected);
}

#[test]
fn duplicate_is_equal() {
    let o = object("x", 3);
    assert_eq!(o.duplicate(), o);
}
