use geo_coding::ingest::{classify, names_settlement, same_text, sorted_tree, ImportedNodes, Kind};

#[test]
fn a_point_without_a_name_is_not_filed() {
    assert_eq!(classify(&vec![]), None);
    assert_eq!(classify(&vec![("place", "city"), ("population", "5")]), None);
}

#[test]
fn the_english_name_is_preferred() {
    assert_eq!(
        classify(&vec![("name", "München"), ("name:en", "Munich")]),
        Some((Kind::Other, "Munich"))
    );
    assert_eq!(
        classify(&vec![("name:en", "Munich"), ("name", "München")]),
        Some((Kind::Other, "Munich"))
    );
    assert_eq!(
        classify(&vec![("name:de", "München"), ("name", "Monaco")]),
        Some((Kind::Other, "Monaco"))
    );
}

#[test]
fn the_last_of_several_names_is_kept() {
    assert_eq!(
        classify(&vec![("name", "one"), ("name", "two")]),
        Some((Kind::Other, "two"))
    );
    assert_eq!(
        classify(&vec![("name:en", "one"), ("name", "x"), ("name:en", "two")]),
        Some((Kind::Other, "two"))
    );
}

#[test]
fn the_place_tag_decides_the_kind() {
    for value in [
        "city",
        "town",
        "village",
        "hamlet",
        "isolated_dwelling",
        "farm",
        "allotments",
    ] {
        assert_eq!(
            classify(&vec![("place", value), ("name", "x")]),
            Some((Kind::Settlement, "x"))
        );
        assert!(names_settlement(value));
    }
    assert_eq!(
        classify(&vec![("name", "x"), ("place", "country")]),
        Some((Kind::Country, "x"))
    );
    assert_eq!(
        classify(&vec![("name", "x"), ("place", "island")]),
        Some((Kind::Other, "x"))
    );
    assert!(!names_settlement("country"));
    assert!(!names_settlement("City"));
}

#[test]
fn a_later_place_tag_overrides_an_earlier_one() {
    assert_eq!(
        classify(&vec![("place", "city"), ("name", "x"), ("place", "country")]),
        Some((Kind::Country, "x"))
    );
    assert_eq!(
        classify(&vec![("place", "country"), ("place", "farm"), ("name", "x")]),
        Some((Kind::Settlement, "x"))
    );
    assert_eq!(
        classify(&vec![("place", "country"), ("place", "sea"), ("name", "x")]),
        Some((Kind::Country, "x"))
    );
}

#[test]
fn texts_are_compared_byte_for_byte() {
    assert!(same_text("", ""));
    assert!(same_text("name", "name"));
    assert!(!same_text("name", "name:en"));
    assert!(!same_text("name:en", "name"));
    assert!(!same_text("Name", "name"));
    assert!(same_text("Köln", "Köln"));
}

fn point(x: i64, y: i64, name: &str) -> ([i64; 2], String) {
    ([x, y], name.to_string())
}

#[test]
fn the_tree_does_not_depend_on_the_order_of_the_list() {
    let one = sorted_tree(vec![point(0, 1, "b"), point(0, 0, "a"), point(0, 0, "A")]);
    let other = sorted_tree(vec![point(0, 0, "A"), point(0, 1, "b"), point(0, 0, "a")]);
    assert_eq!(one, other);
    // Two points that no axis tells apart.
    let pair = sorted_tree(vec![point(5, 5, "b"), point(5, 5, "a")]);
    assert_eq!(pair, sorted_tree(vec![point(5, 5, "a"), point(5, 5, "b")]));
    let many: Vec<([i64; 2], String)> = (0..50).map(|i| point(i % 3, i % 5, "x")).collect();
    let mut turned = many.clone();
    turned.reverse();
    assert_eq!(sorted_tree(many), sorted_tree(turned));
}

#[test]
fn points_are_filed_in_three_trees() {
    let imported = ImportedNodes::from_points(
        vec![point(1, 1, "well"), point(2, 2, "peak")],
        vec![point(3, 3, "town")],
        vec![],
    );
    assert_eq!(imported.other.len(), 2);
    assert_eq!(imported.settlements.len(), 1);
    assert!(imported.countries.is_empty());
    assert_eq!(imported.settlements.iter(), vec![(&[3, 3], &"town".to_string())]);
}
