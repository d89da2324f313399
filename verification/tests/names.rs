use preprocess_cancellation::gcode::known_object::{escape_id, KnownObject};

#[test]
fn escape_keeps_letters_and_digits() {
    assert_eq!(escape_id("Cube1"), "Cube1");
}

#[test]
fn escape_joins_runs_of_other_characters() {
    assert_eq!(escape_id("Shape-Box (copy 2)"), "Shape_Box_copy_2");
    assert_eq!(escape_id("Würfel.stl"), "W_rfel_stl");
}

#[test]
fn escape_drops_separators_at_the_ends() {
    assert_eq!(escape_id("  __a__b__ "), "a_b");
    assert_eq!(escape_id(""), "");
    assert_eq!(escape_id("--"), "");
}

#[test]
fn escape_twice_is_escape_once() {
    for id in ["a b..c", "_x_", "part A.stl", "ü"] {
        let once = escape_id(id);
        assert_eq!(escape_id(&once), once);
    }
}

#[test]
fn known_object_collects_ranges_and_points() {
    let mut o = KnownObject::new("part A", 3..9, vec![1u32, 2]);
    o.union(12..20, vec![5]);
    assert_eq!(o.id(), "part_A");
    assert_eq!(o.ranges(), &[3..9, 12..20]);
    assert_eq!(o.points(), &[1, 2, 5]);
}
