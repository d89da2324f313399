use preprocess_cancellation::gcode::lines::split_lines;
use preprocess_cancellation::gcode::object_tracker::{last_comment, ObjectTracker};
use preprocess_cancellation::{Error, Patch};

#[test]
fn tracker_records_closed_objects() {
    let mut t = ObjectTracker::<u32>::new();
    t.start("a b".to_string(), 10).unwrap();
    t.extrude(Some(1));
    t.extrude(None);
    t.extrude(Some(2));
    t.end(20);
    t.start("a b".to_string(), 30).unwrap();
    t.extrude(Some(3));
    t.end(40);
    let objects = t.objects();
    assert_eq!(objects.len(), 1);
    assert_eq!(objects[0].id(), "a_b");
    assert_eq!(objects[0].ranges(), &[10..20, 30..40]);
    assert_eq!(objects[0].points(), &[1, 2, 3]);
}

#[test]
fn tracker_ignores_what_no_object_owns() {
    let mut t = ObjectTracker::<u32>::new();
    t.extrude(Some(1));
    t.end(5);
    t.start("a".to_string(), 10).unwrap();
    t.extrude(None);
    t.end(20);
    assert!(t.objects().is_empty());
}

#[test]
fn tracker_refuses_a_second_open_object() {
    let mut t = ObjectTracker::<u32>::new();
    t.start("a".to_string(), 0).unwrap();
    match t.start("b".to_string(), 5) {
        Err(Error::UnclosedObject(id)) => assert_eq!(id, "a"),
        other => panic!("unexpected: {:?}", other),
    }
}

#[test]
fn tracker_patch_defines_by_name_and_marks_by_start() {
    let mut t = ObjectTracker::<u32>::new();
    t.start("zeta".to_string(), 2).unwrap();
    t.extrude(Some(0));
    t.end(4);
    t.start("alpha".to_string(), 6).unwrap();
    t.extrude(Some(0));
    t.end(8);
    let patch = t.into_patch(1, vec!["Z".to_string(), "A".to_string()]).unwrap();
    let src = "0123456789";
    assert!(patch.is_in_order(src.len()));
    let out = String::from_utf8(patch.apply(src.as_bytes()).unwrap()).unwrap();
    assert_eq!(
        out,
        "0EXCLUDE_OBJECT_DEFINE NAME=alpha A\n\
         EXCLUDE_OBJECT_DEFINE NAME=zeta Z\n\
         1EXCLUDE_OBJECT_START NAME=zeta\n\
         23EXCLUDE_OBJECT_END NAME=zeta\n\
         45EXCLUDE_OBJECT_START NAME=alpha\n\
         67EXCLUDE_OBJECT_END NAME=alpha\n\
         89"
    );
}

#[test]
fn tracker_patch_refused_while_open() {
    let mut t = ObjectTracker::<u32>::new();
    t.start("a".to_string(), 0).unwrap();
    let mut patch = Patch::new();
    patch.insert(0, "kept");
    match t.format_patch(&mut patch, 0, vec![]) {
        Err(Error::UnclosedObject(id)) => assert_eq!(id, "a"),
        other => panic!("unexpected: {:?}", other),
    }
    assert_eq!(patch.apply(b"").unwrap(), b"kept");
}

#[test]
fn header_goes_after_the_first_code_line() {
    assert_eq!(last_comment(&split_lines("; a\n; b\nG28\nG1\n")), 12);
    assert_eq!(last_comment(&split_lines("G28\n; a\n")), 4);
    assert_eq!(last_comment(&split_lines("; a\n\n; b\n")), 5);
    assert_eq!(last_comment(&split_lines("; only\n; comments")), 17);
    assert_eq!(last_comment(&split_lines("")), 0);
}

#[test]
fn lines_keep_their_line_feeds() {
    assert_eq!(split_lines("a\nb\n\nc"), vec!["a\n", "b\n", "\n", "c"]);
    assert_eq!(split_lines("a\n"), vec!["a\n"]);
    assert!(split_lines("").is_empty());
}

#[test]
fn closing_twice_is_closing_once() {
    let mut t = ObjectTracker::<u32>::new();
    t.start("a".to_string(), 10).unwrap();
    t.extrude(Some(1));
    t.end(20);
    t.end(30);
    assert_eq!(t.objects().len(), 1);
    assert_eq!(t.objects()[0].ranges(), &[10..20]);
}
