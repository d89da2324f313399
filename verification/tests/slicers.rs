use preprocess_cancellation::gcode::lines::split_lines;
use preprocess_cancellation::gcode::parser::extrude_move;
use preprocess_cancellation::{Error, Patch, Slicer};

/// The point of each line: its index, when the line extrudes.
fn points(lines: &[String]) -> Vec<Option<usize>> {
    let mut out = Vec::new();
    for (i, line) in lines.iter().enumerate() {
        match extrude_move(line) {
            Some(m) if !(m.e.parse::<f32>().unwrap() < 0.0) => out.push(Some(i)),
            _ => out.push(None),
        }
    }
    out
}

/// Scans `src` as `slicer`'s G-code and finishes the patch, each object described by
/// the lines at which it was extruded.
fn patch_for(slicer: Slicer, src: &str) -> Result<Patch, Error> {
    let lines = split_lines(src);
    let pts = points(&lines);
    let scan = slicer.format_patch(&lines, &pts)?;
    let descriptions = scan
        .tracker
        .objects()
        .iter()
        .map(|o| format!("AT={:?}", o.points()))
        .collect();
    scan.finish(descriptions)
}

fn rewrite(slicer: Slicer, src: &str) -> String {
    let patch = patch_for(slicer, src).expect("a patch");
    assert!(patch.is_in_order(src.len()));
    String::from_utf8(patch.apply(src.as_bytes()).expect("to apply")).expect("to utf8")
}

#[test]
fn slic3r_marks_objects() {
    let src = "; generated by PrusaSlicer 2.5.0\n\
               G28\n\
               ; printing object cube id:0 copy 0\n\
               G1 X10 Y10 E1\n\
               G1 X12 Y10 E-1\n\
               ; stop printing object cube id:0 copy 0\n\
               ; printing object ball\n\
               G1 X20 Y20 E1\n\
               ; stop printing object ball\n";
    assert_eq!(
        rewrite(Slicer::Slic3r, src),
        "; generated by PrusaSlicer 2.5.0\n\
         G28\n\
         EXCLUDE_OBJECT_DEFINE NAME=ball AT=[7]\n\
         EXCLUDE_OBJECT_DEFINE NAME=cube_id_0_copy_0 AT=[3]\n\
         ; printing object cube id:0 copy 0\n\
         EXCLUDE_OBJECT_START NAME=cube_id_0_copy_0\n\
         G1 X10 Y10 E1\n\
         G1 X12 Y10 E-1\n\
         ; stop printing object cube id:0 copy 0\n\
         EXCLUDE_OBJECT_END NAME=cube_id_0_copy_0\n\
         ; printing object ball\n\
         EXCLUDE_OBJECT_START NAME=ball\n\
         G1 X20 Y20 E1\n\
         ; stop printing object ball\n\
         EXCLUDE_OBJECT_END NAME=ball\n"
    );
}

#[test]
fn cura_marks_objects() {
    let src = ";FLAVOR:Marlin\n\
               ;Generated with Cura_SteamEngine 5.0\n\
               G28\n\
               ;MESH:part A.stl\n\
               G1 X1 Y1 E1\n\
               ;MESH:NONMESH\n\
               G1 X2 Y2 E2\n\
               ;MESH:part B.stl\n\
               G1 X3 Y3 E3\n\
               ;TIME_ELAPSED:100.0\n\
               ;MESH:part A.stl\n\
               G1 X4 Y4 E4\n\
               ;TIME_ELAPSED:200.0\n";
    assert_eq!(
        rewrite(Slicer::Cura, src),
        ";FLAVOR:Marlin\n\
         ;Generated with Cura_SteamEngine 5.0\n\
         G28\n\
         EXCLUDE_OBJECT_DEFINE NAME=part_A_stl AT=[4, 11]\n\
         EXCLUDE_OBJECT_DEFINE NAME=part_B_stl AT=[8]\n\
         ;MESH:part A.stl\n\
         EXCLUDE_OBJECT_START NAME=part_A_stl\n\
         G1 X1 Y1 E1\n\
         ;MESH:NONMESH\n\
         EXCLUDE_OBJECT_END NAME=part_A_stl\n\
         G1 X2 Y2 E2\n\
         ;MESH:part B.stl\n\
         EXCLUDE_OBJECT_START NAME=part_B_stl\n\
         G1 X3 Y3 E3\n\
         ;TIME_ELAPSED:100.0\n\
         EXCLUDE_OBJECT_END NAME=part_B_stl\n\
         ;MESH:part A.stl\n\
         EXCLUDE_OBJECT_START NAME=part_A_stl\n\
         G1 X4 Y4 E4\n\
         ;TIME_ELAPSED:200.0\n\
         EXCLUDE_OBJECT_END NAME=part_A_stl\n"
    );
}

#[test]
fn ideamaker_marks_objects() {
    let src = ";Sliced by ideaMaker 4.2.1\n\
               G28\n\
               ;PRINTING: Cube\n\
               ;PRINTING_ID: 0\n\
               G1 X1 Y1 E1\n\
               ;PRINTING: Support\n\
               ;PRINTING_ID: -1\n\
               G1 X2 Y2 E1\n\
               ;PRINTING: Ring\n\
               ;PRINTING_ID: 1\n\
               G1 X3 Y3 E1\n\
               ;REMAINING_TIME: 0\n";
    assert_eq!(
        rewrite(Slicer::IdeaMaker, src),
        ";Sliced by ideaMaker 4.2.1\n\
         G28\n\
         EXCLUDE_OBJECT_DEFINE NAME=Cube AT=[4]\n\
         EXCLUDE_OBJECT_DEFINE NAME=Ring AT=[10]\n\
         ;PRINTING: Cube\n\
         EXCLUDE_OBJECT_START NAME=Cube\n\
         ;PRINTING_ID: 0\n\
         G1 X1 Y1 E1\n\
         ;PRINTING: Support\n\
         EXCLUDE_OBJECT_END NAME=Cube\n\
         ;PRINTING_ID: -1\n\
         G1 X2 Y2 E1\n\
         ;PRINTING: Ring\n\
         EXCLUDE_OBJECT_START NAME=Ring\n\
         ;PRINTING_ID: 1\n\
         G1 X3 Y3 E1\n\
         ;REMAINING_TIME: 0\n\
         EXCLUDE_OBJECT_END NAME=Ring\n"
    );
}

#[test]
fn m486_marks_objects() {
    let src = "; M486 test\n\
               G28\n\
               G1 Z0.2\n\
               M486 T2\n\
               M486 S0\n\
               G1 X1 Y1 E1\n\
               M486 S1\n\
               G1 X2 Y2 E1\n\
               M486 S0\n\
               G1 X3 Y3 E1\n";
    assert_eq!(
        rewrite(Slicer::M486, src),
        "; M486 test\n\
         G28\n\
         EXCLUDE_OBJECT_DEFINE NAME=0 AT=[5, 9]\n\
         EXCLUDE_OBJECT_DEFINE NAME=1 AT=[7]\n\
         G1 Z0.2\n\
         ; M486 T2\n\
         ; M486 S0\n\
         EXCLUDE_OBJECT_START NAME=0\n\
         G1 X1 Y1 E1\n\
         ; M486 S1\n\
         EXCLUDE_OBJECT_END NAME=0\n\
         EXCLUDE_OBJECT_START NAME=1\n\
         G1 X2 Y2 E1\n\
         ; M486 S0\n\
         EXCLUDE_OBJECT_END NAME=1\n\
         EXCLUDE_OBJECT_START NAME=0\n\
         G1 X3 Y3 E1\n\
         EXCLUDE_OBJECT_END NAME=0\n"
    );
}

#[test]
fn m486_edits_only_the_command_lines() {
    let src = "G28\nM486 S3\nG1 X1 Y1 E1\n";
    let lines = split_lines(src);
    let pts = points(&lines);
    let scan = Slicer::M486.format_patch(&lines, &pts).ok().expect("a scan");
    assert_eq!(scan.header_pos, 4);
    assert!(scan.patch.is_in_order(src.len()));
    let edited = String::from_utf8(scan.patch.apply(src.as_bytes()).expect("to apply")).unwrap();
    assert_eq!(edited, "G28\n; M486 S3\nG1 X1 Y1 E1\n");
}

#[test]
fn marked_file_is_refused_by_every_slicer() {
    let src = "EXCLUDE_OBJECT_DEFINE NAME=a\n; printing object a\nG1 X1 Y1 E1\n";
    for slicer in [Slicer::Cura, Slicer::Slic3r, Slicer::IdeaMaker, Slicer::M486] {
        assert!(matches!(patch_for(slicer, src), Err(Error::AlreadySupported)));
    }
}

#[test]
fn slic3r_refuses_nested_objects() {
    let src = "; printing object a\nG1 X1 Y1 E1\n; printing object b\n";
    match patch_for(Slicer::Slic3r, src) {
        Err(Error::UnclosedObject(id)) => assert_eq!(id, "a"),
        other => panic!("unexpected: {:?}", other.map(|_| ())),
    }
}

#[test]
fn unclosed_object_at_the_end_is_refused() {
    let src = "; printing object a\nG1 X1 Y1 E1\n";
    match patch_for(Slicer::Slic3r, src) {
        Err(Error::UnclosedObject(id)) => assert_eq!(id, "a"),
        other => panic!("unexpected: {:?}", other.map(|_| ())),
    }
}

#[test]
fn ideamaker_needs_the_id_line() {
    let src = ";PRINTING: Cube\nG1 X1 Y1 E1\n";
    assert!(matches!(patch_for(Slicer::IdeaMaker, src), Err(Error::Parse(_))));
}

#[test]
fn object_without_extrusion_is_dropped() {
    let src = "G28\n; printing object empty\nG1 X1 Y1 E-1\n; stop printing object empty\n";
    let patch = patch_for(Slicer::Slic3r, src).expect("a patch");
    assert!(patch.is_in_order(src.len()));
    assert_eq!(patch.apply(src.as_bytes()).expect("to apply"), src.as_bytes());
}

#[test]
fn infer_reads_the_leading_comments() {
    let cases = [
        ("; generated by PrusaSlicer 2.5.0\n", Slicer::Slic3r),
        ("\n\n; generated by SuperSlicer\n", Slicer::Slic3r),
        ("; generated by Slic3r 1.3\n", Slicer::Slic3r),
        (";FLAVOR:Marlin\n;Generated with Cura_SteamEngine 5.0\n", Slicer::Cura),
        (";Sliced by ideaMaker 4.2.1\n", Slicer::IdeaMaker),
    ];
    for (src, slicer) in cases {
        assert_eq!(Slicer::infer(&split_lines(src)).ok(), Some(slicer));
    }
}

#[test]
fn infer_stops_at_the_first_code_line() {
    for src in ["G28\n; generated by PrusaSlicer\n", "", "; no slicer here\n"] {
        match Slicer::infer(&split_lines(src)) {
            Err(Error::Parse(m)) => assert_eq!(m, "Unknown slicer"),
            other => panic!("unexpected: {:?}", other),
        }
    }
}

#[test]
fn m486_definitions_on_a_command_line_do_not_apply() {
    // The definitions go after the first line, where the `M486` line that follows is
    // replaced: applying the patch would have to copy backwards.
    let src = "G28\nM486 S0\nG1 X1 Y1 E1\n";
    let patch = patch_for(Slicer::M486, src).expect("a patch");
    assert!(!patch.is_in_order(src.len()));
}

#[test]
fn removing_the_inserted_lines_gives_the_file_back() {
    let src = "; generated by PrusaSlicer 2.5.0\n\
               G28\n\
               ; printing object a\n\
               G1 X1 Y1 E1\n\
               ; stop printing object a\n\
               ; printing object b\n\
               G1 X2 Y2 E1\n\
               ; stop printing object b\n";
    let out = rewrite(Slicer::Slic3r, src);
    let kept: String = out
        .split_inclusive('\n')
        .filter(|l| !l.starts_with("EXCLUDE_OBJECT_"))
        .collect();
    assert_eq!(kept, src);
    let mut open = None;
    for line in out.lines() {
        if let Some(n) = line.strip_prefix("EXCLUDE_OBJECT_START NAME=") {
            assert!(open.is_none());
            open = Some(n.to_string());
        } else if let Some(n) = line.strip_prefix("EXCLUDE_OBJECT_END NAME=") {
            assert_eq!(open.take().as_deref(), Some(n));
        }
    }
    assert!(open.is_none());
}

#[test]
fn m486_definitions_clear_of_command_starts_apply() {
    let src = "G28\nG1 Z0.2\nM486 S0\nG1 X1 Y1 E1\nM486 S1\nG1 X2 Y2 E1\n";
    let patch = patch_for(Slicer::M486, src).expect("a patch");
    assert!(patch.is_in_order(src.len()));
}
