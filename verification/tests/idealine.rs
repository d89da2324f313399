use preprocess_cancellation::gcode::lines::split_lines;
use preprocess_cancellation::{Error, Slicer};
use winnow::ascii::{newline, space0};
use winnow::combinator::{delimited, opt, preceded};
use winnow::error::{ParseError, TreeError};
use winnow::stream::AsChar;
use winnow::token::{rest, take_till};
use winnow::Parser;

/// How winnow reports the failed read of `line` as `; PRINTING_ID: <id>`.
fn winnow_report(line: &str) -> String {
    let result: Result<&str, ParseError<&str, TreeError<&str>>> = delimited(
        delimited(space0, ';', space0),
        take_till(0.., AsChar::is_newline)
            .map(|s: &str| s.trim())
            .and_then(preceded("PRINTING_ID:", delimited(space0, rest, space0))),
        opt(newline),
    )
    .parse(line);
    format!("{:?}", result.unwrap_err())
}

/// The error that the ideaMaker scan reports when `line` follows `;PRINTING: A`.
fn scan_report(line: &str) -> String {
    let mut lines = split_lines(";PRINTING: A\n");
    if !line.is_empty() {
        lines.push(line.to_string());
    }
    let points: Vec<Option<u32>> = vec![None; lines.len()];
    match Slicer::IdeaMaker.format_patch(&lines, &points) {
        Err(Error::Parse(message)) => message,
        _ => panic!("expected a parse error"),
    }
}

#[test]
fn missing_id_reports_like_the_parser() {
    for line in [
        "G1 X1 Y1 E1\n",
        "",
        "  \t\"quoted\" ü\n",
        "; PRINTING: B\n",
        ";  Tëxt\r\n",
        "; PRINTING_ID: 3\nextra",
        "\t;\tPRINTING_IDS\n",
    ] {
        assert_eq!(scan_report(line), winnow_report(line), "line {:?}", line);
    }
}

#[test]
fn missing_id_report_text() {
    assert_eq!(
        scan_report("G28\n"),
        "ParseError { input: \"G28\\n\", offset: 0, inner: Base(TreeErrorBase { input: \"G28\\n\", kind: Tag, cause: None }) }"
    );
}
