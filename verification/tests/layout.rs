use unparser::doc::{is_balanced, BoxMode, BreakKind, Instr};
use unparser::error::Error;
use unparser::layout::{lay_out, render};

fn text(s: &str) -> Instr {
    Instr::Text(s.to_string())
}

fn group(mode: BoxMode) -> Vec<Instr> {
    vec![
        Instr::BeginBox(mode, 4),
        text("{"),
        Instr::Break(BreakKind::Zero),
        text("alpha"),
        text(","),
        Instr::Break(BreakKind::Space),
        text("beta"),
        text(","),
        Instr::Break(BreakKind::Space),
        text("gamma"),
        Instr::CommaBreak(BreakKind::Zero),
        Instr::Offset(-4),
        text("}"),
        Instr::EndBox,
    ]
}

#[test]
fn consistent_box_that_fits_stays_on_one_line() {
    assert_eq!(render(&group(BoxMode::Consistent), 20).unwrap(), "{alpha, beta, gamma}");
}

#[test]
fn consistent_box_that_does_not_fit_breaks_everywhere() {
    assert_eq!(
        render(&group(BoxMode::Consistent), 19).unwrap(),
        "{\n    alpha,\n    beta,\n    gamma,\n}"
    );
}

#[test]
fn inconsistent_box_fills_each_line() {
    assert_eq!(
        render(&group(BoxMode::Inconsistent), 16).unwrap(),
        "{alpha, beta,\n    gamma}"
    );
}

#[test]
fn hard_break_forces_the_box_open() {
    let doc = vec![
        Instr::BeginBox(BoxMode::Consistent, 2),
        text("a"),
        Instr::Break(BreakKind::Space),
        text("b"),
        Instr::Break(BreakKind::Hard),
        text("c"),
        Instr::EndBox,
    ];
    assert_eq!(render(&doc, 80).unwrap(), "a\n  b\n  c");
}

#[test]
fn never_break_stays_even_when_the_line_overflows() {
    let doc = vec![
        Instr::BeginBox(BoxMode::Consistent, 2),
        text("aaaa"),
        Instr::Break(BreakKind::Never),
        text("bbbb"),
        Instr::Break(BreakKind::Space),
        text("c"),
        Instr::EndBox,
    ];
    assert_eq!(render(&doc, 5).unwrap(), "aaaabbbb\n  c");
}

#[test]
fn blank_lines_carry_no_spaces() {
    let doc = vec![
        Instr::BeginBox(BoxMode::Consistent, 4),
        text("a"),
        Instr::Break(BreakKind::Hard),
        Instr::Break(BreakKind::Hard),
        text("b"),
        Instr::EndBox,
    ];
    assert_eq!(render(&doc, 80).unwrap(), "a\n\n    b");
}

#[test]
fn offset_moves_only_the_line_just_started() {
    let doc = vec![
        Instr::BeginBox(BoxMode::Consistent, 4),
        text("a"),
        Instr::Break(BreakKind::Hard),
        Instr::Offset(-2),
        text("b"),
        Instr::Break(BreakKind::Hard),
        text("c"),
        Instr::Offset(-2),
        Instr::EndBox,
    ];
    assert_eq!(render(&doc, 80).unwrap(), "a\n  b\n    c");
}

#[test]
fn unbalanced_streams_are_refused() {
    assert_eq!(render(&vec![Instr::EndBox], 10), Err(Error::Unbalanced));
    assert_eq!(
        render(&vec![Instr::BeginBox(BoxMode::Consistent, 0)], 10),
        Err(Error::Unbalanced)
    );
    let crossed = vec![Instr::EndBox, Instr::BeginBox(BoxMode::Consistent, 0)];
    assert!(!is_balanced(&crossed));
    assert_eq!(lay_out(&crossed, 10), "");
    assert!(is_balanced(&Vec::new()));
}

#[test]
fn top_level_breaks_are_decided_one_by_one() {
    let doc = vec![
        text("aaa"),
        Instr::Break(BreakKind::Space),
        text("bbb"),
        Instr::Break(BreakKind::Space),
        text("ccc"),
    ];
    assert_eq!(render(&doc, 7).unwrap(), "aaa bbb\nccc");
    assert_eq!(render(&doc, 11).unwrap(), "aaa bbb ccc");
    assert_eq!(render(&doc, 3).unwrap(), "aaa\nbbb\nccc");
}

#[test]
fn text_is_never_split() {
    let doc = vec![text("aaa"), text("bbb")];
    assert_eq!(render(&doc, 4).unwrap(), "aaabbb");
}

#[test]
fn width_counts_characters() {
    let doc = vec![
        Instr::BeginBox(BoxMode::Consistent, 0),
        text("é"),
        Instr::Break(BreakKind::Space),
        text("ü"),
        Instr::EndBox,
    ];
    assert_eq!(render(&doc, 3).unwrap(), "é ü");
    assert_eq!(render(&doc, 2).unwrap(), "é\nü");
}
