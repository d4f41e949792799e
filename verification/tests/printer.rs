use unparser::doc::{is_balanced, BoxMode, BreakKind, Instr};
use unparser::item::{receiver_elides_type, type_is_self, use_ends_in_group};
use unparser::layout::{keeps_width, lay_out, render};
use unparser::printer::{Printer, INDENT};
use unparser::tree::{Receiver, Type, UseTree};

fn text(s: &str) -> Instr {
    Instr::Text(s.to_string())
}

#[test]
fn indentation_of_a_body_is_four() {
    assert_eq!(INDENT, 4);
}

#[test]
fn printer_collects_what_it_is_told() {
    let mut p = Printer::new();
    assert_eq!(p.instructions().len(), 0);
    p.cbox(4);
    p.word("a");
    p.ident(&"b".to_string());
    p.space();
    p.zerobreak();
    p.hardbreak();
    p.neverbreak();
    p.nbsp();
    p.offset(-4);
    p.ibox(0);
    p.end();
    p.end();
    assert_eq!(
        p.instructions(),
        &vec![
            Instr::BeginBox(BoxMode::Consistent, 4),
            text("a"),
            text("b"),
            Instr::Break(BreakKind::Space),
            Instr::Break(BreakKind::Zero),
            Instr::Break(BreakKind::Hard),
            Instr::Break(BreakKind::Never),
            text(" "),
            Instr::Offset(-4),
            Instr::BeginBox(BoxMode::Inconsistent, 0),
            Instr::EndBox,
            Instr::EndBox,
        ]
    );
    assert!(is_balanced(p.instructions()));
}

#[test]
fn trailing_comma_depends_on_the_place_in_the_list() {
    let mut p = Printer::new();
    p.trailing_comma(false);
    p.trailing_comma(true);
    p.trailing_comma_or_space(false);
    p.trailing_comma_or_space(true);
    assert_eq!(
        p.instructions(),
        &vec![
            text(","),
            Instr::Break(BreakKind::Space),
            Instr::CommaBreak(BreakKind::Zero),
            text(","),
            Instr::Break(BreakKind::Space),
            Instr::CommaBreak(BreakKind::Space),
        ]
    );
}

#[test]
fn printer_lays_out_what_it_collected() {
    let mut p = Printer::new();
    p.cbox(INDENT);
    p.word("{");
    p.space();
    p.word("a");
    p.trailing_comma_or_space(true);
    p.offset(-INDENT);
    p.word("}");
    p.end();
    let doc: Vec<Instr> = vec![
        Instr::BeginBox(BoxMode::Consistent, 4),
        text("{"),
        Instr::Break(BreakKind::Space),
        text("a"),
        Instr::CommaBreak(BreakKind::Space),
        Instr::Offset(-4),
        text("}"),
        Instr::EndBox,
    ];
    assert_eq!(p.instructions(), &doc);
    assert_eq!(render(&doc, 5).unwrap(), "{ a }");
    assert_eq!(render(&doc, 4).unwrap(), "{\n    a,\n}");
    assert_eq!(p.eof(4), "{\n    a,\n}");
}

fn widest_line(s: &str) -> usize {
    s.split('\n').map(|line| line.chars().count()).max().unwrap_or(0)
}

fn list(mode: BoxMode, words: &[&str]) -> Vec<Instr> {
    let mut doc = vec![Instr::BeginBox(mode, 2), text("[")];
    doc.push(Instr::Break(BreakKind::Zero));
    for (i, w) in words.iter().enumerate() {
        doc.push(Instr::BeginBox(BoxMode::Inconsistent, 2));
        doc.push(text(w));
        doc.push(Instr::Break(BreakKind::Space));
        doc.push(text("x"));
        doc.push(Instr::EndBox);
        if i + 1 < words.len() {
            doc.push(Instr::Break(BreakKind::Space));
        }
    }
    doc.push(Instr::Break(BreakKind::Zero));
    doc.push(Instr::Offset(-2));
    doc.push(text("]"));
    doc.push(Instr::EndBox);
    doc
}

#[test]
fn lines_stay_within_the_width_where_every_word_has_room() {
    let words = ["alpha", "beta", "gamma", "delta", "epsilon"];
    for mode in [BoxMode::Consistent, BoxMode::Inconsistent] {
        let doc = list(mode, &words);
        for width in 11..60 {
            let out = render(&doc, width).unwrap();
            assert!(widest_line(&out) <= width as usize, "{} > {}:\n{}", widest_line(&out), width, out);
        }
    }
}

#[test]
fn a_word_without_room_passes_the_width() {
    let doc = list(BoxMode::Consistent, &["alphabetical"]);
    assert_eq!(render(&doc, 8).unwrap(), "[\n  alphabetical\n    x\n]");
}

#[test]
fn a_box_is_flat_exactly_when_its_content_fits() {
    let doc = list(BoxMode::Consistent, &["ab", "cd"]);
    assert_eq!(render(&doc, 11).unwrap(), "[ab x cd x]");
    assert_eq!(render(&doc, 10).unwrap(), "[\n  ab x\n  cd x\n]");
    assert_eq!(render(&doc, 5).unwrap(), "[\n  ab\n    x\n  cd\n    x\n]");
}

#[test]
fn text_behind_a_box_is_not_counted_with_it() {
    let doc = vec![
        Instr::BeginBox(BoxMode::Consistent, 0),
        text("aaaaa"),
        Instr::Break(BreakKind::Space),
        text("bbbb"),
        Instr::EndBox,
        text("ccc"),
    ];
    assert_eq!(render(&doc, 10).unwrap(), "aaaaa bbbbccc");
    assert_eq!(render(&doc, 9).unwrap(), "aaaaa\nbbbbccc");
}

#[test]
fn indentation_never_goes_below_zero() {
    let doc = vec![
        Instr::BeginBox(BoxMode::Consistent, -4),
        text("a"),
        Instr::Break(BreakKind::Hard),
        text("b"),
        Instr::Break(BreakKind::Hard),
        Instr::Offset(-9),
        text("c"),
        Instr::EndBox,
    ];
    assert_eq!(render(&doc, 10).unwrap(), "a\nb\nc");
}

#[test]
fn nested_boxes_add_up_their_indentation_and_give_it_back() {
    let doc = vec![
        Instr::BeginBox(BoxMode::Consistent, 2),
        text("a"),
        Instr::Break(BreakKind::Hard),
        Instr::BeginBox(BoxMode::Consistent, 3),
        text("b"),
        Instr::Break(BreakKind::Hard),
        text("c"),
        Instr::EndBox,
        Instr::Break(BreakKind::Hard),
        text("d"),
        Instr::EndBox,
        Instr::Break(BreakKind::Hard),
        text("e"),
    ];
    assert_eq!(render(&doc, 10).unwrap(), "a\n  b\n     c\n  d\ne");
}

#[test]
fn comma_break_of_any_kind() {
    let with = |kind| vec![Instr::BeginBox(BoxMode::Consistent, 0), text("a"), Instr::CommaBreak(kind), text("b"), Instr::EndBox];
    assert_eq!(render(&with(BreakKind::Zero), 9).unwrap(), "ab");
    assert_eq!(render(&with(BreakKind::Space), 9).unwrap(), "a b");
    assert_eq!(render(&with(BreakKind::Space), 2).unwrap(), "a,\nb");
    assert_eq!(render(&with(BreakKind::Hard), 9).unwrap(), "a,\nb");
    assert_eq!(render(&with(BreakKind::Never), 1).unwrap(), "ab");
}

#[test]
fn layout_of_an_unbalanced_stream_passes_over_stray_ends() {
    let doc = vec![text("a"), Instr::EndBox, Instr::Break(BreakKind::Hard), text("b")];
    assert!(!is_balanced(&doc));
    assert_eq!(lay_out(&doc, 10), "a\nb");
    assert!(render(&doc, 10).is_err());
}

#[test]
fn self_type_is_the_plain_path() {
    let path = |qself, p: &str| Type::Path { qself, path: p.to_string() };
    assert!(type_is_self(&path(false, "Self")));
    assert!(!type_is_self(&path(true, "Self")));
    assert!(!type_is_self(&path(false, "self")));
    assert!(!type_is_self(&path(false, "Self::A")));
    assert!(!type_is_self(&Type::Other("Self".to_string())));
}

#[test]
fn receiver_elision_is_decided_by_the_declared_type() {
    let path = |p: &str| Type::Path { qself: false, path: p.to_string() };
    let reference = |lifetime: Option<&str>, mutable, elem| Type::Reference {
        lifetime: lifetime.map(|l| l.to_string()),
        mutable,
        elem: Box::new(elem),
    };
    let receiver = |reference, mutability, ty| Receiver { attrs: Vec::new(), reference, mutability, ty };
    assert!(receiver_elides_type(&receiver(None, false, path("Self"))));
    assert!(receiver_elides_type(&receiver(None, true, path("Self"))));
    assert!(receiver_elides_type(&receiver(Some(None), false, reference(None, false, path("Self")))));
    assert!(receiver_elides_type(&receiver(Some(None), true, reference(Some("'a"), true, path("Self")))));
    assert!(receiver_elides_type(&receiver(None, false, reference(None, true, path("Self")))));
    assert!(!receiver_elides_type(&receiver(None, true, reference(None, false, path("Self")))));
    assert!(!receiver_elides_type(&receiver(Some(None), true, reference(None, false, path("Self")))));
    assert!(!receiver_elides_type(&receiver(Some(None), false, path("Self"))));
    assert!(!receiver_elides_type(&receiver(None, false, path("Other"))));
    assert!(!receiver_elides_type(&receiver(
        None,
        false,
        reference(None, false, reference(None, false, path("Self")))
    )));
}

#[test]
fn use_tree_ends_in_group_behind_its_path() {
    let name = UseTree::Name("a".to_string());
    let group = UseTree::Group(vec![]);
    assert!(!use_ends_in_group(&name));
    assert!(use_ends_in_group(&group));
    assert!(use_ends_in_group(&UseTree::Path("a".to_string(), Box::new(UseTree::Path("b".to_string(), Box::new(group))))));
    assert!(!use_ends_in_group(&UseTree::Path("a".to_string(), Box::new(UseTree::Glob))));
    assert!(!use_ends_in_group(&UseTree::Rename("a".to_string(), "b".to_string())));
}

#[test]
fn the_engine_tells_whether_the_width_was_kept() {
    let words = ["alpha", "beta", "gamma"];
    let doc = list(BoxMode::Inconsistent, &words);
    for width in 0..40 {
        let out = render(&doc, width).unwrap();
        assert_eq!(keeps_width(&doc, width), widest_line(&out) <= width as usize, "{}:\n{}", width, out);
    }
    assert!(!keeps_width(&vec![text("aaa"), text("bbb")], 4));
    assert!(keeps_width(&vec![text("aaa"), text("bbb")], 6));
    assert!(keeps_width(&Vec::new(), 0));
    let comma = vec![
        Instr::BeginBox(BoxMode::Consistent, 0),
        text("ab"),
        Instr::CommaBreak(BreakKind::Zero),
        text("abc"),
        Instr::EndBox,
    ];
    assert_eq!(render(&comma, 3).unwrap(), "ab,\nabc");
    assert!(keeps_width(&comma, 3));
    let tight = vec![
        Instr::BeginBox(BoxMode::Consistent, 0),
        text("abc"),
        Instr::CommaBreak(BreakKind::Zero),
        text("abc"),
        Instr::EndBox,
    ];
    assert_eq!(render(&tight, 3).unwrap(), "abc,\nabc");
    assert!(!keeps_width(&tight, 3));
}

#[test]
fn a_long_line_is_made_by_what_no_one_measured() {
    let doc = vec![
        Instr::BeginBox(BoxMode::Consistent, 2),
        text("aaaa"),
        Instr::Break(BreakKind::Space),
        text("bbbbbbbbbbbb"),
        Instr::Break(BreakKind::Space),
        Instr::BeginBox(BoxMode::Consistent, 0),
        text("cc"),
        Instr::Break(BreakKind::Space),
        text("dd"),
        Instr::EndBox,
        Instr::EndBox,
    ];
    let out = render(&doc, 8).unwrap();
    assert_eq!(out, "aaaa\n  bbbbbbbbbbbb\n  cc dd");
    let long: Vec<&str> = out.split('\n').filter(|l| l.chars().count() > 8).collect();
    assert_eq!(long, vec!["  bbbbbbbbbbbb"]);
    assert!(!keeps_width(&doc, 8));
}
