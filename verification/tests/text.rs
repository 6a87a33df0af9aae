use shoulders_of_giants::id_map::IdMap;
use shoulders_of_giants::menu::{menu_step, parse_choice, DagKind, MenuAction};
use shoulders_of_giants::queries::contains_substring;
use shoulders_of_giants::records::Paper;
use shoulders_of_giants::report::{paper_row_text, paper_table, summary_line_text};
use shoulders_of_giants::text::{parse_references, trim_whitespace, truncate_str};

fn sorted(mut v: Vec<String>) -> Vec<String> {
    v.sort();
    v
}

#[test]
fn parse_references_reads_a_python_list() {
    assert_eq!(
        sorted(parse_references("['4ab3735a', '5c2f1db3', 'e3bd8d81']")),
        vec!["4ab3735a", "5c2f1db3", "e3bd8d81"]
    );
}

#[test]
fn parse_references_drops_empty_pieces_and_repeats() {
    assert!(parse_references("[]").is_empty());
    assert!(parse_references("").is_empty());
    assert_eq!(parse_references("['a', '', 'a']"), vec!["a"]);
    assert_eq!(parse_references("a"), vec!["a"]);
}

#[test]
fn truncate_str_cuts_long_text() {
    assert_eq!(truncate_str("abcdef", 3), "abc...");
    assert_eq!(truncate_str("abc", 3), "abc");
    assert_eq!(truncate_str("", 0), "");
    assert_eq!(truncate_str("h\u{e9}llo w\u{f6}rld", 5), "h\u{e9}llo...");
    assert!(matches!(truncate_str("abc", 3), std::borrow::Cow::Borrowed(_)));
    assert!(matches!(truncate_str("abcd", 3), std::borrow::Cow::Owned(_)));
}

#[test]
fn trim_whitespace_matches_str_trim() {
    for s in ["  1\n", "\t x y \r\n", "", "   ", "\u{3000}a\u{a0}", "no"] {
        assert_eq!(trim_whitespace(s), s.trim());
    }
}

#[test]
fn contains_substring_matches_str_contains() {
    for (h, n) in [("graph theory", "aph t"), ("abc", ""), ("", ""), ("ab", "abc"), ("aab", "ab"), ("abab", "ba"), ("abc", "d")] {
        assert_eq!(contains_substring(h, n), h.contains(n));
    }
}

#[test]
fn menu_choices() {
    assert!(matches!(parse_choice(" 1 \n"), MenuAction::ListRelated));
    assert!(matches!(parse_choice("2"), MenuAction::LatestCommonAncestor));
    assert!(matches!(parse_choice("3\n"), MenuAction::EarliestCommonDescendant));
    assert!(matches!(parse_choice("4"), MenuAction::Search));
    assert!(matches!(parse_choice("5"), MenuAction::SwitchDag));
    assert!(matches!(parse_choice("6\r\n"), MenuAction::Exit));
    match parse_choice("  7 up\n") {
        MenuAction::Unknown(t) => assert_eq!(t, "7 up"),
        _ => panic!("expected an unknown option"),
    }
    match parse_choice("12") {
        MenuAction::Unknown(t) => assert_eq!(t, "12"),
        _ => panic!("expected an unknown option"),
    }
}

#[test]
fn menu_switch_cycles_through_the_representations() {
    let (k, a) = menu_step(DagKind::Adj, "5\n");
    assert!(matches!(a, MenuAction::SwitchDag));
    assert_eq!(k, DagKind::Linked);
    assert_eq!(k.name(), "pointer-based");
    let (k, _) = menu_step(k, "5");
    assert_eq!(k, DagKind::EdgeList);
    assert_eq!(k.name(), "edge list");
    let (k, _) = menu_step(k, "5");
    assert_eq!(k, DagKind::Adj);
    assert_eq!(k.name(), "adjacency matrix");
    let (k, a) = menu_step(k, "4");
    assert!(matches!(a, MenuAction::Search));
    assert_eq!(k, DagKind::Adj);
}

fn paper(id: &str, title: &str, abs: &str) -> Paper {
    Paper { id: id.to_string(), title: title.to_string(), abstract_text: abs.to_string() }
}

#[test]
fn paper_table_lays_out_columns() {
    let p = paper("id1", "A title that is far too long to fit", "short");
    let q = paper("id2", "Tiny", "");
    let lines = paper_table("Found paper(s)", &vec![&p, &q]);
    assert_eq!(lines.len(), 6);
    assert_eq!(lines[0], "Found paper(s)");
    assert_eq!(lines[1], "-".repeat(80));
    assert_eq!(lines[2], format!("{:<30} {:<20} {:<10}", "Title", "ID", "Abstract"));
    assert_eq!(lines[3], "-".repeat(80));
    assert_eq!(
        lines[4],
        format!("{:<30} {:<20} {:<10}", "A title that is far too lon...", "id1", "short")
    );
    assert_eq!(lines[5], format!("{:<30} {:<20} {:<10}", "Tiny", "id2", ""));
    assert_eq!(paper_row_text(&q), lines[5]);
}

#[test]
fn summary_line_marks_missing_text() {
    assert_eq!(
        summary_line_text(&paper("p", "", "")),
        "  ID: p | Title: (none) | Abstract: (none)"
    );
    assert_eq!(
        summary_line_text(&paper("p", "T", "A")),
        "  ID: p | Title: T | Abstract: A"
    );
}

#[test]
fn id_map_keeps_the_last_value() {
    let mut m = IdMap::new();
    assert_eq!(m.get(&"a".to_string()), None);
    m.insert("a".to_string(), 1);
    m.insert("b".to_string(), 2);
    m.insert("a".to_string(), 3);
    assert_eq!(m.get(&"a".to_string()), Some(3));
    assert_eq!(m.get(&"b".to_string()), Some(2));
    assert_eq!(m.get(&"c".to_string()), None);
}
