use editcore::document::{Document, SearchDirection};
use editcore::filetype::{FileType, HighlightingOptions};
use editcore::highlighting::{Token, Type};
use editcore::position::Position;
use editcore::row::Row;

fn cs(s: &str) -> Vec<char> {
    s.chars().collect()
}

fn row_from(s: &str) -> Row {
    Row::new(String::from(s))
}

fn doc_from(name: &str, contents: &str) -> Document {
    Document::from_contents(String::from(name), &cs(contents))
}

fn line_texts(doc: &Document) -> Vec<String> {
    let mut out = Vec::new();
    let mut i = 0;
    while let Some(row) = doc.row(i) {
        out.push(row.text().iter().collect::<String>());
        i += 1;
    }
    out
}

fn token_kinds(filetype: &FileType, line: &str) -> Vec<Type> {
    Token::tokenize(filetype, &cs(line)).iter().map(|t| t.token_type).collect()
}

/// Characters in the line texts, plus one separator between lines.
fn char_count(doc: &Document) -> usize {
    let texts = line_texts(doc);
    let chars: usize = texts.iter().map(|t| t.chars().count()).sum();
    if texts.len() <= 1 {
        chars
    } else {
        chars + texts.len() - 1
    }
}

fn token_concat(filetype: &FileType, line: &str) -> String {
    let mut out = String::new();
    for t in Token::tokenize(filetype, &cs(line)) {
        out.extend(t.value.iter());
    }
    out
}

#[test]
fn filetype_from_extension() {
    assert_eq!(FileType::from("main.rs"), FileType::Rust);
    assert_eq!(FileType::from("notes.txt"), FileType::PlainText);
    assert_eq!(FileType::from("rs"), FileType::PlainText);
}

#[test]
fn tokenize_rust_statement_kinds() {
    let kinds = token_kinds(&FileType::Rust, "let x = 10;");
    assert_eq!(
        kinds,
        vec![
            Type::PrimaryKeywords,
            Type::WhiteSpace,
            Type::Plain,
            Type::WhiteSpace,
            Type::Punctuation,
            Type::WhiteSpace,
            Type::Number,
            Type::Punctuation,
        ]
    );
}

#[test]
fn tokenize_comment_line_is_one_token() {
    let tokens = Token::tokenize(&FileType::Rust, &cs("// comment"));
    assert_eq!(tokens.len(), 1);
    assert_eq!(tokens[0].token_type, Type::Comment);
    assert_eq!(tokens[0].value, cs("// comment"));
}

#[test]
fn tokenize_covers_every_character() {
    for line in [
        "let x = 10;",
        "// comment",
        "fn main() { println(\"hi, world\"); }",
        "a/b//rest of line",
        "'c' + \"str\"",
        "   ",
        "",
        "x/y/z",
    ] {
        assert_eq!(token_concat(&FileType::Rust, line), line);
        assert_eq!(token_concat(&FileType::PlainText, line), line);
    }
}

#[test]
fn classify_by_precedence() {
    let rust = FileType::Rust.highlighting_options();
    let cases = [
        ("  ", Type::WhiteSpace),
        ("42", Type::Number),
        ("\"hi\"", Type::StringLiteral),
        ("'c'", Type::CharacterLiteral),
        ("//x", Type::Comment),
        ("fn", Type::PrimaryKeywords),
        ("u32", Type::SecondaryKeywords),
        (";", Type::Punctuation),
        ("abc", Type::Plain),
    ];
    for (text, kind) in cases {
        let token = Token::from(&rust, cs(text));
        assert_eq!(token.token_type, kind, "span {:?}", text);
        assert_eq!(token.value, cs(text));
    }
}

#[test]
fn classify_disabled_categories_fall_to_plain() {
    let off = FileType::PlainText.highlighting_options();
    for text in ["42", "\"hi\"", "'c'", "//x", "fn", "u32", ";"] {
        assert_eq!(Token::from(&off, cs(text)).token_type, Type::Plain);
    }
}

#[test]
fn classify_custom_rules_numbers_only() {
    let options = HighlightingOptions {
        numbers: true,
        strings: false,
        characters: false,
        comments: false,
        punctuation: false,
        primary_keywords: vec![cs("begin")],
        secondary_keywords: Vec::new(),
    };
    assert_eq!(Token::from(&options, cs("7")).token_type, Type::Number);
    assert_eq!(Token::from(&options, cs(";")).token_type, Type::Plain);
    assert_eq!(Token::from(&options, cs("begin")).token_type, Type::PrimaryKeywords);
}

#[test]
fn classify_number_trims_whitespace_margins_but_keeps_text() {
    let rust = FileType::Rust.highlighting_options();
    let token = Token::from(&rust, cs(" 42"));
    assert_eq!(token.token_type, Type::Number);
    assert_eq!(token.value, cs(" 42"));
}

#[test]
fn tokenize_string_with_escaped_quote_is_one_token() {
    let tokens = Token::tokenize(&FileType::Rust, &cs("\"x\\\"y\""));
    assert_eq!(tokens.len(), 1);
    assert_eq!(tokens[0].token_type, Type::StringLiteral);
}

#[test]
fn tokenize_single_slash_is_punctuation() {
    let kinds = token_kinds(&FileType::Rust, "x/y");
    assert_eq!(kinds, vec![Type::Plain, Type::Punctuation, Type::Plain]);
}

#[test]
fn tokenize_double_slash_starts_comment_after_pending() {
    let tokens = Token::tokenize(&FileType::Rust, &cs("a//b c"));
    assert_eq!(tokens.len(), 2);
    assert_eq!(tokens[0].value, cs("a"));
    assert_eq!(tokens[0].token_type, Type::Plain);
    assert_eq!(tokens[1].value, cs("//b c"));
    assert_eq!(tokens[1].token_type, Type::Comment);
}

#[test]
fn row_mut_gives_mutable_access() {
    let mut doc = doc_from("a.txt", "ab\n");
    doc.row_mut(0).unwrap().insert('c', 2);
    assert_eq!(line_texts(&doc), vec!["abc"]);
    assert!(doc.row_mut(5).is_none());
}

#[test]
fn row_insert_delete_text() {
    let mut row = row_from("abc");
    row.insert('x', 1);
    assert_eq!(row.text(), &cs("axbc"));
    row.insert('!', 4);
    assert_eq!(row.text(), &cs("axbc!"));
    row.delete(1);
    assert_eq!(row.text(), &cs("abc!"));
    row.delete(9);
    assert_eq!(row.text(), &cs("abc!"));
    assert_eq!(row.len(), 4);
}

#[test]
fn row_split_then_append_round_trip() {
    let mut row = row_from("abcdef");
    let tail = row.split(3);
    assert_eq!(row.text(), &cs("abc"));
    assert_eq!(tail.text(), &cs("def"));
    row.append(&tail);
    assert_eq!(row.text(), &cs("abcdef"));
}

#[test]
fn row_split_at_ends() {
    let mut row = row_from("ab");
    let tail = row.split(0);
    assert_eq!(row.text(), &cs(""));
    assert_eq!(tail.text(), &cs("ab"));

    let mut row = row_from("ab");
    let tail = row.split(5);
    assert_eq!(row.text(), &cs("ab"));
    assert_eq!(tail.text(), &cs(""));
}

#[test]
fn row_find_forward_returns_end_of_match() {
    // The match "de" starts at column 3; the returned column is the
    // match start plus the query length, not the match start.
    let row = row_from("abcdef");
    assert_eq!(row.find(&String::from("de"), 0, SearchDirection::Forward), Some(5));
}

#[test]
fn row_find_forward_misses() {
    let row = row_from("abcdef");
    assert_eq!(row.find(&String::from("zz"), 0, SearchDirection::Forward), None);
    assert_eq!(row.find(&String::from("ab"), 6, SearchDirection::Forward), None);
    assert_eq!(row.find(&String::from("ab"), 1, SearchDirection::Forward), None);
}

#[test]
fn row_find_backward_finds_last_earlier_match() {
    let row = row_from("abcdeabcde");
    // The backward scan looks at the prefix ending one query-length
    // before the start column, and reports the end of the last match.
    assert_eq!(row.find(&String::from("de"), 10, SearchDirection::Backward), Some(5));
    assert_eq!(row.find(&String::from("ab"), 10, SearchDirection::Backward), Some(7));
    assert_eq!(row.find(&String::from("de"), 5, SearchDirection::Backward), None);
}

#[test]
fn row_find_empty_query() {
    let row = row_from("abc");
    assert_eq!(row.find(&String::from(""), 0, SearchDirection::Forward), Some(0));
    assert_eq!(row.find(&String::from(""), 3, SearchDirection::Forward), None);
}

#[test]
fn highlight_overlays_cover_each_character() {
    for (name, line, term) in [
        ("a.rs", "let x = 10;", None),
        ("a.rs", "// note", Some("no")),
        ("a.txt", "plain text here", Some("t")),
        ("a.rs", "", None),
    ] {
        let mut row = row_from(line);
        let filetype = FileType::from(name);
        let term = term.map(String::from);
        row.highlight(&filetype, &term);
        assert_eq!(row.highlighting().len(), row.len());
        assert_eq!(row.shading().len(), row.len());
    }
}

#[test]
fn highlight_expands_token_kinds_per_character() {
    let mut row = row_from("let x = 10;");
    row.highlight(&FileType::Rust, &None);
    let expected = vec![
        Type::PrimaryKeywords,
        Type::PrimaryKeywords,
        Type::PrimaryKeywords,
        Type::WhiteSpace,
        Type::Plain,
        Type::WhiteSpace,
        Type::Punctuation,
        Type::WhiteSpace,
        Type::Number,
        Type::Number,
        Type::Punctuation,
    ];
    assert_eq!(row.highlighting(), &expected);
}

#[test]
fn highlight_marks_search_occurrences() {
    let mut row = row_from("abcab");
    row.highlight(&FileType::PlainText, &Some(String::from("ab")));
    let expected = vec![Type::Match, Type::Match, Type::Plain, Type::Match, Type::Match];
    assert_eq!(row.shading(), &expected);
}

#[test]
fn highlight_empty_search_term_marks_nothing() {
    let mut row = row_from("aaa");
    row.highlight(&FileType::PlainText, &Some(String::from("")));
    assert_eq!(row.shading(), &vec![Type::Plain, Type::Plain, Type::Plain]);
}

#[test]
fn render_clamps_and_extracts() {
    let row = row_from("abcdef");
    assert_eq!(row.render(1, 4), cs("bcd"));
    assert_eq!(row.render(0, 100), cs("abcdef"));
    assert_eq!(row.render(4, 2), cs(""));
    assert_eq!(row.render(9, 12), cs(""));
}

#[test]
fn document_from_contents_splits_lines() {
    assert_eq!(line_texts(&doc_from("a.txt", "a\nbc\n")), vec!["a", "bc"]);
    assert_eq!(line_texts(&doc_from("a.txt", "a\nbc")), vec!["a", "bc"]);
    assert_eq!(line_texts(&doc_from("a.txt", "")), Vec::<String>::new());
    assert_eq!(line_texts(&doc_from("a.txt", "\n")), vec![""]);
    assert!(!doc_from("a.txt", "x").is_dirty());
}

#[test]
fn document_insert_newline_splits_line() {
    let mut doc = doc_from("a.txt", "abcdef\n");
    doc.insert('\n', &Position { x: 3, y: 0 });
    assert_eq!(line_texts(&doc), vec!["abc", "def"]);
    assert!(doc.is_dirty());
}

#[test]
fn document_insert_newline_at_column_zero_adds_empty_line() {
    let mut doc = doc_from("a.txt", "ab\n");
    doc.insert('\n', &Position { x: 0, y: 0 });
    assert_eq!(line_texts(&doc), vec!["", "ab"]);
}

#[test]
fn document_insert_newline_just_past_last_line() {
    let mut doc = doc_from("a.txt", "ab\n");
    // At column zero a new empty line may be inserted after the last
    // line; at a later column there is no line to split, so nothing
    // happens.
    doc.insert('\n', &Position { x: 1, y: 1 });
    assert_eq!(line_texts(&doc), vec!["ab"]);
    assert!(!doc.is_dirty());
    doc.insert('\n', &Position { x: 0, y: 1 });
    assert_eq!(line_texts(&doc), vec!["ab", ""]);
    assert!(doc.is_dirty());
}

#[test]
fn document_insert_character_and_append_line() {
    let mut doc = doc_from("a.txt", "ab\n");
    doc.insert('x', &Position { x: 1, y: 0 });
    assert_eq!(line_texts(&doc), vec!["axb"]);
    doc.insert('z', &Position { x: 0, y: 1 });
    assert_eq!(line_texts(&doc), vec!["axb", "z"]);
}

#[test]
fn document_insert_out_of_range_is_noop() {
    let mut doc = doc_from("a.txt", "ab\n");
    doc.insert('x', &Position { x: 0, y: 5 });
    doc.insert('x', &Position { x: 9, y: 0 });
    assert_eq!(line_texts(&doc), vec!["ab"]);
    assert!(!doc.is_dirty());
}

#[test]
fn document_delete_merges_following_line() {
    let mut doc = doc_from("a.txt", "abc\nxyz\n");
    doc.delete(&Position { x: 3, y: 0 });
    assert_eq!(line_texts(&doc), vec!["abcxyz"]);
    assert!(doc.is_dirty());
}

#[test]
fn document_delete_character_and_out_of_range() {
    let mut doc = doc_from("a.txt", "abc\n");
    doc.delete(&Position { x: 1, y: 0 });
    assert_eq!(line_texts(&doc), vec!["ac"]);
    let mut other = doc_from("a.txt", "abc\n");
    other.delete(&Position { x: 0, y: 7 });
    assert_eq!(line_texts(&other), vec!["abc"]);
    assert!(!other.is_dirty());
}

#[test]
fn document_save_open_round_trip() {
    let doc = doc_from("a.rs", "fn main() {\n    let x = 1;\n}\n");
    let persisted: String = doc.serialize().iter().collect();
    assert_eq!(persisted, "fn main() {\n    let x = 1;\n}\n");
    let reopened = doc_from("a.rs", &persisted);
    assert_eq!(line_texts(&reopened), line_texts(&doc));
}

#[test]
fn document_save_open_round_trip_without_trailing_newline() {
    let doc = doc_from("a.txt", "one\ntwo");
    let persisted: String = doc.serialize().iter().collect();
    assert_eq!(persisted, "one\ntwo\n");
    let reopened = doc_from("a.txt", &persisted);
    assert_eq!(line_texts(&reopened), vec!["one", "two"]);
}

#[test]
fn document_mark_saved_clears_dirty() {
    let mut doc = doc_from("a.txt", "ab\n");
    doc.insert('c', &Position { x: 2, y: 0 });
    assert!(doc.is_dirty());
    doc.mark_saved();
    assert!(!doc.is_dirty());
}

#[test]
fn document_find_forward_across_lines() {
    let mut doc = doc_from("a.txt", "abcdef\nde\n");
    let hit = doc.find(&String::from("de"), Position { x: 0, y: 0 }, SearchDirection::Forward);
    assert_eq!(hit, Some(Position { x: 5, y: 0 }));
    let hit = doc.find(&String::from("de"), Position { x: 5, y: 0 }, SearchDirection::Forward);
    assert_eq!(hit, Some(Position { x: 2, y: 1 }));
    let hit = doc.find(&String::from("zz"), Position { x: 0, y: 0 }, SearchDirection::Forward);
    assert_eq!(hit, None);
}

#[test]
fn document_find_backward_within_row() {
    let mut doc = doc_from("a.txt", "abXab\n");
    let hit = doc.find(&String::from("ab"), Position { x: 4, y: 0 }, SearchDirection::Backward);
    assert_eq!(hit, Some(Position { x: 2, y: 0 }));
}

#[test]
fn document_find_backward_scans_earlier_lines() {
    // On rows above the origin the backward scan starts at the row's
    // last column, and only looks at the prefix that ends one query
    // length before it.
    let mut doc = doc_from("a.txt", "abZZZ\nxyz\n");
    let hit = doc.find(&String::from("ab"), Position { x: 0, y: 1 }, SearchDirection::Backward);
    assert_eq!(hit, Some(Position { x: 2, y: 0 }));
}

#[test]
fn document_find_highlights_hit_row() {
    let mut doc = doc_from("a.txt", "xxabxx\n");
    let hit = doc.find(&String::from("ab"), Position { x: 0, y: 0 }, SearchDirection::Forward);
    assert_eq!(hit, Some(Position { x: 4, y: 0 }));
    let row = doc.row(0).unwrap();
    let expected = vec![
        Type::Plain,
        Type::Plain,
        Type::Match,
        Type::Match,
        Type::Plain,
        Type::Plain,
    ];
    assert_eq!(row.shading(), &expected);
}

#[test]
fn document_hightlight_strips_stale_match_overlay() {
    let mut doc = doc_from("a.txt", "xxabxx\n");
    doc.find(&String::from("ab"), Position { x: 0, y: 0 }, SearchDirection::Forward);
    doc.search_string = None;
    doc.hightlight();
    let row = doc.row(0).unwrap();
    assert!(row.shading().iter().all(|k| *k == Type::Plain));
}

#[test]
fn edit_sequence_preserves_net_character_count() {
    let mut doc = doc_from("a.txt", "abc\ndef\n");
    let start = char_count(&doc);
    assert_eq!(start, 7);
    // One character in, one newline in (a split), one newline out (a
    // merge), one character out: net zero.
    doc.insert('x', &Position { x: 1, y: 0 });
    assert_eq!(char_count(&doc), 8);
    doc.insert('\n', &Position { x: 2, y: 0 });
    assert_eq!(char_count(&doc), 9);
    doc.delete(&Position { x: 2, y: 0 });
    assert_eq!(char_count(&doc), 8);
    doc.delete(&Position { x: 1, y: 0 });
    assert_eq!(char_count(&doc), start);
    assert_eq!(line_texts(&doc), vec!["abc", "def"]);
}

#[test]
fn default_document_is_empty_and_clean() {
    let doc = Document::default();
    assert!(doc.is_empty());
    assert_eq!(doc.len(), 0);
    assert!(!doc.is_dirty());
    assert!(doc.row(0).is_none());
}
