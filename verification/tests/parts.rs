use curly::label::classify;
use curly::label::Label;
use curly::label::ScopeKind;
use curly::pos::decimal_text;
use curly::replace;
use curly::scope::bind;
use curly::scope::ctx_get;
use curly::scope::record;
use curly::scope::Scope;
use curly::text::char_width;
use curly::text::slice;
use curly::tokenize;
use curly::Context;
use curly::Pos;
use curly::RenderError;
use curly::Token;

fn at(raw: usize, row: usize, col: usize) -> Pos {
    Pos { raw, row, col }
}

fn scope(kind: ScopeKind, pairs: &[(&str, &str)]) -> Scope {
    let mut ctx = Context::new();
    for (name, value) in pairs {
        ctx.insert(name.to_string(), value.to_string());
    }
    Scope { from: Pos::start(), kind, name: String::new(), ctx, replace: Vec::new() }
}

#[test]
fn start_is_offset_zero_line_one_column_one() {
    assert_eq!(Pos::start(), at(0, 1, 1));
}

#[test]
fn stepping_over_a_character_moves_offset_and_column() {
    assert_eq!(at(0, 1, 1) + 'a', at(1, 1, 2));
    assert_eq!(at(4, 2, 7) + 'é', at(6, 2, 8));
    assert_eq!(at(4, 2, 7) + '✓', at(7, 2, 8));
    assert_eq!(at(4, 2, 7) + '𝄞', at(8, 2, 8));
}

#[test]
fn stepping_over_a_newline_starts_the_next_line() {
    assert_eq!(at(9, 3, 5) + '\n', at(10, 4, 1));
}

#[test]
fn stepping_back_over_a_character_undoes_the_step() {
    assert_eq!(at(6, 2, 8) - 'é', at(4, 2, 7));
    assert_eq!(at(13, 1, 14) - '}', at(12, 1, 13));
    let p = at(20, 3, 4);
    assert_eq!((p + 'x') - 'x', p);
}

#[test]
fn character_widths() {
    assert_eq!(char_width('a'), 1);
    assert_eq!(char_width('\u{7f}'), 1);
    assert_eq!(char_width('\u{80}'), 2);
    assert_eq!(char_width('\u{7ff}'), 2);
    assert_eq!(char_width('\u{800}'), 3);
    assert_eq!(char_width('\u{ffff}'), 3);
    assert_eq!(char_width('\u{10000}'), 4);
    for c in ['a', 'é', '✓', '𝄞', '\n'] {
        assert_eq!(char_width(c), c.len_utf8());
    }
}

#[test]
fn slice_cuts_by_byte_offsets() {
    assert_eq!(slice("héllo", 0, 3), "hé");
    assert_eq!(slice("héllo", 3, 6), "llo");
    assert_eq!(slice("héllo", 3, 3), "");
    assert_eq!(slice("héllo", 0, 6), "héllo");
}

#[test]
fn decimal_text_writes_digits() {
    assert_eq!(decimal_text(0), "0");
    assert_eq!(decimal_text(7), "7");
    assert_eq!(decimal_text(10), "10");
    assert_eq!(decimal_text(1234567890), "1234567890");
    assert_eq!(decimal_text(usize::MAX), usize::MAX.to_string());
}

#[test]
fn place_in_writing() {
    assert_eq!(at(6, 1, 7).describe(), "1:7(6)");
    assert_eq!(at(120, 14, 3).describe(), "14:3(120)");
}

#[test]
fn error_messages() {
    assert_eq!(RenderError::MissingBrace(at(6, 1, 7)).message(), "1:7(6): Missing closing brace");
    assert_eq!(RenderError::MissingHash(at(6, 1, 7)).message(), "1:7(6): Missing hash");
    assert_eq!(RenderError::MissingColon(at(6, 1, 7)).message(), "1:7(6): Missing colon");
    assert_eq!(
        RenderError::MissingClosingTag(at(0, 1, 1)).message(),
        "1:1(0): Missing corresponding closing tag"
    );
    assert_eq!(
        RenderError::UnexpectedClosingTag(at(30, 4, 2)).message(),
        "4:2(30): Unexpected closing tag"
    );
    assert_eq!(
        RenderError::UndefinedName(at(7, 1, 8), String::from("place")).message(),
        "1:8(7): Name 'place' is undefined"
    );
    assert_eq!(
        RenderError::IoError(String::from("no such file")).message(),
        "IO error: no such file"
    );
}

#[test]
fn tokenize_finds_tags_and_escape_markers() {
    let scanned = tokenize("a{bc}\n{!d{e}").unwrap();
    assert_eq!(
        scanned.tokens,
        vec![
            Token::Tag(at(1, 1, 2), at(5, 1, 6)),
            Token::Bang(at(7, 2, 2)),
            Token::Tag(at(9, 2, 4), at(12, 2, 7)),
        ]
    );
    assert_eq!(scanned.end, at(12, 2, 7));
}

#[test]
fn tokenize_plain_text_finds_nothing() {
    let scanned = tokenize("né\n}!").unwrap();
    assert!(scanned.tokens.is_empty());
    assert_eq!(scanned.end, at(6, 2, 3));
}

#[test]
fn tokenize_bang_inside_a_tag_is_part_of_the_label() {
    let scanned = tokenize("{a!}").unwrap();
    assert_eq!(scanned.tokens, vec![Token::Tag(at(0, 1, 1), at(4, 1, 5))]);
}

#[test]
fn tokenize_reports_the_missing_brace() {
    match tokenize("hello {place.") {
        Err(RenderError::MissingBrace(p)) => assert_eq!(p, at(6, 1, 7)),
        _ => panic!(),
    }
    match tokenize("hello {place\n}.") {
        Err(RenderError::MissingBrace(p)) => assert_eq!(p, at(6, 1, 7)),
        _ => panic!(),
    }
    match tokenize("hello {place{.") {
        Err(RenderError::MissingBrace(p)) => assert_eq!(p, at(12, 1, 13)),
        _ => panic!(),
    }
    match tokenize("{") {
        Err(RenderError::MissingBrace(p)) => assert_eq!(p, at(0, 1, 1)),
        _ => panic!(),
    }
}

#[test]
fn replace_without_replacements_returns_the_span() {
    assert_eq!(replace("hello world", (at(0, 1, 1), at(11, 1, 12)), Vec::new()), "hello world");
    assert_eq!(replace("hello world", (at(6, 1, 7), at(11, 1, 12)), Vec::new()), "world");
    assert_eq!(replace("hello", (at(2, 1, 3), at(2, 1, 3)), Vec::new()), "");
}

#[test]
fn replace_interleaves_text_and_substitutions() {
    let tmpl = "{aa}bb{cc}\ndd{ee}";
    let out = replace(
        tmpl,
        (at(0, 1, 1), at(17, 2, 7)),
        vec![
            (at(0, 1, 1), at(4, 1, 5), String::from("AA")),
            (at(6, 1, 7), at(10, 1, 11), String::from("CC")),
            (at(13, 2, 3), at(17, 2, 7), String::from("EE")),
        ],
    );
    assert_eq!(out, "AAbbCC\nddEE");
}

#[test]
fn replace_keeps_text_before_and_after_the_replacements() {
    let out = replace(
        "één twee drie",
        (at(0, 1, 1), at(15, 1, 14)),
        vec![(at(6, 1, 5), at(10, 1, 9), String::from("2"))],
    );
    assert_eq!(out, "één 2 drie");
    let out = replace(
        "één twee drie",
        (at(6, 1, 5), at(10, 1, 9)),
        vec![(at(7, 1, 6), at(9, 1, 8), String::new())],
    );
    assert_eq!(out, "te");
}

#[test]
fn classify_tells_the_forms_of_a_label_apart() {
    assert!(matches!(classify("name"), Label::Name));
    assert!(matches!(classify(""), Label::Name));
    assert!(matches!(classify("a#"), Label::Name));
    assert!(matches!(classify("#"), Label::Close(ScopeKind::FileInclude)));
    assert!(matches!(classify(":"), Label::Close(ScopeKind::Definition)));
    assert!(matches!(classify("#a"), Label::Unmatched(ScopeKind::FileInclude)));
    assert!(matches!(classify(":a"), Label::Unmatched(ScopeKind::Definition)));
    assert!(matches!(classify("#a:"), Label::Unmatched(ScopeKind::FileInclude)));
    assert!(matches!(classify(":a#"), Label::Unmatched(ScopeKind::Definition)));
    match classify("#dir/file.txt#") {
        Label::Open(ScopeKind::FileInclude, name) => assert_eq!(name, "dir/file.txt"),
        _ => panic!(),
    }
    match classify(":größe:") {
        Label::Open(ScopeKind::Definition, name) => assert_eq!(name, "größe"),
        _ => panic!(),
    }
    match classify("##") {
        Label::Open(ScopeKind::FileInclude, name) => assert_eq!(name, ""),
        _ => panic!(),
    }
    match classify("::") {
        Label::Open(ScopeKind::Definition, name) => assert_eq!(name, ""),
        _ => panic!(),
    }
}

#[test]
fn ctx_get_searches_from_the_innermost_scope_outwards() {
    let stack = vec![
        scope(ScopeKind::Root, &[("a", "outer a"), ("b", "outer b")]),
        scope(ScopeKind::Definition, &[("a", "middle a")]),
        scope(ScopeKind::FileInclude, &[("c", "inner c")]),
    ];
    assert_eq!(ctx_get(&stack, "a"), Some(String::from("middle a")));
    assert_eq!(ctx_get(&stack, "b"), Some(String::from("outer b")));
    assert_eq!(ctx_get(&stack, "c"), Some(String::from("inner c")));
    assert_eq!(ctx_get(&stack, "d"), None);
    assert_eq!(ctx_get(&Vec::new(), "a"), None);
}

#[test]
fn record_and_bind_change_the_innermost_scope() {
    let mut stack = vec![scope(ScopeKind::Root, &[("a", "1")]), scope(ScopeKind::Definition, &[])];
    record(&mut stack, at(1, 1, 2), at(2, 1, 3), String::from("x"));
    bind(&mut stack, String::from("a"), String::from("2"));
    assert_eq!(stack.len(), 2);
    assert!(stack[0].replace.is_empty());
    assert_eq!(stack[1].replace, vec![(at(1, 1, 2), at(2, 1, 3), String::from("x"))]);
    assert_eq!(stack[0].ctx.get("a").map(|v| v.as_str()), Some("1"));
    assert_eq!(stack[1].ctx.get("a").map(|v| v.as_str()), Some("2"));
}

#[test]
fn context_insert_replaces_and_get_finds() {
    let mut ctx = Context::new();
    assert!(ctx.get("k").is_none());
    ctx.insert(String::from("k"), String::from("v1"));
    ctx.insert(String::from("k"), String::from("v2"));
    ctx.insert(String::from("other"), String::from("o"));
    assert_eq!(ctx.get("k").map(|v| v.as_str()), Some("v2"));
    assert_eq!(ctx.get("other").map(|v| v.as_str()), Some("o"));
    assert!(ctx.get("K").is_none());
}
