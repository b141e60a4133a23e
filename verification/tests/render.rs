use curly::render;
use curly::Context;
use curly::Inclusion;
use curly::Pos;
use curly::Progress;
use curly::RenderError;

fn context(pairs: &[(&str, &str)]) -> Context {
    let mut ctx = Context::new();
    for (name, value) in pairs {
        ctx.insert(name.to_string(), value.to_string());
    }
    ctx
}

fn finished(tmpl: &str, ctx: Context) -> String {
    match render(tmpl, ctx) {
        Ok(Progress::Finished(out)) => out,
        Ok(Progress::Include(_)) => panic!("the render waits for a resource"),
        Err(e) => panic!("{:?}", e),
    }
}

fn failed(tmpl: &str, ctx: Context) -> RenderError {
    match render(tmpl, ctx) {
        Ok(_) => panic!("the render did not fail"),
        Err(e) => e,
    }
}

#[test]
fn test_simple_render() {
    let r = "hello there.";
    assert_eq!(finished(r, Context::new()), "hello there.");
}

#[test]
fn test_escape() {
    let r = "hello {!there}.";
    assert_eq!(finished(r, Context::new()), "hello {there}.");
}

#[test]
fn test_render() {
    let r = "hello {place}.";
    let h = context(&[("place", "there")]);
    assert_eq!(finished(r, h), "hello there.");

    let r = "hello {place.";
    match failed(r, Context::new()) {
        RenderError::MissingBrace(Pos { raw: 6, row: 1, col: 7 }) => (),
        _ => panic!(),
    }

    let r = "hello {place\n}.";
    match failed(r, Context::new()) {
        RenderError::MissingBrace(Pos { raw: 6, row: 1, col: 7 }) => (),
        _ => panic!(),
    }

    let r = "hello {{";
    match failed(r, Context::new()) {
        RenderError::MissingBrace(Pos { raw: 7, row: 1, col: 8 }) => (),
        _ => panic!(),
    }

    let r = "hello {place{.";
    match failed(r, Context::new()) {
        RenderError::MissingBrace(Pos { raw: 12, row: 1, col: 13 }) => (),
        _ => panic!(),
    }

    let r = "hello {place}.";
    let h = context(&[("face", "there")]);
    match failed(r, h) {
        RenderError::UndefinedName(Pos { raw: 7, row: 1, col: 8 }, place) => {
            assert_eq!(place, "place")
        }
        e => panic!("{:?}", e),
    }

    let r = "{aa}bb{cc}\ndd{ee}";
    let h = context(&[("aa", "AA"), ("cc", "CC"), ("ee", "EE")]);
    assert_eq!(finished(r, h), "AAbbCC\nddEE");
}

fn included(tmpl: &str, ctx: Context) -> Inclusion {
    asks(render(tmpl, ctx))
}

fn asks(progress: Result<Progress, RenderError>) -> Inclusion {
    match progress {
        Ok(Progress::Include(inclusion)) => inclusion,
        Ok(Progress::Finished(out)) => panic!("rendered to {:?} without a resource", out),
        Err(e) => panic!("{:?}", e),
    }
}

fn content(text: &str) -> Result<String, String> {
    Ok(String::from(text))
}

fn is_finished(progress: Result<Progress, RenderError>, expected: &str) {
    match progress {
        Ok(Progress::Finished(out)) => assert_eq!(out, expected),
        Ok(Progress::Include(_)) => panic!("the render waits for a resource"),
        Err(e) => panic!("{:?}", e),
    }
}

#[test]
fn empty_template_renders_to_nothing() {
    assert_eq!(finished("", Context::new()), "");
}

#[test]
fn closing_brace_alone_is_plain_text() {
    assert_eq!(finished("a } b", Context::new()), "a } b");
}

#[test]
fn escape_marker_needs_no_closing_brace() {
    assert_eq!(finished("x{!", Context::new()), "x{");
    assert_eq!(finished("{!!}", Context::new()), "{!}");
    assert_eq!(finished("{!{!", Context::new()), "{{");
}

#[test]
fn escape_marker_before_a_tag() {
    let h = context(&[("x", "1")]);
    assert_eq!(finished("{!{x}", h), "{1");
}

#[test]
fn reference_with_multibyte_text_around() {
    let h = context(&[("wer", "Zoë")]);
    assert_eq!(finished("grüß {wer} ✓", h), "grüß Zoë ✓");
}

#[test]
fn reference_to_multibyte_name() {
    let h = context(&[("größe", "XL")]);
    assert_eq!(finished("[{größe}]", h), "[XL]");
}

#[test]
fn empty_label_is_looked_up_as_empty_name() {
    match failed("{}", Context::new()) {
        RenderError::UndefinedName(Pos { raw: 1, row: 1, col: 2 }, name) => assert_eq!(name, ""),
        e => panic!("{:?}", e),
    }
    let h = context(&[("", "void")]);
    assert_eq!(finished("<{}>", h), "<void>");
}

#[test]
fn label_that_only_ends_with_a_marker_is_a_name() {
    let h = context(&[("a#", "1"), ("b:", "2")]);
    assert_eq!(finished("{a#}{b:}", h), "12");
}

#[test]
fn positions_count_bytes_lines_and_columns() {
    let r = "é\nab{x";
    match failed(r, Context::new()) {
        RenderError::MissingBrace(Pos { raw: 5, row: 2, col: 3 }) => (),
        e => panic!("{:?}", e),
    }
    let r = "a\n\n✓{name}";
    match failed(r, Context::new()) {
        RenderError::UndefinedName(Pos { raw: 7, row: 3, col: 3 }, name) => {
            assert_eq!(name, "name")
        }
        e => panic!("{:?}", e),
    }
}

#[test]
fn missing_brace_at_end_of_input_after_lone_brace() {
    match failed("abc{", Context::new()) {
        RenderError::MissingBrace(Pos { raw: 3, row: 1, col: 4 }) => (),
        e => panic!("{:?}", e),
    }
}

#[test]
fn missing_hash_is_placed_at_the_end_of_the_tag() {
    match failed("{#abc}", Context::new()) {
        RenderError::MissingHash(Pos { raw: 6, row: 1, col: 7 }) => (),
        e => panic!("{:?}", e),
    }
}

#[test]
fn missing_colon_is_placed_at_the_end_of_the_tag() {
    match failed("ab{:abc}", Context::new()) {
        RenderError::MissingColon(Pos { raw: 8, row: 1, col: 9 }) => (),
        e => panic!("{:?}", e),
    }
}

#[test]
fn missing_closing_tag_is_placed_at_the_open_block() {
    match failed("x{:a:}y", Context::new()) {
        RenderError::MissingClosingTag(Pos { raw: 1, row: 1, col: 2 }) => (),
        e => panic!("{:?}", e),
    }
    match failed("{:a:}\n{#b#}", Context::new()) {
        RenderError::MissingClosingTag(Pos { raw: 6, row: 2, col: 1 }) => (),
        e => panic!("{:?}", e),
    }
}

#[test]
fn closing_tag_without_a_block_is_unexpected() {
    match failed("ab{:}", Context::new()) {
        RenderError::UnexpectedClosingTag(Pos { raw: 2, row: 1, col: 3 }) => (),
        e => panic!("{:?}", e),
    }
    match failed("{#}", Context::new()) {
        RenderError::UnexpectedClosingTag(Pos { raw: 0, row: 1, col: 1 }) => (),
        e => panic!("{:?}", e),
    }
}

#[test]
fn closing_tag_of_the_other_kind_is_unexpected() {
    match failed("{:a:}{#}", Context::new()) {
        RenderError::UnexpectedClosingTag(Pos { raw: 5, row: 1, col: 6 }) => (),
        e => panic!("{:?}", e),
    }
    match failed("{#a#}{:}", Context::new()) {
        RenderError::UnexpectedClosingTag(Pos { raw: 5, row: 1, col: 6 }) => (),
        e => panic!("{:?}", e),
    }
}

#[test]
fn first_fault_in_the_text_wins_over_later_tags() {
    match failed("{nope}{:}", Context::new()) {
        RenderError::UndefinedName(Pos { raw: 1, row: 1, col: 2 }, name) => {
            assert_eq!(name, "nope")
        }
        e => panic!("{:?}", e),
    }
    match failed("{nope}{", Context::new()) {
        RenderError::MissingBrace(Pos { raw: 6, row: 1, col: 7 }) => (),
        e => panic!("{:?}", e),
    }
}

#[test]
fn definition_binds_its_text_and_leaves_nothing() {
    assert_eq!(finished("a{:n:}v{:}b", Context::new()), "ab");
    assert_eq!(finished("{:greeting:}hi{:}{greeting}", Context::new()), "hi");
    assert_eq!(finished("{:g:}hi{:}{g}, {g}!", Context::new()), "hi, hi!");
}

#[test]
fn definition_with_empty_name_and_empty_body() {
    assert_eq!(finished("{::}x{:}[{}]", Context::new()), "[x]");
    assert_eq!(finished("{:e:}{:}[{e}]", Context::new()), "[]");
}

#[test]
fn definition_text_is_rendered() {
    let h = context(&[("b", "B")]);
    assert_eq!(finished("{:a:}[{b}]{:}{a}", h), "[B]");
    assert_eq!(finished("{:n:}{!x}{:}{n}", Context::new()), "{x}");
}

#[test]
fn definition_shadows_the_context() {
    let h = context(&[("x", "1")]);
    assert_eq!(finished("{x}{:x:}2{:}{x}", h), "12");
}

#[test]
fn nested_definition_is_used_inside_and_gone_outside() {
    assert_eq!(finished("{:a:}{:b:}x{:}<{b}>{:}{a}", Context::new()), "<x>");
    match failed("{:a:}{:b:}x{:}{:}{b}", Context::new()) {
        RenderError::UndefinedName(Pos { raw: 18, row: 1, col: 19 }, name) => {
            assert_eq!(name, "b")
        }
        e => panic!("{:?}", e),
    }
}

#[test]
fn definition_spans_lines() {
    assert_eq!(finished("{:n:}a\nb{:}\n{n}", Context::new()), "\na\nb");
}

#[test]
fn include_block_asks_for_its_resource() {
    let inclusion = included("<{#part.txt#}{#}>", Context::new());
    assert_eq!(inclusion.name, "part.txt");
    is_finished(inclusion.rest.supply(content("hello")), "<hello>");
}

#[test]
fn resource_is_rendered_with_the_bindings_of_its_block() {
    let inclusion = included("<{#part.txt#}{:who:}world{:}{#}>", Context::new());
    is_finished(inclusion.rest.supply(content("hello {who}")), "<hello world>");
}

#[test]
fn resource_does_not_see_the_bindings_around_its_block() {
    let h = context(&[("outer", "1")]);
    let inclusion = included("{outer}{#f#}{#}", h);
    match inclusion.rest.supply(content("[{outer}]")) {
        Err(RenderError::UndefinedName(Pos { raw: 2, row: 1, col: 3 }, name)) => {
            assert_eq!(name, "outer")
        }
        _ => panic!(),
    }
}

#[test]
fn include_block_body_is_discarded() {
    let inclusion = included("a{#f#}body{!{#}z", Context::new());
    is_finished(inclusion.rest.supply(content("-")), "a-z");
}

#[test]
fn include_block_with_empty_name() {
    let inclusion = included("{##}{#}", Context::new());
    assert_eq!(inclusion.name, "");
    is_finished(inclusion.rest.supply(content("x")), "x");
}

#[test]
fn empty_resource_leaves_nothing() {
    let inclusion = included("a{#f#}{#}b", Context::new());
    is_finished(inclusion.rest.supply(content("")), "ab");
}

#[test]
fn undefined_name_inside_include_block_fails() {
    match failed("{#f#}{nope}{#}", Context::new()) {
        RenderError::UndefinedName(Pos { raw: 6, row: 1, col: 7 }, name) => {
            assert_eq!(name, "nope")
        }
        e => panic!("{:?}", e),
    }
}

#[test]
fn two_include_blocks_are_asked_for_in_turn() {
    let first = included("{#a#}{#}+{#b#}{#}", Context::new());
    assert_eq!(first.name, "a");
    let second = asks(first.rest.supply(content("A")));
    assert_eq!(second.name, "b");
    is_finished(second.rest.supply(content("B")), "A+B");
}

#[test]
fn same_resource_is_asked_for_each_time() {
    let first = included("{#a#}{#}{#a#}{#}", Context::new());
    assert_eq!(first.name, "a");
    let second = asks(first.rest.supply(content("1")));
    assert_eq!(second.name, "a");
    is_finished(second.rest.supply(content("2")), "12");
}

#[test]
fn include_block_inside_a_definition() {
    let inclusion = included("{:n:}<{#f#}{#}>{:}{n}{n}", Context::new());
    is_finished(inclusion.rest.supply(content("F")), "<F><F>");
}

#[test]
fn resource_that_includes_a_resource() {
    let outer = included("{#a#}{:x:}1{:}{#}!", Context::new());
    assert_eq!(outer.name, "a");
    let inner = asks(outer.rest.supply(content("[{x}{#b#}{:y:}2{:}{#}]")));
    assert_eq!(inner.name, "b");
    is_finished(inner.rest.supply(content("({y})")), "[1(2)]!");
}

#[test]
fn inner_resource_does_not_see_the_bindings_of_the_outer_block() {
    let outer = included("{#a#}{:x:}1{:}{#}", Context::new());
    let inner = asks(outer.rest.supply(content("{x}{#b#}{#}")));
    match inner.rest.supply(content("{x}")) {
        Err(RenderError::UndefinedName(Pos { raw: 1, row: 1, col: 2 }, name)) => {
            assert_eq!(name, "x")
        }
        _ => panic!(),
    }
}

#[test]
fn render_goes_on_behind_a_nested_resource() {
    let outer = included("a{#one#}{#}d", Context::new());
    let inner = asks(outer.rest.supply(content("b{#two#}{#}{#three#}{#}c")));
    assert_eq!(inner.name, "two");
    let third = asks(inner.rest.supply(content("2")));
    assert_eq!(third.name, "three");
    is_finished(third.rest.supply(content("3")), "ab23cd");
}

#[test]
fn fault_behind_an_include_block_comes_after_the_resource() {
    let inclusion = included("{#f#}{#}{nope}", Context::new());
    match inclusion.rest.supply(content("F")) {
        Err(RenderError::UndefinedName(Pos { raw: 9, row: 1, col: 10 }, name)) => {
            assert_eq!(name, "nope")
        }
        _ => panic!(),
    }
}

#[test]
fn unreadable_resource_fails_the_render() {
    let inclusion = included("before {#missing.txt#}{#} after", Context::new());
    assert_eq!(inclusion.name, "missing.txt");
    match inclusion.rest.supply(Err(String::from("not found"))) {
        Err(RenderError::IoError(reason)) => assert_eq!(reason, "not found"),
        _ => panic!(),
    }
}

#[test]
fn unreadable_nested_resource_fails_the_render() {
    let outer = included("{#a#}{#}", Context::new());
    let inner = asks(outer.rest.supply(content("x{#b#}{#}y")));
    match inner.rest.supply(Err(String::from("denied"))) {
        Err(RenderError::IoError(reason)) => assert_eq!(reason, "denied"),
        _ => panic!(),
    }
}

#[test]
fn fault_in_a_resource_fails_the_render_with_it() {
    let inclusion = included("abc{#f#}{#}", Context::new());
    match inclusion.rest.supply(content("x{y")) {
        Err(RenderError::MissingBrace(Pos { raw: 1, row: 1, col: 2 })) => (),
        _ => panic!(),
    }
}

#[test]
fn unclosed_block_in_a_resource_fails_the_render() {
    let inclusion = included("{#f#}{#}", Context::new());
    match inclusion.rest.supply(content("\n{:a:}")) {
        Err(RenderError::MissingClosingTag(Pos { raw: 1, row: 2, col: 1 })) => (),
        _ => panic!(),
    }
}
