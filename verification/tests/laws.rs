use curly::render;
use curly::Context;
use curly::Progress;
use curly::RenderError;

fn output(tmpl: &str, ctx: Context) -> String {
    match render(tmpl, ctx) {
        Ok(Progress::Finished(out)) => out,
        Ok(Progress::Include(_)) => panic!("the render waits for a resource"),
        Err(e) => panic!("{:?}", e),
    }
}

fn escape(plain: &str) -> String {
    let mut out = String::new();
    for c in plain.chars() {
        out.push(c);
        if c == '{' {
            out.push('!');
        }
    }
    out
}

#[test]
fn text_without_tags_is_unchanged() {
    for text in ["", "plain", "a } b ! c", "line\nline\n", "grüße ✓ 日本語", "#:#:"] {
        let mut ctx = Context::new();
        ctx.insert(String::from("plain"), String::from("other"));
        assert_eq!(output(text, ctx), text);
    }
}

#[test]
fn escaped_braces_round_trip() {
    for text in ["{!", "a{!b}", "{!{!}}", "{!!", "x{!\n{!y", "é{!ü}"] {
        let out = output(text, Context::new());
        assert_eq!(escape(&out), text);
    }
    assert_eq!(output("a{!b}{!!c", Context::new()), "a{b}{!c");
}

#[test]
fn escaped_text_renders_to_itself() {
    for plain in ["{name}", "{:a:}x{:}", "{#f#}{#}", "{{{", "{!", "no braces", "{\n}"] {
        assert_eq!(output(&escape(plain), Context::new()), plain);
    }
}

#[test]
fn definition_is_visible_after_its_block_only() {
    assert_eq!(output("{:d:}v{:}{d}", Context::new()), "v");
    match render("{d}{:d:}v{:}", Context::new()) {
        Err(RenderError::UndefinedName(_, name)) => assert_eq!(name, "d"),
        _ => panic!(),
    }
    match render("{:d:}{d}{:}", Context::new()) {
        Err(RenderError::UndefinedName(_, name)) => assert_eq!(name, "d"),
        _ => panic!(),
    }
}

#[test]
fn definition_is_visible_in_blocks_opened_later() {
    assert_eq!(output("{:d:}v{:}{:e:}({d}){:}{e}", Context::new()), "(v)");
}

#[test]
fn definition_does_not_leak_into_a_sibling_block() {
    match render("{:a:}{:inner:}v{:}{:}{:b:}{inner}{:}", Context::new()) {
        Err(RenderError::UndefinedName(_, name)) => assert_eq!(name, "inner"),
        _ => panic!(),
    }
}

#[test]
fn opening_a_block_hides_no_binding() {
    let mut ctx = Context::new();
    ctx.insert(String::from("x"), String::from("1"));
    assert_eq!(output("{:a:}{x}{:}{a}{x}", ctx), "11");
}

#[test]
fn reference_between_plain_text_is_replaced() {
    for (before, name, value, after) in [
        ("", "n", "v", ""),
        ("a ", "name", "the value", " z"),
        ("é}\n", "k#:", "{!}", "\n!"),
        ("x", "", "empty name", "y"),
    ] {
        let mut ctx = Context::new();
        ctx.insert(String::from(name), String::from(value));
        let tmpl = format!("{}{{{}}}{}", before, name, after);
        assert_eq!(output(&tmpl, ctx), format!("{}{}{}", before, value, after));
    }
}

#[test]
fn unbound_reference_fails_at_its_name() {
    match render("ab\n{name}", Context::new()) {
        Err(RenderError::UndefinedName(at, name)) => {
            assert_eq!(name, "name");
            assert_eq!((at.raw, at.row, at.col), (4, 2, 2));
        }
        _ => panic!(),
    }
}

#[test]
fn definition_is_used_behind_its_block() {
    for (name, body) in [("n", "v"), ("", ""), ("long name", "two\nlines"), ("é", "}!")] {
        let tmpl = format!("{{:{}:}}{}{{:}}{{{}}}", name, body, name);
        assert_eq!(output(&tmpl, Context::new()), body);
    }
}

#[test]
fn include_is_replaced_by_its_resource() {
    for (before, name, after, content) in
        [("", "f", "", ""), ("a", "dir/f.txt", "z", "content"), ("1\n", "", "\n2", "é}")]
    {
        let tmpl = format!("{}{{#{}#}}{{#}}{}", before, name, after);
        let inclusion = match render(&tmpl, Context::new()) {
            Ok(Progress::Include(inclusion)) => inclusion,
            _ => panic!(),
        };
        assert_eq!(inclusion.name, name);
        match inclusion.rest.supply(Ok(String::from(content))) {
            Ok(Progress::Finished(out)) => {
                assert_eq!(out, format!("{}{}{}", before, content, after))
            }
            _ => panic!(),
        }
        let inclusion = match render(&tmpl, Context::new()) {
            Ok(Progress::Include(inclusion)) => inclusion,
            _ => panic!(),
        };
        match inclusion.rest.supply(Err(String::from("unreadable"))) {
            Err(RenderError::IoError(reason)) => assert_eq!(reason, "unreadable"),
            _ => panic!(),
        }
    }
}

#[test]
fn tokens_cover_every_brace() {
    let tmpl = "a{b}{!c{d}\n{!{e}";
    let scanned = curly::tokenize(tmpl).unwrap();
    let braces = tmpl.chars().filter(|c| *c == '{').count();
    assert_eq!(scanned.tokens.len(), braces);
    let mut last = 0;
    for token in scanned.tokens {
        let start = match token {
            curly::Token::Tag(from, _) => from.raw,
            curly::Token::Bang(at) => at.raw - 1,
        };
        assert_eq!(&tmpl[start..start + 1], "{");
        assert!(start >= last);
        last = start + 1;
    }
}
