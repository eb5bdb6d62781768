//! Whole-template checks. The tokenizer that feeds the parser and the
//! renderer that consumes its tree are outside collaborators of the
//! parser; minimal stand-ins for both are written here so that each
//! template runs through `parse` on its way to the rendered text.

use prototype_parser::ast::Ast;
use prototype_parser::parser::parse;
use prototype_parser::token::Token;

/// Splits a template into tokens: `{{name}}` interpolates escaped,
/// `{{{name}}}` interpolates verbatim, `{{#name}}` opens a section and
/// `{{/name}}` closes it; everything else is literal text.
fn tokenize(template: &str) -> Vec<Token> {
    let mut tokens = Vec::new();
    let mut rest = template;
    loop {
        match rest.find("{{") {
            None => {
                if !rest.is_empty() {
                    tokens.push(Token::Literal(rest.to_string()));
                }
                return tokens;
            }
            Some(start) => {
                if start > 0 {
                    tokens.push(Token::Literal(rest[..start].to_string()));
                }
                let after = &rest[start..];
                if after.starts_with("{{{") {
                    let end = after.find("}}}").expect("unterminated tag");
                    tokens.push(Token::Interpolation(after[3..end].trim().to_string()));
                    rest = &after[end + 3..];
                } else {
                    let end = after.find("}}").expect("unterminated tag");
                    let inner = after[2..end].trim();
                    if let Some(name) = inner.strip_prefix('#') {
                        tokens.push(Token::SectionOpener(name.trim().to_string()));
                    } else if let Some(name) = inner.strip_prefix('/') {
                        tokens.push(Token::SectionCloser(name.trim().to_string()));
                    } else {
                        tokens.push(Token::Interpolation(inner.to_string()));
                    }
                    rest = &after[end + 2..];
                }
            }
        }
    }
}

fn escape(text: &str) -> String {
    let mut out = String::new();
    for c in text.chars() {
        match c {
            '<' => out.push_str("&lt;"),
            '>' => out.push_str("&gt;"),
            '&' => out.push_str("&amp;"),
            '"' => out.push_str("&quot;"),
            '\'' => out.push_str("&apos;"),
            _ => out.push(c),
        }
    }
    out
}

fn render(node: &Ast, values: &[(&str, &str)], escaped: bool) -> String {
    match node {
        Ast::Literal(text) => text.clone(),
        Ast::Interpolation(name) => {
            let raw = values
                .iter()
                .find(|(k, _)| *k == name.as_str())
                .map(|(_, v)| *v)
                .unwrap_or("");
            if escaped {
                escape(raw)
            } else {
                raw.to_string()
            }
        }
        Ast::Section { nested, .. } => render(nested, values, escaped),
        Ast::Sequence(items) => items.iter().map(|n| render(n, values, escaped)).collect(),
    }
}

fn render_template(template: &str, values: &[(&str, &str)], escaped: bool) -> String {
    let ast = parse(tokenize(template)).expect("template must parse");
    render(&ast, values, escaped)
}

#[test]
fn basic_it_works() {
    assert_eq!(
        "Hello, World",
        render_template("Hello, {{name}}", &[("name", "World")], true)
    );
}

#[test]
fn it_finds_template_files() {
    // Loading tests/templates/basic/it_finds_template_files.html from disk
    // belongs to the surrounding system; the file holds this template.
    assert_eq!(
        "Hello, World",
        render_template("Hello, {{name}}", &[("name", "World")], true)
    );
}

#[test]
fn it_handles_names_with_underscore() {
    assert_eq!(
        "Hello, World",
        render_template("Hello, {{your_name}}", &[("your_name", "World")], true)
    );
}

#[test]
fn it_handles_tuple_struct_field_names() {
    assert_eq!(
        "Hello, World",
        render_template("Hello, {{0}}", &[("0", "World")], true)
    );
}

#[test]
fn it_handles_some_whitespace() {
    assert_eq!(
        "Hello, World",
        render_template("Hello, {{  name  }}", &[("name", "World")], true)
    );
}

#[test]
fn it_can_borrow() {
    // The tokens borrow the template text; the parser copies the payloads
    // it keeps, so the tree outlives this binding.
    let name: &str = "World";
    assert_eq!(
        "Hello, World",
        render_template("Hello, {{name}}", &[("name", name)], true)
    );
}

#[test]
fn it_performs_escaping() {
    assert_eq!(
        "&lt;&amp;&quot;&apos;",
        render_template("{{txt}}", &[("txt", "<&\"'")], true)
    );
}

#[test]
fn it_passes_through() {
    assert_eq!(
        "<&\"'",
        render_template("{{{txt}}}", &[("txt", "<&\"'")], false)
    );
}

#[test]
fn template_root_element() {
    // Selecting a nested value as the render root is the renderer's
    // concern; the parser sees the same template either way.
    assert_eq!(
        "Hello, World",
        render_template("Hello, {{name}}", &[("name", "World")], true)
    );
}

#[test]
fn section_template() {
    assert_eq!(
        "before World after",
        render_template(
            "before {{#greeting}}{{name}}{{/greeting}} after",
            &[("name", "World")],
            true
        )
    );
}
