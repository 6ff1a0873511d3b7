use tron_core::error::TemplateError;
use tron_core::template::Template;

fn names(items: &[&str]) -> Vec<String> {
    items.iter().map(|s| s.to_string()).collect()
}

#[test]
fn hello_world_renders() {
    let mut t = Template::from_text("Hello, {{name}}!");
    assert_eq!(t.set("name", "World"), Ok(()));
    assert_eq!(t.render(), Ok("Hello, World!".to_string()));
}

#[test]
fn unbound_placeholder_is_reported() {
    let t = Template::from_text("{{x}}");
    assert_eq!(
        t.render(),
        Err(TemplateError::UnresolvedPlaceholders { missing: names(&["x"]) })
    );
}

#[test]
fn all_missing_names_are_reported_together() {
    let mut t = Template::from_text("{{c}} {{a}} {{b}} {{a}}");
    assert_eq!(t.set("a", "1"), Ok(()));
    assert_eq!(
        t.render(),
        Err(TemplateError::UnresolvedPlaceholders { missing: names(&["c", "b"]) })
    );
    assert_eq!(t.missing(), names(&["c", "b"]));
}

#[test]
fn render_succeeds_once_every_name_is_bound() {
    let mut t = Template::from_text("{{a}}+{{b}}");
    assert!(t.render().is_err());
    t.set("a", "1").unwrap();
    assert_eq!(
        t.render(),
        Err(TemplateError::UnresolvedPlaceholders { missing: names(&["b"]) })
    );
    t.set("b", "2").unwrap();
    assert_eq!(t.render(), Ok("1+2".to_string()));
    assert_eq!(t.missing(), Vec::<String>::new());
}

#[test]
fn set_on_unknown_name_fails_and_changes_nothing() {
    let mut t = Template::from_text("Hello, {{name}}!");
    t.set("name", "World").unwrap();
    assert_eq!(
        t.set("nmae", "Typo"),
        Err(TemplateError::UnknownPlaceholder { name: "nmae".to_string() })
    );
    assert_eq!(t.get("nmae"), None);
    assert_eq!(t.get("name"), Some("World"));
    assert_eq!(t.render(), Ok("Hello, World!".to_string()));
}

#[test]
fn set_on_a_template_without_placeholders_fails() {
    let mut t = Template::from_text("plain");
    assert_eq!(
        t.set("x", "1"),
        Err(TemplateError::UnknownPlaceholder { name: "x".to_string() })
    );
    assert_eq!(t.render(), Ok("plain".to_string()));
}

#[test]
fn text_without_placeholders_round_trips() {
    for text in [
        "",
        "plain text",
        "fn main() { println!(\"{}\", 1); }",
        "a {{ b }} c",
        "žluťoučký {kůň}",
    ] {
        let t = Template::from_text(text);
        assert_eq!(t.placeholders(), Vec::<String>::new());
        assert_eq!(t.render(), Ok(text.to_string()));
        assert_eq!(t.source(), text);
    }
}

#[test]
fn rendering_twice_gives_the_same() {
    let mut t = Template::from_text("{{a}} and {{b}}");
    assert_eq!(t.render(), t.render());
    t.set("a", "x").unwrap();
    assert_eq!(t.render(), t.render());
    t.set("b", "y").unwrap();
    let first = t.render();
    let second = t.render();
    assert_eq!(first, Ok("x and y".to_string()));
    assert_eq!(first, second);
}

#[test]
fn a_later_value_replaces_an_earlier_one() {
    let mut t = Template::from_text("{{a}}");
    t.set("a", "1").unwrap();
    t.set("a", "2").unwrap();
    assert_eq!(t.get("a"), Some("2"));
    assert_eq!(t.render(), Ok("2".to_string()));
}

#[test]
fn an_empty_value_is_a_value() {
    let mut t = Template::from_text("[{{a}}]");
    t.set("a", "").unwrap();
    assert_eq!(t.render(), Ok("[]".to_string()));
}

#[test]
fn every_occurrence_is_replaced() {
    let mut t = Template::from_text("{{a}}{{a}}-{{a}}");
    t.set("a", "xy").unwrap();
    assert_eq!(t.render(), Ok("xyxy-xy".to_string()));
}

#[test]
fn placeholders_stand_in_order_of_first_appearance() {
    let t = Template::from_text("{{b}} {{a}} {{b}} {{c}} {{a}}");
    assert_eq!(t.placeholders(), names(&["b", "a", "c"]));
    assert!(t.has_placeholder("a"));
    assert!(t.has_placeholder("c"));
    assert!(!t.has_placeholder("d"));
    assert!(!t.has_placeholder(""));
}

#[test]
fn names_are_letters_digits_and_underscores() {
    let t = Template::from_text("{{snake_case}} {{CamelCase9}} {{_}} {{0}}");
    assert_eq!(t.placeholders(), names(&["snake_case", "CamelCase9", "_", "0"]));
}

#[test]
fn malformed_delimiters_are_literal_text() {
    for text in [
        "{{",
        "}}",
        "{{}}",
        "{{name",
        "{{name}",
        "{name}}",
        "{ {name}}",
        "{{ name }}",
        "{{first-name}}",
        "{{a.b}}",
        "{{é}}",
        "{{a}b}}",
        "{{a{b}}",
        "{{name\n}}",
    ] {
        let t = Template::from_text(text);
        assert_eq!(t.placeholders(), Vec::<String>::new(), "{}", text);
        assert_eq!(t.render(), Ok(text.to_string()), "{}", text);
    }
}

#[test]
fn braces_around_a_placeholder_stay() {
    let mut t = Template::from_text("{{{x}}}");
    assert_eq!(t.placeholders(), names(&["x"]));
    t.set("x", "1").unwrap();
    assert_eq!(t.render(), Ok("{1}".to_string()));
}

#[test]
fn an_unterminated_start_does_not_hide_a_later_placeholder() {
    let mut t = Template::from_text("{{a {{b}} {{c");
    assert_eq!(t.placeholders(), names(&["b"]));
    t.set("b", "B").unwrap();
    assert_eq!(t.render(), Ok("{{a B {{c".to_string()));
}

#[test]
fn a_start_inside_a_name_begins_anew() {
    let mut t = Template::from_text("{{a{{b}}");
    assert_eq!(t.placeholders(), names(&["b"]));
    t.set("b", "B").unwrap();
    assert_eq!(t.render(), Ok("{{aB".to_string()));
}

#[test]
fn adjacent_placeholders() {
    let mut t = Template::from_text("{{a}}{{b}}");
    t.set("a", "1").unwrap();
    t.set("b", "2").unwrap();
    assert_eq!(t.render(), Ok("12".to_string()));
}

#[test]
fn values_are_not_expanded_again() {
    let mut t = Template::from_text("{{a}} {{b}}");
    t.set("a", "{{b}}").unwrap();
    t.set("b", "{{a}}").unwrap();
    assert_eq!(t.render(), Ok("{{b}} {{a}}".to_string()));
}

#[test]
fn text_beyond_ascii_is_kept() {
    let mut t = Template::from_text("¡{{who}}! 你好 {{who}} 🙂");
    t.set("who", "wörld 🌍").unwrap();
    assert_eq!(t.render(), Ok("¡wörld 🌍! 你好 wörld 🌍 🙂".to_string()));
}

#[test]
fn render_partial_leaves_unbound_placeholders_as_written() {
    let mut t = Template::from_text("Hello {{greeting}} {{name}}!");
    assert_eq!(t.render_partial(), "Hello {{greeting}} {{name}}!");
    t.set("greeting", "Hi").unwrap();
    assert_eq!(t.render_partial(), "Hello Hi {{name}}!");
    t.set("name", "you").unwrap();
    assert_eq!(t.render_partial(), "Hello Hi you!");
}

#[test]
fn get_tells_bound_from_unbound() {
    let mut t = Template::from_text("{{a}} {{b}}");
    assert_eq!(t.get("a"), None);
    t.set("a", "1").unwrap();
    assert_eq!(t.get("a"), Some("1"));
    assert_eq!(t.get("b"), None);
    assert_eq!(t.get("zzz"), None);
}

#[test]
fn a_long_template_renders() {
    let mut text = String::new();
    let mut expected = String::new();
    for i in 0..2000 {
        text.push_str("line {{n}} of {{total}};\n");
        expected.push_str("line N of 2000;\n");
        let _ = i;
    }
    let mut t = Template::from_text(&text);
    t.set("n", "N").unwrap();
    t.set("total", "2000").unwrap();
    assert_eq!(t.render(), Ok(expected));
}
