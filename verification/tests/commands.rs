use tron_core::commands::{
    apply_template_values, assemble_with_values, render_with_values, script_with_values,
    select_source, TemplateSource,
};
use tron_core::error::TemplateError;
use tron_core::pairs::parse_key_values;
use tron_core::template::Template;

fn args(items: &[&str]) -> Vec<String> {
    items.iter().map(|s| s.to_string()).collect()
}

fn concat_lines(lines: &[&str]) -> String {
    lines.join("\n")
}

#[test]
fn one_source_is_selected() {
    assert_eq!(select_source(true, false), Ok(TemplateSource::Content));
    assert_eq!(select_source(false, true), Ok(TemplateSource::File));
}

#[test]
fn no_source_is_a_parse_error() {
    assert_eq!(
        select_source(false, false),
        Err(TemplateError::Parse {
            message: "Either content or file must be provided".to_string()
        })
    );
}

#[test]
fn two_sources_are_a_parse_error() {
    assert_eq!(
        select_source(true, true),
        Err(TemplateError::Parse { message: "Cannot provide both content and file".to_string() })
    );
}

#[test]
fn values_are_applied_to_a_template() {
    let mut t = Template::from_text("{{a}}-{{b}}");
    let values = parse_key_values(&args(&["a=1", "b=2"]));
    assert_eq!(apply_template_values(&mut t, &values), Ok(()));
    assert_eq!(t.render(), Ok("1-2".to_string()));
}

#[test]
fn applying_stops_at_the_first_unknown_key() {
    let mut t = Template::from_text("{{a}}-{{b}}");
    let values = parse_key_values(&args(&["a=1", "zz=0", "b=2"]));
    assert_eq!(
        apply_template_values(&mut t, &values),
        Err(TemplateError::UnknownPlaceholder { name: "zz".to_string() })
    );
    assert_eq!(t.get("a"), Some("1"));
    assert_eq!(t.get("b"), None);
}

#[test]
fn applying_no_values_changes_nothing() {
    let mut t = Template::from_text("{{a}}");
    let values = parse_key_values(&[]);
    assert_eq!(apply_template_values(&mut t, &values), Ok(()));
    assert_eq!(t.get("a"), None);
}

#[test]
fn a_template_is_rendered_with_arguments() {
    assert_eq!(
        render_with_values("Hello, {{name}}!", &args(&["name=World"])),
        Ok("Hello, World!".to_string())
    );
    assert_eq!(
        render_with_values("{{a}}{{b}}", &args(&["a=1", "dropped", "b=2", "a=3"])),
        Ok("32".to_string())
    );
    assert_eq!(render_with_values("plain", &[]), Ok("plain".to_string()));
}

#[test]
fn rendering_with_an_unknown_key_fails() {
    assert_eq!(
        render_with_values("Hello, {{name}}!", &args(&["name=World", "nmae=x"])),
        Err(TemplateError::UnknownPlaceholder { name: "nmae".to_string() })
    );
}

#[test]
fn rendering_with_too_few_arguments_fails() {
    assert_eq!(
        render_with_values("{{a}} {{b}} {{c}}", &args(&["b=1"])),
        Err(TemplateError::UnresolvedPlaceholders {
            missing: vec!["a".to_string(), "c".to_string()]
        })
    );
}

#[test]
fn a_script_is_made_with_arguments_and_dependencies() {
    assert_eq!(
        script_with_values(
            "fn main() { println!(\"{{msg}}\"); }",
            &args(&["msg=hi"]),
            &args(&["serde=1.0", "broken", "rand=0.8"]),
        ),
        Ok(concat_lines(&[
            "//! ```cargo",
            "//! [dependencies]",
            "//! serde = \"1.0\"",
            "//! rand = \"0.8\"",
            "//! ```",
            "",
            "fn main() { println!(\"hi\"); }",
        ]))
    );
    assert_eq!(
        script_with_values("fn main() {}", &[], &args(&["broken"])),
        Ok("fn main() {}".to_string())
    );
}

#[test]
fn a_script_is_refused_while_values_are_missing() {
    assert_eq!(
        script_with_values("{{a}}", &[], &args(&["serde=1.0"])),
        Err(TemplateError::UnresolvedPlaceholders { missing: vec!["a".to_string()] })
    );
    assert_eq!(
        script_with_values("{{a}}", &args(&["b=1"]), &[]),
        Err(TemplateError::UnknownPlaceholder { name: "b".to_string() })
    );
}

#[test]
fn templates_are_assembled_with_globals() {
    assert_eq!(
        assemble_with_values(&args(&["A:{{g}}", "B:{{g}}"]), &args(&["g=1"])),
        Ok("A:1B:1".to_string())
    );
    assert_eq!(
        assemble_with_values(&args(&["a", "b", "c"]), &[]),
        Ok("abc".to_string())
    );
    assert_eq!(assemble_with_values(&[], &[]), Ok(String::new()));
}

#[test]
fn assembling_with_an_unknown_global_fails() {
    assert_eq!(
        assemble_with_values(&args(&["A:{{g}}"]), &args(&["g=1", "h=2"])),
        Err(TemplateError::UnknownPlaceholder { name: "h".to_string() })
    );
}

#[test]
fn assembling_with_a_missing_value_gives_the_position() {
    assert_eq!(
        assemble_with_values(&args(&["{{g}}", "{{g}}{{h}}"]), &args(&["g=1"])),
        Err(TemplateError::Render { position: 1, missing: vec!["h".to_string()] })
    );
}
