use tron_core::assembler::Assembler;
use tron_core::error::TemplateError;
use tron_core::executable::ExecutableReference;
use tron_core::template::Template;

fn entry(text: &str) -> ExecutableReference {
    ExecutableReference::new(Template::from_text(text))
}

#[test]
fn entries_are_joined_in_insertion_order() {
    let mut a = Assembler::new();
    a.add_template(entry("a"));
    a.add_template(entry("b"));
    a.add_template(entry("c"));
    assert_eq!(a.len(), 3);
    assert_eq!(a.render_all(), Ok("abc".to_string()));
}

#[test]
fn a_global_is_set_in_every_entry_that_declares_it() {
    let mut a = Assembler::new();
    a.add_template(entry("A:{{g}}"));
    a.add_template(entry("B:{{g}}"));
    assert_eq!(a.set_global("g", "1"), Ok(()));
    assert_eq!(a.render_all(), Ok("A:1B:1".to_string()));
}

#[test]
fn an_empty_assembler_renders_to_nothing() {
    let a = Assembler::new();
    assert_eq!(a.len(), 0);
    assert_eq!(a.render_all(), Ok(String::new()));
}

#[test]
fn no_separator_is_added() {
    let mut a = Assembler::new();
    a.add_template(entry("one\n"));
    a.add_template(entry(""));
    a.add_template(entry("two"));
    assert_eq!(a.render_all(), Ok("one\ntwo".to_string()));
}

#[test]
fn a_global_that_no_entry_declares_is_refused() {
    let mut a = Assembler::new();
    let mut first = entry("{{x}}");
    first.set("x", "1").unwrap();
    a.add_template(first);
    a.add_template(entry("{{y}}"));
    assert_eq!(
        a.set_global("z", "9"),
        Err(TemplateError::UnknownPlaceholder { name: "z".to_string() })
    );
    assert_eq!(a.entry(0).inner().get("x"), Some("1"));
    assert_eq!(a.entry(0).inner().get("z"), None);
    assert_eq!(a.entry(1).inner().get("y"), None);
    assert_eq!(a.entry(1).inner().get("z"), None);
    assert!(!a.declares("z"));
}

#[test]
fn a_global_on_an_empty_assembler_is_refused() {
    let mut a = Assembler::new();
    assert_eq!(
        a.set_global("g", "1"),
        Err(TemplateError::UnknownPlaceholder { name: "g".to_string() })
    );
}

#[test]
fn a_global_touches_only_the_entries_that_declare_it() {
    let mut a = Assembler::new();
    a.add_template(entry("{{g}}{{x}}"));
    a.add_template(entry("{{x}}"));
    a.add_template(entry("{{g}}"));
    assert_eq!(a.set_global("g", "G"), Ok(()));
    assert_eq!(a.entry(0).inner().get("g"), Some("G"));
    assert_eq!(a.entry(0).inner().get("x"), None);
    assert_eq!(a.entry(1).inner().get("g"), None);
    assert_eq!(a.entry(1).inner().get("x"), None);
    assert_eq!(a.entry(2).inner().get("g"), Some("G"));
    assert!(a.declares("g"));
    assert!(a.declares("x"));
}

#[test]
fn a_global_replaces_an_entry_s_own_value() {
    let mut a = Assembler::new();
    let mut e = entry("{{g}}");
    e.set("g", "own").unwrap();
    a.add_template(e);
    a.set_global("g", "shared").unwrap();
    assert_eq!(a.render_all(), Ok("shared".to_string()));
    a.set_global("g", "again").unwrap();
    assert_eq!(a.render_all(), Ok("again".to_string()));
}

#[test]
fn globals_hold_in_entries_added_later() {
    let mut a = Assembler::new();
    a.add_template(entry("A:{{g}};"));
    a.set_global("g", "1").unwrap();
    a.add_template(entry("B:{{g}};"));
    a.add_template(entry("C:{{h}};"));
    assert_eq!(a.entry(1).inner().get("g"), Some("1"));
    assert_eq!(a.entry(2).inner().get("g"), None);
    a.set_global("h", "2").unwrap();
    assert_eq!(a.render_all(), Ok("A:1;B:1;C:2;".to_string()));
}

#[test]
fn the_first_entry_that_lacks_a_value_fails_the_rendering() {
    let mut a = Assembler::new();
    a.add_template(entry("ok"));
    a.add_template(entry("{{p}} {{q}}"));
    a.add_template(entry("{{r}}"));
    assert_eq!(
        a.render_all(),
        Err(TemplateError::Render {
            position: 1,
            missing: vec!["p".to_string(), "q".to_string()],
        })
    );
    a.set_global("p", "1").unwrap();
    assert_eq!(
        a.render_all(),
        Err(TemplateError::Render { position: 1, missing: vec!["q".to_string()] })
    );
    a.set_global("q", "2").unwrap();
    assert_eq!(
        a.render_all(),
        Err(TemplateError::Render { position: 2, missing: vec!["r".to_string()] })
    );
    a.set_global("r", "3").unwrap();
    assert_eq!(a.render_all(), Ok("ok1 23".to_string()));
}

#[test]
fn entries_keep_their_dependencies() {
    let mut a = Assembler::new();
    a.add_template(entry("{{g}}").with_dependency("serde=1.0"));
    a.set_global("g", "x").unwrap();
    assert_eq!(a.entry(0).dependency_count(), 1);
    assert_eq!(a.entry(0).dependency(0).name(), "serde");
}

#[test]
fn accepted_globals_are_kept() {
    let mut a = Assembler::new();
    a.add_template(entry("{{g}}{{h}}"));
    assert_eq!(a.globals().len(), 0);
    a.set_global("g", "1").unwrap();
    a.set_global("h", "2").unwrap();
    a.set_global("g", "3").unwrap();
    assert!(a.set_global("zz", "4").is_err());
    assert_eq!(a.globals().len(), 2);
    assert_eq!(a.globals().get("g"), Some("3"));
    assert_eq!(a.globals().get("h"), Some("2"));
    assert_eq!(a.globals().get("zz"), None);
    assert_eq!(a.globals().key(0), "g");
}
