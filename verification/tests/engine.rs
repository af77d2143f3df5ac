use template_rs::Template;
use template_rs::TemplateError;

#[test]
fn test_basic_template() -> Result<(), TemplateError> {
    let mut template = Template::new("fn main() { println!(\"@[message]@\"); }")?;
    template.set("message", "Hello, World!")?;
    assert_eq!(
        template.render()?,
        "fn main() { println!(\"Hello, World!\"); }"
    );
    Ok(())
}

#[test]
fn test_missing_placeholder() {
    let template = Template::new("@[missing]@").unwrap();
    assert!(matches!(
        template.render(),
        Err(TemplateError::MissingPlaceholder(_))
    ));
}

#[test]
fn scan_collects_each_distinct_name_once() {
    let mut template = Template::new("@[a]@ @[b]@ @[a]@").unwrap();
    template.set("a", "1").unwrap();
    template.set("b", "2").unwrap();
    assert!(template.has_placeholder("a"));
    assert!(template.has_placeholder("b"));
    assert!(!template.has_placeholder("c"));
    assert_eq!(template.render().unwrap(), "1 2 1");
}

#[test]
fn binding_unknown_name_fails_and_mutates_nothing() {
    let mut template = Template::new("@[known]@").unwrap();
    match template.set("unknown", "v") {
        Err(TemplateError::MissingPlaceholder(name)) => assert_eq!(name, "unknown"),
        other => panic!("expected a missing-placeholder failure, got {:?}", other),
    }
    template.set("known", "v").unwrap();
    assert_eq!(template.render().unwrap(), "v");
}

#[test]
fn captured_names_are_trimmed() {
    let mut template = Template::new("@[ name ]@").unwrap();
    assert!(template.has_placeholder("name"));
    assert!(!template.has_placeholder(" name "));
    assert!(matches!(
        template.set(" name ", "v"),
        Err(TemplateError::MissingPlaceholder(_))
    ));
    template.set("name", "v").unwrap();
    // The trimmed name's exact marker is `@[name]@`, which the document does
    // not contain, so the text comes back verbatim.
    assert_eq!(template.render().unwrap(), "@[ name ]@");
}

#[test]
fn whitespace_only_capture_names_the_empty_placeholder() {
    let mut template = Template::new("@[ ]@").unwrap();
    assert!(template.has_placeholder(""));
    match template.render() {
        Err(TemplateError::MissingPlaceholder(name)) => assert_eq!(name, ""),
        other => panic!("expected a missing-placeholder failure, got {:?}", other),
    }
    template.set("", "v").unwrap();
    assert_eq!(template.render().unwrap(), "@[ ]@");
}

#[test]
fn markers_may_share_their_at_sign() {
    let mut template = Template::new("@[a]@[b]@").unwrap();
    assert!(template.has_placeholder("a"));
    assert!(!template.has_placeholder("b"));
    template.set("a", "X").unwrap();
    assert_eq!(template.render().unwrap(), "X[b]@");
}

#[test]
fn text_without_markers_renders_verbatim() {
    let template = Template::new("no placeholders @ [ ] here").unwrap();
    assert_eq!(template.render().unwrap(), "no placeholders @ [ ] here");
}

#[test]
fn render_names_the_first_unbound_placeholder() {
    let mut template = Template::new("@[b]@@[a]@").unwrap();
    match template.render() {
        Err(TemplateError::MissingPlaceholder(name)) => assert_eq!(name, "b"),
        other => panic!("expected a missing-placeholder failure, got {:?}", other),
    }
    template.set("b", "1").unwrap();
    match template.render() {
        Err(TemplateError::MissingPlaceholder(name)) => assert_eq!(name, "a"),
        other => panic!("expected a missing-placeholder failure, got {:?}", other),
    }
}

#[test]
fn binding_the_empty_string_leaves_the_slot_unbound() {
    let mut template = Template::new("@[x]@").unwrap();
    template.set("x", "").unwrap();
    assert!(matches!(
        template.render(),
        Err(TemplateError::MissingPlaceholder(_))
    ));
}

#[test]
fn rebinding_overwrites_the_value() {
    let mut template = Template::new("@[x]@").unwrap();
    template.set("x", "first").unwrap();
    template.set("x", "second").unwrap();
    assert_eq!(template.render().unwrap(), "second");
}

#[test]
fn render_is_idempotent() {
    let mut template = Template::new("v=@[x]@").unwrap();
    template.set("x", "7").unwrap();
    let first = template.render().unwrap();
    let second = template.render().unwrap();
    let third = template.render().unwrap();
    assert_eq!(first, "v=7");
    assert_eq!(first, second);
    assert_eq!(second, third);
}

#[test]
fn round_trip_replaces_every_occurrence() {
    let mut template = Template::new("pre @[p]@ mid @[p]@ post").unwrap();
    template.set("p", "X").unwrap();
    assert_eq!(template.render().unwrap(), "pre X mid X post");
}

#[test]
fn a_value_holding_its_own_marker_is_not_expanded_again() {
    let mut template = Template::new("@[x]@!").unwrap();
    template.set("x", "@[x]@").unwrap();
    assert_eq!(template.render().unwrap(), "@[x]@!");
}

#[test]
fn a_value_holding_another_keys_marker_is_not_rescanned() {
    let mut template = Template::new("@[a]@|@[b]@").unwrap();
    template.set("a", "@[b]@").unwrap();
    template.set("b", "Z").unwrap();
    // Substitution never looks inside substituted text: the `@[b]@` that the
    // value of `a` emits stays verbatim, while the document's own `@[b]@`
    // marker is replaced.
    assert_eq!(template.render().unwrap(), "@[b]@|Z");
}

#[test]
fn an_empty_capture_is_not_a_marker() {
    let template = Template::new("@[]@").unwrap();
    assert!(!template.has_placeholder(""));
    assert_eq!(template.render().unwrap(), "@[]@");
}

#[test]
fn a_close_bracket_ends_the_capture() {
    // The capture runs to the first `]`; without `@` right after it, no
    // marker is recognised anywhere in this text.
    let template = Template::new("@[a]b]@").unwrap();
    assert!(!template.has_placeholder("a"));
    assert_eq!(template.render().unwrap(), "@[a]b]@");
}

#[test]
fn scan_returns_names_in_first_occurrence_order() {
    let keys = template_rs::scan::scan_placeholders("@[b]@ @[a]@ @[b]@");
    assert_eq!(keys, vec!["b", "a"]);
}

#[test]
fn source_path_is_remembered_but_inert() {
    let template = Template::new("@[x]@").unwrap();
    assert!(template.source_path().is_none());
    let mut template = template.with_source_path("./hello.tmrs");
    assert_eq!(template.source_path(), Some("./hello.tmrs"));
    template.set("x", "1").unwrap();
    assert_eq!(template.render().unwrap(), "1");
}
