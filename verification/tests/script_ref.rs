use template_rs::Template;
use template_rs::TemplateRef;

#[test]
fn a_new_reference_has_no_dependencies() {
    let template_ref = TemplateRef::new(Template::new("body").unwrap());
    assert!(template_ref.dependencies.is_empty());
    assert_eq!(template_ref.script_source("body"), "body");
}

#[test]
fn script_source_puts_each_dependency_block_ahead_of_the_body() {
    let template_ref = TemplateRef::new(Template::new("body").unwrap())
        .with_dependency("num = \"0.4\"")
        .with_dependency("rand = \"0.8\"");
    assert_eq!(
        template_ref.dependencies,
        vec!["num = \"0.4\"", "rand = \"0.8\""]
    );
    let expected = "//! ```cargo\n//! [dependencies]\n//! num = \"0.4\" \n//! ```\n\
                    //! ```cargo\n//! [dependencies]\n//! rand = \"0.8\" \n//! ```\n\
                    fn main() {}";
    assert_eq!(template_ref.script_source("fn main() {}"), expected);
}

#[test]
fn the_wrapped_template_stays_usable_through_the_public_field() {
    let mut template_ref = TemplateRef::new(Template::new("let x: @[ty]@ = 1;").unwrap());
    template_ref.template.set("ty", "i32").unwrap();
    assert_eq!(template_ref.template.render().unwrap(), "let x: i32 = 1;");
}
