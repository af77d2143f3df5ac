use template_rs::Template;
use template_rs::TemplateAssembler;
use template_rs::TemplateError;

#[test]
fn set_global_binds_only_owners_and_render_all_fails_fast() {
    let mut assembler = TemplateAssembler::new();
    assembler.add_template(Template::new("A=@[x]@").unwrap());
    assembler.add_template(Template::new("B=@[y]@").unwrap());

    assembler.set_global("x", "1").unwrap();
    match assembler.render_all() {
        Err(TemplateError::MissingPlaceholder(name)) => assert_eq!(name, "y"),
        other => panic!("expected a missing-placeholder failure, got {:?}", other),
    }

    assembler.set_global("y", "2").unwrap();
    assert_eq!(assembler.render_all().unwrap(), "A=1\nB=2\n");
}

#[test]
fn set_global_with_an_unowned_name_is_a_successful_no_op() {
    let mut assembler = TemplateAssembler::new();
    assembler.add_template(Template::new("A=@[x]@").unwrap());
    assembler.add_template(Template::new("B=@[y]@").unwrap());

    assembler.set_global("nobody", "v").unwrap();

    assembler.set_global("x", "1").unwrap();
    assembler.set_global("y", "2").unwrap();
    assert_eq!(assembler.render_all().unwrap(), "A=1\nB=2\n");
}

#[test]
fn render_all_concatenates_in_insertion_order() {
    let mut assembler = TemplateAssembler::new();
    assembler.add_template(Template::new("first").unwrap());
    assembler.add_template(Template::new("second").unwrap());
    assembler.add_template(Template::new("third").unwrap());
    assert_eq!(assembler.render_all().unwrap(), "first\nsecond\nthird\n");
}

#[test]
fn an_empty_assembler_renders_to_the_empty_string() {
    let assembler = TemplateAssembler::new();
    assert_eq!(assembler.render_all().unwrap(), "");
}

#[test]
fn a_shared_name_is_bound_in_every_owner() {
    let mut assembler = TemplateAssembler::new();
    assembler.add_template(Template::new("L=@[n]@").unwrap());
    assembler.add_template(Template::new("R=@[n]@").unwrap());
    assembler.set_global("n", "9").unwrap();
    assert_eq!(assembler.render_all().unwrap(), "L=9\nR=9\n");
}
