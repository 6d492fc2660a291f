use ego_tree::Indentation;

#[test]
fn no_layers_draw_nothing() {
    let indentation = Indentation::new(false);
    assert_eq!("", indentation.to_string());
}

#[test]
fn the_innermost_layer_draws_a_branch() {
    let mut indentation = Indentation::new(false);
    indentation.indent(true);
    assert_eq!("├── ", indentation.to_string());
    indentation.deindent();
    indentation.indent(false);
    assert_eq!("└── ", indentation.to_string());
}

#[test]
fn outer_layers_draw_a_rail_or_a_gap() {
    let mut indentation = Indentation::new(false);
    indentation.indent(true).indent(false);
    assert_eq!("│   └── ", indentation.to_string());
    indentation.indent(true);
    assert_eq!("│       ├── ", indentation.to_string());
    indentation.deindent().deindent();
    assert_eq!("│   ", indentation.to_string());
}

#[test]
fn the_root_layer_is_left_out_on_demand() {
    let mut indentation = Indentation::new(true);
    indentation.indent(false);
    assert_eq!("", indentation.to_string());
    indentation.indent(true);
    assert_eq!("├── ", indentation.to_string());
    indentation.indent(false);
    assert_eq!("│   └── ", indentation.to_string());
}

#[test]
fn deindent_without_layers_changes_nothing() {
    let mut indentation = Indentation::new(false);
    indentation.deindent();
    assert_eq!("", indentation.to_string());
    indentation.indent(true);
    assert_eq!("├── ", indentation.to_string());
}
