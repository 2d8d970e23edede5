use safety_tool::configuration::{load, Configuration, GenDocOption, Tag, TagType};
use safety_tool::safety::{
    parse_attr_and_check, parse_attr_and_get_properties, parse_groups_str, parse_safety_attr,
    AttrParseError, TypeCheckError,
};

fn simple_tag(types: &[TagType]) -> Tag {
    Tag {
        args: Vec::new(),
        desc: None,
        expr: None,
        types: types.to_vec(),
        url: None,
    }
}

fn registry_with(names: &[(&str, &[TagType])]) -> safety_tool::configuration::Registry {
    let c = Configuration {
        package: None,
        tag: names
            .iter()
            .map(|(n, ts)| (n.to_string(), simple_tag(ts)))
            .collect(),
        doc: GenDocOption { heading_safety_title: false, heading_tag: false },
    };
    load(vec![(c, "spec.toml".to_string())]).unwrap()
}

#[test]
fn parse_plain_attribute() {
    let groups = parse_attr_and_get_properties("#[safety { Alloc, ValidPtr(p, T, len) }]");
    assert_eq!(groups.len(), 1);
    let g = &groups[0];
    assert!(g.desc.is_none());
    assert_eq!(g.tags.len(), 2);
    assert_eq!(g.tags[0].tag.name, "Alloc");
    assert!(g.tags[0].tag.typ.is_none());
    assert!(g.tags[0].args.is_empty());
    assert_eq!(g.tags[1].tag.name, "ValidPtr");
    assert_eq!(g.tags[1].args, vec!["p", "T", "len"]);
}

#[test]
fn parse_reason_and_groups() {
    let groups =
        parse_attr_and_get_properties("#[rapx::inner { A, B: \"shared reason\"; C }]");
    assert_eq!(groups.len(), 2);
    assert_eq!(groups[0].tags.len(), 2);
    assert_eq!(groups[0].desc.as_deref(), Some("shared reason"));
    assert_eq!(groups[1].tags.len(), 1);
    assert_eq!(groups[1].tags[0].tag.name, "C");
    assert!(groups[1].desc.is_none());
}

#[test]
fn parse_qualified_name() {
    let groups = parse_attr_and_get_properties("#[safety { hazard.Alias(p) }]");
    assert_eq!(groups.len(), 1);
    let p = &groups[0].tags[0];
    assert_eq!(p.tag.name, "Alias");
    assert_eq!(p.tag.typ, Some(TagType::Hazard));
    assert_eq!(p.args, vec!["p"]);
}

#[test]
fn parse_brace_args_and_nested_exprs() {
    let groups = parse_attr_and_get_properties("#[safety { Deref { q.add(1), (a, b) } }]");
    assert_eq!(groups.len(), 1);
    let p = &groups[0].tags[0];
    assert_eq!(p.tag.name, "Deref");
    assert_eq!(p.args, vec!["q.add(1)", "(a, b)"]);
}

#[test]
fn malformed_text_yields_no_properties() {
    assert!(parse_attr_and_get_properties("not an attribute").is_empty());
    assert!(parse_attr_and_get_properties("#[safety { A").is_empty());
    assert!(parse_attr_and_get_properties("#[safety { 1A }]").is_empty());
    assert!(parse_safety_attr("#[safety { ; }]").is_none());
    assert!(parse_groups_str("A: \"x\" B").is_none());
}

#[test]
fn any_arguments_parse_as_nested_groups() {
    let groups = parse_attr_and_get_properties("#[safety { any(X, Y(k)) }]");
    assert_eq!(groups.len(), 1);
    let p = &groups[0].tags[0];
    assert_eq!(p.tag.name, "any");
    let nested = p.args_in_any_tag().unwrap();
    let names: Vec<&str> = nested
        .iter()
        .flat_map(|g| g.tags.iter().map(|t| t.tag.name.as_str()))
        .collect();
    assert_eq!(names, vec!["X", "Y"]);
    let plain = parse_attr_and_get_properties("#[safety { X }]");
    assert!(plain[0].tags[0].args_in_any_tag().is_none());
}

#[test]
fn check_type_single_kind() {
    let reg = registry_with(&[("One", &[TagType::Precond])]);
    let groups = parse_attr_and_get_properties("#[safety { One }]");
    assert!(groups[0].tags[0].tag.check_type(&reg).is_ok());
    let groups = parse_attr_and_get_properties("#[safety { precond.One }]");
    assert!(groups[0].tags[0].tag.check_type(&reg).is_ok());
    let groups = parse_attr_and_get_properties("#[safety { hazard.One }]");
    assert!(matches!(
        groups[0].tags[0].tag.check_type(&reg),
        Err(TypeCheckError::KindNotDeclared(n)) if n == "One"
    ));
}

#[test]
fn check_type_multiple_kinds() {
    let reg = registry_with(&[("Two", &[TagType::Precond, TagType::Option])]);
    let groups = parse_attr_and_get_properties("#[safety { Two }]");
    assert!(matches!(
        groups[0].tags[0].tag.check_type(&reg),
        Err(TypeCheckError::AmbiguousKind(n)) if n == "Two"
    ));
    let groups = parse_attr_and_get_properties("#[safety { option.Two }]");
    assert!(groups[0].tags[0].tag.check_type(&reg).is_ok());
    let groups = parse_attr_and_get_properties("#[safety { hazard.Two }]");
    assert!(groups[0].tags[0].tag.check_type(&reg).is_err());
}

#[test]
fn check_type_unknown_and_any() {
    let reg = registry_with(&[]);
    let groups = parse_attr_and_get_properties("#[safety { Missing }]");
    assert!(matches!(
        groups[0].tags[0].tag.check_type(&reg),
        Err(TypeCheckError::UnknownTag(n)) if n == "Missing"
    ));
    let groups = parse_attr_and_get_properties("#[safety { any(A, B) }]");
    assert!(groups[0].tags[0].tag.check_type(&reg).is_ok());
}

#[test]
fn property_reason_pairs() {
    let attr = parse_safety_attr("#[safety { A, B: \"why\"; C }]").unwrap();
    let prs = attr.property_reason();
    assert_eq!(prs.len(), 3);
    assert_eq!(prs[0].0.tag.name, "A");
    assert_eq!(prs[0].1.as_deref(), Some("why"));
    assert_eq!(prs[1].0.tag.name, "B");
    assert_eq!(prs[1].1.as_deref(), Some("why"));
    assert_eq!(prs[2].0.tag.name, "C");
    assert!(prs[2].1.is_none());
}

#[test]
fn gen_doc_renders_template() {
    let c = Configuration {
        package: None,
        tag: vec![(
            "ValidPtr".to_string(),
            Tag {
                args: vec!["p".to_string(), "T".to_string(), "len".to_string()],
                desc: Some("Pointer {p} spans {len} values of {T}.".to_string()),
                expr: None,
                types: vec![TagType::Precond],
                url: None,
            },
        )],
        doc: GenDocOption { heading_safety_title: false, heading_tag: false },
    };
    let reg = load(vec![(c, "spec.toml".to_string())]).unwrap();
    let groups = parse_attr_and_get_properties("#[safety { ValidPtr(q, u8) }]");
    let doc = groups[0].tags[0].gen_doc(&reg, false).unwrap();
    // the missing trailing argument renders as the empty string
    assert_eq!(doc, "Pointer q spans  values of u8.");
    let lines = groups[0].gen_doc(
        &reg,
        GenDocOption { heading_safety_title: true, heading_tag: true },
    );
    assert_eq!(
        lines,
        vec![
            "# Safety\n\n".to_string(),
            "* ValidPtr: Pointer q spans  values of u8.".to_string(),
        ]
    );
    let hover = groups[0].gen_hover_doc(&reg, false);
    assert_eq!(hover, "* ValidPtr: Pointer q spans  values of u8.\n");
}

#[test]
fn gen_doc_any_lists_alternatives() {
    let c = Configuration {
        package: None,
        tag: vec![
            (
                "X".to_string(),
                Tag {
                    args: Vec::new(),
                    desc: Some("first way".to_string()),
                    expr: None,
                    types: vec![TagType::Precond],
                    url: None,
                },
            ),
            (
                "Y".to_string(),
                Tag {
                    args: Vec::new(),
                    desc: Some("second way".to_string()),
                    expr: None,
                    types: vec![TagType::Precond],
                    url: None,
                },
            ),
        ],
        doc: GenDocOption { heading_safety_title: false, heading_tag: false },
    };
    let reg = load(vec![(c, "spec.toml".to_string())]).unwrap();
    let groups = parse_attr_and_get_properties("#[safety { any(X, Y) }]");
    let doc = groups[0].tags[0].gen_doc(&reg, false).unwrap();
    assert_eq!(
        doc,
        "Only one of the following properties requires being satisfied:\n    * first way    * second way"
    );
    assert!(groups[0].need_gen_doc());
}

#[test]
fn parse_and_check_composes() {
    let reg = registry_with(&[
        ("One", &[TagType::Precond]),
        ("Two", &[TagType::Precond, TagType::Hazard]),
    ]);
    assert!(parse_attr_and_check("#[safety { One, hazard.Two }]", &reg).is_ok());
    assert!(matches!(
        parse_attr_and_check("not an attribute", &reg),
        Err(AttrParseError::Malformed)
    ));
    assert!(matches!(
        parse_attr_and_check("#[safety { Missing }]", &reg),
        Err(AttrParseError::Kind(TypeCheckError::UnknownTag(n))) if n == "Missing"
    ));
    assert!(matches!(
        parse_attr_and_check("#[safety { hazard.One }]", &reg),
        Err(AttrParseError::Kind(TypeCheckError::KindNotDeclared(n))) if n == "One"
    ));
    assert!(matches!(
        parse_attr_and_check("#[safety { Two }]", &reg),
        Err(AttrParseError::Kind(TypeCheckError::AmbiguousKind(n))) if n == "Two"
    ));
}
