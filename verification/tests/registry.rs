use safety_tool::configuration::{
    doc_option, get_tag, get_tag_opt, get_tags, load, Configuration, GenDocOption, LoadError, Tag,
    TagType,
};
use safety_tool::configuration::builtin::{is_builtin_tag, tags};

fn tag(args: &[&str], desc: Option<&str>, types: &[TagType], url: Option<&str>) -> Tag {
    Tag {
        args: args.iter().map(|s| s.to_string()).collect(),
        desc: desc.map(|s| s.to_string()),
        expr: None,
        types: types.to_vec(),
        url: url.map(|s| s.to_string()),
    }
}

fn config(names: &[(&str, Tag)]) -> Configuration {
    Configuration {
        package: None,
        tag: names
            .iter()
            .map(|(n, t)| {
                (
                    n.to_string(),
                    Tag {
                        args: t.args.clone(),
                        desc: t.desc.clone(),
                        expr: t.expr.clone(),
                        types: t.types.clone(),
                        url: t.url.clone(),
                    },
                )
            })
            .collect(),
        doc: GenDocOption { heading_safety_title: false, heading_tag: false },
    }
}

#[test]
fn builtins() {
    assert!(is_builtin_tag("any"));
    assert!(is_builtin_tag("PostToFunc"));
    assert!(!is_builtin_tag("ValidPtr"));
    let b = tags();
    assert_eq!(b.len(), 1);
    assert_eq!(b[0].0, "PostToFunc");
    assert_eq!(b[0].1.args, vec!["func".to_string()]);
    assert_eq!(
        b[0].1.desc.as_deref(),
        Some("This function must be called after {func}.")
    );
}

#[test]
fn load_no_sources_yields_builtins_only() {
    let reg = load(Vec::new()).unwrap();
    let all = get_tags(&reg);
    assert_eq!(all.len(), 1);
    assert_eq!(all[0].name, "PostToFunc");
    assert!(get_tag_opt(&reg, "PostToFunc").is_some());
    assert!(get_tag_opt(&reg, "ValidPtr").is_none());
}

#[test]
fn duplicate_tag_fails_in_both_orders() {
    let t = tag(&[], None, &[TagType::Precond], None);
    let c1 = config(&[("ValidPtr", tag(&[], None, &[TagType::Precond], None))]);
    let c2 = config(&[("ValidPtr", t)]);
    let r = load(vec![(c1, "a.toml".to_string()), (c2, "b.toml".to_string())]);
    match r {
        Err(LoadError::DuplicateTag(n)) => assert_eq!(n, "ValidPtr"),
        _ => panic!("expected a duplicate-tag failure"),
    }
    let c1 = config(&[("ValidPtr", tag(&[], None, &[TagType::Precond], None))]);
    let c2 = config(&[("ValidPtr", tag(&[], None, &[TagType::Precond], None))]);
    let r = load(vec![(c2, "b.toml".to_string()), (c1, "a.toml".to_string())]);
    assert!(matches!(r, Err(LoadError::DuplicateTag(_))));
}

#[test]
fn builtin_redefinition_fails() {
    let c = config(&[("PostToFunc", tag(&[], None, &[TagType::Precond], None))]);
    match load(vec![(c, "a.toml".to_string())]) {
        Err(LoadError::BuiltinRedefined(n)) => assert_eq!(n, "PostToFunc"),
        _ => panic!("expected a builtin-redefinition failure"),
    }
    let c = config(&[("any", tag(&[], None, &[TagType::Precond], None))]);
    assert!(matches!(
        load(vec![(c, "a.toml".to_string())]),
        Err(LoadError::BuiltinRedefined(_))
    ));
}

#[test]
fn doc_options_or_merge() {
    let mut c1 = config(&[("A", tag(&[], None, &[TagType::Precond], None))]);
    c1.doc = GenDocOption { heading_safety_title: true, heading_tag: false };
    let mut c2 = config(&[("B", tag(&[], None, &[TagType::Precond], None))]);
    c2.doc = GenDocOption { heading_safety_title: false, heading_tag: true };
    let reg = load(vec![(c1, "a.toml".to_string()), (c2, "b.toml".to_string())]).unwrap();
    let d = doc_option(&reg);
    assert!(d.heading_safety_title);
    assert!(d.heading_tag);
}

#[test]
fn tag_type_names() {
    assert_eq!(TagType::new("precond"), TagType::Precond);
    assert_eq!(TagType::new("hazard"), TagType::Hazard);
    assert_eq!(TagType::new("option"), TagType::Option);
    assert_eq!(TagType::Precond.as_str(), "precond");
    assert_eq!(TagType::Hazard.as_str(), "Hazard");
    assert_eq!(TagType::Option.as_str(), "option");
}

#[test]
fn merge_is_monotonic() {
    let mut a = GenDocOption { heading_safety_title: false, heading_tag: true };
    let b = GenDocOption { heading_safety_title: true, heading_tag: false };
    a.merge(&b);
    assert!(a.heading_safety_title);
    assert!(a.heading_tag);
}

#[test]
fn hover_rendering() {
    let c = config(&[(
        "ValidPtr",
        tag(
            &["p", "T", "len"],
            Some("A valid pointer."),
            &[TagType::Precond, TagType::Hazard],
            Some("https://example.invalid/vp"),
        ),
    )]);
    let reg = load(vec![(c, "a.toml".to_string())]).unwrap();
    let all = get_tags(&reg);
    let vp = all.iter().find(|d| d.name == "ValidPtr").unwrap();
    assert_eq!(vp.hover_detail(), "ValidPtr(p, T, len)");
    assert_eq!(
        vp.hover_documentation(),
        "**types**: precond, Hazard\n\n**desc**: A valid pointer.\n\n**url**: <https://example.invalid/vp>\n"
    );
    let t = get_tag(&reg, "ValidPtr");
    assert_eq!(t.args.len(), 3);
}

#[test]
fn hover_detail_no_args() {
    let reg = load(Vec::new()).unwrap();
    let all = get_tags(&reg);
    assert_eq!(all[0].hover_detail(), "PostToFunc(func)");
    let c = config(&[("Nullary", tag(&[], None, &[TagType::Precond], None))]);
    let reg = load(vec![(c, "a.toml".to_string())]).unwrap();
    let all = get_tags(&reg);
    assert_eq!(all[0].name, "Nullary");
    assert_eq!(all[0].hover_detail(), "Nullary");
    assert_eq!(all[0].hover_documentation(), "**type**: precond\n\n");
}

#[test]
fn get_tags_sorted_by_name() {
    let c = config(&[
        ("b", tag(&[], None, &[TagType::Precond], None)),
        ("a", tag(&[], None, &[TagType::Precond], None)),
    ]);
    let reg = load(vec![(c, "spec.toml".to_string())]).unwrap();
    let all = get_tags(&reg);
    let names: Vec<&str> = all.iter().map(|d| d.name.as_str()).collect();
    assert_eq!(names, vec!["PostToFunc", "a", "b"]);
}
