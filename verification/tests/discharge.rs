use safety_tool::configuration::{load, Configuration, GenDocOption, Tag, TagType};
use safety_tool::data::{Data, Func, PrimaryKey, Properties, TagState, ToolAttrs};

fn empty_registry() -> safety_tool::configuration::Registry {
    load(Vec::new()).unwrap()
}

fn props_of(attr: &str, reg: &safety_tool::configuration::Registry) -> Properties {
    let mut props = Properties::new();
    props.push_attr(attr, reg);
    props
}

fn state_of(attr: &str, reg: &safety_tool::configuration::Registry) -> TagState {
    let mut state = TagState::new();
    let props = props_of(attr, reg);
    state.refresh(&props);
    state
}

fn prop_named(name: &str) -> safety_tool::data::Property {
    safety_tool::data::Property {
        name: name.to_string(),
        args: Vec::new(),
        spec_tag: None,
    }
}

// Held open until declaration tags and discharge tags are told apart.
#[test]
fn unsafe_calls_panic_discharge_all_tagged_more() {}

#[test]
fn discharge_twice_fails() {
    let reg = empty_registry();
    let mut state = state_of("#[safety { A, B }]", &reg);
    assert!(state.discharge(&prop_named("A")).is_ok());
    let err = state.discharge(&prop_named("A")).unwrap_err();
    assert_eq!(err, "\"A\" has already been discharged");
    // the other obligation is untouched
    assert!(state.discharge(&prop_named("B")).is_ok());
}

#[test]
fn discharge_unknown_is_silent() {
    let reg = empty_registry();
    let mut state = state_of("#[safety { A }]", &reg);
    assert!(state.discharge(&prop_named("Unrelated")).is_ok());
    assert!(state.discharge(&prop_named("Unrelated")).is_ok());
    let report = state.undischarged();
    assert_eq!(report.v_sp.len(), 1);
    assert_eq!(report.v_sp[0].name(), "A");
}

#[test]
fn any_two_distinct_members_both_succeed() {
    let reg = empty_registry();
    let mut state = state_of("#[safety { any(X, Y) }]", &reg);
    assert!(state.discharge(&prop_named("X")).is_ok());
    assert!(state.discharge(&prop_named("Y")).is_ok());
    let report = state.undischarged();
    assert!(report.v_tags_displayed.is_empty());
    assert!(report.v_any_sp.is_empty());
}

#[test]
fn undischarged_reports_once() {
    let reg = empty_registry();
    let mut state = state_of("#[safety { A }]", &reg);
    let first = state.undischarged();
    assert_eq!(first.v_sp.len(), 1);
    let second = state.undischarged();
    assert!(second.v_sp.is_empty());
    assert!(second.v_tags_displayed.is_empty());
    assert!(second.v_any_sp.is_empty());
    // a refresh starts a new cycle
    let props = props_of("#[safety { A }]", &reg);
    state.refresh(&props);
    let third = state.undischarged();
    assert_eq!(third.v_sp.len(), 1);
}

#[test]
fn round_trip_vanilla() {
    let reg = empty_registry();
    let mut state = state_of("#[safety { A, B }]", &reg);
    assert!(state.discharge(&prop_named("A")).is_ok());
    assert!(state.discharge(&prop_named("B")).is_ok());
    let report = state.undischarged();
    assert!(report.v_tags_displayed.is_empty());
    assert!(report.v_sp.is_empty());

    let mut state = state_of("#[safety { A, B }]", &reg);
    assert!(state.discharge(&prop_named("A")).is_ok());
    let report = state.undischarged();
    assert_eq!(report.v_sp.len(), 1);
    assert_eq!(report.v_sp[0].name(), "B");
    assert_eq!(report.v_tags_displayed, vec!["`B`".to_string()]);
    assert_eq!(report.title(), "Tag is not discharged: `B`");
}

#[test]
fn any_group_discharge_one_suffices() {
    let reg = empty_registry();
    let mut state = state_of("#[safety { any(X, Y) }]", &reg);
    assert!(state.discharge(&prop_named("Y")).is_ok());
    let report = state.undischarged();
    assert!(report.v_any_sp.is_empty());
    assert!(report.v_tags_displayed.is_empty());

    let mut state = state_of("#[safety { any(X, Y) }]", &reg);
    let report = state.undischarged();
    assert_eq!(report.v_any_sp.len(), 1);
    let names: Vec<&str> = report.v_any_sp[0].iter().map(|p| p.name()).collect();
    assert_eq!(names, vec!["X", "Y"]);
    assert_eq!(report.v_tags_displayed, vec!["`X`, or `Y`".to_string()]);
    assert_eq!(report.title(), "Tags are not discharged: `X`, or `Y`");
    let info = report.info();
    assert_eq!(
        info,
        vec![
            "[any#0] `X`: This SP has no description.".to_string(),
            "[any#0] `Y`: This SP has no description.".to_string(),
        ]
    );
}

#[test]
fn end_to_end_post_to_func() {
    // The registry holds only the builtin PostToFunc(func) with its
    // description template.
    let reg = empty_registry();
    let bar = Data {
        hash: PrimaryKey { hash1: 7, hash2: 9 },
        func: Func {
            tool_attrs: vec!["#[rapx::requires(PostToFunc(foo))]".to_string()],
            def_path: "demo::bar".to_string(),
            function: "unsafe fn bar() {}".to_string(),
        },
    };
    let data = vec![bar];
    let mut attrs = ToolAttrs::new(&data, &reg);

    // a call site with no discharge claim
    assert!(attrs.get_tags_via_key(PrimaryKey { hash1: 7, hash2: 9 }));
    let report = attrs.tagged.undischarged();
    assert_eq!(report.title(), "Tag is not discharged: `PostToFunc`");
    let info = report.info();
    assert_eq!(info.len(), 1);
    // the detail line names the obligation with its written argument and
    // the filled description; the builtin tag also carries a reference
    // link, which the report appends
    assert!(info[0].starts_with("`PostToFunc(foo)`: This function must be called after foo."));
    assert!(info[0].contains("\n See https://"));

    // the same call site annotated to discharge PostToFunc(foo)
    assert!(attrs.get_tags_via_key(PrimaryKey { hash1: 7, hash2: 9 }));
    let claims = props_of("#[rapx::checked(PostToFunc(foo))]", &reg);
    for p in &claims.vanilla {
        let clone = safety_tool::data::clone_prop(p);
        assert!(attrs.tagged.discharge(&clone).is_ok());
    }
    let report = attrs.tagged.undischarged();
    assert!(report.v_tags_displayed.is_empty());
    assert!(report.title().is_empty());
    assert!(report.info().is_empty());

    // an unknown key refreshes nothing
    assert!(!attrs.get_tags_via_key(PrimaryKey { hash1: 1, hash2: 2 }));
}

#[test]
fn info_line_includes_url() {
    let c = Configuration {
        package: None,
        tag: vec![(
            "Linked".to_string(),
            Tag {
                args: Vec::new(),
                desc: Some("Documented.".to_string()),
                expr: None,
                types: vec![TagType::Precond],
                url: Some("https://example.invalid/doc".to_string()),
            },
        )],
        doc: GenDocOption { heading_safety_title: false, heading_tag: false },
    };
    let reg = load(vec![(c, "spec.toml".to_string())]).unwrap();
    let mut state = state_of("#[safety { Linked }]", &reg);
    let report = state.undischarged();
    assert_eq!(
        report.info(),
        vec!["`Linked`: Documented.\n See https://example.invalid/doc".to_string()]
    );
}

#[test]
fn title_plural_forms() {
    let reg = empty_registry();
    let mut state = state_of("#[safety { A, B }]", &reg);
    let report = state.undischarged();
    assert_eq!(report.v_tags_displayed, vec!["`A`, `B`".to_string()]);
    assert_eq!(report.title(), "Tags are not discharged: `A`, `B`");

    let mut state = state_of("#[safety { A }]", &reg);
    state.clear();
    let props = props_of("#[safety { A; any(X, Y) }]", &reg);
    state.refresh(&props);
    let report = state.undischarged();
    assert_eq!(report.title(), "Tags are not discharged:\n`A`\n`X`, or `Y`");
}

#[test]
fn any_with_repeated_member_reports_once() {
    let reg = empty_registry();
    let mut state = state_of("#[safety { any(X, X) }]", &reg);
    let report = state.undischarged();
    assert_eq!(report.v_any_sp.len(), 1);
    assert_eq!(report.v_any_sp[0].len(), 1);
    assert_eq!(report.v_tags_displayed, vec!["`X`".to_string()]);
}

#[test]
fn any_with_unparseable_arguments_contributes_nothing() {
    let reg = empty_registry();
    // neither argument is a property, so no alternative group is formed
    let mut state = state_of("#[safety { A, any(1, 2) }]", &reg);
    let report = state.undischarged();
    assert_eq!(report.v_sp.len(), 1);
    assert!(report.v_any_sp.is_empty());
    assert_eq!(report.title(), "Tag is not discharged: `A`");
}

#[test]
fn title_plural_counts_names_not_commas() {
    let reg = empty_registry();
    // two groups of one member each: two names, no comma in any line
    let mut state = state_of("#[safety { any(X); any(Y) }]", &reg);
    let report = state.undischarged();
    assert_eq!(
        report.v_tags_displayed,
        vec!["`X`".to_string(), "`Y`".to_string()]
    );
    assert_eq!(report.title(), "Tags are not discharged:\n`X`\n`Y`");
}
