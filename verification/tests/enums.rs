use regtree::enums::count_dots;
use regtree::enums::enumerated_values_text;
use regtree::enums::make_set_key;
use regtree::enums::resolve_reference;
use regtree::enums::EvIndex;
use regtree::model::BuildError;
use regtree::model::ClusterDef;
use regtree::model::DeviceDef;
use regtree::model::EnumValue;
use regtree::model::EnumeratedValueSetRef;
use regtree::model::FieldDef;
use regtree::model::PeripheralDef;
use regtree::model::RegisterClusterNode;
use regtree::model::RegisterDef;
use regtree::sets::build_ev_index;
use regtree::tree::build_tree;

fn value(name: &str, value: u64) -> EnumValue {
    EnumValue { name: name.to_string(), value: Some(value) }
}

fn inline(name: Option<&str>, values: Vec<EnumValue>) -> EnumeratedValueSetRef {
    EnumeratedValueSetRef::Inline { name: name.map(|n| n.to_string()), values }
}

fn derived(reference: &str) -> EnumeratedValueSetRef {
    EnumeratedValueSetRef::Derived { reference: reference.to_string() }
}

fn field(name: &str, sets: Vec<EnumeratedValueSetRef>) -> FieldDef {
    FieldDef {
        name: name.to_string(),
        description: None,
        bit_offset: 0,
        bit_width: 1,
        enumerated_values: sets,
        array: None,
    }
}

fn register(name: &str, fields: Vec<FieldDef>) -> RegisterClusterNode {
    RegisterClusterNode::Register(RegisterDef {
        name: name.to_string(),
        description: None,
        address_offset: 0,
        fields,
        array: None,
    })
}

fn cluster(name: &str, children: Vec<RegisterClusterNode>) -> RegisterClusterNode {
    RegisterClusterNode::Cluster(ClusterDef {
        name: name.to_string(),
        description: None,
        address_offset: 0,
        children,
        array: None,
    })
}

fn peripheral(name: &str, children: Vec<RegisterClusterNode>) -> PeripheralDef {
    PeripheralDef {
        name: name.to_string(),
        base_address: 0,
        description: None,
        derived_from: None,
        children,
    }
}

fn keys(index: &EvIndex) -> Vec<String> {
    index.entries.iter().map(|e| e.key.clone()).collect()
}

fn mode_values() -> Vec<EnumValue> {
    vec![value("A", 0), value("B", 1)]
}

#[test]
fn each_form_of_a_reference_resolves_to_the_same_set() {
    let values = mode_values();
    let mut index = EvIndex::new();
    index.insert("P.R.F.Mode".to_string(), &values);
    let fields = vec![field("E", vec![]), field("F", vec![]), field("G", vec![])];
    let by_key = resolve_reference(&index, "P", "R", &fields, "P.R.F.Mode").unwrap();
    let by_relative = resolve_reference(&index, "P", "R", &fields, "R.F.Mode").unwrap();
    let by_name = resolve_reference(&index, "P", "R", &fields, "Mode").unwrap();
    assert_eq!(by_key, &values);
    assert_eq!(by_relative, &values);
    assert_eq!(by_name, &values);
    assert!(std::ptr::eq(by_key, &values));
    assert!(std::ptr::eq(by_relative, &values));
    assert!(std::ptr::eq(by_name, &values));
}

#[test]
fn relative_reference_is_looked_up_in_the_scope_of_the_base() {
    let values = mode_values();
    let mut index = EvIndex::new();
    index.insert("P.R.F.Mode".to_string(), &values);
    let fields = vec![field("F", vec![])];
    assert_eq!(
        resolve_reference(&index, "Q", "R", &fields, "R.F.Mode"),
        Err(BuildError::UnknownReference("R.F.Mode".to_string()))
    );
    assert_eq!(resolve_reference(&index, "Q", "R", &fields, "P.R.F.Mode"), Ok(&values));
}

#[test]
fn bare_name_takes_the_first_sibling_field_in_order() {
    let first = vec![value("first", 1)];
    let second = vec![value("second", 2)];
    let mut index = EvIndex::new();
    index.insert("P.R.G.Mode".to_string(), &second);
    index.insert("P.R.F.Mode".to_string(), &first);
    let fields = vec![field("E", vec![]), field("F", vec![]), field("G", vec![])];
    assert_eq!(resolve_reference(&index, "P", "R", &fields, "Mode"), Ok(&first));
    let fields = vec![field("G", vec![]), field("F", vec![])];
    assert_eq!(resolve_reference(&index, "P", "R", &fields, "Mode"), Ok(&second));
}

#[test]
fn bare_name_that_no_sibling_has_is_unknown() {
    let values = mode_values();
    let mut index = EvIndex::new();
    index.insert("P.R.F.Mode".to_string(), &values);
    let fields = vec![field("G", vec![])];
    assert_eq!(
        resolve_reference(&index, "P", "R", &fields, "Mode"),
        Err(BuildError::UnknownReference("Mode".to_string()))
    );
    assert_eq!(
        resolve_reference(&index, "P", "S", &vec![field("F", vec![])], "Mode"),
        Err(BuildError::UnknownReference("Mode".to_string()))
    );
    assert_eq!(
        resolve_reference(&index, "P", "R", &vec![], "Mode"),
        Err(BuildError::UnknownReference("Mode".to_string()))
    );
}

#[test]
fn reference_of_another_number_of_segments_is_unsupported() {
    let values = mode_values();
    let mut index = EvIndex::new();
    index.insert("F.Mode".to_string(), &values);
    index.insert("A.P.R.F.Mode".to_string(), &values);
    let fields = vec![field("F", vec![])];
    assert_eq!(
        resolve_reference(&index, "P", "R", &fields, "F.Mode"),
        Err(BuildError::UnsupportedReference("F.Mode".to_string()))
    );
    assert_eq!(
        resolve_reference(&index, "P", "R", &fields, "A.P.R.F.Mode"),
        Err(BuildError::UnsupportedReference("A.P.R.F.Mode".to_string()))
    );
}

#[test]
fn unknown_key_is_an_error() {
    let index = EvIndex::new();
    assert_eq!(
        resolve_reference(&index, "P", "R", &vec![], "P.R.F.Mode"),
        Err(BuildError::UnknownReference("P.R.F.Mode".to_string()))
    );
}

#[test]
fn empty_reference_has_one_segment() {
    assert_eq!(count_dots(""), 0);
    assert_eq!(count_dots("a"), 0);
    assert_eq!(count_dots("a.b"), 1);
    assert_eq!(count_dots("..."), 3);
    let index = EvIndex::new();
    assert_eq!(
        resolve_reference(&index, "P", "R", &vec![], ""),
        Err(BuildError::UnknownReference(String::new()))
    );
}

#[test]
fn later_set_of_the_same_key_is_the_one_found() {
    let first = vec![value("first", 1)];
    let second = vec![value("second", 2)];
    let mut index = EvIndex::new();
    index.insert("P.R.F.Mode".to_string(), &first);
    index.insert("P.R.F.Other".to_string(), &first);
    index.insert("P.R.F.Mode".to_string(), &second);
    assert_eq!(index.get("P.R.F.Mode"), Some(&second));
    assert_eq!(index.get("P.R.F.Other"), Some(&first));
    assert_eq!(index.get("P.R.F"), None);
    assert!(index.contains_key("P.R.F.Mode"));
    assert!(!index.contains_key("p.r.f.mode"));
}

#[test]
fn key_is_scope_register_field_and_set() {
    assert_eq!(make_set_key("P", "R", "F", "Mode"), "P.R.F.Mode");
    assert_eq!(make_set_key("P.C", "R", "F", "Mode"), "P.C.R.F.Mode");
}

#[test]
fn index_holds_every_named_set_under_its_key() {
    let device = DeviceDef {
        peripherals: vec![
            peripheral(
                "P",
                vec![
                    register(
                        "R",
                        vec![
                            field("F", vec![inline(Some("Mode"), mode_values()), inline(None, vec![])]),
                            field("G", vec![derived("Mode"), inline(Some("Other"), vec![])]),
                        ],
                    ),
                    cluster("C", vec![cluster("D", vec![register("S", vec![field("H", vec![inline(Some("Deep"), vec![])])])])]),
                ],
            ),
            peripheral("Q", vec![register("R", vec![field("F", vec![inline(Some("Mode"), vec![])])])]),
        ],
    };
    let index = build_ev_index(&device);
    assert_eq!(keys(&index), vec!["P.R.F.Mode", "P.R.G.Other", "P.C.D.S.H.Deep", "Q.R.F.Mode"]);
    assert_eq!(index.get("P.R.F.Mode").unwrap().len(), 2);
    assert_eq!(index.get("Q.R.F.Mode").unwrap().len(), 0);
}

#[test]
fn index_takes_one_peripheral_of_each_name() {
    let device = DeviceDef {
        peripherals: vec![
            peripheral("P", vec![register("R", vec![field("F", vec![inline(Some("Old"), vec![])])])]),
            peripheral("Q", vec![register("R", vec![field("F", vec![inline(Some("Mid"), vec![])])])]),
            peripheral("P", vec![register("R", vec![field("F", vec![inline(Some("New"), vec![])])])]),
        ],
    };
    let index = build_ev_index(&device);
    assert_eq!(keys(&index), vec!["P.R.F.New", "Q.R.F.Mid"]);
}

#[test]
fn values_text_lists_values_and_notes_where_they_come_from() {
    let values = mode_values();
    let mut index = EvIndex::new();
    index.insert("P.R.F.Mode".to_string(), &values);
    let fields = vec![field("F", vec![])];
    let sets = vec![inline(None, vec![value("X", 10), EnumValue { name: "D".to_string(), value: None }]), derived("Mode")];
    assert_eq!(
        enumerated_values_text(&index, "P", "R", &fields, &sets),
        Ok("\n\t10 : X\n derived from: <i>Mode</i>\n\t0 : A\n\t1 : B".to_string())
    );
    assert_eq!(enumerated_values_text(&index, "P", "R", &fields, &vec![]), Ok(String::new()));
    assert_eq!(
        enumerated_values_text(&index, "P", "R", &fields, &vec![derived("Nope"), derived("a.b")]),
        Err(BuildError::UnknownReference("Nope".to_string()))
    );
}

#[test]
fn derived_peripheral_resolves_against_its_base() {
    let base = peripheral(
        "TIM0",
        vec![register(
            "CR",
            vec![
                field("MODE", vec![inline(Some("Mode"), mode_values())]),
                field("ALT", vec![derived("CR.MODE.Mode")]),
                field("BARE", vec![derived("Mode")]),
                field("FULL", vec![derived("TIM0.CR.MODE.Mode")]),
            ],
        )],
    );
    let mut copy = peripheral("TIM1", vec![]);
    copy.derived_from = Some("TIM0".to_string());
    let nodes = build_tree(&DeviceDef { peripherals: vec![base, copy] }).unwrap();
    let tooltip = |path: &str| nodes.iter().find(|n| n.path == path).unwrap().tooltip.clone();
    assert_eq!(
        tooltip("TIM1.CR.ALT"),
        "<b>TIM1.CR.ALT field</b>\n [0-0]: \nValues:\n derived from: <i>CR.MODE.Mode</i>\n\t0 : A\n\t1 : B"
    );
    assert_eq!(
        tooltip("TIM1.CR.BARE"),
        "<b>TIM1.CR.BARE field</b>\n [0-0]: \nValues:\n derived from: <i>Mode</i>\n\t0 : A\n\t1 : B"
    );
    assert_eq!(
        tooltip("TIM0.CR.FULL"),
        "<b>TIM0.CR.FULL field</b>\n [0-0]: \nValues:\n derived from: <i>TIM0.CR.MODE.Mode</i>\n\t0 : A\n\t1 : B"
    );
    assert_eq!(tooltip("TIM1.CR.MODE"), "<b>TIM1.CR.MODE field</b>\n [0-0]: \nValues:\n\t0 : A\n\t1 : B");
}

#[test]
fn reference_inside_a_cluster_is_relative_to_the_cluster() {
    let p = peripheral(
        "P",
        vec![cluster(
            "C",
            vec![register(
                "R",
                vec![
                    field("F", vec![inline(Some("Mode"), mode_values())]),
                    field("G", vec![derived("Mode")]),
                    field("H", vec![derived("R.F.Mode")]),
                ],
            )],
        )],
    );
    let nodes = build_tree(&DeviceDef { peripherals: vec![p] }).unwrap();
    let g = nodes.iter().find(|n| n.path == "P.C.R.G").unwrap();
    assert_eq!(
        g.tooltip,
        "<b>P.C.R.G field</b>\n [0-0]: \nValues:\n derived from: <i>Mode</i>\n\t0 : A\n\t1 : B"
    );
    let h = nodes.iter().find(|n| n.path == "P.C.R.H").unwrap();
    assert!(h.tooltip.ends_with("\n\t0 : A\n\t1 : B"));
}

#[test]
fn unresolved_reference_fails_the_whole_tree() {
    let p = peripheral("P", vec![register("R", vec![field("F", vec![derived("Missing")])])]);
    let q = peripheral("Q", vec![]);
    assert_eq!(
        build_tree(&DeviceDef { peripherals: vec![q, p] }),
        Err(BuildError::UnknownReference("Missing".to_string()))
    );
}
