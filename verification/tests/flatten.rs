use regtree::model::ArrayDim;
use regtree::model::BuildError;
use regtree::model::ClusterDef;
use regtree::model::DeviceDef;
use regtree::model::EnumValue;
use regtree::model::EnumeratedValueSetRef;
use regtree::model::FieldDef;
use regtree::model::FlatNode;
use regtree::model::NodeKind;
use regtree::model::PeripheralDef;
use regtree::model::RegisterClusterNode;
use regtree::model::RegisterDef;
use regtree::names::NameIndex;
use regtree::paths::all_paths_distinct;
use regtree::tree::build_tree;

fn field(name: &str, offset: u32, width: u32) -> FieldDef {
    FieldDef {
        name: name.to_string(),
        description: None,
        bit_offset: offset,
        bit_width: width,
        enumerated_values: vec![],
        array: None,
    }
}

fn register(name: &str, offset: u32, fields: Vec<FieldDef>) -> RegisterDef {
    RegisterDef {
        name: name.to_string(),
        description: None,
        address_offset: offset,
        fields,
        array: None,
    }
}

fn cluster(name: &str, offset: u32, children: Vec<RegisterClusterNode>) -> ClusterDef {
    ClusterDef {
        name: name.to_string(),
        description: None,
        address_offset: offset,
        children,
        array: None,
    }
}

fn peripheral(name: &str, base: u64, children: Vec<RegisterClusterNode>) -> PeripheralDef {
    PeripheralDef {
        name: name.to_string(),
        base_address: base,
        description: None,
        derived_from: None,
        children,
    }
}

fn reg(r: RegisterDef) -> RegisterClusterNode {
    RegisterClusterNode::Register(r)
}

fn clu(c: ClusterDef) -> RegisterClusterNode {
    RegisterClusterNode::Cluster(c)
}

fn device(peripherals: Vec<PeripheralDef>) -> DeviceDef {
    DeviceDef { peripherals }
}

fn paths(nodes: &[FlatNode]) -> Vec<&str> {
    nodes.iter().map(|n| n.path.as_str()).collect()
}

fn node<'a>(nodes: &'a [FlatNode], path: &str) -> &'a FlatNode {
    nodes.iter().find(|n| n.path == path).unwrap()
}

#[test]
fn register_address_is_peripheral_base_plus_offset() {
    let d = device(vec![peripheral("P", 0x4000_0000, vec![reg(register("R", 0x10, vec![]))])]);
    let nodes = build_tree(&d).unwrap();
    assert_eq!(paths(&nodes), vec!["P", "P.R"]);
    assert_eq!(nodes[0].address, Some(0x4000_0000));
    assert_eq!(nodes[1].address, Some(0x4000_0010));
}

#[test]
fn rows_of_a_single_register_with_a_field() {
    let mut f = field("EN", 4, 4);
    f.description = Some("Enable  bits".to_string());
    let mut r = register("CTRL", 0x10, vec![f]);
    r.description = Some("Control".to_string());
    let mut p = peripheral("TIM", 0x4000_0000, vec![reg(r)]);
    p.description = Some("Timer".to_string());
    let nodes = build_tree(&device(vec![p])).unwrap();
    assert_eq!(
        nodes,
        vec![
            FlatNode {
                kind: NodeKind::Peripheral,
                name: "TIM".to_string(),
                path: "TIM".to_string(),
                depth: 0,
                address: Some(0x4000_0000),
                description: "Timer".to_string(),
                tooltip: "<b>TIM</b>\nTimer".to_string(),
                bit_offset: None,
                bit_width: None,
                enabled: false,
                alias: String::new(),
                editable: false,
            },
            FlatNode {
                kind: NodeKind::Register,
                name: "CTRL".to_string(),
                path: "TIM.CTRL".to_string(),
                depth: 1,
                address: Some(0x4000_0010),
                description: "Control".to_string(),
                tooltip: "<b>TIM.CTRL register </b>\n  offset: 0x10\nControl".to_string(),
                bit_offset: None,
                bit_width: None,
                enabled: false,
                alias: String::new(),
                editable: true,
            },
            FlatNode {
                kind: NodeKind::Field,
                name: "EN".to_string(),
                path: "TIM.CTRL.EN".to_string(),
                depth: 2,
                address: Some(0x4000_0010),
                description: "[7-4]: Enable bits".to_string(),
                tooltip: "<b>TIM.CTRL.EN field</b>\n [7-4]: Enable bits".to_string(),
                bit_offset: Some(4),
                bit_width: Some(4),
                enabled: false,
                alias: String::new(),
                editable: true,
            },
        ]
    );
}

#[test]
fn register_array_expands_to_its_elements() {
    let mut r = register("REG%s", 0x20, vec![field("F", 0, 1)]);
    r.array = Some(ArrayDim { dim: 3, increment: 4, labels: None });
    let nodes = build_tree(&device(vec![peripheral("P", 0x1000, vec![reg(r)])])).unwrap();
    assert_eq!(
        paths(&nodes),
        vec!["P", "P.REG%s", "P.REG0", "P.REG0.F", "P.REG1", "P.REG1.F", "P.REG2", "P.REG2.F"]
    );
    let template = &nodes[1];
    assert_eq!(template.kind, NodeKind::RegisterArray);
    assert_eq!(template.address, None);
    assert_eq!(template.depth, 1);
    assert!(!template.editable);
    assert_eq!(template.tooltip, "<b>P.REG%s register array</b>\n");
    let addresses: Vec<Option<u64>> =
        [2usize, 4, 6].iter().map(|i| nodes[*i].address).collect();
    assert_eq!(addresses, vec![Some(0x1020), Some(0x1024), Some(0x1028)]);
    let names: Vec<&str> = [2usize, 4, 6].iter().map(|i| nodes[*i].name.as_str()).collect();
    assert_eq!(names, vec!["REG0", "REG1", "REG2"]);
    assert_eq!(nodes[4].kind, NodeKind::Register);
    assert_eq!(nodes[4].depth, 2);
    assert!(nodes[4].editable);
    assert_eq!(nodes[4].tooltip, "<b>P.REG1</b>\n  offset: 0x24\n");
    assert_eq!(nodes[5].depth, 3);
    assert_eq!(nodes[5].address, Some(0x1024));
}

#[test]
fn array_description_takes_the_label_too() {
    let mut r = register("CH[%s]", 0, vec![]);
    r.description = Some("Channel %s  control".to_string());
    r.array = Some(ArrayDim {
        dim: 2,
        increment: 8,
        labels: Some(vec!["A".to_string(), "B".to_string()]),
    });
    let nodes = build_tree(&device(vec![peripheral("P", 0, vec![reg(r)])])).unwrap();
    assert_eq!(paths(&nodes), vec!["P", "P.CH[%s]", "P.CHA", "P.CHB"]);
    assert_eq!(nodes[1].description, "Channel %s control");
    assert_eq!(nodes[2].description, "Channel A control");
    assert_eq!(nodes[3].description, "Channel B control");
    assert_eq!(nodes[3].address, Some(8));
}

#[test]
fn cluster_children_are_addressed_from_the_cluster() {
    let inner = cluster("IN", 0x8, vec![reg(register("R", 0x4, vec![]))]);
    let outer = cluster("OUT", 0x100, vec![clu(inner), reg(register("S", 0x2, vec![]))]);
    let nodes = build_tree(&device(vec![peripheral("P", 0x4000_0000, vec![clu(outer)])])).unwrap();
    assert_eq!(paths(&nodes), vec!["P", "P.OUT", "P.OUT.IN", "P.OUT.IN.R", "P.OUT.S"]);
    assert_eq!(node(&nodes, "P.OUT").address, Some(0x4000_0100));
    assert_eq!(node(&nodes, "P.OUT.IN").address, Some(0x4000_0108));
    assert_eq!(node(&nodes, "P.OUT.IN.R").address, Some(0x4000_010c));
    assert_eq!(node(&nodes, "P.OUT.S").address, Some(0x4000_0102));
    let depths: Vec<usize> = nodes.iter().map(|n| n.depth).collect();
    assert_eq!(depths, vec![0, 1, 2, 3, 2]);
    assert_eq!(node(&nodes, "P.OUT").kind, NodeKind::Cluster);
    assert!(!node(&nodes, "P.OUT").editable);
    assert_eq!(node(&nodes, "P.OUT").tooltip, "<b>P.OUT cluster </b>\n  offset: 0x100\n");
}

#[test]
fn cluster_array_repeats_its_content_for_each_element() {
    let mut c = cluster("CH%s", 0x10, vec![reg(register("R", 0x4, vec![field("F", 0, 8)]))]);
    c.array = Some(ArrayDim { dim: 2, increment: 0x20, labels: None });
    let nodes = build_tree(&device(vec![peripheral("P", 0x1000, vec![clu(c)])])).unwrap();
    assert_eq!(
        paths(&nodes),
        vec!["P", "P.CH%s", "P.CH0", "P.CH0.R", "P.CH0.R.F", "P.CH1", "P.CH1.R", "P.CH1.R.F"]
    );
    assert_eq!(nodes[1].kind, NodeKind::ClusterArray);
    assert_eq!(nodes[1].address, None);
    assert_eq!(nodes[1].tooltip, "<b>P.CH%s cluster array</b>\n");
    assert_eq!(nodes[2].address, Some(0x1010));
    assert_eq!(nodes[3].address, Some(0x1014));
    assert_eq!(nodes[5].address, Some(0x1030));
    assert_eq!(nodes[5].tooltip, "<b>P.CH1</b>\n  offset: 0x30\n");
    assert_eq!(nodes[6].address, Some(0x1034));
    assert_eq!(nodes[7].address, Some(0x1034));
    let depths: Vec<usize> = nodes.iter().map(|n| n.depth).collect();
    assert_eq!(depths, vec![0, 1, 2, 3, 4, 2, 3, 4]);
}

#[test]
fn field_array_elements_lie_a_step_apart_from_bit_zero() {
    let mut f = field("B%s", 3, 2);
    f.description = Some("Bit %s".to_string());
    f.array = Some(ArrayDim { dim: 3, increment: 2, labels: None });
    let nodes =
        build_tree(&device(vec![peripheral("P", 0x10, vec![reg(register("R", 0, vec![f]))])]))
            .unwrap();
    assert_eq!(paths(&nodes), vec!["P", "P.R", "P.R.B%s", "P.R.B0", "P.R.B1", "P.R.B2"]);
    assert_eq!(nodes[2].kind, NodeKind::FieldArray);
    assert_eq!(nodes[2].address, None);
    assert_eq!(nodes[2].bit_offset, None);
    assert_eq!(nodes[2].description, "Bit %s");
    assert_eq!(nodes[2].tooltip, "<b>P.R.B%s field array</b>\nBit %s");
    assert!(!nodes[2].editable);
    assert_eq!(nodes[3].bit_offset, Some(0));
    assert_eq!(nodes[4].bit_offset, Some(2));
    assert_eq!(nodes[5].bit_offset, Some(4));
    assert_eq!(nodes[5].bit_width, Some(2));
    assert_eq!(nodes[5].description, "[5-4]: Bit 2");
    assert_eq!(nodes[5].tooltip, "<b>P.R.B2 field</b>\n [5-4]: Bit 2");
    assert_eq!(nodes[5].address, Some(0x10));
    assert_eq!(nodes[5].depth, 3);
    assert!(nodes[5].editable);
}

#[test]
fn derived_peripheral_takes_the_content_of_its_base() {
    let mut base = peripheral("UART0", 0x1000, vec![reg(register("DATA", 4, vec![]))]);
    base.description = Some("Serial port".to_string());
    let mut derived = peripheral("UART1", 0x2000, vec![]);
    derived.derived_from = Some("UART0".to_string());
    let nodes = build_tree(&device(vec![base, derived])).unwrap();
    assert_eq!(paths(&nodes), vec!["UART0", "UART0.DATA", "UART1", "UART1.DATA"]);
    assert_eq!(nodes[2].address, Some(0x2000));
    assert_eq!(nodes[3].address, Some(0x2004));
    assert_eq!(nodes[2].description, "Serial port");
    assert_eq!(nodes[2].tooltip, "<b>UART1</b>\n  derived from: <i>UART0</i>\nSerial port");
    assert_eq!(nodes[0].tooltip, "<b>UART0</b>\nSerial port");
}

#[test]
fn derivation_is_resolved_before_the_base_is_defined() {
    let mut derived = peripheral("B", 0x2000, vec![]);
    derived.derived_from = Some("A".to_string());
    let base = peripheral("A", 0x1000, vec![reg(register("R", 0, vec![]))]);
    let nodes = build_tree(&device(vec![derived, base])).unwrap();
    assert_eq!(paths(&nodes), vec!["B", "B.R", "A", "A.R"]);
}

#[test]
fn peripheral_derived_from_an_unknown_name_keeps_its_own_content() {
    let mut p = peripheral("SPI", 0x3000, vec![reg(register("CR", 8, vec![]))]);
    p.description = Some("own".to_string());
    p.derived_from = Some("NOSUCH".to_string());
    let nodes = build_tree(&device(vec![p])).unwrap();
    assert_eq!(paths(&nodes), vec!["SPI", "SPI.CR"]);
    assert_eq!(nodes[0].tooltip, "<b>SPI</b>\nown");
    assert_eq!(nodes[1].address, Some(0x3008));
}

#[test]
fn derivation_resolver_falls_back_to_the_peripheral_itself() {
    let peripherals = vec![peripheral("A", 0, vec![]), peripheral("B", 0, vec![])];
    let names = NameIndex::build(&peripherals);
    assert_eq!(names.len(), 2);
    assert_eq!(names.find("A"), Some(0));
    assert_eq!(names.find("B"), Some(1));
    assert_eq!(names.find("C"), None);
    assert_eq!(names.find("a"), None);
    assert_eq!(names.resolve_base(&Some("A".to_string()), 1), 0);
    assert_eq!(names.resolve_base(&Some("C".to_string()), 1), 1);
    assert_eq!(names.resolve_base(&None, 1), 1);
    assert_eq!(names.resolve_base(&Some("B".to_string()), 1), 1);
}

#[test]
fn derivation_is_one_step_deep() {
    let a = peripheral("A", 0x100, vec![reg(register("RA", 0, vec![]))]);
    let mut b = peripheral("B", 0x200, vec![reg(register("RB", 0, vec![]))]);
    b.derived_from = Some("A".to_string());
    let mut c = peripheral("C", 0x300, vec![]);
    c.derived_from = Some("B".to_string());
    let nodes = build_tree(&device(vec![a, b, c])).unwrap();
    assert_eq!(paths(&nodes), vec!["A", "A.RA", "B", "B.RA", "C", "C.RB"]);
}

#[test]
fn peripherals_that_derive_from_each_other_do_not_loop() {
    let mut a = peripheral("A", 0x100, vec![reg(register("RA", 0, vec![]))]);
    a.derived_from = Some("B".to_string());
    let mut b = peripheral("B", 0x200, vec![reg(register("RB", 0, vec![]))]);
    b.derived_from = Some("A".to_string());
    let mut c = peripheral("C", 0x300, vec![reg(register("RC", 0, vec![]))]);
    c.derived_from = Some("C".to_string());
    let nodes = build_tree(&device(vec![a, b, c])).unwrap();
    assert_eq!(paths(&nodes), vec!["A", "A.RB", "B", "B.RA", "C", "C.RC"]);
}

#[test]
fn peripherals_of_one_name_give_one_peripheral_in_the_first_place() {
    let first = peripheral("A", 0x100, vec![reg(register("OLD", 0, vec![]))]);
    let second = peripheral("B", 0x200, vec![]);
    let third = peripheral("A", 0x300, vec![reg(register("NEW", 4, vec![]))]);
    let peripherals = vec![first, second, third];
    let names = NameIndex::build(&peripherals);
    assert_eq!(names.len(), 2);
    assert_eq!(names.peripheral_at(0), Some(2));
    assert_eq!(names.peripheral_at(1), Some(1));
    assert_eq!(names.peripheral_at(2), None);
    assert_eq!(names.find("A"), Some(2));
    let nodes = build_tree(&device(peripherals)).unwrap();
    assert_eq!(paths(&nodes), vec!["A", "A.NEW", "B"]);
    assert_eq!(nodes[1].address, Some(0x304));
}

#[test]
fn empty_device_has_no_rows() {
    assert_eq!(build_tree(&device(vec![])).unwrap(), vec![]);
}

#[test]
fn order_of_the_description_is_kept() {
    let p = peripheral(
        "P",
        0,
        vec![
            reg(register("Z", 8, vec![field("B", 4, 1), field("A", 0, 1)])),
            clu(cluster("M", 4, vec![])),
            reg(register("A", 0, vec![])),
        ],
    );
    let q = peripheral("A", 0, vec![]);
    let nodes = build_tree(&device(vec![p, q])).unwrap();
    assert_eq!(paths(&nodes), vec!["P", "P.Z", "P.Z.B", "P.Z.A", "P.M", "P.A", "A"]);
}

#[test]
fn paths_of_a_built_tree_are_distinct() {
    let mut arr = register("R%s", 0x40, vec![field("F", 0, 1), field("G", 1, 1)]);
    arr.array = Some(ArrayDim { dim: 4, increment: 4, labels: None });
    let mut carr = cluster("C[%s]", 0x100, vec![reg(register("R", 0, vec![field("F", 0, 1)]))]);
    carr.array = Some(ArrayDim { dim: 2, increment: 0x10, labels: None });
    let base = peripheral("A", 0, vec![reg(arr), clu(carr), reg(register("R", 0, vec![]))]);
    let mut derived = peripheral("B", 0x1000, vec![]);
    derived.derived_from = Some("A".to_string());
    let nodes = build_tree(&device(vec![base, derived])).unwrap();
    let mut seen: Vec<&str> = paths(&nodes);
    let count = seen.len();
    seen.sort();
    seen.dedup();
    assert_eq!(seen.len(), count);
    assert_eq!(count, 2 * (1 + 1 + 4 * 3 + 1 + 2 * 3 + 1));
    assert!(all_paths_distinct(&nodes));
    assert!(all_paths_distinct(&vec![]));
}

#[test]
fn array_without_a_placeholder_repeats_a_path() {
    let mut r = register("REG", 0, vec![]);
    r.array = Some(ArrayDim { dim: 2, increment: 4, labels: None });
    let nodes = build_tree(&device(vec![peripheral("P", 0, vec![reg(r)])])).unwrap();
    assert_eq!(paths(&nodes), vec!["P", "P.REG", "P.REG", "P.REG"]);
    assert!(!all_paths_distinct(&nodes));
}

#[test]
fn names_with_dots_can_repeat_a_path() {
    let inner = cluster("A", 0, vec![reg(register("B", 0, vec![]))]);
    let p = peripheral("P", 0, vec![clu(inner), reg(register("A.B", 4, vec![]))]);
    let nodes = build_tree(&device(vec![p])).unwrap();
    assert_eq!(paths(&nodes), vec!["P", "P.A", "P.A.B", "P.A.B"]);
    assert!(!all_paths_distinct(&nodes));
}

#[test]
fn address_overflow_is_an_error() {
    let d = device(vec![peripheral("P", u64::MAX, vec![reg(register("R", 1, vec![]))])]);
    assert_eq!(build_tree(&d), Err(BuildError::AddressOverflow));
    let mut r = register("R%s", 0, vec![]);
    r.array = Some(ArrayDim { dim: 3, increment: 4, labels: None });
    let d = device(vec![peripheral("P", u64::MAX - 7, vec![reg(r)])]);
    assert_eq!(build_tree(&d), Err(BuildError::AddressOverflow));
    let c = cluster("C", 8, vec![]);
    let d = device(vec![peripheral("P", u64::MAX - 7, vec![clu(c)])]);
    assert_eq!(build_tree(&d), Err(BuildError::AddressOverflow));
}

#[test]
fn highest_address_is_no_overflow() {
    let d = device(vec![peripheral("P", u64::MAX - 1, vec![reg(register("R", 1, vec![]))])]);
    let nodes = build_tree(&d).unwrap();
    assert_eq!(nodes[1].address, Some(u64::MAX));
}

#[test]
fn array_with_too_few_labels_is_an_error() {
    let mut r = register("R%s", 0, vec![]);
    r.array = Some(ArrayDim { dim: 2, increment: 4, labels: Some(vec!["A".to_string()]) });
    let d = device(vec![peripheral("P", 0, vec![reg(r)])]);
    assert_eq!(build_tree(&d), Err(BuildError::MissingIndexLabel));
    let mut f = field("F%s", 0, 1);
    f.array = Some(ArrayDim { dim: 1, increment: 1, labels: Some(vec![]) });
    let d = device(vec![peripheral("P", 0, vec![reg(register("R", 0, vec![f]))])]);
    assert_eq!(build_tree(&d), Err(BuildError::MissingIndexLabel));
    let mut c = cluster("C%s", 0, vec![]);
    c.array = Some(ArrayDim { dim: 1, increment: 1, labels: Some(vec![]) });
    let d = device(vec![peripheral("P", 0, vec![clu(c)])]);
    assert_eq!(build_tree(&d), Err(BuildError::MissingIndexLabel));
}

#[test]
fn field_without_bits_at_bit_zero_is_an_error() {
    let d = device(vec![peripheral(
        "P",
        0,
        vec![reg(register("R", 0, vec![field("F", 0, 0)]))],
    )]);
    assert_eq!(build_tree(&d), Err(BuildError::EmptyBitRange));
}

#[test]
fn field_up_to_the_highest_bit_number() {
    let d = device(vec![peripheral(
        "P",
        0,
        vec![reg(register("R", 0, vec![field("F", u32::MAX, u32::MAX), field("G", 5, 0)]))],
    )]);
    let nodes = build_tree(&d).unwrap();
    assert_eq!(nodes[2].description, "[8589934589-4294967295]: ");
    assert_eq!(nodes[3].description, "[4-5]: ");
}

#[test]
fn first_error_in_order_is_reported() {
    let mut bad = field("F", 0, 1);
    bad.enumerated_values =
        vec![EnumeratedValueSetRef::Derived { reference: "a.b".to_string() }];
    let d = device(vec![
        peripheral("P", 0, vec![reg(register("R", 0, vec![bad]))]),
        peripheral("Q", u64::MAX, vec![reg(register("R", 1, vec![]))]),
    ]);
    assert_eq!(build_tree(&d), Err(BuildError::UnsupportedReference("a.b".to_string())));
}

#[test]
fn values_of_a_field_are_listed_in_its_tooltip() {
    let mut f = field("MODE", 0, 2);
    f.enumerated_values = vec![EnumeratedValueSetRef::Inline {
        name: Some("Mode".to_string()),
        values: vec![
            EnumValue { name: "OFF".to_string(), value: Some(0) },
            EnumValue { name: "DEFAULT".to_string(), value: None },
            EnumValue { name: "ON".to_string(), value: Some(3) },
        ],
    }];
    let d = device(vec![peripheral("P", 0, vec![reg(register("R", 0, vec![f]))])]);
    let nodes = build_tree(&d).unwrap();
    assert_eq!(
        nodes[2].tooltip,
        "<b>P.R.MODE field</b>\n [1-0]: \nValues:\n\t0 : OFF\n\t3 : ON"
    );
    assert_eq!(nodes[2].description, "[1-0]: ");
}

#[test]
fn errors_say_what_is_wrong() {
    assert_eq!(BuildError::AddressOverflow.message(), "an address does not fit in 64 bits");
    assert_eq!(
        BuildError::MissingIndexLabel.message(),
        "an array has fewer labels than elements"
    );
    assert_eq!(BuildError::EmptyBitRange.message(), "a field of no bits has no highest bit");
    assert_eq!(
        BuildError::UnsupportedReference("a.b".to_string()).message(),
        "the reference `a.b` has neither one, three nor four segments"
    );
    assert_eq!(
        BuildError::UnknownReference("Mode".to_string()).message(),
        "the reference `Mode` names no enumerated value set"
    );
}
