use regtree::decode::decode_selection;
use regtree::decode::split_tokens;
use regtree::decode::DecodeError;
use regtree::encode::encode_selection;
use regtree::encode::push_node_line;
use regtree::model::DeviceDef;
use regtree::model::FieldDef;
use regtree::model::FlatNode;
use regtree::model::NodeKind;
use regtree::model::PeripheralDef;
use regtree::model::RegisterClusterNode;
use regtree::model::RegisterDef;
use regtree::selection::all_children_enabled;
use regtree::selection::find_and_select;
use regtree::selection::find_node;
use regtree::selection::on_toggle;
use regtree::selection::select_items;
use regtree::selection::set_alias;
use regtree::selection::SelectionEntry;
use regtree::selection::SelectionTable;
use regtree::text::to_chars;
use regtree::tree::build_tree;

fn sample_device() -> DeviceDef {
    let field = |name: &str, offset: u32, width: u32| FieldDef {
        name: name.to_string(),
        description: None,
        bit_offset: offset,
        bit_width: width,
        enumerated_values: vec![],
        array: None,
    };
    let register = |name: &str, offset: u32, fields: Vec<FieldDef>| {
        RegisterClusterNode::Register(RegisterDef {
            name: name.to_string(),
            description: None,
            address_offset: offset,
            fields,
            array: None,
        })
    };
    DeviceDef {
        peripherals: vec![
            PeripheralDef {
                name: "TIM".to_string(),
                base_address: 0x4000_0000,
                description: None,
                derived_from: None,
                children: vec![
                    register("CR", 0x0, vec![field("EN", 0, 1), field("MODE", 4, 3)]),
                    register("SR", 0x4, vec![field("UIF", 0, 1)]),
                ],
            },
            PeripheralDef {
                name: "SPI".to_string(),
                base_address: 0x4001_3000,
                description: None,
                derived_from: None,
                children: vec![register("DR", 0xc, vec![])],
            },
        ],
    }
}

fn entry(path: &str, alias: Option<&str>, recorded: &[&str]) -> SelectionEntry {
    SelectionEntry {
        path: path.to_string(),
        alias: alias.map(|a| a.to_string()),
        recorded: recorded.iter().map(|r| r.to_string()).collect(),
    }
}

fn enabled_paths(nodes: &[FlatNode]) -> Vec<&str> {
    nodes.iter().filter(|n| n.enabled).map(|n| n.path.as_str()).collect()
}

#[test]
fn encoded_file_names_the_source_and_the_enabled_leaves() {
    let mut nodes = build_tree(&sample_device()).unwrap();
    assert_eq!(on_toggle(&mut nodes, "TIM.SR"), Some(true));
    assert_eq!(on_toggle(&mut nodes, "TIM.CR.MODE"), Some(true));
    assert!(set_alias(&mut nodes, "TIM.CR.MODE", "mode"));
    assert_eq!(
        encode_selection("chip.svd", &nodes),
        "chip.svd\nTIM.CR.MODE mode 0x40000000 4 3\nTIM.SR _ 0x40000004\n"
    );
}

#[test]
fn encoded_file_of_nothing_enabled_is_the_source_line() {
    let nodes = build_tree(&sample_device()).unwrap();
    assert_eq!(encode_selection("/tmp/a b.svd", &nodes), "/tmp/a b.svd\n");
    assert_eq!(encode_selection("", &vec![]), "\n");
}

#[test]
fn only_enabled_registers_and_fields_below_a_peripheral_have_a_line() {
    let mut nodes = build_tree(&sample_device()).unwrap();
    for node in nodes.iter_mut() {
        node.enabled = true;
    }
    nodes[0].kind = NodeKind::Register;
    let text = encode_selection("s", &nodes);
    assert_eq!(
        text,
        "s\nTIM.CR _ 0x40000000\nTIM.CR.EN _ 0x40000000 0 1\nTIM.CR.MODE _ 0x40000000 4 3\n\
         TIM.SR _ 0x40000004\nTIM.SR.UIF _ 0x40000004 0 1\nSPI.DR _ 0x4001300c\n"
    );
    let mut line = String::from("x");
    let mut array = nodes[1].clone();
    array.kind = NodeKind::RegisterArray;
    push_node_line(&mut line, &array);
    array.kind = NodeKind::Cluster;
    push_node_line(&mut line, &array);
    assert_eq!(line, "x");
    array.kind = NodeKind::Field;
    array.address = None;
    array.bit_offset = None;
    array.bit_width = None;
    push_node_line(&mut line, &array);
    assert_eq!(line, "xTIM.CR _   \n");
}

#[test]
fn decoded_file_holds_the_source_and_the_entries() {
    let table =
        decode_selection("chip.svd\nTIM.CR.MODE mode 0x40000000 4 3\nTIM.SR _ 0x40000004\n")
            .unwrap();
    assert_eq!(
        table,
        SelectionTable {
            source: "chip.svd".to_string(),
            entries: vec![
                entry("TIM.CR.MODE", Some("mode"), &["0x40000000", "4", "3"]),
                entry("TIM.SR", None, &["0x40000004"]),
            ],
        }
    );
}

#[test]
fn decoding_tolerates_blank_lines_and_whitespace_at_the_ends() {
    let table = decode_selection(
        "\n   \n\t chip file.svd \r\n\n  TIM.SR   _\t0x40000004  \r\n\r\n \u{a0} \nSPI.DR\u{2003}data\n\n",
    )
    .unwrap();
    assert_eq!(table.source, "chip file.svd");
    assert_eq!(
        table.entries,
        vec![entry("TIM.SR", None, &["0x40000004"]), entry("SPI.DR", Some("data"), &[])]
    );
}

#[test]
fn decoding_without_a_final_line_break() {
    let table = decode_selection("a.svd\nP.R x").unwrap();
    assert_eq!(table.source, "a.svd");
    assert_eq!(table.entries, vec![entry("P.R", Some("x"), &[])]);
    let table = decode_selection("a.svd").unwrap();
    assert_eq!(table.source, "a.svd");
    assert_eq!(table.entries, vec![]);
}

#[test]
fn file_without_a_source_is_refused() {
    assert_eq!(decode_selection(""), Err(DecodeError::MissingSource));
    assert_eq!(decode_selection("\n \n\t\n"), Err(DecodeError::MissingSource));
}

#[test]
fn line_of_a_single_word_fails_the_whole_file() {
    assert_eq!(
        decode_selection("chip.svd\nTIM.SR _ 0x0\n\nTIM.CR\nSPI.DR _\n"),
        Err(DecodeError::MalformedLine(3))
    );
    assert_eq!(decode_selection("chip.svd\n alone "), Err(DecodeError::MalformedLine(1)));
}

#[test]
fn source_line_may_be_a_single_word() {
    assert_eq!(decode_selection("one\n").unwrap().source, "one");
}

#[test]
fn alias_sentinel_is_no_alias() {
    let table = decode_selection("s\nA.B _\nA.C __\nA.D _x 1\n").unwrap();
    assert_eq!(table.entries[0].alias, None);
    assert_eq!(table.entries[1].alias, Some("__".to_string()));
    assert_eq!(table.entries[2].alias, Some("_x".to_string()));
}

#[test]
fn replay_with_the_sentinel_leaves_the_alias_empty() {
    let mut nodes = build_tree(&sample_device()).unwrap();
    let table = decode_selection("chip.svd\nTIM.SR _ 0x40000004\n").unwrap();
    select_items(&mut nodes, &table);
    let sr = &nodes[find_node(&nodes, "TIM.SR").unwrap()];
    assert!(sr.enabled);
    assert_eq!(sr.alias, "");
    assert!(nodes.iter().all(|n| n.alias != "_"));
}

#[test]
fn replay_with_the_sentinel_keeps_an_alias_that_was_there() {
    let mut nodes = build_tree(&sample_device()).unwrap();
    assert!(set_alias(&mut nodes, "TIM.SR", "status"));
    let table = decode_selection("chip.svd\nTIM.SR _\n").unwrap();
    select_items(&mut nodes, &table);
    let sr = &nodes[find_node(&nodes, "TIM.SR").unwrap()];
    assert!(sr.enabled);
    assert_eq!(sr.alias, "status");
}

#[test]
fn round_trip_restores_the_selection_on_a_fresh_tree() {
    let device = sample_device();
    let mut nodes = build_tree(&device).unwrap();
    assert_eq!(on_toggle(&mut nodes, "TIM.SR"), Some(true));
    assert_eq!(on_toggle(&mut nodes, "TIM.CR.EN"), Some(true));
    assert!(set_alias(&mut nodes, "TIM.CR.EN", "timer_enable"));
    let text = encode_selection("chip.svd", &nodes);
    let table = decode_selection(&text).unwrap();
    assert_eq!(table.source, "chip.svd");
    let mut fresh = build_tree(&device).unwrap();
    let places = select_items(&mut fresh, &table);
    assert_eq!(enabled_paths(&fresh), vec!["TIM.CR.EN", "TIM.SR"]);
    assert_eq!(places, vec![2, 4]);
    assert_eq!(fresh[2].alias, "timer_enable");
    assert_eq!(fresh[4].alias, "");
    assert_eq!(fresh, nodes);
    for node in fresh.iter() {
        if node.path != "TIM.CR.EN" && node.path != "TIM.SR" {
            assert!(!node.enabled);
            assert_eq!(node.alias, "");
        }
    }
    assert_eq!(encode_selection("chip.svd", &fresh), text);
}

#[test]
fn replay_never_selects_a_peripheral() {
    let mut nodes = build_tree(&sample_device()).unwrap();
    let table = SelectionTable {
        source: "s".to_string(),
        entries: vec![entry("TIM", Some("t"), &[]), entry("TIM.CR", Some("c"), &[])],
    };
    assert!(!find_and_select(&mut nodes, 0, &table));
    assert!(find_and_select(&mut nodes, 1, &table));
    assert!(!find_and_select(&mut nodes, 2, &table));
    assert_eq!(enabled_paths(&nodes), vec!["TIM.CR"]);
    assert_eq!(nodes[0].alias, "");
    assert_eq!(nodes[1].alias, "c");
    let before = nodes.clone();
    assert!(!find_and_select(&mut nodes, 100, &table));
    assert_eq!(nodes, before);
}

#[test]
fn children_of_a_row_are_the_rows_directly_below_it() {
    let mut nodes = build_tree(&sample_device()).unwrap();
    // TIM, TIM.CR, TIM.CR.EN, TIM.CR.MODE, TIM.SR, TIM.SR.UIF, SPI, SPI.DR
    assert!(!all_children_enabled(&nodes, 0));
    assert!(!all_children_enabled(&nodes, 1));
    assert!(all_children_enabled(&nodes, 2));
    assert!(all_children_enabled(&nodes, 7));
    assert!(all_children_enabled(&nodes, 8));
    on_toggle(&mut nodes, "TIM.CR.EN");
    assert!(!all_children_enabled(&nodes, 1));
    on_toggle(&mut nodes, "TIM.CR.MODE");
    assert!(all_children_enabled(&nodes, 1));
    assert!(!all_children_enabled(&nodes, 0));
    on_toggle(&mut nodes, "TIM.CR");
    on_toggle(&mut nodes, "TIM.SR");
    assert!(all_children_enabled(&nodes, 0));
    assert!(!all_children_enabled(&nodes, 4));
    assert!(!all_children_enabled(&nodes, 6));
    on_toggle(&mut nodes, "SPI.DR");
    assert!(all_children_enabled(&nodes, 6));
    assert!(!nodes[0].enabled);
}

#[test]
fn replay_takes_the_last_entry_of_a_path() {
    let mut nodes = build_tree(&sample_device()).unwrap();
    let table = decode_selection("s\nTIM.SR first\nTIM.SR second\nNO.SUCH x\n").unwrap();
    assert_eq!(table.lookup("TIM.SR").unwrap().alias, Some("second".to_string()));
    assert!(table.lookup("TIM").is_none());
    let places = select_items(&mut nodes, &table);
    assert_eq!(places, vec![4]);
    assert_eq!(nodes[4].alias, "second");
}

#[test]
fn replay_of_an_empty_selection_changes_nothing() {
    let mut nodes = build_tree(&sample_device()).unwrap();
    let before = nodes.clone();
    let table = SelectionTable { source: "s".to_string(), entries: vec![] };
    assert_eq!(select_items(&mut nodes, &table), Vec::<usize>::new());
    assert_eq!(nodes, before);
}

#[test]
fn toggling_changes_one_row_only() {
    let mut nodes = build_tree(&sample_device()).unwrap();
    let before = nodes.clone();
    assert_eq!(on_toggle(&mut nodes, "TIM.CR"), Some(true));
    assert_eq!(enabled_paths(&nodes), vec!["TIM.CR"]);
    for (i, node) in nodes.iter().enumerate() {
        if node.path != "TIM.CR" {
            assert_eq!(node, &before[i]);
        }
    }
    assert_eq!(on_toggle(&mut nodes, "TIM.CR"), Some(false));
    assert_eq!(nodes, before);
    assert_eq!(on_toggle(&mut nodes, "TIM.NOPE"), None);
    assert_eq!(nodes, before);
}

#[test]
fn alias_is_set_and_taken_away() {
    let mut nodes = build_tree(&sample_device()).unwrap();
    let before = nodes.clone();
    assert!(set_alias(&mut nodes, "SPI.DR", "data"));
    assert_eq!(nodes[find_node(&nodes, "SPI.DR").unwrap()].alias, "data");
    assert!(!nodes[find_node(&nodes, "SPI.DR").unwrap()].enabled);
    assert!(set_alias(&mut nodes, "SPI.DR", ""));
    assert_eq!(nodes, before);
    assert!(!set_alias(&mut nodes, "SPI.XX", "data"));
    assert_eq!(nodes, before);
}

#[test]
fn find_node_gives_the_first_row_of_a_path() {
    let nodes = build_tree(&sample_device()).unwrap();
    assert_eq!(find_node(&nodes, "TIM"), Some(0));
    assert_eq!(find_node(&nodes, "SPI.DR"), Some(7));
    assert_eq!(find_node(&nodes, "spi.dr"), None);
    assert_eq!(find_node(&vec![], "TIM"), None);
    let mut twice = nodes.clone();
    twice[3].path = "TIM".to_string();
    assert_eq!(find_node(&twice, "TIM"), Some(0));
}

#[test]
fn words_of_a_line() {
    let chars = to_chars("  ab\tc  \u{2003}d ");
    let words = split_tokens(&chars, 0, chars.len());
    assert_eq!(words, vec!["ab", "c", "d"]);
    assert_eq!(split_tokens(&chars, 3, 6), vec!["b", "c"]);
    assert_eq!(split_tokens(&chars, 0, 2), Vec::<String>::new());
    assert_eq!(split_tokens(&chars, 4, 4), Vec::<String>::new());
    let text = " x  yz\u{a0}w ";
    let expected: Vec<&str> = text.split_whitespace().collect();
    let chars = to_chars(text);
    assert_eq!(split_tokens(&chars, 0, chars.len()), expected);
}

#[test]
fn decode_errors_say_what_is_wrong() {
    assert_eq!(DecodeError::MissingSource.message(), "the file names no description");
    assert_eq!(DecodeError::MalformedLine(3).message(), "the line at index 3 has no alias");
}
