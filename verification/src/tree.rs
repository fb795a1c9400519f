//! The hierarchy builder: one walk over the peripherals of a device, in the
//! order in which their names first occur, and below each peripheral over
//! the content of the definition that it takes its content from.
use crate::clusters::add_children;
use crate::clusters::children_rows;
use crate::enums::EvIndex;
use crate::model::node_views;
use crate::model::BuildError;
use crate::model::BuildErrorView;
use crate::model::DeviceDef;
use crate::model::EnumValue;
use crate::model::FlatNode;
use crate::model::FlatNodeView;
use crate::model::NodeKind;
use crate::model::PeripheralDef;
use crate::names::derivation_base;
use crate::names::indexed;
use crate::names::lemma_entry_position;
use crate::names::lemma_indexed;
use crate::names::peripheral_names;
use crate::names::NameIndex;
use crate::rows::push_row;
use crate::rows::row;
use crate::sets::collect_sets;
use crate::sets::device_index;
use crate::text::collapse_spaces;
use crate::text::rendered_description;
use crate::text::same_text;
use crate::text::text_or_empty;
use vstd::prelude::*;
use vstd::string::StringExecFns;

verus! {

/// The tooltip of a peripheral called `name` that takes its content from the
/// definition called `base`. It names the base where that is another.
pub open spec fn peripheral_tooltip(
    name: Seq<char>,
    base: Seq<char>,
    description: Seq<char>,
) -> Seq<char> {
    if name != base {
        "<b>"@ + name + "</b>\n  derived from: <i>"@ + base + "</i>\n"@ + description
    } else {
        "<b>"@ + name + "</b>\n"@ + description
    }
}

/// The row of the peripheral `p`, which takes its content from `base`: its
/// own name and address, the description of the base.
pub open spec fn peripheral_row(p: PeripheralDef, base: PeripheralDef) -> FlatNodeView {
    let description = collapse_spaces(text_or_empty(base.description));
    row(
        NodeKind::Peripheral,
        p.name@,
        p.name@,
        0,
        Some(p.base_address),
        description,
        peripheral_tooltip(p.name@, base.name@, description),
        None,
        None,
        false,
    )
}

/// The rows of the peripheral `p` and of the content of `base`, laid out
/// from the address of `p` and under the path of `p`. References to value
/// sets are looked up in the scope of `base`.
pub open spec fn peripheral_rows(
    index: Seq<(Seq<char>, Vec<EnumValue>)>,
    p: PeripheralDef,
    base: PeripheralDef,
) -> Result<Seq<FlatNodeView>, BuildErrorView> {
    match children_rows(
        index,
        base.children@,
        base.children@.len(),
        p.name@,
        base.name@,
        p.base_address,
        1,
    ) {
        Err(e) => Err(e),
        Ok(children) => Ok(seq![peripheral_row(p, base)] + children),
    }
}

/// The rows of the peripherals at the first `n` of `entries`.
pub open spec fn device_rows(
    index: Seq<(Seq<char>, Vec<EnumValue>)>,
    peripherals: Seq<PeripheralDef>,
    entries: Seq<(Seq<char>, usize)>,
    n: nat,
) -> Result<Seq<FlatNodeView>, BuildErrorView>
    decreases n,
{
    if n == 0 {
        Ok(Seq::empty())
    } else {
        match device_rows(index, peripherals, entries, (n - 1) as nat) {
            Err(e) => Err(e),
            Ok(before) => {
                let own = entries[n - 1].1;
                let base = derivation_base(entries, peripherals[own as int].derived_from, own);
                match peripheral_rows(index, peripherals[own as int], peripherals[base as int]) {
                    Err(e) => Err(e),
                    Ok(rows) => Ok(before + rows),
                }
            },
        }
    }
}

/// The flattened tree of a device: for each name of a peripheral, in the
/// order in which the names first occur, the rows of the last peripheral of
/// that name. Either all rows or an error: never some of the rows.
pub open spec fn tree_rows(device: DeviceDef) -> Result<Seq<FlatNodeView>, BuildErrorView> {
    let entries = indexed(peripheral_names(device.peripherals@));
    device_rows(device_index(device), device.peripherals@, entries, entries.len())
}

/// An error among the first `n` peripherals is the error of all of them.
proof fn lemma_device_rows_error(
    index: Seq<(Seq<char>, Vec<EnumValue>)>,
    peripherals: Seq<PeripheralDef>,
    entries: Seq<(Seq<char>, usize)>,
    n: nat,
    m: nat,
)
    requires
        n <= m,
        device_rows(index, peripherals, entries, n) is Err,
    ensures
        device_rows(index, peripherals, entries, m) == device_rows(index, peripherals, entries, n),
    decreases m,
{
    if n < m {
        lemma_device_rows_error(index, peripherals, entries, n, (m - 1) as nat);
    }
}

fn make_peripheral_tooltip(name: &str, base: &str, description: &str) -> (r: String)
    ensures
        r@ == peripheral_tooltip(name@, base@, description@),
{
    let mut r = String::from_str("<b>");
    r.append(name);
    if !same_text(name, base) {
        r.append("</b>\n  derived from: <i>");
        r.append(base);
        r.append("</i>\n");
    } else {
        r.append("</b>\n");
    }
    r.append(description);
    r
}

/// Appends the rows of the peripheral `p` with the content of `base`.
pub fn add_peripheral_tree(
    nodes: &mut Vec<FlatNode>,
    index: &EvIndex,
    p: &PeripheralDef,
    base: &PeripheralDef,
) -> (outcome: Result<(), BuildError>)
    ensures
        match outcome {
            Ok(_) => peripheral_rows(index@, *p, *base) is Ok && node_views(final(nodes)@)
                == node_views(old(nodes)@) + peripheral_rows(index@, *p, *base)->Ok_0,
            Err(e) => peripheral_rows(index@, *p, *base) == Err::<
                Seq<FlatNodeView>,
                BuildErrorView,
            >(e@),
        },
{
    let description = rendered_description(&base.description);
    let tooltip = make_peripheral_tooltip(
        p.name.as_str(),
        base.name.as_str(),
        description.as_str(),
    );
    let ghost start = node_views(nodes@);
    let ghost head = peripheral_row(*p, *base);
    push_row(
        nodes,
        NodeKind::Peripheral,
        p.name.clone(),
        p.name.clone(),
        0,
        Some(p.base_address),
        description,
        tooltip,
        None,
        None,
        false,
    );
    assert(1 <= nodes.len());
    match add_children(
        nodes,
        index,
        &base.children,
        p.name.as_str(),
        base.name.as_str(),
        p.base_address,
        1,
    ) {
        Err(e) => Err(e),
        Ok(()) => {
            let ghost children = children_rows(
                index@,
                base.children@,
                base.children@.len(),
                p.name@,
                base.name@,
                p.base_address,
                1,
            )->Ok_0;
            assert(start.push(head) + children =~= start + (seq![head] + children));
            Ok(())
        },
    }
}

/// Flattens the device: resolves the derivation of each peripheral, expands
/// the arrays, adds up the addresses and resolves the references to
/// enumerated values. The rows stand in the order of the description.
pub fn build_tree(device: &DeviceDef) -> (r: Result<Vec<FlatNode>, BuildError>)
    ensures
        match r {
            Ok(nodes) => tree_rows(*device) == Ok::<Seq<FlatNodeView>, BuildErrorView>(
                node_views(nodes@),
            ),
            Err(e) => tree_rows(*device) == Err::<Seq<FlatNodeView>, BuildErrorView>(e@),
        },
{
    let names = NameIndex::build(&device.peripherals);
    let index = collect_sets(device, &names);
    let mut nodes: Vec<FlatNode> = Vec::new();
    let count = names.len();
    let mut k: usize = 0;
    let ghost entries = names.entries();
    proof {
        assert(device.peripherals.len() == device.peripherals@.len());
        lemma_indexed(peripheral_names(device.peripherals@));
        assert(node_views(nodes@) =~= Seq::<FlatNodeView>::empty());
    }
    while k < count
        invariant
            k <= count == entries.len(),
            entries == names.entries(),
            entries == indexed(peripheral_names(device.peripherals@)),
            index@ == device_index(*device),
            forall|i: int|
                0 <= i < entries.len() ==> 0 <= (#[trigger] entries[i]).1
                    < device.peripherals@.len(),
            device_rows(index@, device.peripherals@, entries, k as nat) == Ok::<
                Seq<FlatNodeView>,
                BuildErrorView,
            >(node_views(nodes@)),
        decreases count - k,
    {
        match names.peripheral_at(k) {
            None => {},
            Some(own) => {
                let p = &device.peripherals[own];
                let at = names.resolve_base(&p.derived_from, own);
                proof {
                    if p.derived_from is Some {
                        lemma_entry_position(entries, p.derived_from->Some_0@);
                    }
                }
                let base = &device.peripherals[at];
                let ghost before = node_views(nodes@);
                match add_peripheral_tree(&mut nodes, &index, p, base) {
                    Err(e) => {
                        proof {
                            lemma_device_rows_error(
                                index@,
                                device.peripherals@,
                                entries,
                                (k + 1) as nat,
                                entries.len(),
                            );
                        }
                        return Err(e);
                    },
                    Ok(()) => {},
                }
            },
        }
        k = k + 1;
    }
    Ok(nodes)
}

} // verus!
