//! Writing a selection: the text of the selection file, which names the
//! description and then, one line each and in the order of the tree, the
//! registers and fields that are enabled.
use crate::model::node_views;
use crate::model::FlatNode;
use crate::model::FlatNodeView;
use crate::model::NodeKind;
use crate::text::address_text;
use crate::text::decimal;
use crate::text::push_address;
use crate::text::push_decimal;
use vstd::prelude::*;
use vstd::string::StringExecFns;

verus! {

/// What a line holds in the place of the alias: the alias, or for a row
/// without one the sentinel `_`.
pub open spec fn alias_token(alias: Seq<char>) -> Seq<char> {
    if alias.len() > 0 {
        alias
    } else {
        seq!['_']
    }
}

/// The address as a line holds it; nothing for a row without an address.
pub open spec fn recorded_address(address: Option<u64>) -> Seq<char> {
    match address {
        Some(a) => address_text(a as nat),
        None => Seq::empty(),
    }
}

/// The lowest bit as a line holds it.
pub open spec fn recorded_offset(offset: Option<u64>) -> Seq<char> {
    match offset {
        Some(o) => decimal(o as nat),
        None => Seq::empty(),
    }
}

/// The width as a line holds it.
pub open spec fn recorded_width(width: Option<u32>) -> Seq<char> {
    match width {
        Some(w) => decimal(w as nat),
        None => Seq::empty(),
    }
}

/// The line of an enabled register: its path, its alias or `_`, its address.
pub open spec fn register_line(n: FlatNodeView) -> Seq<char> {
    n.path + seq![' '] + alias_token(n.alias) + seq![' '] + recorded_address(n.address) + seq![
        '\n',
    ]
}

/// The line of an enabled field: as that of a register, and behind it the
/// field's lowest bit and its width.
pub open spec fn field_line(n: FlatNodeView) -> Seq<char> {
    n.path + seq![' '] + alias_token(n.alias) + seq![' '] + recorded_address(n.address) + seq![
        ' ',
    ] + recorded_offset(n.bit_offset) + seq![' '] + recorded_width(n.bit_width) + seq!['\n']
}

/// Whether the row has a line: it is enabled, stands below a peripheral and
/// is a register or a field.
pub open spec fn has_line(n: FlatNodeView) -> bool {
    n.enabled && n.depth > 0 && (n.kind == NodeKind::Register || n.kind == NodeKind::Field)
}

/// What the row adds to the file: its line, or nothing.
pub open spec fn node_line(n: FlatNodeView) -> Seq<char> {
    if !has_line(n) {
        Seq::empty()
    } else if n.kind == NodeKind::Register {
        register_line(n)
    } else {
        field_line(n)
    }
}

/// The lines of the first `n` rows.
pub open spec fn node_lines(nodes: Seq<FlatNodeView>, n: nat) -> Seq<char>
    decreases n,
{
    if n == 0 {
        Seq::empty()
    } else {
        node_lines(nodes, (n - 1) as nat) + node_line(nodes[n - 1])
    }
}

/// The text of the selection file: the description's name on the first line,
/// then the lines of the rows.
pub open spec fn encoded(source: Seq<char>, nodes: Seq<FlatNodeView>) -> Seq<char> {
    source + seq!['\n'] + node_lines(nodes, nodes.len())
}

fn push_line_start(out: &mut String, node: &FlatNode)
    ensures
        final(out)@ == old(out)@ + (node@.path + seq![' '] + alias_token(node@.alias) + seq![' ']
            + recorded_address(node@.address)),
{
    out.append(node.path.as_str());
    out.push(' ');
    if !node.alias.as_str().is_empty() {
        out.append(node.alias.as_str());
    } else {
        out.push('_');
    }
    out.push(' ');
    let ghost before = out@;
    match node.address {
        Some(a) => {
            push_address(out, a);
        },
        None => {},
    }
    assert(out@ =~= before + recorded_address(node@.address));
    assert(out@ =~= old(out)@ + (node@.path + seq![' '] + alias_token(node@.alias) + seq![' ']
        + recorded_address(node@.address)));
}

/// Appends the line of the row, if it has one.
pub fn push_node_line(out: &mut String, node: &FlatNode)
    ensures
        final(out)@ == old(out)@ + node_line(node@),
{
    if !node.enabled || node.depth == 0 {
        assert(out@ =~= old(out)@ + node_line(node@));
        return ;
    }
    match node.kind {
        NodeKind::Register => {
            push_line_start(out, node);
            out.push('\n');
            assert(out@ =~= old(out)@ + register_line(node@));
        },
        NodeKind::Field => {
            push_line_start(out, node);
            out.push(' ');
            let ghost a = out@;
            match node.bit_offset {
                Some(o) => {
                    push_decimal(out, o);
                },
                None => {},
            }
            assert(out@ =~= a + recorded_offset(node@.bit_offset));
            out.push(' ');
            let ghost b = out@;
            match node.bit_width {
                Some(w) => {
                    push_decimal(out, w as u64);
                },
                None => {},
            }
            assert(out@ =~= b + recorded_width(node@.bit_width));
            out.push('\n');
            assert(out@ =~= old(out)@ + field_line(node@));
        },
        _ => {
            assert(out@ =~= old(out)@ + node_line(node@));
        },
    }
}

/// The text of the selection file for the tree `nodes` of the description
/// `source`.
pub fn encode_selection(source: &str, nodes: &Vec<FlatNode>) -> (r: String)
    ensures
        r@ == encoded(source@, node_views(nodes@)),
{
    let mut out = String::from_str(source);
    out.push('\n');
    let mut i: usize = 0;
    let ghost views = node_views(nodes@);
    assert(out@ =~= source@ + seq!['\n'] + node_lines(views, 0));
    while i < nodes.len()
        invariant
            i <= nodes@.len(),
            views == node_views(nodes@),
            out@ == source@ + seq!['\n'] + node_lines(views, i as nat),
        decreases nodes@.len() - i,
    {
        let ghost before = node_lines(views, i as nat);
        push_node_line(&mut out, &nodes[i]);
        assert(views[i as int] == nodes@[i as int]@);
        assert(out@ =~= source@ + seq!['\n'] + (before + node_line(views[i as int])));
        i = i + 1;
    }
    out
}

} // verus!
