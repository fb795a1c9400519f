//! Rows of the flattened tree: how one is made, and the texts of its
//! columns.
use crate::model::lemma_node_views_push;
use crate::model::node_views;
use crate::model::BuildError;
use crate::model::BuildErrorView;
use crate::model::FlatNode;
use crate::model::FlatNodeView;
use crate::model::NodeKind;
use crate::text::decimal;
use crate::text::hex;
use crate::text::push_decimal;
use crate::text::push_hex;
use vstd::prelude::*;
use vstd::string::StringExecFns;

verus! {

/// A row as the builder leaves it: not enabled, without an alias.
pub open spec fn row(
    kind: NodeKind,
    name: Seq<char>,
    path: Seq<char>,
    depth: nat,
    address: Option<u64>,
    description: Seq<char>,
    tooltip: Seq<char>,
    bit_offset: Option<u64>,
    bit_width: Option<u32>,
    editable: bool,
) -> FlatNodeView {
    FlatNodeView {
        kind,
        name,
        path,
        depth,
        address,
        description,
        tooltip,
        bit_offset,
        bit_width,
        enabled: false,
        alias: Seq::empty(),
        editable,
    }
}

/// What a step of the walk owes: on success the rows `rows`, appended to
/// those that were there; on failure the error of `rows`.
pub open spec fn appended(
    before: Seq<FlatNode>,
    after: Seq<FlatNode>,
    outcome: Result<(), BuildError>,
    rows: Result<Seq<FlatNodeView>, BuildErrorView>,
) -> bool {
    match outcome {
        Ok(_) => rows is Ok && node_views(after) == node_views(before) + rows->Ok_0,
        Err(e) => rows == Err::<Seq<FlatNodeView>, BuildErrorView>(e@),
    }
}

pub(crate) fn push_row(
    nodes: &mut Vec<FlatNode>,
    kind: NodeKind,
    name: String,
    path: String,
    depth: usize,
    address: Option<u64>,
    description: String,
    tooltip: String,
    bit_offset: Option<u64>,
    bit_width: Option<u32>,
    editable: bool,
)
    ensures
        node_views(final(nodes)@) == node_views(old(nodes)@).push(
            row(
                kind,
                name@,
                path@,
                depth as nat,
                address,
                description@,
                tooltip@,
                bit_offset,
                bit_width,
                editable,
            ),
        ),
        final(nodes)@.len() == old(nodes)@.len() + 1,
{
    let node = FlatNode {
        kind,
        name,
        path,
        depth,
        address,
        description,
        tooltip,
        bit_offset,
        bit_width,
        enabled: false,
        alias: String::new(),
        editable,
    };
    proof {
        lemma_node_views_push(nodes@, node);
    }
    nodes.push(node);
}

/// The description column of a field: its highest and lowest bit, then its
/// description.
pub open spec fn bit_range_text(high: nat, low: nat, description: Seq<char>) -> Seq<char> {
    seq!['['] + decimal(high) + seq!['-'] + decimal(low) + seq![']', ':', ' '] + description
}

/// The heading that stands before the values of a field that has any.
pub open spec fn values_heading(values: Seq<char>) -> Seq<char> {
    if values.len() > 0 {
        "\nValues:"@
    } else {
        Seq::empty()
    }
}

/// The tooltip of a field: its path, its bits with its description, and
/// its values under their heading.
pub open spec fn field_tooltip(path: Seq<char>, range: Seq<char>, values: Seq<char>) -> Seq<
    char,
> {
    "<b>"@ + path + " field</b>\n "@ + range + values_heading(values) + values
}

/// The tooltip of an array row; `what` says what it is an array of.
pub open spec fn array_tooltip(path: Seq<char>, what: Seq<char>, description: Seq<char>) -> Seq<
    char,
> {
    "<b>"@ + path + what + "</b>\n"@ + description
}

/// The tooltip of a row with an address; `offset` is the distance from the
/// enclosing node.
pub open spec fn offset_tooltip(
    path: Seq<char>,
    what: Seq<char>,
    offset: nat,
    description: Seq<char>,
) -> Seq<char> {
    "<b>"@ + path + what + "</b>\n  offset: 0x"@ + hex(offset, 2) + seq!['\n'] + description
}

pub(crate) fn make_bit_range_text(high: u64, low: u64, description: &str) -> (r: String)
    ensures
        r@ == bit_range_text(high as nat, low as nat, description@),
{
    let mut r = String::new();
    r.push('[');
    push_decimal(&mut r, high);
    r.push('-');
    push_decimal(&mut r, low);
    r.push(']');
    r.push(':');
    r.push(' ');
    r.append(description);
    assert(r@ =~= bit_range_text(high as nat, low as nat, description@));
    r
}

pub(crate) fn make_field_tooltip(path: &str, range: &str, values: &str) -> (r: String)
    ensures
        r@ == field_tooltip(path@, range@, values@),
{
    let mut r = String::from_str("<b>");
    r.append(path);
    r.append(" field</b>\n ");
    r.append(range);
    if !values.is_empty() {
        r.append("\nValues:");
    }
    r.append(values);
    assert(r@ =~= field_tooltip(path@, range@, values@));
    r
}

pub(crate) fn make_array_tooltip(path: &str, what: &str, description: &str) -> (r: String)
    ensures
        r@ == array_tooltip(path@, what@, description@),
{
    let mut r = String::from_str("<b>");
    r.append(path);
    r.append(what);
    r.append("</b>\n");
    r.append(description);
    r
}

pub(crate) fn make_offset_tooltip(path: &str, what: &str, offset: u64, description: &str) -> (r: String)
    ensures
        r@ == offset_tooltip(path@, what@, offset as nat, description@),
{
    let mut r = String::from_str("<b>");
    r.append(path);
    r.append(what);
    r.append("</b>\n  offset: 0x");
    push_hex(&mut r, offset, 2);
    r.push('\n');
    r.append(description);
    assert(r@ =~= offset_tooltip(path@, what@, offset as nat, description@));
    r
}

} // verus!
