//! The rows of a register: its own, those of its fields, and for a register
//! array those of every element.
use crate::address::absolute_address;
use crate::address::compute_address;
use crate::address::element_offset;
use crate::address::lemma_element_offset_bound;
use crate::array::element;
use crate::array::expand_array;
use crate::array::labels_fit;
use crate::array::ArrayElement;
use crate::enums::EvIndex;
use crate::fields::add_fields_tree;
use crate::fields::fields_rows;
use crate::model::node_views;
use crate::model::ArrayDim;
use crate::model::BuildError;
use crate::model::BuildErrorView;
use crate::model::EnumValue;
use crate::model::FlatNode;
use crate::model::FlatNodeView;
use crate::model::NodeKind;
use crate::model::RegisterDef;
use crate::rows::appended;
use crate::rows::array_tooltip;
use crate::rows::make_array_tooltip;
use crate::rows::make_offset_tooltip;
use crate::rows::offset_tooltip;
use crate::rows::push_row;
use crate::rows::row;
use crate::text::collapse_spaces;
use crate::text::join_path;
use crate::text::joined_path;
use crate::text::rendered_description;
use crate::text::text_or_empty;
use vstd::prelude::*;

verus! {

/// The row of a register, or of one element of a register array; `offset` is
/// its distance from the enclosing node, and `what` the word that the
/// tooltip puts behind its path.
pub open spec fn register_row(
    name: Seq<char>,
    path: Seq<char>,
    depth: nat,
    address: u64,
    offset: nat,
    description: Seq<char>,
    what: Seq<char>,
) -> FlatNodeView {
    row(
        NodeKind::Register,
        name,
        path,
        depth,
        Some(address),
        description,
        offset_tooltip(path, what, offset, description),
        None,
        None,
        true,
    )
}

/// The row of a register array: it has no address of its own.
pub open spec fn register_array_row(
    name: Seq<char>,
    path: Seq<char>,
    depth: nat,
    description: Seq<char>,
) -> FlatNodeView {
    row(
        NodeKind::RegisterArray,
        name,
        path,
        depth,
        None,
        description,
        array_tooltip(path, " register array"@, description),
        None,
        None,
        false,
    )
}

/// The rows of the first `n` elements of the register array `r`: for each
/// its row, at `base + r.address_offset + i * array.increment`, and the rows
/// of its fields.
pub open spec fn register_element_rows(
    index: Seq<(Seq<char>, Vec<EnumValue>)>,
    r: RegisterDef,
    array: ArrayDim,
    n: nat,
    prefix: Seq<char>,
    scope: Seq<char>,
    base: u64,
    depth: nat,
    description: Seq<char>,
) -> Result<Seq<FlatNodeView>, BuildErrorView>
    decreases n,
{
    if n == 0 {
        Ok(Seq::empty())
    } else {
        match register_element_rows(
            index,
            r,
            array,
            (n - 1) as nat,
            prefix,
            scope,
            base,
            depth,
            description,
        ) {
            Err(e) => Err(e),
            Ok(before) => {
                let e = element(r.name@, description, array, (n - 1) as nat);
                let path = join_path(prefix, e.name);
                match absolute_address(base, r.address_offset, array.increment, (n - 1) as u32) {
                    None => Err(BuildErrorView::AddressOverflow),
                    Some(address) => match fields_rows(
                        index,
                        scope,
                        r.name@,
                        r.fields@,
                        r.fields@.len(),
                        path,
                        address,
                        depth + 1,
                    ) {
                        Err(e) => Err(e),
                        Ok(fields) => Ok(
                            before + seq![
                                register_row(
                                    e.name,
                                    path,
                                    depth,
                                    address,
                                    (r.address_offset + e.offset) as nat,
                                    e.description,
                                    ""@,
                                ),
                            ] + fields,
                        ),
                    },
                }
            },
        }
    }
}

/// The rows of the register `r`, which stands below the node at `prefix`,
/// whose address is `base`. `scope` is where the definition stands: the
/// peripheral that it is taken from, and the clusters down to it.
pub open spec fn register_rows(
    index: Seq<(Seq<char>, Vec<EnumValue>)>,
    r: RegisterDef,
    prefix: Seq<char>,
    scope: Seq<char>,
    base: u64,
    depth: nat,
) -> Result<Seq<FlatNodeView>, BuildErrorView> {
    let description = collapse_spaces(text_or_empty(r.description));
    let path = join_path(prefix, r.name@);
    match absolute_address(base, r.address_offset, 0, 0) {
        None => Err(BuildErrorView::AddressOverflow),
        Some(address) => match r.array {
            None => match fields_rows(
                index,
                scope,
                r.name@,
                r.fields@,
                r.fields@.len(),
                path,
                address,
                depth + 1,
            ) {
                Err(e) => Err(e),
                Ok(fields) => Ok(
                    seq![
                        register_row(
                            r.name@,
                            path,
                            depth,
                            address,
                            r.address_offset as nat,
                            description,
                            " register "@,
                        ),
                    ] + fields,
                ),
            },
            Some(array) => if !labels_fit(array) {
                Err(BuildErrorView::MissingIndexLabel)
            } else {
                match register_element_rows(
                    index,
                    r,
                    array,
                    array.dim as nat,
                    prefix,
                    scope,
                    base,
                    depth + 1,
                    description,
                ) {
                    Err(e) => Err(e),
                    Ok(elements) => Ok(
                        seq![register_array_row(r.name@, path, depth, description)] + elements,
                    ),
                }
            },
        },
    }
}

/// An error among the first `n` elements is the error of all of them.
proof fn lemma_register_element_rows_error(
    index: Seq<(Seq<char>, Vec<EnumValue>)>,
    r: RegisterDef,
    array: ArrayDim,
    n: nat,
    m: nat,
    prefix: Seq<char>,
    scope: Seq<char>,
    base: u64,
    depth: nat,
    description: Seq<char>,
)
    requires
        n <= m,
        register_element_rows(index, r, array, n, prefix, scope, base, depth, description) is Err,
    ensures
        register_element_rows(index, r, array, m, prefix, scope, base, depth, description)
            == register_element_rows(index, r, array, n, prefix, scope, base, depth, description),
    decreases m,
{
    if n < m {
        lemma_register_element_rows_error(
            index,
            r,
            array,
            n,
            (m - 1) as nat,
            prefix,
            scope,
            base,
            depth,
            description,
        );
    }
}

fn push_register_elements(
    nodes: &mut Vec<FlatNode>,
    index: &EvIndex,
    r: &RegisterDef,
    array: &ArrayDim,
    elements: &Vec<ArrayElement>,
    prefix: &str,
    scope: &str,
    base: u64,
    depth: usize,
    description: &str,
) -> (outcome: Result<(), BuildError>)
    requires
        depth <= old(nodes).len(),
        elements@.len() == array.dim,
        forall|k: int|
            0 <= k < array.dim ==> (#[trigger] elements@[k])@ == element(
                r.name@,
                description@,
                *array,
                k as nat,
            ),
    ensures
        appended(
            old(nodes)@,
            final(nodes)@,
            outcome,
            register_element_rows(
                index@,
                *r,
                *array,
                array.dim as nat,
                prefix@,
                scope@,
                base,
                depth as nat,
                description@,
            ),
        ),
        outcome is Ok ==> final(nodes)@.len() >= old(nodes)@.len(),
{
    let mut i: usize = 0;
    assert(node_views(nodes@) =~= node_views(nodes@) + Seq::<FlatNodeView>::empty());
    while i < elements.len()
        invariant
            i <= elements@.len(),
            elements@.len() == array.dim,
            depth <= old(nodes).len() <= nodes.len(),
            forall|k: int|
                0 <= k < array.dim ==> (#[trigger] elements@[k])@ == element(
                    r.name@,
                    description@,
                    *array,
                    k as nat,
                ),
            register_element_rows(
                index@,
                *r,
                *array,
                i as nat,
                prefix@,
                scope@,
                base,
                depth as nat,
                description@,
            ) is Ok,
            node_views(nodes@) == node_views(old(nodes)@) + register_element_rows(
                index@,
                *r,
                *array,
                i as nat,
                prefix@,
                scope@,
                base,
                depth as nat,
                description@,
            )->Ok_0,
        decreases elements@.len() - i,
    {
        let e = &elements[i];
        let ghost start = node_views(old(nodes)@);
        let ghost done = register_element_rows(
            index@,
            *r,
            *array,
            i as nat,
            prefix@,
            scope@,
            base,
            depth as nat,
            description@,
        )->Ok_0;
        assert(e@ == element(r.name@, description@, *array, i as nat));
        proof {
            lemma_element_offset_bound(array.increment, i as u32);
        }
        let path = joined_path(prefix, e.name.as_str());
        let address = match compute_address(base, r.address_offset, array.increment, i as u32) {
            None => {
                proof {
                    lemma_register_element_rows_error(
                        index@,
                        *r,
                        *array,
                        (i + 1) as nat,
                        array.dim as nat,
                        prefix@,
                        scope@,
                        base,
                        depth as nat,
                        description@,
                    );
                }
                return Err(BuildError::AddressOverflow);
            },
            Some(address) => address,
        };
        let tooltip = make_offset_tooltip(
            path.as_str(),
            "",
            r.address_offset as u64 + e.offset,
            e.description.as_str(),
        );
        let ghost head = register_row(
            e.name@,
            path@,
            depth as nat,
            address,
            (r.address_offset + e.offset) as nat,
            e.description@,
            ""@,
        );
        push_row(
            nodes,
            NodeKind::Register,
            e.name.clone(),
            path.clone(),
            depth,
            Some(address),
            e.description.clone(),
            tooltip,
            None,
            None,
            true,
        );
        assert(depth < nodes.len());
        match add_fields_tree(nodes, index, r, path.as_str(), scope, address, depth + 1) {
            Err(error) => {
                proof {
                    lemma_register_element_rows_error(
                        index@,
                        *r,
                        *array,
                        (i + 1) as nat,
                        array.dim as nat,
                        prefix@,
                        scope@,
                        base,
                        depth as nat,
                        description@,
                    );
                }
                return Err(error);
            },
            Ok(()) => {
                let ghost fields = fields_rows(
                    index@,
                    scope@,
                    r.name@,
                    r.fields@,
                    r.fields@.len(),
                    path@,
                    address,
                    (depth + 1) as nat,
                )->Ok_0;
                assert((start + done).push(head) + fields =~= start + (done + seq![head]
                    + fields));
            },
        }
        i = i + 1;
    }
    Ok(())
}

/// Appends the rows of the register `r`, which stands below the node at
/// `prefix`, whose address is `base`; `scope` is where the definition stands.
/// `depth` counts the rows that stand above: they are in `nodes` already.
pub fn add_register_tree(
    nodes: &mut Vec<FlatNode>,
    index: &EvIndex,
    r: &RegisterDef,
    prefix: &str,
    scope: &str,
    base: u64,
    depth: usize,
) -> (outcome: Result<(), BuildError>)
    requires
        depth <= old(nodes).len(),
    ensures
        appended(
            old(nodes)@,
            final(nodes)@,
            outcome,
            register_rows(index@, *r, prefix@, scope@, base, depth as nat),
        ),
        outcome is Ok ==> final(nodes)@.len() >= old(nodes)@.len(),
{
    let address = match compute_address(base, r.address_offset, 0, 0) {
        None => {
            return Err(BuildError::AddressOverflow);
        },
        Some(address) => address,
    };
    let description = rendered_description(&r.description);
    let path = joined_path(prefix, r.name.as_str());
    let ghost start = node_views(nodes@);
    match &r.array {
        None => {
            let tooltip = make_offset_tooltip(
                path.as_str(),
                " register ",
                r.address_offset as u64,
                description.as_str(),
            );
            let ghost head = register_row(
                r.name@,
                path@,
                depth as nat,
                address,
                r.address_offset as nat,
                description@,
                " register "@,
            );
            push_row(
                nodes,
                NodeKind::Register,
                r.name.clone(),
                path.clone(),
                depth,
                Some(address),
                description,
                tooltip,
                None,
                None,
                true,
            );
            assert(depth < nodes.len());
        match add_fields_tree(nodes, index, r, path.as_str(), scope, address, depth + 1) {
                Err(e) => Err(e),
                Ok(()) => {
                    let ghost fields = fields_rows(
                        index@,
                        scope@,
                        r.name@,
                        r.fields@,
                        r.fields@.len(),
                        path@,
                        address,
                        (depth + 1) as nat,
                    )->Ok_0;
                    assert(start.push(head) + fields =~= start + (seq![head] + fields));
                    Ok(())
                },
            }
        },
        Some(array) => {
            let elements = match expand_array(r.name.as_str(), description.as_str(), array) {
                Err(e) => {
                    return Err(e);
                },
                Ok(elements) => elements,
            };
            let tooltip = make_array_tooltip(
                path.as_str(),
                " register array",
                description.as_str(),
            );
            let ghost head = register_array_row(r.name@, path@, depth as nat, description@);
            push_row(
                nodes,
                NodeKind::RegisterArray,
                r.name.clone(),
                path,
                depth,
                None,
                description.clone(),
                tooltip,
                None,
                None,
                false,
            );
            assert(depth < nodes.len());
            match push_register_elements(
                nodes,
                index,
                r,
                array,
                &elements,
                prefix,
                scope,
                base,
                depth + 1,
                description.as_str(),
            ) {
                Err(e) => Err(e),
                Ok(()) => {
                    let ghost rest = register_element_rows(
                        index@,
                        *r,
                        *array,
                        array.dim as nat,
                        prefix@,
                        scope@,
                        base,
                        (depth + 1) as nat,
                        description@,
                    )->Ok_0;
                    assert(start.push(head) + rest =~= start + (seq![head] + rest));
                    Ok(())
                },
            }
        },
    }
}

/// Address accumulation. The row of a register stands at the address of the
/// enclosing node plus the register's offset.
pub proof fn lemma_register_address(
    index: Seq<(Seq<char>, Vec<EnumValue>)>,
    r: RegisterDef,
    prefix: Seq<char>,
    scope: Seq<char>,
    base: u64,
    depth: nat,
)
    requires
        r.array is None,
        register_rows(index, r, prefix, scope, base, depth) is Ok,
    ensures
        base + r.address_offset <= u64::MAX,
        register_rows(index, r, prefix, scope, base, depth)->Ok_0[0].address == Some(
            (base + r.address_offset) as u64,
        ),
        register_rows(index, r, prefix, scope, base, depth)->Ok_0[0].path == join_path(
            prefix,
            r.name@,
        ),
{
    assert(element_offset(0, 0) == 0) by (nonlinear_arith);
}

} // verus!
