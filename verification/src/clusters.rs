//! The rows of a cluster and of all that stands in it, and for a cluster
//! array of every element with all that stands in it.
use crate::address::absolute_address;
use crate::address::compute_address;
use crate::address::lemma_element_offset_bound;
use crate::array::element;
use crate::array::expand_array;
use crate::array::labels_fit;
use crate::array::ArrayElement;
use crate::enums::EvIndex;
use crate::model::node_views;
use crate::model::ArrayDim;
use crate::model::BuildError;
use crate::model::BuildErrorView;
use crate::model::ClusterDef;
use crate::model::EnumValue;
use crate::model::FlatNode;
use crate::model::FlatNodeView;
use crate::model::NodeKind;
use crate::model::RegisterClusterNode;
use crate::registers::add_register_tree;
use crate::registers::register_rows;
use crate::rows::appended;
use crate::rows::array_tooltip;
use crate::rows::make_array_tooltip;
use crate::rows::make_offset_tooltip;
use crate::rows::offset_tooltip;
use crate::rows::push_row;
use crate::rows::row;
use crate::text::collapse_spaces;
use crate::text::join_path;
use crate::text::joined_path;
use crate::text::rendered_description;
use crate::text::text_or_empty;
use vstd::prelude::*;

verus! {

/// The row of a cluster, or of one element of a cluster array; `offset` is
/// its distance from the enclosing node, and `what` the word that the
/// tooltip puts behind its path.
pub open spec fn cluster_row(
    name: Seq<char>,
    path: Seq<char>,
    depth: nat,
    address: u64,
    offset: nat,
    description: Seq<char>,
    what: Seq<char>,
) -> FlatNodeView {
    row(
        NodeKind::Cluster,
        name,
        path,
        depth,
        Some(address),
        description,
        offset_tooltip(path, what, offset, description),
        None,
        None,
        false,
    )
}

/// The row of a cluster array: it has no address of its own.
pub open spec fn cluster_array_row(
    name: Seq<char>,
    path: Seq<char>,
    depth: nat,
    description: Seq<char>,
) -> FlatNodeView {
    row(
        NodeKind::ClusterArray,
        name,
        path,
        depth,
        None,
        description,
        array_tooltip(path, " cluster array"@, description),
        None,
        None,
        false,
    )
}

/// The rows of the cluster `c`, which stands below the node at `prefix`,
/// whose address is `base`. What stands in the cluster is addressed from the
/// cluster's own address, and its definition stands in the scope of the
/// cluster's definition: `scope`, a dot and the name of `c`.
pub open spec fn cluster_rows(
    index: Seq<(Seq<char>, Vec<EnumValue>)>,
    c: ClusterDef,
    prefix: Seq<char>,
    scope: Seq<char>,
    base: u64,
    depth: nat,
) -> Result<Seq<FlatNodeView>, BuildErrorView>
    decreases c, 1nat, 0nat,
{
    let description = collapse_spaces(text_or_empty(c.description));
    let path = join_path(prefix, c.name@);
    match absolute_address(base, c.address_offset, 0, 0) {
        None => Err(BuildErrorView::AddressOverflow),
        Some(address) => match c.array {
            None => match children_rows(
                index,
                c.children@,
                c.children@.len(),
                path,
                join_path(scope, c.name@),
                address,
                depth + 1,
            ) {
                Err(e) => Err(e),
                Ok(children) => Ok(
                    seq![
                        cluster_row(
                            c.name@,
                            path,
                            depth,
                            address,
                            c.address_offset as nat,
                            description,
                            " cluster "@,
                        ),
                    ] + children,
                ),
            },
            Some(array) => if !labels_fit(array) {
                Err(BuildErrorView::MissingIndexLabel)
            } else {
                match cluster_element_rows(
                    index,
                    c,
                    array,
                    array.dim as nat,
                    prefix,
                    scope,
                    base,
                    depth + 1,
                    description,
                ) {
                    Err(e) => Err(e),
                    Ok(elements) => Ok(
                        seq![cluster_array_row(c.name@, path, depth, description)] + elements,
                    ),
                }
            },
        },
    }
}

/// The rows of the first `n` elements of the cluster array `c`: for each its
/// row, at `base + c.address_offset + i * array.increment`, and the rows of
/// what stands in the cluster, addressed from there.
pub open spec fn cluster_element_rows(
    index: Seq<(Seq<char>, Vec<EnumValue>)>,
    c: ClusterDef,
    array: ArrayDim,
    n: nat,
    prefix: Seq<char>,
    scope: Seq<char>,
    base: u64,
    depth: nat,
    description: Seq<char>,
) -> Result<Seq<FlatNodeView>, BuildErrorView>
    decreases c, 0nat, n,
{
    if n == 0 {
        Ok(Seq::empty())
    } else {
        match cluster_element_rows(
            index,
            c,
            array,
            (n - 1) as nat,
            prefix,
            scope,
            base,
            depth,
            description,
        ) {
            Err(e) => Err(e),
            Ok(before) => {
                let e = element(c.name@, description, array, (n - 1) as nat);
                let path = join_path(prefix, e.name);
                match absolute_address(base, c.address_offset, array.increment, (n - 1) as u32) {
                    None => Err(BuildErrorView::AddressOverflow),
                    Some(address) => match children_rows(
                        index,
                        c.children@,
                        c.children@.len(),
                        path,
                        join_path(scope, c.name@),
                        address,
                        depth + 1,
                    ) {
                        Err(e) => Err(e),
                        Ok(children) => Ok(
                            before + seq![
                                cluster_row(
                                    e.name,
                                    path,
                                    depth,
                                    address,
                                    (c.address_offset + e.offset) as nat,
                                    e.description,
                                    ""@,
                                ),
                            ] + children,
                        ),
                    },
                }
            },
        }
    }
}

/// The rows of one register or cluster.
pub open spec fn child_rows(
    index: Seq<(Seq<char>, Vec<EnumValue>)>,
    child: RegisterClusterNode,
    prefix: Seq<char>,
    scope: Seq<char>,
    base: u64,
    depth: nat,
) -> Result<Seq<FlatNodeView>, BuildErrorView>
    decreases child, 2nat, 0nat,
{
    match child {
        RegisterClusterNode::Register(r) => register_rows(index, r, prefix, scope, base, depth),
        RegisterClusterNode::Cluster(c) => cluster_rows(index, c, prefix, scope, base, depth),
    }
}

/// The rows of the first `n` of the registers and clusters `children`, which
/// stand below the node at `prefix`, whose address is `base`.
pub open spec fn children_rows(
    index: Seq<(Seq<char>, Vec<EnumValue>)>,
    children: Seq<RegisterClusterNode>,
    n: nat,
    prefix: Seq<char>,
    scope: Seq<char>,
    base: u64,
    depth: nat,
) -> Result<Seq<FlatNodeView>, BuildErrorView>
    decreases children, n, 0nat,
{
    if n == 0 || n > children.len() {
        Ok(Seq::empty())
    } else {
        match children_rows(index, children, (n - 1) as nat, prefix, scope, base, depth) {
            Err(e) => Err(e),
            Ok(before) => match child_rows(index, children[n - 1], prefix, scope, base, depth) {
                Err(e) => Err(e),
                Ok(rows) => Ok(before + rows),
            },
        }
    }
}

/// An error among the first `n` elements is the error of all of them.
proof fn lemma_cluster_element_rows_error(
    index: Seq<(Seq<char>, Vec<EnumValue>)>,
    c: ClusterDef,
    array: ArrayDim,
    n: nat,
    m: nat,
    prefix: Seq<char>,
    scope: Seq<char>,
    base: u64,
    depth: nat,
    description: Seq<char>,
)
    requires
        n <= m,
        cluster_element_rows(index, c, array, n, prefix, scope, base, depth, description) is Err,
    ensures
        cluster_element_rows(index, c, array, m, prefix, scope, base, depth, description)
            == cluster_element_rows(index, c, array, n, prefix, scope, base, depth, description),
    decreases m,
{
    if n < m {
        lemma_cluster_element_rows_error(
            index,
            c,
            array,
            n,
            (m - 1) as nat,
            prefix,
            scope,
            base,
            depth,
            description,
        );
    }
}

/// An error among the first `n` children is the error of all of them.
proof fn lemma_children_rows_error(
    index: Seq<(Seq<char>, Vec<EnumValue>)>,
    children: Seq<RegisterClusterNode>,
    n: nat,
    m: nat,
    prefix: Seq<char>,
    scope: Seq<char>,
    base: u64,
    depth: nat,
)
    requires
        n <= m <= children.len(),
        children_rows(index, children, n, prefix, scope, base, depth) is Err,
    ensures
        children_rows(index, children, m, prefix, scope, base, depth) == children_rows(
            index,
            children,
            n,
            prefix,
            scope,
            base,
            depth,
        ),
    decreases m,
{
    if n < m {
        lemma_children_rows_error(index, children, n, (m - 1) as nat, prefix, scope, base, depth);
    }
}

/// Appends the rows of the registers and clusters `children`, which stand
/// below the node at `prefix`, whose address is `base`.
/// `depth` counts the rows that stand above: they are in `nodes` already.
pub fn add_children(
    nodes: &mut Vec<FlatNode>,
    index: &EvIndex,
    children: &Vec<RegisterClusterNode>,
    prefix: &str,
    scope: &str,
    base: u64,
    depth: usize,
) -> (outcome: Result<(), BuildError>)
    requires
        depth <= old(nodes).len(),
    ensures
        appended(
            old(nodes)@,
            final(nodes)@,
            outcome,
            children_rows(
                index@,
                children@,
                children@.len(),
                prefix@,
                scope@,
                base,
                depth as nat,
            ),
        ),
        outcome is Ok ==> final(nodes)@.len() >= old(nodes)@.len(),
    decreases children@, 0nat,
{
    let mut i: usize = 0;
    assert(node_views(nodes@) =~= node_views(nodes@) + Seq::<FlatNodeView>::empty());
    while i < children.len()
        invariant
            i <= children@.len(),
            depth <= old(nodes).len() <= nodes.len(),
            children_rows(index@, children@, i as nat, prefix@, scope@, base, depth as nat) is Ok,
            node_views(nodes@) == node_views(old(nodes)@) + children_rows(
                index@,
                children@,
                i as nat,
                prefix@,
                scope@,
                base,
                depth as nat,
            )->Ok_0,
        decreases children@.len() - i,
    {
        let ghost start = node_views(old(nodes)@);
        let ghost done = children_rows(
            index@,
            children@,
            i as nat,
            prefix@,
            scope@,
            base,
            depth as nat,
        )->Ok_0;
        let outcome = match &children[i] {
            RegisterClusterNode::Register(r) => add_register_tree(
                nodes,
                index,
                r,
                prefix,
                scope,
                base,
                depth,
            ),
            RegisterClusterNode::Cluster(c) => add_cluster_tree(
                nodes,
                index,
                c,
                prefix,
                scope,
                base,
                depth,
            ),
        };
        match outcome {
            Err(e) => {
                proof {
                    lemma_children_rows_error(
                        index@,
                        children@,
                        (i + 1) as nat,
                        children@.len(),
                        prefix@,
                        scope@,
                        base,
                        depth as nat,
                    );
                }
                return Err(e);
            },
            Ok(()) => {
                let ghost rows = child_rows(
                    index@,
                    children@[i as int],
                    prefix@,
                    scope@,
                    base,
                    depth as nat,
                )->Ok_0;
                assert((start + done) + rows =~= start + (done + rows));
            },
        }
        i = i + 1;
    }
    Ok(())
}

fn push_cluster_elements(
    nodes: &mut Vec<FlatNode>,
    index: &EvIndex,
    c: &ClusterDef,
    array: &ArrayDim,
    elements: &Vec<ArrayElement>,
    prefix: &str,
    scope: &str,
    base: u64,
    depth: usize,
    description: &str,
) -> (outcome: Result<(), BuildError>)
    requires
        depth <= old(nodes).len(),
        elements@.len() == array.dim,
        forall|k: int|
            0 <= k < array.dim ==> (#[trigger] elements@[k])@ == element(
                c.name@,
                description@,
                *array,
                k as nat,
            ),
    ensures
        appended(
            old(nodes)@,
            final(nodes)@,
            outcome,
            cluster_element_rows(
                index@,
                *c,
                *array,
                array.dim as nat,
                prefix@,
                scope@,
                base,
                depth as nat,
                description@,
            ),
        ),
        outcome is Ok ==> final(nodes)@.len() >= old(nodes)@.len(),
    decreases c, 0nat,
{
    let inner_scope = joined_path(scope, c.name.as_str());
    let mut i: usize = 0;
    assert(node_views(nodes@) =~= node_views(nodes@) + Seq::<FlatNodeView>::empty());
    while i < elements.len()
        invariant
            i <= elements@.len(),
            elements@.len() == array.dim,
            depth <= old(nodes).len() <= nodes.len(),
            inner_scope@ == join_path(scope@, c.name@),
            forall|k: int|
                0 <= k < array.dim ==> (#[trigger] elements@[k])@ == element(
                    c.name@,
                    description@,
                    *array,
                    k as nat,
                ),
            cluster_element_rows(
                index@,
                *c,
                *array,
                i as nat,
                prefix@,
                scope@,
                base,
                depth as nat,
                description@,
            ) is Ok,
            node_views(nodes@) == node_views(old(nodes)@) + cluster_element_rows(
                index@,
                *c,
                *array,
                i as nat,
                prefix@,
                scope@,
                base,
                depth as nat,
                description@,
            )->Ok_0,
        decreases elements@.len() - i,
    {
        let e = &elements[i];
        let ghost start = node_views(old(nodes)@);
        let ghost done = cluster_element_rows(
            index@,
            *c,
            *array,
            i as nat,
            prefix@,
            scope@,
            base,
            depth as nat,
            description@,
        )->Ok_0;
        assert(e@ == element(c.name@, description@, *array, i as nat));
        proof {
            lemma_element_offset_bound(array.increment, i as u32);
        }
        let path = joined_path(prefix, e.name.as_str());
        let address = match compute_address(base, c.address_offset, array.increment, i as u32) {
            None => {
                proof {
                    lemma_cluster_element_rows_error(
                        index@,
                        *c,
                        *array,
                        (i + 1) as nat,
                        array.dim as nat,
                        prefix@,
                        scope@,
                        base,
                        depth as nat,
                        description@,
                    );
                }
                return Err(BuildError::AddressOverflow);
            },
            Some(address) => address,
        };
        let tooltip = make_offset_tooltip(
            path.as_str(),
            "",
            c.address_offset as u64 + e.offset,
            e.description.as_str(),
        );
        let ghost head = cluster_row(
            e.name@,
            path@,
            depth as nat,
            address,
            (c.address_offset + e.offset) as nat,
            e.description@,
            ""@,
        );
        push_row(
            nodes,
            NodeKind::Cluster,
            e.name.clone(),
            path.clone(),
            depth,
            Some(address),
            e.description.clone(),
            tooltip,
            None,
            None,
            false,
        );
        assert(depth < nodes.len());
        match add_children(
            nodes,
            index,
            &c.children,
            path.as_str(),
            inner_scope.as_str(),
            address,
            depth + 1,
        ) {
            Err(error) => {
                proof {
                    lemma_cluster_element_rows_error(
                        index@,
                        *c,
                        *array,
                        (i + 1) as nat,
                        array.dim as nat,
                        prefix@,
                        scope@,
                        base,
                        depth as nat,
                        description@,
                    );
                }
                return Err(error);
            },
            Ok(()) => {
                let ghost children = children_rows(
                    index@,
                    c.children@,
                    c.children@.len(),
                    path@,
                    inner_scope@,
                    address,
                    (depth + 1) as nat,
                )->Ok_0;
                assert((start + done).push(head) + children =~= start + (done + seq![head]
                    + children));
            },
        }
        i = i + 1;
    }
    Ok(())
}

/// Appends the rows of the cluster `c`, which stands below the node at
/// `prefix`, whose address is `base`; `scope` is where the definition stands.
/// `depth` counts the rows that stand above: they are in `nodes` already.
pub fn add_cluster_tree(
    nodes: &mut Vec<FlatNode>,
    index: &EvIndex,
    c: &ClusterDef,
    prefix: &str,
    scope: &str,
    base: u64,
    depth: usize,
) -> (outcome: Result<(), BuildError>)
    requires
        depth <= old(nodes).len(),
    ensures
        appended(
            old(nodes)@,
            final(nodes)@,
            outcome,
            cluster_rows(index@, *c, prefix@, scope@, base, depth as nat),
        ),
        outcome is Ok ==> final(nodes)@.len() >= old(nodes)@.len(),
    decreases c, 1nat,
{
    let address = match compute_address(base, c.address_offset, 0, 0) {
        None => {
            return Err(BuildError::AddressOverflow);
        },
        Some(address) => address,
    };
    let description = rendered_description(&c.description);
    let path = joined_path(prefix, c.name.as_str());
    let ghost start = node_views(nodes@);
    match &c.array {
        None => {
            let inner_scope = joined_path(scope, c.name.as_str());
            let tooltip = make_offset_tooltip(
                path.as_str(),
                " cluster ",
                c.address_offset as u64,
                description.as_str(),
            );
            let ghost head = cluster_row(
                c.name@,
                path@,
                depth as nat,
                address,
                c.address_offset as nat,
                description@,
                " cluster "@,
            );
            push_row(
                nodes,
                NodeKind::Cluster,
                c.name.clone(),
                path.clone(),
                depth,
                Some(address),
                description,
                tooltip,
                None,
                None,
                false,
            );
            assert(depth < nodes.len());
            match add_children(
                nodes,
                index,
                &c.children,
                path.as_str(),
                inner_scope.as_str(),
                address,
                depth + 1,
            ) {
                Err(e) => Err(e),
                Ok(()) => {
                    let ghost children = children_rows(
                        index@,
                        c.children@,
                        c.children@.len(),
                        path@,
                        inner_scope@,
                        address,
                        (depth + 1) as nat,
                    )->Ok_0;
                    assert(start.push(head) + children =~= start + (seq![head] + children));
                    Ok(())
                },
            }
        },
        Some(array) => {
            let elements = match expand_array(c.name.as_str(), description.as_str(), array) {
                Err(e) => {
                    return Err(e);
                },
                Ok(elements) => elements,
            };
            let tooltip = make_array_tooltip(
                path.as_str(),
                " cluster array",
                description.as_str(),
            );
            let ghost head = cluster_array_row(c.name@, path@, depth as nat, description@);
            push_row(
                nodes,
                NodeKind::ClusterArray,
                c.name.clone(),
                path,
                depth,
                None,
                description.clone(),
                tooltip,
                None,
                None,
                false,
            );
            assert(depth < nodes.len());
            match push_cluster_elements(
                nodes,
                index,
                c,
                array,
                &elements,
                prefix,
                scope,
                base,
                depth + 1,
                description.as_str(),
            ) {
                Err(e) => Err(e),
                Ok(()) => {
                    let ghost rest = cluster_element_rows(
                        index@,
                        *c,
                        *array,
                        array.dim as nat,
                        prefix@,
                        scope@,
                        base,
                        (depth + 1) as nat,
                        description@,
                    )->Ok_0;
                    assert(start.push(head) + rest =~= start + (seq![head] + rest));
                    Ok(())
                },
            }
        },
    }
}

} // verus!
