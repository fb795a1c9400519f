//! The rows of the fields of a register.
use crate::address::lemma_element_offset_bound;
use crate::address::max_element_offset;
use crate::array::element;
use crate::array::expand_array;
use crate::array::labels_fit;
use crate::array::ArrayElement;
use crate::enums::enumerated_values_text;
use crate::enums::sets_text;
use crate::enums::EvIndex;
use crate::model::node_views;
use crate::model::ArrayDim;
use crate::model::BuildError;
use crate::model::BuildErrorView;
use crate::model::EnumValue;
use crate::model::FieldDef;
use crate::model::FlatNode;
use crate::model::FlatNodeView;
use crate::model::NodeKind;
use crate::model::RegisterDef;
use crate::rows::appended;
use crate::rows::array_tooltip;
use crate::rows::bit_range_text;
use crate::rows::field_tooltip;
use crate::rows::make_array_tooltip;
use crate::rows::make_bit_range_text;
use crate::rows::make_field_tooltip;
use crate::rows::push_row;
use crate::rows::row;
use crate::text::collapse_spaces;
use crate::text::join_path;
use crate::text::joined_path;
use crate::text::rendered_description;
use crate::text::text_or_empty;
use vstd::prelude::*;

verus! {

/// The row of a field, or of one element of a field array: `low` is its
/// lowest bit and `width` the number of its bits. A field of no bits at bit 0
/// has no highest bit and no row.
pub open spec fn field_row(
    name: Seq<char>,
    path: Seq<char>,
    depth: nat,
    address: u64,
    low: u64,
    width: u32,
    description: Seq<char>,
    values: Seq<char>,
) -> Result<FlatNodeView, BuildErrorView> {
    if low + width == 0 {
        Err(BuildErrorView::EmptyBitRange)
    } else {
        let range = bit_range_text((low + width - 1) as nat, low as nat, description);
        Ok(
            row(
                NodeKind::Field,
                name,
                path,
                depth,
                Some(address),
                range,
                field_tooltip(path, range, values),
                Some(low),
                Some(width),
                true,
            ),
        )
    }
}

/// The row of a field array: it holds no bits itself.
pub open spec fn field_array_row(
    name: Seq<char>,
    path: Seq<char>,
    depth: nat,
    description: Seq<char>,
) -> FlatNodeView {
    row(
        NodeKind::FieldArray,
        name,
        path,
        depth,
        None,
        description,
        array_tooltip(path, " field array"@, description),
        None,
        None,
        false,
    )
}

/// The rows of the first `n` elements of the field array `f` of the register
/// at `path`. Element `i` begins at bit `i * array.increment`.
pub open spec fn field_element_rows(
    f: FieldDef,
    array: ArrayDim,
    n: nat,
    path: Seq<char>,
    address: u64,
    depth: nat,
    description: Seq<char>,
    values: Seq<char>,
) -> Result<Seq<FlatNodeView>, BuildErrorView>
    decreases n,
{
    if n == 0 {
        Ok(Seq::empty())
    } else {
        match field_element_rows(
            f,
            array,
            (n - 1) as nat,
            path,
            address,
            depth,
            description,
            values,
        ) {
            Err(e) => Err(e),
            Ok(before) => {
                let e = element(f.name@, description, array, (n - 1) as nat);
                match field_row(
                    e.name,
                    join_path(path, e.name),
                    depth,
                    address,
                    e.offset,
                    f.bit_width,
                    e.description,
                    values,
                ) {
                    Err(e) => Err(e),
                    Ok(row) => Ok(before.push(row)),
                }
            },
        }
    }
}

/// The rows of the field `f` of the register `register` at `path`, whose
/// address is `address`: one row, or for a field array its row and below it
/// one row for each element. The register has the fields `fields` and stands
/// in `scope`, which is where references to value sets are looked up.
pub open spec fn field_rows(
    index: Seq<(Seq<char>, Vec<EnumValue>)>,
    scope: Seq<char>,
    register: Seq<char>,
    fields: Seq<FieldDef>,
    f: FieldDef,
    path: Seq<char>,
    address: u64,
    depth: nat,
) -> Result<Seq<FlatNodeView>, BuildErrorView> {
    let description = collapse_spaces(text_or_empty(f.description));
    match sets_text(
        index,
        scope,
        register,
        fields,
        f.enumerated_values@,
        f.enumerated_values@.len(),
    ) {
        Err(e) => Err(e),
        Ok(values) => match f.array {
            None => match field_row(
                f.name@,
                join_path(path, f.name@),
                depth,
                address,
                f.bit_offset as u64,
                f.bit_width,
                description,
                values,
            ) {
                Err(e) => Err(e),
                Ok(row) => Ok(seq![row]),
            },
            Some(array) => if !labels_fit(array) {
                Err(BuildErrorView::MissingIndexLabel)
            } else {
                match field_element_rows(
                    f,
                    array,
                    array.dim as nat,
                    path,
                    address,
                    depth + 1,
                    description,
                    values,
                ) {
                    Err(e) => Err(e),
                    Ok(elements) => Ok(
                        seq![
                            field_array_row(f.name@, join_path(path, f.name@), depth, description),
                        ] + elements,
                    ),
                }
            },
        },
    }
}

/// The rows of the first `n` fields of a register.
pub open spec fn fields_rows(
    index: Seq<(Seq<char>, Vec<EnumValue>)>,
    scope: Seq<char>,
    register: Seq<char>,
    fields: Seq<FieldDef>,
    n: nat,
    path: Seq<char>,
    address: u64,
    depth: nat,
) -> Result<Seq<FlatNodeView>, BuildErrorView>
    decreases n,
{
    if n == 0 {
        Ok(Seq::empty())
    } else {
        match fields_rows(index, scope, register, fields, (n - 1) as nat, path, address, depth) {
            Err(e) => Err(e),
            Ok(before) => match field_rows(
                index,
                scope,
                register,
                fields,
                fields[n - 1],
                path,
                address,
                depth,
            ) {
                Err(e) => Err(e),
                Ok(rows) => Ok(before + rows),
            },
        }
    }
}

fn push_field_row(
    nodes: &mut Vec<FlatNode>,
    name: String,
    path: String,
    depth: usize,
    address: u64,
    low: u64,
    width: u32,
    description: &str,
    values: &str,
) -> (r: Result<(), BuildError>)
    requires
        low <= max_element_offset(),
    ensures
        match r {
            Ok(_) => {
                &&& field_row(
                    name@,
                    path@,
                    depth as nat,
                    address,
                    low,
                    width,
                    description@,
                    values@,
                ) is Ok
                &&& node_views(final(nodes)@) == node_views(old(nodes)@).push(
                    field_row(
                        name@,
                        path@,
                        depth as nat,
                        address,
                        low,
                        width,
                        description@,
                        values@,
                    )->Ok_0,
                )
                &&& final(nodes)@.len() == old(nodes)@.len() + 1
            },
            Err(e) => field_row(
                name@,
                path@,
                depth as nat,
                address,
                low,
                width,
                description@,
                values@,
            ) == Err::<FlatNodeView, BuildErrorView>(e@),
        },
{
    if low == 0 && width == 0 {
        return Err(BuildError::EmptyBitRange);
    }
    let high: u64 = low + (width as u64) - 1;
    let range = make_bit_range_text(high, low, description);
    let tooltip = make_field_tooltip(path.as_str(), range.as_str(), values);
    push_row(
        nodes,
        NodeKind::Field,
        name,
        path,
        depth,
        Some(address),
        range,
        tooltip,
        Some(low),
        Some(width),
        true,
    );
    Ok(())
}

/// An error among the first `n` elements is the error of all of them.
proof fn lemma_field_element_rows_error(
    f: FieldDef,
    array: ArrayDim,
    n: nat,
    m: nat,
    path: Seq<char>,
    address: u64,
    depth: nat,
    description: Seq<char>,
    values: Seq<char>,
)
    requires
        n <= m,
        field_element_rows(f, array, n, path, address, depth, description, values) is Err,
    ensures
        field_element_rows(f, array, m, path, address, depth, description, values)
            == field_element_rows(f, array, n, path, address, depth, description, values),
    decreases m,
{
    if n < m {
        lemma_field_element_rows_error(
            f,
            array,
            n,
            (m - 1) as nat,
            path,
            address,
            depth,
            description,
            values,
        );
    }
}

fn push_field_elements(
    nodes: &mut Vec<FlatNode>,
    f: &FieldDef,
    array: &ArrayDim,
    elements: &Vec<ArrayElement>,
    path: &str,
    address: u64,
    depth: usize,
    description: &str,
    values: &str,
) -> (outcome: Result<(), BuildError>)
    requires
        elements@.len() == array.dim,
        forall|k: int|
            0 <= k < array.dim ==> (#[trigger] elements@[k])@ == element(
                f.name@,
                description@,
                *array,
                k as nat,
            ),
    ensures
        appended(
            old(nodes)@,
            final(nodes)@,
            outcome,
            field_element_rows(
                *f,
                *array,
                array.dim as nat,
                path@,
                address,
                depth as nat,
                description@,
                values@,
            ),
        ),
        outcome is Ok ==> final(nodes)@.len() >= old(nodes)@.len(),
{
    let mut i: usize = 0;
    assert(node_views(nodes@) =~= node_views(nodes@) + Seq::<FlatNodeView>::empty());
    while i < elements.len()
        invariant
            i <= elements@.len(),
            elements@.len() == array.dim,
            nodes@.len() >= old(nodes)@.len(),
            forall|k: int|
                0 <= k < array.dim ==> (#[trigger] elements@[k])@ == element(
                    f.name@,
                    description@,
                    *array,
                    k as nat,
                ),
            field_element_rows(
                *f,
                *array,
                i as nat,
                path@,
                address,
                depth as nat,
                description@,
                values@,
            ) is Ok,
            node_views(nodes@) == node_views(old(nodes)@) + field_element_rows(
                *f,
                *array,
                i as nat,
                path@,
                address,
                depth as nat,
                description@,
                values@,
            )->Ok_0,
        decreases elements@.len() - i,
    {
        let e = &elements[i];
        let ghost start = node_views(old(nodes)@);
        let ghost done = field_element_rows(
            *f,
            *array,
            i as nat,
            path@,
            address,
            depth as nat,
            description@,
            values@,
        )->Ok_0;
        assert(e@ == element(f.name@, description@, *array, i as nat));
        proof {
            lemma_element_offset_bound(array.increment, i as u32);
        }
        let element_path = joined_path(path, e.name.as_str());
        match push_field_row(
            nodes,
            e.name.clone(),
            element_path,
            depth,
            address,
            e.offset,
            f.bit_width,
            e.description.as_str(),
            values,
        ) {
            Err(error) => {
                proof {
                    lemma_field_element_rows_error(
                        *f,
                        *array,
                        (i + 1) as nat,
                        array.dim as nat,
                        path@,
                        address,
                        depth as nat,
                        description@,
                        values@,
                    );
                }
                return Err(error);
            },
            Ok(()) => {
                let ghost row = field_row(
                    e.name@,
                    join_path(path@, e.name@),
                    depth as nat,
                    address,
                    e.offset,
                    f.bit_width,
                    e.description@,
                    values@,
                )->Ok_0;
                assert((start + done).push(row) =~= start + done.push(row));
            },
        }
        i = i + 1;
    }
    Ok(())
}

fn add_field(
    nodes: &mut Vec<FlatNode>,
    index: &EvIndex,
    scope: &str,
    r: &RegisterDef,
    f: &FieldDef,
    path: &str,
    address: u64,
    depth: usize,
) -> (outcome: Result<(), BuildError>)
    requires
        depth <= old(nodes).len(),
    ensures
        appended(
            old(nodes)@,
            final(nodes)@,
            outcome,
            field_rows(
                index@,
                scope@,
                r.name@,
                r.fields@,
                *f,
                path@,
                address,
                depth as nat,
            ),
        ),
        outcome is Ok ==> final(nodes)@.len() >= old(nodes)@.len(),
{
    let description = rendered_description(&f.description);
    let values = match enumerated_values_text(
        index,
        scope,
        r.name.as_str(),
        &r.fields,
        &f.enumerated_values,
    ) {
        Err(e) => {
            return Err(e);
        },
        Ok(values) => values,
    };
    let field_path = joined_path(path, f.name.as_str());
    let ghost start = node_views(nodes@);
    match &f.array {
        None => {
            match push_field_row(
                nodes,
                f.name.clone(),
                field_path,
                depth,
                address,
                f.bit_offset as u64,
                f.bit_width,
                description.as_str(),
                values.as_str(),
            ) {
                Err(e) => Err(e),
                Ok(()) => {
                    let ghost row = field_row(
                        f.name@,
                        join_path(path@, f.name@),
                        depth as nat,
                        address,
                        f.bit_offset as u64,
                        f.bit_width,
                        description@,
                        values@,
                    )->Ok_0;
                    assert(start.push(row) =~= start + seq![row]);
                    Ok(())
                },
            }
        },
        Some(array) => {
            let elements = match expand_array(f.name.as_str(), description.as_str(), array) {
                Err(e) => {
                    return Err(e);
                },
                Ok(elements) => elements,
            };
            let tooltip = make_array_tooltip(
                field_path.as_str(),
                " field array",
                description.as_str(),
            );
            let ghost head = field_array_row(
                f.name@,
                join_path(path@, f.name@),
                depth as nat,
                description@,
            );
            push_row(
                nodes,
                NodeKind::FieldArray,
                f.name.clone(),
                field_path,
                depth,
                None,
                description.clone(),
                tooltip,
                None,
                None,
                false,
            );
            assert(depth < nodes.len());
            match push_field_elements(
                nodes,
                f,
                array,
                &elements,
                path,
                address,
                depth + 1,
                description.as_str(),
                values.as_str(),
            ) {
                Err(e) => Err(e),
                Ok(()) => {
                    let ghost rest = field_element_rows(
                        *f,
                        *array,
                        array.dim as nat,
                        path@,
                        address,
                        (depth + 1) as nat,
                        description@,
                        values@,
                    )->Ok_0;
                    assert(start.push(head) + rest =~= start + (seq![head] + rest));
                    Ok(())
                },
            }
        },
    }
}

/// An error among the first `n` fields is the error of all of them.
proof fn lemma_fields_rows_error(
    index: Seq<(Seq<char>, Vec<EnumValue>)>,
    scope: Seq<char>,
    register: Seq<char>,
    fields: Seq<FieldDef>,
    n: nat,
    m: nat,
    path: Seq<char>,
    address: u64,
    depth: nat,
)
    requires
        n <= m,
        fields_rows(index, scope, register, fields, n, path, address, depth) is Err,
    ensures
        fields_rows(index, scope, register, fields, m, path, address, depth) == fields_rows(
            index,
            scope,
            register,
            fields,
            n,
            path,
            address,
            depth,
        ),
    decreases m,
{
    if n < m {
        lemma_fields_rows_error(
            index,
            scope,
            register,
            fields,
            n,
            (m - 1) as nat,
            path,
            address,
            depth,
        );
    }
}

/// Appends the rows of the fields of the register `r`: of the register
/// itself, or of one element of a register array. `path` and `address` are
/// those of that register or element, `depth` is that of its fields, and
/// `scope` is where the register's definition stands.
/// `depth` counts the rows that stand above: they are in `nodes` already.
pub fn add_fields_tree(
    nodes: &mut Vec<FlatNode>,
    index: &EvIndex,
    r: &RegisterDef,
    path: &str,
    scope: &str,
    address: u64,
    depth: usize,
) -> (outcome: Result<(), BuildError>)
    requires
        depth <= old(nodes).len(),
    ensures
        appended(
            old(nodes)@,
            final(nodes)@,
            outcome,
            fields_rows(
                index@,
                scope@,
                r.name@,
                r.fields@,
                r.fields@.len(),
                path@,
                address,
                depth as nat,
            ),
        ),
        outcome is Ok ==> final(nodes)@.len() >= old(nodes)@.len(),
{
    let mut i: usize = 0;
    assert(node_views(nodes@) =~= node_views(nodes@) + Seq::<FlatNodeView>::empty());
    while i < r.fields.len()
        invariant
            i <= r.fields@.len(),
            depth <= old(nodes).len() <= nodes.len(),
            fields_rows(
                index@,
                scope@,
                r.name@,
                r.fields@,
                i as nat,
                path@,
                address,
                depth as nat,
            ) is Ok,
            node_views(nodes@) == node_views(old(nodes)@) + fields_rows(
                index@,
                scope@,
                r.name@,
                r.fields@,
                i as nat,
                path@,
                address,
                depth as nat,
            )->Ok_0,
        decreases r.fields@.len() - i,
    {
        let ghost start = node_views(old(nodes)@);
        let ghost done = fields_rows(
            index@,
            scope@,
            r.name@,
            r.fields@,
            i as nat,
            path@,
            address,
            depth as nat,
        )->Ok_0;
        match add_field(nodes, index, scope, r, &r.fields[i], path, address, depth) {
            Err(e) => {
                proof {
                    lemma_fields_rows_error(
                        index@,
                        scope@,
                        r.name@,
                        r.fields@,
                        (i + 1) as nat,
                        r.fields@.len(),
                        path@,
                        address,
                        depth as nat,
                    );
                }
                return Err(e);
            },
            Ok(()) => {
                let ghost rows = field_rows(
                    index@,
                    scope@,
                    r.name@,
                    r.fields@,
                    r.fields@[i as int],
                    path@,
                    address,
                    depth as nat,
                )->Ok_0;
                assert((start + done) + rows =~= start + (done + rows));
            },
        }
        i = i + 1;
    }
    Ok(())
}

} // verus!
