//! Path uniqueness: in the tree of a device whose names hold no dot and
//! are different among the definitions of one level, no two rows have the
//! same path.
use crate::array::element;
use crate::array::label;
use crate::clusters::child_rows;
use crate::clusters::children_rows;
use crate::clusters::cluster_element_rows;
use crate::clusters::cluster_rows;
use crate::enums::sets_text;
use crate::fields::field_element_rows;
use crate::fields::field_rows;
use crate::fields::fields_rows;
use crate::model::ArrayDim;
use crate::model::ClusterDef;
use crate::model::DeviceDef;
use crate::model::EnumValue;
use crate::model::FieldDef;
use crate::model::FlatNodeView;
use crate::model::PeripheralDef;
use crate::model::RegisterClusterNode;
use crate::model::RegisterDef;
use crate::names::derivation_base;
use crate::names::indexed;
use crate::names::keys_distinct;
use crate::names::lemma_entry_position;
use crate::names::lemma_indexed;
use crate::names::peripheral_names;
use crate::paths::base_of;
use crate::paths::dot_free;
use crate::paths::lemma_names_ok_part;
use crate::paths::lemma_paths_are_concat;
use crate::paths::lemma_tidy_concat;
use crate::paths::lemma_tidy_exact;
use crate::paths::lemma_tidy_group;
use crate::paths::names_ok;
use crate::paths::paths_are;
use crate::paths::paths_distinct;
use crate::paths::tidy;
use crate::registers::register_element_rows;
use crate::registers::register_rows;
use crate::sets::device_index;
use crate::text::collapse_spaces;
use crate::text::substituted;
use crate::text::text_or_empty;
use crate::tree::device_rows;
use crate::tree::peripheral_row;
use crate::tree::peripheral_rows;
use crate::tree::tree_rows;
use vstd::prelude::*;

verus! {

/// The names of the first `n` elements of the array of a definition called
/// `name`.
pub open spec fn element_names(name: Seq<char>, array: ArrayDim, n: nat) -> Seq<Seq<char>> {
    Seq::new(n, |i: int| substituted(name, label(array, i as nat)))
}

/// The names that a definition called `name` puts below its parent: its own
/// and, for an array, that of each element.
pub open spec fn entry_names(name: Seq<char>, array: Option<ArrayDim>) -> Seq<Seq<char>> {
    match array {
        None => seq![name],
        Some(a) => seq![name] + element_names(name, a, a.dim as nat),
    }
}

/// The names that the first `n` fields put below their register.
pub open spec fn field_names(fields: Seq<FieldDef>, n: nat) -> Seq<Seq<char>>
    decreases n,
{
    if n == 0 {
        Seq::empty()
    } else {
        field_names(fields, (n - 1) as nat) + entry_names(fields[n - 1].name@, fields[n - 1].array)
    }
}

/// The names that a register or cluster puts below its parent.
pub open spec fn child_names(child: RegisterClusterNode) -> Seq<Seq<char>> {
    match child {
        RegisterClusterNode::Register(r) => entry_names(r.name@, r.array),
        RegisterClusterNode::Cluster(c) => entry_names(c.name@, c.array),
    }
}

/// The names that the first `n` of the registers and clusters put below
/// their parent.
pub open spec fn children_names(children: Seq<RegisterClusterNode>, n: nat) -> Seq<Seq<char>>
    decreases n,
{
    if n == 0 {
        Seq::empty()
    } else {
        children_names(children, (n - 1) as nat) + child_names(children[n - 1])
    }
}

/// Whether the names that the fields of the register put below it hold no
/// dot and are all different.
pub open spec fn register_named(r: RegisterDef) -> bool {
    names_ok(field_names(r.fields@, r.fields@.len()))
}

/// Whether, in the cluster and in all that stands in it, the names below
/// one node hold no dot and are all different.
pub open spec fn cluster_named(c: ClusterDef) -> bool
    decreases c, 1nat,
{
    &&& names_ok(children_names(c.children@, c.children@.len()))
    &&& children_named(c.children@, c.children@.len())
}

/// Whether each of the first `n` registers and clusters is well named
/// within.
pub open spec fn children_named(children: Seq<RegisterClusterNode>, n: nat) -> bool
    decreases children, n,
{
    if n == 0 || n > children.len() {
        true
    } else {
        &&& children_named(children, (n - 1) as nat)
        &&& match children[n - 1] {
            RegisterClusterNode::Register(r) => register_named(r),
            RegisterClusterNode::Cluster(c) => cluster_named(c),
        }
    }
}

/// Whether the peripheral's name holds no dot, and the names below each node
/// of its content hold no dot and are all different.
pub open spec fn peripheral_named(p: PeripheralDef) -> bool {
    &&& dot_free(p.name@)
    &&& names_ok(children_names(p.children@, p.children@.len()))
    &&& children_named(p.children@, p.children@.len())
}

/// Whether every peripheral of the device is well named.
pub open spec fn well_named(device: DeviceDef) -> bool {
    forall|k: int|
        0 <= k < device.peripherals@.len() ==> peripheral_named(#[trigger] device.peripherals@[k])
}

proof fn lemma_field_element_paths(
    f: FieldDef,
    array: ArrayDim,
    n: nat,
    path: Seq<char>,
    address: u64,
    depth: nat,
    description: Seq<char>,
    values: Seq<char>,
)
    requires
        field_element_rows(f, array, n, path, address, depth, description, values) is Ok,
    ensures
        paths_are(
            field_element_rows(f, array, n, path, address, depth, description, values)->Ok_0,
            base_of(path),
            element_names(f.name@, array, n),
        ),
    decreases n,
{
    if n > 0 {
        lemma_field_element_paths(
            f,
            array,
            (n - 1) as nat,
            path,
            address,
            depth,
            description,
            values,
        );
        let rows = field_element_rows(f, array, n, path, address, depth, description, values)->Ok_0;
        let names = element_names(f.name@, array, n);
        assert forall|i: int| 0 <= i < rows.len() implies (#[trigger] rows[i]).path == base_of(path)
            + names[i] by {}
    }
}

proof fn lemma_field_paths(
    index: Seq<(Seq<char>, Vec<EnumValue>)>,
    scope: Seq<char>,
    register: Seq<char>,
    fields: Seq<FieldDef>,
    f: FieldDef,
    path: Seq<char>,
    address: u64,
    depth: nat,
)
    requires
        field_rows(index, scope, register, fields, f, path, address, depth) is Ok,
    ensures
        paths_are(
            field_rows(index, scope, register, fields, f, path, address, depth)->Ok_0,
            base_of(path),
            entry_names(f.name@, f.array),
        ),
{
    let rows = field_rows(index, scope, register, fields, f, path, address, depth)->Ok_0;
    let names = entry_names(f.name@, f.array);
    match f.array {
        None => {
            assert forall|i: int| 0 <= i < rows.len() implies (#[trigger] rows[i]).path == base_of(
                path,
            ) + names[i] by {}
        },
        Some(array) => {
            let description = collapse_spaces(text_or_empty(f.description));
            let values = sets_text(
                index,
                scope,
                register,
                fields,
                f.enumerated_values@,
                f.enumerated_values@.len(),
            )->Ok_0;
            lemma_field_element_paths(
                f,
                array,
                array.dim as nat,
                path,
                address,
                depth + 1,
                description,
                values,
            );
            let elements = field_element_rows(
                f,
                array,
                array.dim as nat,
                path,
                address,
                depth + 1,
                description,
                values,
            )->Ok_0;
            assert(rows.len() == 1 + elements.len());
            assert forall|i: int| 0 <= i < rows.len() implies (#[trigger] rows[i]).path == base_of(
                path,
            ) + names[i] by {
                if i > 0 {
                    assert(rows[i] == elements[i - 1]);
                    assert(names[i] == element_names(f.name@, array, array.dim as nat)[i - 1]);
                }
            }
        },
    }
}

proof fn lemma_fields_paths(
    index: Seq<(Seq<char>, Vec<EnumValue>)>,
    scope: Seq<char>,
    register: Seq<char>,
    fields: Seq<FieldDef>,
    n: nat,
    path: Seq<char>,
    address: u64,
    depth: nat,
)
    requires
        fields_rows(index, scope, register, fields, n, path, address, depth) is Ok,
    ensures
        paths_are(
            fields_rows(index, scope, register, fields, n, path, address, depth)->Ok_0,
            base_of(path),
            field_names(fields, n),
        ),
    decreases n,
{
    if n > 0 {
        lemma_fields_paths(index, scope, register, fields, (n - 1) as nat, path, address, depth);
        lemma_field_paths(index, scope, register, fields, fields[n - 1], path, address, depth);
        lemma_paths_are_concat(
            fields_rows(
                index,
                scope,
                register,
                fields,
                (n - 1) as nat,
                path,
                address,
                depth,
            )->Ok_0,
            field_rows(index, scope, register, fields, fields[n - 1], path, address, depth)->Ok_0,
            base_of(path),
            field_names(fields, (n - 1) as nat),
            entry_names(fields[n - 1].name@, fields[n - 1].array),
        );
    }
}

/// The rows of a register's fields are tidy below the register.
proof fn lemma_fields_tidy(
    index: Seq<(Seq<char>, Vec<EnumValue>)>,
    scope: Seq<char>,
    r: RegisterDef,
    path: Seq<char>,
    address: u64,
    depth: nat,
)
    requires
        fields_rows(index, scope, r.name@, r.fields@, r.fields@.len(), path, address, depth) is Ok,
        register_named(r),
    ensures
        tidy(
            fields_rows(
                index,
                scope,
                r.name@,
                r.fields@,
                r.fields@.len(),
                path,
                address,
                depth,
            )->Ok_0,
            base_of(path),
            field_names(r.fields@, r.fields@.len()),
        ),
{
    lemma_fields_paths(index, scope, r.name@, r.fields@, r.fields@.len(), path, address, depth);
    lemma_tidy_exact(
        fields_rows(
            index,
            scope,
            r.name@,
            r.fields@,
            r.fields@.len(),
            path,
            address,
            depth,
        )->Ok_0,
        base_of(path),
        field_names(r.fields@, r.fields@.len()),
    );
}

proof fn lemma_register_elements_tidy(
    index: Seq<(Seq<char>, Vec<EnumValue>)>,
    r: RegisterDef,
    array: ArrayDim,
    n: nat,
    prefix: Seq<char>,
    scope: Seq<char>,
    base: u64,
    depth: nat,
    description: Seq<char>,
)
    requires
        register_element_rows(index, r, array, n, prefix, scope, base, depth, description) is Ok,
        register_named(r),
        names_ok(element_names(r.name@, array, n)),
    ensures
        tidy(
            register_element_rows(
                index,
                r,
                array,
                n,
                prefix,
                scope,
                base,
                depth,
                description,
            )->Ok_0,
            base_of(prefix),
            element_names(r.name@, array, n),
        ),
    decreases n,
{
    let names = element_names(r.name@, array, n);
    if n > 0 {
        let fewer = element_names(r.name@, array, (n - 1) as nat);
        assert(fewer =~= names.subrange(0, n - 1));
        lemma_names_ok_part(names, 0, n - 1);
        lemma_register_elements_tidy(
            index,
            r,
            array,
            (n - 1) as nat,
            prefix,
            scope,
            base,
            depth,
            description,
        );
        let before = register_element_rows(
            index,
            r,
            array,
            (n - 1) as nat,
            prefix,
            scope,
            base,
            depth,
            description,
        )->Ok_0;
        let rows = register_element_rows(
            index,
            r,
            array,
            n,
            prefix,
            scope,
            base,
            depth,
            description,
        )->Ok_0;
        let e = element(r.name@, description, array, (n - 1) as nat);
        let path = base_of(prefix) + e.name;
        let head = rows[before.len() as int];
        let fields = rows.subrange(before.len() as int + 1, rows.len() as int);
        assert(head.path == path);
        assert(rows =~= before + (seq![head] + fields));
        let address = head.address->Some_0;
        lemma_fields_tidy(index, scope, r, path, address, depth + 1);
        assert(fields =~= fields_rows(
            index,
            scope,
            r.name@,
            r.fields@,
            r.fields@.len(),
            path,
            address,
            depth + 1,
        )->Ok_0);
        lemma_tidy_group(
            head,
            fields,
            base_of(prefix),
            e.name,
            field_names(r.fields@, r.fields@.len()),
        );
        assert(names =~= fewer + seq![e.name]);
        lemma_tidy_concat(before, seq![head] + fields, base_of(prefix), fewer, seq![e.name]);
    }
}

/// The rows of a register are tidy below the names that it puts below its
/// parent.
proof fn lemma_register_tidy(
    index: Seq<(Seq<char>, Vec<EnumValue>)>,
    r: RegisterDef,
    prefix: Seq<char>,
    scope: Seq<char>,
    base: u64,
    depth: nat,
)
    requires
        register_rows(index, r, prefix, scope, base, depth) is Ok,
        register_named(r),
        names_ok(entry_names(r.name@, r.array)),
    ensures
        tidy(
            register_rows(index, r, prefix, scope, base, depth)->Ok_0,
            base_of(prefix),
            entry_names(r.name@, r.array),
        ),
{
    let rows = register_rows(index, r, prefix, scope, base, depth)->Ok_0;
    let names = entry_names(r.name@, r.array);
    let description = collapse_spaces(text_or_empty(r.description));
    let path = base_of(prefix) + r.name@;
    let head = rows[0];
    let rest = rows.subrange(1, rows.len() as int);
    assert(head.path == path);
    assert(rows =~= seq![head] + rest);
    match r.array {
        None => {
            let address = head.address->Some_0;
            lemma_fields_tidy(index, scope, r, path, address, depth + 1);
            assert(rest =~= fields_rows(
                index,
                scope,
                r.name@,
                r.fields@,
                r.fields@.len(),
                path,
                address,
                depth + 1,
            )->Ok_0);
            lemma_tidy_group(
                head,
                rest,
                base_of(prefix),
                r.name@,
                field_names(r.fields@, r.fields@.len()),
            );
        },
        Some(array) => {
            let inner = element_names(r.name@, array, array.dim as nat);
            assert(inner =~= names.subrange(1, names.len() as int));
            lemma_names_ok_part(names, 1, names.len() as int);
            lemma_register_elements_tidy(
                index,
                r,
                array,
                array.dim as nat,
                prefix,
                scope,
                base,
                depth + 1,
                description,
            );
            assert(rest =~= register_element_rows(
                index,
                r,
                array,
                array.dim as nat,
                prefix,
                scope,
                base,
                depth + 1,
                description,
            )->Ok_0);
            let none = Seq::<FlatNodeView>::empty();
            assert(tidy(none, base_of(path), Seq::<Seq<char>>::empty()));
            lemma_tidy_group(head, none, base_of(prefix), r.name@, Seq::<Seq<char>>::empty());
            assert(seq![head] + none =~= seq![head]);
            lemma_tidy_concat(seq![head], rest, base_of(prefix), seq![r.name@], inner);
        },
    }
}

proof fn lemma_cluster_elements_tidy(
    index: Seq<(Seq<char>, Vec<EnumValue>)>,
    c: ClusterDef,
    array: ArrayDim,
    n: nat,
    prefix: Seq<char>,
    scope: Seq<char>,
    base: u64,
    depth: nat,
    description: Seq<char>,
)
    requires
        cluster_element_rows(index, c, array, n, prefix, scope, base, depth, description) is Ok,
        cluster_named(c),
        names_ok(element_names(c.name@, array, n)),
    ensures
        tidy(
            cluster_element_rows(
                index,
                c,
                array,
                n,
                prefix,
                scope,
                base,
                depth,
                description,
            )->Ok_0,
            base_of(prefix),
            element_names(c.name@, array, n),
        ),
    decreases c, 0nat, n,
{
    let names = element_names(c.name@, array, n);
    if n > 0 {
        let fewer = element_names(c.name@, array, (n - 1) as nat);
        assert(fewer =~= names.subrange(0, n - 1));
        lemma_names_ok_part(names, 0, n - 1);
        lemma_cluster_elements_tidy(
            index,
            c,
            array,
            (n - 1) as nat,
            prefix,
            scope,
            base,
            depth,
            description,
        );
        let before = cluster_element_rows(
            index,
            c,
            array,
            (n - 1) as nat,
            prefix,
            scope,
            base,
            depth,
            description,
        )->Ok_0;
        let rows = cluster_element_rows(
            index,
            c,
            array,
            n,
            prefix,
            scope,
            base,
            depth,
            description,
        )->Ok_0;
        let e = element(c.name@, description, array, (n - 1) as nat);
        let path = base_of(prefix) + e.name;
        let inner_scope = base_of(scope) + c.name@;
        let head = rows[before.len() as int];
        let children = rows.subrange(before.len() as int + 1, rows.len() as int);
        assert(head.path == path);
        assert(rows =~= before + (seq![head] + children));
        let address = head.address->Some_0;
        lemma_children_tidy(
            index,
            c.children@,
            c.children@.len(),
            path,
            inner_scope,
            address,
            depth + 1,
        );
        assert(children =~= children_rows(
            index,
            c.children@,
            c.children@.len(),
            path,
            inner_scope,
            address,
            depth + 1,
        )->Ok_0);
        lemma_tidy_group(
            head,
            children,
            base_of(prefix),
            e.name,
            children_names(c.children@, c.children@.len()),
        );
        assert(names =~= fewer + seq![e.name]);
        lemma_tidy_concat(before, seq![head] + children, base_of(prefix), fewer, seq![e.name]);
    }
}

/// The rows of a cluster are tidy below the names that it puts below its
/// parent.
proof fn lemma_cluster_tidy(
    index: Seq<(Seq<char>, Vec<EnumValue>)>,
    c: ClusterDef,
    prefix: Seq<char>,
    scope: Seq<char>,
    base: u64,
    depth: nat,
)
    requires
        cluster_rows(index, c, prefix, scope, base, depth) is Ok,
        cluster_named(c),
        names_ok(entry_names(c.name@, c.array)),
    ensures
        tidy(
            cluster_rows(index, c, prefix, scope, base, depth)->Ok_0,
            base_of(prefix),
            entry_names(c.name@, c.array),
        ),
    decreases c, 1nat, 0nat,
{
    let rows = cluster_rows(index, c, prefix, scope, base, depth)->Ok_0;
    let names = entry_names(c.name@, c.array);
    let description = collapse_spaces(text_or_empty(c.description));
    let path = base_of(prefix) + c.name@;
    let inner_scope = base_of(scope) + c.name@;
    let head = rows[0];
    let rest = rows.subrange(1, rows.len() as int);
    assert(head.path == path);
    assert(rows =~= seq![head] + rest);
    match c.array {
        None => {
            let address = head.address->Some_0;
            lemma_children_tidy(
                index,
                c.children@,
                c.children@.len(),
                path,
                inner_scope,
                address,
                depth + 1,
            );
            assert(rest =~= children_rows(
                index,
                c.children@,
                c.children@.len(),
                path,
                inner_scope,
                address,
                depth + 1,
            )->Ok_0);
            lemma_tidy_group(
                head,
                rest,
                base_of(prefix),
                c.name@,
                children_names(c.children@, c.children@.len()),
            );
        },
        Some(array) => {
            let inner = element_names(c.name@, array, array.dim as nat);
            assert(inner =~= names.subrange(1, names.len() as int));
            lemma_names_ok_part(names, 1, names.len() as int);
            lemma_cluster_elements_tidy(
                index,
                c,
                array,
                array.dim as nat,
                prefix,
                scope,
                base,
                depth + 1,
                description,
            );
            assert(rest =~= cluster_element_rows(
                index,
                c,
                array,
                array.dim as nat,
                prefix,
                scope,
                base,
                depth + 1,
                description,
            )->Ok_0);
            let none = Seq::<FlatNodeView>::empty();
            assert(tidy(none, base_of(path), Seq::<Seq<char>>::empty()));
            lemma_tidy_group(head, none, base_of(prefix), c.name@, Seq::<Seq<char>>::empty());
            assert(seq![head] + none =~= seq![head]);
            lemma_tidy_concat(seq![head], rest, base_of(prefix), seq![c.name@], inner);
        },
    }
}

/// The rows of the first `n` registers and clusters of a node are tidy
/// below the names that they put below it.
proof fn lemma_children_tidy(
    index: Seq<(Seq<char>, Vec<EnumValue>)>,
    children: Seq<RegisterClusterNode>,
    n: nat,
    prefix: Seq<char>,
    scope: Seq<char>,
    base: u64,
    depth: nat,
)
    requires
        n <= children.len(),
        children_rows(index, children, n, prefix, scope, base, depth) is Ok,
        children_named(children, n),
        names_ok(children_names(children, n)),
    ensures
        tidy(
            children_rows(index, children, n, prefix, scope, base, depth)->Ok_0,
            base_of(prefix),
            children_names(children, n),
        ),
    decreases children, n, 0nat,
{
    if n > 0 {
        let names = children_names(children, n);
        let fewer = children_names(children, (n - 1) as nat);
        let own = child_names(children[n - 1]);
        assert(names == fewer + own);
        assert(fewer =~= names.subrange(0, fewer.len() as int));
        assert(own =~= names.subrange(fewer.len() as int, names.len() as int));
        lemma_names_ok_part(names, 0, fewer.len() as int);
        lemma_names_ok_part(names, fewer.len() as int, names.len() as int);
        lemma_children_tidy(index, children, (n - 1) as nat, prefix, scope, base, depth);
        match children[n - 1] {
            RegisterClusterNode::Register(r) => {
                lemma_register_tidy(index, r, prefix, scope, base, depth);
            },
            RegisterClusterNode::Cluster(c) => {
                lemma_cluster_tidy(index, c, prefix, scope, base, depth);
            },
        }
        lemma_tidy_concat(
            children_rows(index, children, (n - 1) as nat, prefix, scope, base, depth)->Ok_0,
            child_rows(index, children[n - 1], prefix, scope, base, depth)->Ok_0,
            base_of(prefix),
            fewer,
            own,
        );
    }
}

/// The names of the first `n` entries.
pub open spec fn entry_keys(entries: Seq<(Seq<char>, usize)>, n: nat) -> Seq<Seq<char>> {
    Seq::new(n, |i: int| entries[i].0)
}

proof fn lemma_device_tidy(
    index: Seq<(Seq<char>, Vec<EnumValue>)>,
    peripherals: Seq<PeripheralDef>,
    entries: Seq<(Seq<char>, usize)>,
    n: nat,
)
    requires
        n <= entries.len(),
        device_rows(index, peripherals, entries, n) is Ok,
        forall|k: int| 0 <= k < peripherals.len() ==> peripheral_named(#[trigger] peripherals[k]),
        keys_distinct(entries),
        forall|i: int|
            0 <= i < entries.len() ==> {
                &&& 0 <= (#[trigger] entries[i]).1 < peripherals.len()
                &&& peripherals[entries[i].1 as int].name@ == entries[i].0
            },
    ensures
        tidy(
            device_rows(index, peripherals, entries, n)->Ok_0,
            Seq::empty(),
            entry_keys(entries, n),
        ),
    decreases n,
{
    let nothing = Seq::<char>::empty();
    if n > 0 {
        lemma_device_tidy(index, peripherals, entries, (n - 1) as nat);
        let before = device_rows(index, peripherals, entries, (n - 1) as nat)->Ok_0;
        let own = entries[n - 1].1;
        let p = peripherals[own as int];
        let at = derivation_base(entries, p.derived_from, own);
        if p.derived_from is Some {
            lemma_entry_position(entries, p.derived_from->Some_0@);
        }
        let base = peripherals[at as int];
        let group = peripheral_rows(index, p, base)->Ok_0;
        let head = peripheral_row(p, base);
        let children = children_rows(
            index,
            base.children@,
            base.children@.len(),
            p.name@,
            base.name@,
            p.base_address,
            1,
        )->Ok_0;
        assert(group == seq![head] + children);
        assert(nothing + p.name@ =~= p.name@);
        lemma_children_tidy(
            index,
            base.children@,
            base.children@.len(),
            p.name@,
            base.name@,
            p.base_address,
            1,
        );
        lemma_tidy_group(
            head,
            children,
            nothing,
            p.name@,
            children_names(base.children@, base.children@.len()),
        );
        let names = entry_keys(entries, n);
        let fewer = entry_keys(entries, (n - 1) as nat);
        assert(names =~= fewer + seq![p.name@]);
        assert forall|i: int| 0 <= i < names.len() implies dot_free(#[trigger] names[i]) by {
            assert(names[i] == peripherals[entries[i].1 as int].name@);
        }
        assert(names_ok(names));
        lemma_tidy_concat(before, group, nothing, fewer, seq![p.name@]);
    }
}

/// Path uniqueness. Where a device is well named (no name holds a dot, and
/// the names that stand below one node, those of array elements among them,
/// are all different), no two rows of its tree have the same path.
pub proof fn lemma_paths_unique(device: DeviceDef)
    requires
        well_named(device),
        tree_rows(device) is Ok,
    ensures
        paths_distinct(tree_rows(device)->Ok_0),
{
    let names = peripheral_names(device.peripherals@);
    let entries = indexed(names);
    assert(device.peripherals.len() == device.peripherals@.len());
    lemma_indexed(names);
    assert forall|i: int| 0 <= i < entries.len() implies {
        &&& 0 <= (#[trigger] entries[i]).1 < device.peripherals@.len()
        &&& device.peripherals@[entries[i].1 as int].name@ == entries[i].0
    } by {
        assert(names[entries[i].1 as int] == device.peripherals@[entries[i].1 as int].name@);
    }
    lemma_device_tidy(device_index(device), device.peripherals@, entries, entries.len());
}

} // verus!
