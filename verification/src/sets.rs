//! The walk that enters every named value set of a device into the index,
//! before any field is rendered.
use crate::enums::make_set_key;
use crate::enums::set_key;
use crate::enums::EvIndex;
use crate::model::ClusterDef;
use crate::model::DeviceDef;
use crate::model::EnumValue;
use crate::model::EnumeratedValueSetRef;
use crate::model::PeripheralDef;
use crate::model::RegisterClusterNode;
use crate::model::RegisterDef;
use crate::names::indexed;
use crate::names::lemma_indexed;
use crate::names::peripheral_names;
use crate::names::NameIndex;
use crate::text::join_path;
use crate::text::joined_path;
use vstd::prelude::*;

verus! {

/// The named sets among the first `n` value sets of the field `field` of
/// the register `register` in `scope`, each under its key. A set without a
/// name, or one that only refers to another, is not entered.
pub open spec fn field_sets(
    sets: Seq<EnumeratedValueSetRef>,
    n: nat,
    scope: Seq<char>,
    register: Seq<char>,
    field: Seq<char>,
) -> Seq<(Seq<char>, Vec<EnumValue>)>
    decreases n,
{
    if n == 0 {
        Seq::empty()
    } else {
        let before = field_sets(sets, (n - 1) as nat, scope, register, field);
        match sets[n - 1] {
            EnumeratedValueSetRef::Inline { name: Some(name), values } => before.push(
                (set_key(scope, register, field, name@), values),
            ),
            _ => before,
        }
    }
}

/// The named sets of the first `n` fields of the register `r` in `scope`.
pub open spec fn register_sets(r: RegisterDef, n: nat, scope: Seq<char>) -> Seq<
    (Seq<char>, Vec<EnumValue>),
>
    decreases n,
{
    if n == 0 {
        Seq::empty()
    } else {
        register_sets(r, (n - 1) as nat, scope) + field_sets(
            r.fields@[n - 1].enumerated_values@,
            r.fields@[n - 1].enumerated_values@.len(),
            scope,
            r.name@,
            r.fields@[n - 1].name@,
        )
    }
}

/// The named sets of all that stands in the cluster `c`, whose scope is
/// `scope`, a dot and the cluster's name.
pub open spec fn cluster_sets(c: ClusterDef, scope: Seq<char>) -> Seq<(Seq<char>, Vec<EnumValue>)>
    decreases c, 1nat,
{
    children_sets(c.children@, c.children@.len(), join_path(scope, c.name@))
}

/// The named sets of the first `n` of the registers and clusters `children`
/// in `scope`.
pub open spec fn children_sets(
    children: Seq<RegisterClusterNode>,
    n: nat,
    scope: Seq<char>,
) -> Seq<(Seq<char>, Vec<EnumValue>)>
    decreases children, n,
{
    if n == 0 || n > children.len() {
        Seq::empty()
    } else {
        children_sets(children, (n - 1) as nat, scope) + match children[n - 1] {
            RegisterClusterNode::Register(r) => register_sets(r, r.fields@.len(), scope),
            RegisterClusterNode::Cluster(c) => cluster_sets(c, scope),
        }
    }
}

/// The named sets of the peripherals at the first `n` of `entries`, each
/// peripheral a scope of its own name.
pub open spec fn device_sets(
    peripherals: Seq<PeripheralDef>,
    entries: Seq<(Seq<char>, usize)>,
    n: nat,
) -> Seq<(Seq<char>, Vec<EnumValue>)>
    decreases n,
{
    if n == 0 {
        Seq::empty()
    } else {
        let p = peripherals[entries[n - 1].1 as int];
        device_sets(peripherals, entries, (n - 1) as nat) + children_sets(
            p.children@,
            p.children@.len(),
            p.name@,
        )
    }
}

/// The index of a device: the named sets of its peripherals, one peripheral
/// of each name, in the order in which the names first occur.
pub open spec fn device_index(device: DeviceDef) -> Seq<(Seq<char>, Vec<EnumValue>)> {
    let entries = indexed(peripheral_names(device.peripherals@));
    device_sets(device.peripherals@, entries, entries.len())
}

fn add_field_ev<'a>(
    index: &mut EvIndex<'a>,
    sets: &'a Vec<EnumeratedValueSetRef>,
    scope: &str,
    register: &str,
    field: &str,
)
    ensures
        final(index)@ == old(index)@ + field_sets(sets@, sets@.len(), scope@, register@, field@),
{
    let mut i: usize = 0;
    assert(index@ =~= index@ + field_sets(sets@, 0, scope@, register@, field@));
    while i < sets.len()
        invariant
            i <= sets@.len(),
            index@ == old(index)@ + field_sets(sets@, i as nat, scope@, register@, field@),
        decreases sets@.len() - i,
    {
        let ghost done = field_sets(sets@, i as nat, scope@, register@, field@);
        match &sets[i] {
            EnumeratedValueSetRef::Inline { name: Some(name), values } => {
                let key = make_set_key(scope, register, field, name.as_str());
                index.insert(key, values);
                assert(index@ =~= old(index)@ + done.push((key@, *values)));
            },
            _ => {},
        }
        i = i + 1;
    }
}

/// Enters the named sets of the fields of the register `r` in `scope`.
pub fn add_reg_ev<'a>(index: &mut EvIndex<'a>, r: &'a RegisterDef, scope: &str)
    ensures
        final(index)@ == old(index)@ + register_sets(*r, r.fields@.len(), scope@),
{
    let mut i: usize = 0;
    assert(index@ =~= index@ + register_sets(*r, 0, scope@));
    while i < r.fields.len()
        invariant
            i <= r.fields@.len(),
            index@ == old(index)@ + register_sets(*r, i as nat, scope@),
        decreases r.fields@.len() - i,
    {
        let ghost start = old(index)@;
        let ghost done = register_sets(*r, i as nat, scope@);
        let f = &r.fields[i];
        add_field_ev(index, &f.enumerated_values, scope, r.name.as_str(), f.name.as_str());
        assert((start + done) + field_sets(
            f.enumerated_values@,
            f.enumerated_values@.len(),
            scope@,
            r.name@,
            f.name@,
        ) =~= start + (done + field_sets(
            f.enumerated_values@,
            f.enumerated_values@.len(),
            scope@,
            r.name@,
            f.name@,
        )));
        i = i + 1;
    }
}

/// Enters the named sets of the registers and clusters `children` in
/// `scope`.
pub fn add_children_ev<'a>(
    index: &mut EvIndex<'a>,
    children: &'a Vec<RegisterClusterNode>,
    scope: &str,
)
    ensures
        final(index)@ == old(index)@ + children_sets(children@, children@.len(), scope@),
    decreases children@, 0nat,
{
    let mut i: usize = 0;
    assert(index@ =~= index@ + children_sets(children@, 0, scope@));
    while i < children.len()
        invariant
            i <= children@.len(),
            index@ == old(index)@ + children_sets(children@, i as nat, scope@),
        decreases children@.len() - i,
    {
        let ghost start = old(index)@;
        let ghost done = children_sets(children@, i as nat, scope@);
        match &children[i] {
            RegisterClusterNode::Register(r) => {
                add_reg_ev(index, r, scope);
                assert((start + done) + register_sets(*r, r.fields@.len(), scope@) =~= start + (done
                    + register_sets(*r, r.fields@.len(), scope@)));
            },
            RegisterClusterNode::Cluster(c) => {
                add_clus_ev(index, c, scope);
                assert((start + done) + cluster_sets(*c, scope@) =~= start + (done + cluster_sets(
                    *c,
                    scope@,
                )));
            },
        }
        i = i + 1;
    }
}

/// Enters the named sets of all that stands in the cluster `c`, which stands
/// in `scope`.
pub fn add_clus_ev<'a>(index: &mut EvIndex<'a>, c: &'a ClusterDef, scope: &str)
    ensures
        final(index)@ == old(index)@ + cluster_sets(*c, scope@),
    decreases c, 1nat,
{
    let inner = joined_path(scope, c.name.as_str());
    add_children_ev(index, &c.children, inner.as_str());
}

pub(crate) fn collect_sets<'a>(device: &'a DeviceDef, names: &NameIndex) -> (index: EvIndex<'a>)
    requires
        names.entries() == indexed(peripheral_names(device.peripherals@)),
    ensures
        index@ == device_index(*device),
{
    let mut index = EvIndex::new();
    let count = names.len();
    let mut k: usize = 0;
    proof {
        assert(device.peripherals.len() == device.peripherals@.len());
        lemma_indexed(peripheral_names(device.peripherals@));
    }
    while k < count
        invariant
            k <= count == names.entries().len(),
            names.entries() == indexed(peripheral_names(device.peripherals@)),
            forall|i: int|
                0 <= i < names.entries().len() ==> 0 <= (#[trigger] names.entries()[i]).1
                    < device.peripherals@.len(),
            index@ == device_sets(device.peripherals@, names.entries(), k as nat),
        decreases count - k,
    {
        let ghost done = index@;
        match names.peripheral_at(k) {
            None => {},
            Some(own) => {
                let p = &device.peripherals[own];
                add_children_ev(&mut index, &p.children, p.name.as_str());
            },
        }
        k = k + 1;
    }
    index
}

/// The index of the named value sets of `device`.
pub fn build_ev_index<'a>(device: &'a DeviceDef) -> (index: EvIndex<'a>)
    ensures
        index@ == device_index(*device),
{
    let names = NameIndex::build(&device.peripherals);
    collect_sets(device, &names)
}

} // verus!
