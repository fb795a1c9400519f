//! The three forms of a reference to an enumerated value set name the same
//! set.
use crate::enums::count_char;
use crate::enums::find_set;
use crate::enums::lemma_sibling_set_found;
use crate::enums::resolved_set;
use crate::enums::segment_count;
use crate::enums::set_key;
use crate::enums::sibling_set;
use crate::model::BuildErrorView;
use crate::model::EnumValue;
use crate::model::FieldDef;
use crate::paths::dot_free;
use crate::text::join_path;
use vstd::prelude::*;

verus! {

/// A character stands in two texts as often as in the one and in the other.
pub proof fn lemma_count_concat(a: Seq<char>, b: Seq<char>, c: char)
    ensures
        count_char(a + b, c) == count_char(a, c) + count_char(b, c),
    decreases b.len(),
{
    if b.len() == 0 {
        assert(a + b =~= a);
    } else {
        assert((a + b).drop_last() =~= a + b.drop_last());
        lemma_count_concat(a, b.drop_last(), c);
    }
}

/// A name without a dot holds no dot.
pub proof fn lemma_count_dot_free(s: Seq<char>)
    requires
        dot_free(s),
    ensures
        count_char(s, '.') == 0,
    decreases s.len(),
{
    if s.len() > 0 {
        lemma_count_dot_free(s.drop_last());
    }
}

/// A joined path has the segments of both its parts.
pub proof fn lemma_segments_of_join(prefix: Seq<char>, name: Seq<char>)
    ensures
        segment_count(join_path(prefix, name)) == segment_count(prefix) + segment_count(name),
{
    lemma_count_concat(prefix.push('.'), name, '.');
    assert(prefix.push('.').drop_last() =~= prefix);
}

proof fn lemma_no_sibling(
    index: Seq<(Seq<char>, Vec<EnumValue>)>,
    scope: Seq<char>,
    register: Seq<char>,
    fields: Seq<FieldDef>,
    n: nat,
    name: Seq<char>,
)
    requires
        n <= fields.len(),
        forall|j: int|
            0 <= j < n ==> find_set(
                index,
                set_key(scope, register, (#[trigger] fields[j]).name@, name),
            ) is None,
    ensures
        sibling_set(index, scope, register, fields, n, name) is None,
    decreases n,
{
    if n > 0 {
        lemma_no_sibling(index, scope, register, fields, (n - 1) as nat, name);
        assert(find_set(index, set_key(scope, register, fields[n - 1].name@, name)) is None);
    }
}

/// Resolution by each form. Let the index hold a set under the key of the
/// set `set` of the field at `k` of a register, in a scope of one segment,
/// none of the names holding a dot. Then the key itself, the key without its
/// scope and, where no field before `k` has a set of that name, the bare
/// name of the set all resolve to that set.
pub proof fn lemma_reference_forms_agree(
    index: Seq<(Seq<char>, Vec<EnumValue>)>,
    scope: Seq<char>,
    register: Seq<char>,
    fields: Seq<FieldDef>,
    k: int,
    set: Seq<char>,
)
    requires
        0 <= k < fields.len(),
        dot_free(scope),
        dot_free(register),
        dot_free(fields[k].name@),
        dot_free(set),
        find_set(index, set_key(scope, register, fields[k].name@, set)) is Some,
    ensures
        resolved_set(
            index,
            scope,
            register,
            fields,
            set_key(scope, register, fields[k].name@, set),
        ) == Ok::<Vec<EnumValue>, BuildErrorView>(
            find_set(index, set_key(scope, register, fields[k].name@, set))->Some_0,
        ),
        resolved_set(
            index,
            scope,
            register,
            fields,
            join_path(join_path(register, fields[k].name@), set),
        ) == Ok::<Vec<EnumValue>, BuildErrorView>(
            find_set(index, set_key(scope, register, fields[k].name@, set))->Some_0,
        ),
        (forall|j: int|
            0 <= j < k ==> find_set(
                index,
                set_key(scope, register, (#[trigger] fields[j]).name@, set),
            ) is None) ==> resolved_set(index, scope, register, fields, set) == Ok::<
            Vec<EnumValue>,
            BuildErrorView,
        >(find_set(index, set_key(scope, register, fields[k].name@, set))->Some_0),
{
    let field = fields[k].name@;
    let key = set_key(scope, register, field, set);
    let short = join_path(join_path(register, field), set);
    lemma_count_dot_free(scope);
    lemma_count_dot_free(register);
    lemma_count_dot_free(field);
    lemma_count_dot_free(set);
    lemma_segments_of_join(scope, register);
    lemma_segments_of_join(join_path(scope, register), field);
    lemma_segments_of_join(join_path(join_path(scope, register), field), set);
    assert(segment_count(key) == 4);
    lemma_segments_of_join(register, field);
    lemma_segments_of_join(join_path(register, field), set);
    assert(segment_count(short) == 3);
    assert(join_path(scope, short) =~= key);
    assert(segment_count(set) == 1);
    if forall|j: int|
        0 <= j < k ==> find_set(
            index,
            set_key(scope, register, (#[trigger] fields[j]).name@, set),
        ) is None {
        lemma_no_sibling(index, scope, register, fields, k as nat, set);
        assert(sibling_set(index, scope, register, fields, (k + 1) as nat, set) == find_set(
            index,
            key,
        ));
        lemma_sibling_set_found(index, scope, register, fields, (k + 1) as nat, fields.len(), set);
    }
}

} // verus!
