//! Enumerated values: the index of every named value set of a device, the
//! three ways a field can refer to a set of that index, and the text that a
//! field's tooltip shows for its values.
use crate::model::BuildError;
use crate::model::BuildErrorView;
use crate::model::EnumValue;
use crate::model::EnumeratedValueSetRef;
use crate::model::FieldDef;
use crate::text::decimal;
use crate::text::join_path;
use crate::text::joined_path;
use crate::text::push_decimal;
use crate::text::to_chars;
use vstd::prelude::*;
use vstd::string::StringExecFns;

verus! {

/// A named value set under its composite key.
pub struct EvEntry<'a> {
    pub key: String,
    pub values: &'a Vec<EnumValue>,
}

/// The named value sets of a device, in the order in which they were found.
/// Where a key stands twice, the later entry is the one that counts.
pub struct EvIndex<'a> {
    pub entries: Vec<EvEntry<'a>>,
}

impl<'a> View for EvIndex<'a> {
    type V = Seq<(Seq<char>, Vec<EnumValue>)>;

    open spec fn view(&self) -> Seq<(Seq<char>, Vec<EnumValue>)> {
        self.entries@.map_values(|e: EvEntry<'a>| (e.key@, *e.values))
    }
}

/// The set that `index` holds under `key`: the last one entered.
pub open spec fn find_set(index: Seq<(Seq<char>, Vec<EnumValue>)>, key: Seq<char>) -> Option<
    Vec<EnumValue>,
>
    decreases index.len(),
{
    if index.len() == 0 {
        None
    } else if index.last().0 == key {
        Some(index.last().1)
    } else {
        find_set(index.drop_last(), key)
    }
}

/// The composite key of the set `set` of the field `field` of the register
/// `register`, which stands in `scope`: a peripheral, or a cluster in it.
pub open spec fn set_key(
    scope: Seq<char>,
    register: Seq<char>,
    field: Seq<char>,
    set: Seq<char>,
) -> Seq<char> {
    join_path(join_path(join_path(scope, register), field), set)
}

/// The composite key of a set.
pub fn make_set_key(scope: &str, register: &str, field: &str, set: &str) -> (r: String)
    ensures
        r@ == set_key(scope@, register@, field@, set@),
{
    let a = joined_path(scope, register);
    let b = joined_path(a.as_str(), field);
    joined_path(b.as_str(), set)
}

impl<'a> EvIndex<'a> {
    /// An index without sets.
    pub fn new() -> (r: Self)
        ensures
            r@ == Seq::<(Seq<char>, Vec<EnumValue>)>::empty(),
    {
        let r = EvIndex { entries: Vec::new() };
        assert(r@ =~= Seq::<(Seq<char>, Vec<EnumValue>)>::empty());
        r
    }

    /// Enters `values` under `key`. A set entered under that key before is
    /// no longer found.
    pub fn insert(&mut self, key: String, values: &'a Vec<EnumValue>)
        ensures
            final(self)@ == old(self)@.push((key@, *values)),
    {
        self.entries.push(EvEntry { key, values });
        assert(self@ =~= old(self)@.push((key@, *values)));
    }

    /// The set under `key`: the last one entered.
    pub fn get(&self, key: &str) -> (r: Option<&'a Vec<EnumValue>>)
        ensures
            match r {
                Some(v) => find_set(self@, key@) == Some(*v),
                None => find_set(self@, key@) is None,
            },
    {
        let wanted = String::from_str(key);
        let mut i: usize = self.entries.len();
        assert(self@.take(i as int) =~= self@);
        while i > 0
            invariant
                i <= self.entries@.len(),
                wanted@ == key@,
                find_set(self@, key@) == find_set(self@.take(i as int), key@),
            decreases i,
        {
            let ghost part = self@.take(i as int);
            assert(part.drop_last() =~= self@.take(i - 1));
            assert(part.last() == self@[i - 1]);
            if self.entries[i - 1].key == wanted {
                return Some(self.entries[i - 1].values);
            }
            i = i - 1;
        }
        assert(self@.take(0).len() == 0);
        None
    }

    /// Whether a set stands under `key`.
    pub fn contains_key(&self, key: &str) -> (r: bool)
        ensures
            r == find_set(self@, key@) is Some,
    {
        self.get(key).is_some()
    }
}

/// How often `c` stands in `s`.
pub open spec fn count_char(s: Seq<char>, c: char) -> nat
    decreases s.len(),
{
    if s.len() == 0 {
        0
    } else {
        count_char(s.drop_last(), c) + if s.last() == c {
            1nat
        } else {
            0nat
        }
    }
}

/// The number of segments that the dots of `reference` part it into.
pub open spec fn segment_count(reference: Seq<char>) -> nat {
    count_char(reference, '.') + 1
}

/// How many dots `reference` holds: one less than its segments.
pub fn count_dots(reference: &str) -> (n: usize)
    ensures
        n + 1 == segment_count(reference@),
{
    let chars = to_chars(reference);
    let mut dots: usize = 0;
    let mut i: usize = 0;
    while i < chars.len()
        invariant
            i <= chars@.len(),
            dots <= i,
            dots == count_char(chars@.take(i as int), '.'),
        decreases chars@.len() - i,
    {
        let ghost next = chars@.take(i + 1);
        assert(next.drop_last() =~= chars@.take(i as int));
        assert(next.last() == chars@[i as int]);
        if chars[i] == '.' {
            dots = dots + 1;
        }
        i = i + 1;
    }
    assert(chars@.take(i as int) =~= chars@);
    dots
}

/// The set of the first of the first `n` fields that has a set called `name`
/// in `index`, as a field of `register` in `scope`.
pub open spec fn sibling_set(
    index: Seq<(Seq<char>, Vec<EnumValue>)>,
    scope: Seq<char>,
    register: Seq<char>,
    fields: Seq<FieldDef>,
    n: nat,
    name: Seq<char>,
) -> Option<Vec<EnumValue>>
    decreases n,
{
    if n == 0 {
        None
    } else {
        match sibling_set(index, scope, register, fields, (n - 1) as nat, name) {
            Some(v) => Some(v),
            None => find_set(index, set_key(scope, register, fields[n - 1].name@, name)),
        }
    }
}

/// The set that `reference` stands for, in the field of a register
/// `register` with the fields `fields`, in `scope`.
///
/// A reference of four segments is a key of the index. One of three segments
/// is a key without its scope. One of a single segment names a set of a field
/// of the same register: the first field, in their order, that has such a set.
pub open spec fn resolved_set(
    index: Seq<(Seq<char>, Vec<EnumValue>)>,
    scope: Seq<char>,
    register: Seq<char>,
    fields: Seq<FieldDef>,
    reference: Seq<char>,
) -> Result<Vec<EnumValue>, BuildErrorView> {
    let segments = segment_count(reference);
    let found = if segments == 4 {
        find_set(index, reference)
    } else if segments == 3 {
        find_set(index, join_path(scope, reference))
    } else {
        sibling_set(index, scope, register, fields, fields.len(), reference)
    };
    if segments != 1 && segments != 3 && segments != 4 {
        Err(BuildErrorView::UnsupportedReference(reference))
    } else {
        match found {
            Some(v) => Ok(v),
            None => Err(BuildErrorView::UnknownReference(reference)),
        }
    }
}

fn find_sibling_set<'a>(
    index: &EvIndex<'a>,
    scope: &str,
    register: &str,
    fields: &Vec<FieldDef>,
    name: &str,
) -> (r: Option<&'a Vec<EnumValue>>)
    ensures
        match r {
            Some(v) => sibling_set(index@, scope@, register@, fields@, fields@.len(), name@)
                == Some(*v),
            None => sibling_set(index@, scope@, register@, fields@, fields@.len(), name@) is None,
        },
{
    let mut i: usize = 0;
    while i < fields.len()
        invariant
            i <= fields@.len(),
            sibling_set(index@, scope@, register@, fields@, i as nat, name@) is None,
        decreases fields@.len() - i,
    {
        let key = make_set_key(scope, register, fields[i].name.as_str(), name);
        match index.get(key.as_str()) {
            Some(v) => {
                proof {
                    lemma_sibling_set_found(
                        index@,
                        scope@,
                        register@,
                        fields@,
                        (i + 1) as nat,
                        fields@.len(),
                        name@,
                    );
                }
                return Some(v);
            },
            None => {},
        }
        i = i + 1;
    }
    None
}

/// Once a sibling has been found among the first `n` fields, more fields
/// change nothing.
pub proof fn lemma_sibling_set_found(
    index: Seq<(Seq<char>, Vec<EnumValue>)>,
    scope: Seq<char>,
    register: Seq<char>,
    fields: Seq<FieldDef>,
    n: nat,
    m: nat,
    name: Seq<char>,
)
    requires
        n <= m,
        sibling_set(index, scope, register, fields, n, name) is Some,
    ensures
        sibling_set(index, scope, register, fields, m, name) == sibling_set(
            index,
            scope,
            register,
            fields,
            n,
            name,
        ),
    decreases m,
{
    if n < m {
        lemma_sibling_set_found(index, scope, register, fields, n, (m - 1) as nat, name);
    }
}

/// Resolves the reference `reference` of a field of `register`.
pub fn resolve_reference<'a>(
    index: &EvIndex<'a>,
    scope: &str,
    register: &str,
    fields: &Vec<FieldDef>,
    reference: &str,
) -> (r: Result<&'a Vec<EnumValue>, BuildError>)
    ensures
        match r {
            Ok(v) => resolved_set(index@, scope@, register@, fields@, reference@) == Ok::<
                Vec<EnumValue>,
                BuildErrorView,
            >(*v),
            Err(e) => resolved_set(index@, scope@, register@, fields@, reference@) == Err::<
                Vec<EnumValue>,
                BuildErrorView,
            >(e@),
        },
{
    let dots = count_dots(reference);
    let found = if dots == 3 {
        index.get(reference)
    } else if dots == 2 {
        let key = joined_path(scope, reference);
        index.get(key.as_str())
    } else if dots == 0 {
        find_sibling_set(index, scope, register, fields, reference)
    } else {
        return Err(BuildError::UnsupportedReference(String::from_str(reference)));
    };
    match found {
        Some(v) => Ok(v),
        None => Err(BuildError::UnknownReference(String::from_str(reference))),
    }
}

/// The line of a tooltip for one value: a line break and a tab, the number,
/// ` : ` and the name.
pub open spec fn value_line(value: u64, name: Seq<char>) -> Seq<char> {
    seq!['\n', '\t'] + decimal(value as nat) + seq![' ', ':', ' '] + name
}

/// The lines of the first `n` values. A value without a number has no line.
pub open spec fn values_text(values: Seq<EnumValue>, n: nat) -> Seq<char>
    decreases n,
{
    if n == 0 {
        Seq::empty()
    } else {
        let before = values_text(values, (n - 1) as nat);
        match values[n - 1].value {
            Some(v) => before + value_line(v, values[n - 1].name@),
            None => before,
        }
    }
}

/// The note of a tooltip that says which set the values below it come from.
pub open spec fn derived_note(reference: Seq<char>) -> Seq<char> {
    "\n derived from: <i>"@ + reference + "</i>"@
}

fn push_values(out: &mut String, values: &Vec<EnumValue>)
    ensures
        final(out)@ == old(out)@ + values_text(values@, values@.len()),
{
    let mut i: usize = 0;
    assert(out@ =~= old(out)@ + values_text(values@, 0));
    while i < values.len()
        invariant
            i <= values@.len(),
            out@ == old(out)@ + values_text(values@, i as nat),
        decreases values@.len() - i,
    {
        match values[i].value {
            Some(v) => {
                out.push('\n');
                out.push('\t');
                push_decimal(out, v);
                out.push(' ');
                out.push(':');
                out.push(' ');
                out.append(values[i].name.as_str());
                assert(out@ =~= old(out)@ + (values_text(values@, i as nat) + value_line(
                    v,
                    values@[i as int].name@,
                )));
            },
            None => {},
        }
        i = i + 1;
    }
}

/// The text of the first `n` value sets of a field: for each set its values,
/// and before the values of a set that was referred to, the note that says so.
pub open spec fn sets_text(
    index: Seq<(Seq<char>, Vec<EnumValue>)>,
    scope: Seq<char>,
    register: Seq<char>,
    fields: Seq<FieldDef>,
    sets: Seq<EnumeratedValueSetRef>,
    n: nat,
) -> Result<Seq<char>, BuildErrorView>
    decreases n,
{
    if n == 0 {
        Ok(Seq::empty())
    } else {
        match sets_text(index, scope, register, fields, sets, (n - 1) as nat) {
            Err(e) => Err(e),
            Ok(before) => match sets[n - 1] {
                EnumeratedValueSetRef::Inline { name, values } => Ok(
                    before + values_text(values@, values@.len()),
                ),
                EnumeratedValueSetRef::Derived { reference } => match resolved_set(
                    index,
                    scope,
                    register,
                    fields,
                    reference@,
                ) {
                    Err(e) => Err(e),
                    Ok(values) => Ok(
                        before + derived_note(reference@) + values_text(values@, values@.len()),
                    ),
                },
            },
        }
    }
}

/// The text that the tooltip of a field shows for the value sets `sets`.
pub fn enumerated_values_text<'a>(
    index: &EvIndex<'a>,
    scope: &str,
    register: &str,
    fields: &Vec<FieldDef>,
    sets: &Vec<EnumeratedValueSetRef>,
) -> (r: Result<String, BuildError>)
    ensures
        match r {
            Ok(text) => sets_text(index@, scope@, register@, fields@, sets@, sets@.len()) == Ok::<
                Seq<char>,
                BuildErrorView,
            >(text@),
            Err(e) => sets_text(index@, scope@, register@, fields@, sets@, sets@.len()) == Err::<
                Seq<char>,
                BuildErrorView,
            >(e@),
        },
{
    let mut out = String::new();
    let mut i: usize = 0;
    while i < sets.len()
        invariant
            i <= sets@.len(),
            sets_text(index@, scope@, register@, fields@, sets@, i as nat) == Ok::<
                Seq<char>,
                BuildErrorView,
            >(out@),
        decreases sets@.len() - i,
    {
        let ghost before = out@;
        match &sets[i] {
            EnumeratedValueSetRef::Inline { name, values } => {
                push_values(&mut out, values);
            },
            EnumeratedValueSetRef::Derived { reference } => {
                out.append("\n derived from: <i>");
                out.append(reference.as_str());
                out.append("</i>");
                match resolve_reference(index, scope, register, fields, reference.as_str()) {
                    Err(e) => {
                        proof {
                            lemma_sets_text_error(
                                index@,
                                scope@,
                                register@,
                                fields@,
                                sets@,
                                (i + 1) as nat,
                                sets@.len(),
                            );
                        }
                        return Err(e);
                    },
                    Ok(values) => {
                        push_values(&mut out, values);
                        assert(out@ =~= before + derived_note(reference@) + values_text(
                            values@,
                            values@.len(),
                        ));
                    },
                }
            },
        }
        i = i + 1;
    }
    Ok(out)
}

/// An error among the first `n` sets is the error of all of them.
proof fn lemma_sets_text_error(
    index: Seq<(Seq<char>, Vec<EnumValue>)>,
    scope: Seq<char>,
    register: Seq<char>,
    fields: Seq<FieldDef>,
    sets: Seq<EnumeratedValueSetRef>,
    n: nat,
    m: nat,
)
    requires
        n <= m,
        sets_text(index, scope, register, fields, sets, n) is Err,
    ensures
        sets_text(index, scope, register, fields, sets, m) == sets_text(
            index,
            scope,
            register,
            fields,
            sets,
            n,
        ),
    decreases m,
{
    if n < m {
        lemma_sets_text_error(index, scope, register, fields, sets, n, (m - 1) as nat);
    }
}

} // verus!
