//! Dotted paths as names below names: when two paths are different, and
//! when a list of rows holds no path twice.
use crate::model::node_views;
use crate::model::FlatNode;
use crate::model::FlatNodeView;
use vstd::prelude::*;

verus! {

/// Whether the name holds no dot.
pub open spec fn dot_free(name: Seq<char>) -> bool {
    forall|i: int| 0 <= i < name.len() ==> name[i] != '.'
}

/// Whether `path` is `stem`, or `stem` with a dot and more behind it.
pub open spec fn extends(path: Seq<char>, stem: Seq<char>) -> bool {
    path == stem || strictly_extends(path, stem)
}

/// Whether `path` is `stem` with a dot and more behind it.
pub open spec fn strictly_extends(path: Seq<char>, stem: Seq<char>) -> bool {
    &&& path.len() > stem.len()
    &&& path.take(stem.len() as int) == stem
    &&& path[stem.len() as int] == '.'
}

/// Whether no dot stands in any of the names and no name stands twice.
pub open spec fn names_ok(names: Seq<Seq<char>>) -> bool {
    &&& forall|i: int| 0 <= i < names.len() ==> dot_free(#[trigger] names[i])
    &&& forall|i: int, j: int|
        0 <= i < j < names.len() ==> (#[trigger] names[i]) != (#[trigger] names[j])
}

/// Whether no two of the rows have the same path.
pub open spec fn paths_distinct(rows: Seq<FlatNodeView>) -> bool {
    forall|i: int, j: int|
        0 <= i < j < rows.len() ==> (#[trigger] rows[i]).path != (#[trigger] rows[j]).path
}

/// Whether `path` is, or lies below, the path `base + name`.
pub open spec fn under(path: Seq<char>, base: Seq<char>, name: Seq<char>) -> bool {
    extends(path, base + name)
}

/// Whether `path` is, or lies below, `base` with one of the names.
pub open spec fn within(path: Seq<char>, base: Seq<char>, names: Seq<Seq<char>>) -> bool {
    exists|k: int| 0 <= k < names.len() && under(path, base, #[trigger] names[k])
}

/// Whether the rows hold no path twice, and each of them is, or lies below,
/// `base` with one of the names.
pub open spec fn tidy(rows: Seq<FlatNodeView>, base: Seq<char>, names: Seq<Seq<char>>) -> bool {
    &&& paths_distinct(rows)
    &&& forall|i: int| 0 <= i < rows.len() ==> within((#[trigger] rows[i]).path, base, names)
}

/// Whether the rows have, one for one, the paths `base` with the names.
pub open spec fn paths_are(
    rows: Seq<FlatNodeView>,
    base: Seq<char>,
    names: Seq<Seq<char>>,
) -> bool {
    &&& rows.len() == names.len()
    &&& forall|i: int| 0 <= i < rows.len() ==> (#[trigger] rows[i]).path == base + names[i]
}

/// The base of the paths below the node at `prefix`: `prefix` and a dot.
pub open spec fn base_of(prefix: Seq<char>) -> Seq<char> {
    prefix.push('.')
}

/// A path below `base + name`, where `base` ends the path of a node with a
/// dot, lies strictly below that node.
pub proof fn lemma_under_is_below(path: Seq<char>, prefix: Seq<char>, name: Seq<char>)
    requires
        under(path, base_of(prefix), name),
    ensures
        strictly_extends(path, prefix),
{
    let stem = base_of(prefix) + name;
    assert(stem.len() == prefix.len() + 1 + name.len());
    assert(stem[prefix.len() as int] == '.');
    assert(stem.take(prefix.len() as int) =~= prefix);
    if path != stem {
        assert(path.take(stem.len() as int) == stem);
        assert(path[prefix.len() as int] == path.take(stem.len() as int)[prefix.len() as int]);
        assert(path.take(prefix.len() as int) =~= stem.take(prefix.len() as int));
    }
}

/// Paths at or below two different names of one base are different, where
/// the names hold no dot.
pub proof fn lemma_heads_apart(
    p: Seq<char>,
    q: Seq<char>,
    base: Seq<char>,
    m: Seq<char>,
    n: Seq<char>,
)
    requires
        under(p, base, m),
        under(q, base, n),
        dot_free(m),
        dot_free(n),
        m != n,
    ensures
        p != q,
{
    if p == q {
        let a = base + m;
        let b = base + n;
        assert(p.len() >= a.len() && p.take(a.len() as int) =~= a);
        assert(p.len() >= b.len() && p.take(b.len() as int) =~= b);
        if m.len() == n.len() {
            assert forall|i: int| 0 <= i < m.len() implies m[i] == n[i] by {
                assert(a[base.len() + i] == m[i]);
                assert(b[base.len() + i] == n[i]);
                assert(p.take(a.len() as int)[base.len() + i] == p[base.len() + i]);
            }
            assert(m =~= n);
        } else if m.len() < n.len() {
            assert(p.len() > a.len());
            assert(p[a.len() as int] == '.');
            assert(p.take(b.len() as int)[a.len() as int] == p[a.len() as int]);
            assert(b[a.len() as int] == n[m.len() as int]);
        } else {
            assert(p.len() > b.len());
            assert(p[b.len() as int] == '.');
            assert(p.take(a.len() as int)[b.len() as int] == p[b.len() as int]);
            assert(a[b.len() as int] == m[n.len() as int]);
        }
    }
}

/// Part of a list of good names is a list of good names.
pub proof fn lemma_names_ok_part(names: Seq<Seq<char>>, from: int, to: int)
    requires
        names_ok(names),
        0 <= from <= to <= names.len(),
    ensures
        names_ok(names.subrange(from, to)),
{
    let part = names.subrange(from, to);
    assert forall|i: int| 0 <= i < part.len() implies dot_free(#[trigger] part[i]) by {
        assert(part[i] == names[from + i]);
    }
    assert forall|i: int, j: int| 0 <= i < j < part.len() implies (#[trigger] part[i]) != (
    #[trigger] part[j]) by {
        assert(part[i] == names[from + i]);
        assert(part[j] == names[from + j]);
    }
}

/// Rows below the names `a` followed by rows below the names `b`: tidy
/// below `a + b`, where that is a list of good names.
pub proof fn lemma_tidy_concat(
    rows: Seq<FlatNodeView>,
    more: Seq<FlatNodeView>,
    base: Seq<char>,
    a: Seq<Seq<char>>,
    b: Seq<Seq<char>>,
)
    requires
        tidy(rows, base, a),
        tidy(more, base, b),
        names_ok(a + b),
    ensures
        tidy(rows + more, base, a + b),
{
    let all = rows + more;
    let names = a + b;
    assert forall|i: int| 0 <= i < all.len() implies within(
        (#[trigger] all[i]).path,
        base,
        names,
    ) by {
        if i < rows.len() {
            assert(all[i] == rows[i]);
            let k = choose|k: int| 0 <= k < a.len() && under(rows[i].path, base, #[trigger] a[k]);
            assert(names[k] == a[k]);
        } else {
            assert(all[i] == more[i - rows.len()]);
            let k = choose|k: int|
                0 <= k < b.len() && under(more[i - rows.len()].path, base, #[trigger] b[k]);
            assert(names[a.len() + k] == b[k]);
        }
    }
    assert forall|i: int, j: int| 0 <= i < j < all.len() implies (#[trigger] all[i]).path != (
    #[trigger] all[j]).path by {
        if j < rows.len() {
            assert(all[i] == rows[i] && all[j] == rows[j]);
        } else if i >= rows.len() {
            assert(all[i] == more[i - rows.len()] && all[j] == more[j - rows.len()]);
        } else {
            assert(all[i] == rows[i] && all[j] == more[j - rows.len()]);
            let k = choose|k: int| 0 <= k < a.len() && under(rows[i].path, base, #[trigger] a[k]);
            let l = choose|l: int|
                0 <= l < b.len() && under(more[j - rows.len()].path, base, #[trigger] b[l]);
            assert(names[k] == a[k]);
            assert(names[a.len() + l] == b[l]);
            lemma_heads_apart(all[i].path, all[j].path, base, a[k], b[l]);
        }
    }
}

/// A row at `base + name` followed by rows that are tidy below it: tidy
/// below `base` with that one name.
pub proof fn lemma_tidy_group(
    head: FlatNodeView,
    rest: Seq<FlatNodeView>,
    base: Seq<char>,
    name: Seq<char>,
    inner: Seq<Seq<char>>,
)
    requires
        head.path == base + name,
        tidy(rest, base_of(base + name), inner),
    ensures
        tidy(seq![head] + rest, base, seq![name]),
{
    let all = seq![head] + rest;
    let names = seq![name];
    assert forall|i: int| 0 <= i < rest.len() implies strictly_extends(
        (#[trigger] rest[i]).path,
        base + name,
    ) by {
        let k = choose|k: int|
            0 <= k < inner.len() && under(rest[i].path, base_of(base + name), #[trigger] inner[k]);
        lemma_under_is_below(rest[i].path, base + name, inner[k]);
    }
    assert forall|i: int| 0 <= i < all.len() implies within(
        (#[trigger] all[i]).path,
        base,
        names,
    ) by {
        if i > 0 {
            assert(all[i] == rest[i - 1]);
        }
        assert(under(all[i].path, base, names[0]));
    }
    assert forall|i: int, j: int| 0 <= i < j < all.len() implies (#[trigger] all[i]).path != (
    #[trigger] all[j]).path by {
        assert(all[j] == rest[j - 1]);
        if i > 0 {
            assert(all[i] == rest[i - 1]);
        }
    }
}

/// Rows whose paths are `base` with the names of a list of different names
/// are tidy below these names.
pub proof fn lemma_tidy_exact(rows: Seq<FlatNodeView>, base: Seq<char>, names: Seq<Seq<char>>)
    requires
        paths_are(rows, base, names),
        names_ok(names),
    ensures
        tidy(rows, base, names),
{
    assert forall|i: int| 0 <= i < rows.len() implies within(
        (#[trigger] rows[i]).path,
        base,
        names,
    ) by {
        assert(under(rows[i].path, base, names[i]));
    }
    assert forall|i: int, j: int| 0 <= i < j < rows.len() implies (#[trigger] rows[i]).path != (
    #[trigger] rows[j]).path by {
        if rows[i].path == rows[j].path {
            let a = names[i];
            let b = names[j];
            assert((base + a).len() == (base + b).len());
            assert forall|k: int| 0 <= k < a.len() implies a[k] == b[k] by {
                assert((base + a)[base.len() + k] == a[k]);
                assert((base + b)[base.len() + k] == b[k]);
            }
            assert(a =~= b);
        }
    }
}

/// Rows with the paths of `a`, followed by rows with the paths of `b`.
pub proof fn lemma_paths_are_concat(
    rows: Seq<FlatNodeView>,
    more: Seq<FlatNodeView>,
    base: Seq<char>,
    a: Seq<Seq<char>>,
    b: Seq<Seq<char>>,
)
    requires
        paths_are(rows, base, a),
        paths_are(more, base, b),
    ensures
        paths_are(rows + more, base, a + b),
{
    let all = rows + more;
    assert forall|i: int| 0 <= i < all.len() implies (#[trigger] all[i]).path == base + (a
        + b)[i] by {
        if i < rows.len() {
            assert(all[i] == rows[i]);
        } else {
            assert(all[i] == more[i - rows.len()]);
        }
    }
}

/// Whether no two rows of the tree have the same path.
pub fn all_paths_distinct(nodes: &Vec<FlatNode>) -> (r: bool)
    ensures
        r == paths_distinct(node_views(nodes@)),
{
    let ghost rows = node_views(nodes@);
    let mut j: usize = 0;
    while j < nodes.len()
        invariant
            j <= nodes@.len(),
            rows == node_views(nodes@),
            forall|a: int, b: int|
                0 <= a < b < j ==> (#[trigger] rows[a]).path != (#[trigger] rows[b]).path,
        decreases nodes@.len() - j,
    {
        let mut i: usize = 0;
        while i < j
            invariant
                i <= j < nodes@.len(),
                rows == node_views(nodes@),
                forall|a: int| 0 <= a < i ==> (#[trigger] rows[a]).path != rows[j as int].path,
            decreases j - i,
        {
            assert(rows[i as int] == nodes@[i as int]@);
            assert(rows[j as int] == nodes@[j as int]@);
            if nodes[i].path == nodes[j].path {
                return false;
            }
            i = i + 1;
        }
        j = j + 1;
    }
    true
}

} // verus!
