//! The selection store: the part of a row that changes after the tree is
//! built. A row is enabled or not and may carry an alias. Rows are enabled one
//! by one: enabling a row changes no other row.
use crate::model::node_views;
use crate::model::FlatNode;
use crate::model::FlatNodeView;
use vstd::prelude::*;
use vstd::string::StringExecFns;

verus! {

/// One line of a selection file: the path of a row that was enabled, its
/// alias if it had one, and what else the line recorded of the row (its
/// address, and for a field its lowest bit and its width), as it was written.
#[derive(Debug, Clone, PartialEq, Eq)]
pub struct SelectionEntry {
    pub path: String,
    pub alias: Option<String>,
    pub recorded: Vec<String>,
}

/// A [`SelectionEntry`] as contracts speak of it.
pub struct SelectionEntryView {
    pub path: Seq<char>,
    pub alias: Option<Seq<char>>,
    pub recorded: Seq<Seq<char>>,
}

/// The texts of a list of strings.
pub open spec fn texts(strings: Seq<String>) -> Seq<Seq<char>> {
    strings.map_values(|s: String| s@)
}

impl View for SelectionEntry {
    type V = SelectionEntryView;

    open spec fn view(&self) -> SelectionEntryView {
        SelectionEntryView {
            path: self.path@,
            alias: match self.alias {
                Some(a) => Some(a@),
                None => None,
            },
            recorded: texts(self.recorded@),
        }
    }
}

/// The entries as contracts speak of them.
pub open spec fn entry_views(entries: Seq<SelectionEntry>) -> Seq<SelectionEntryView> {
    entries.map_values(|e: SelectionEntry| e@)
}

/// A selection file: the description that the selection is of, and the rows
/// that were enabled.
#[derive(Debug, Clone, PartialEq, Eq)]
pub struct SelectionTable {
    pub source: String,
    pub entries: Vec<SelectionEntry>,
}

/// A [`SelectionTable`] as contracts speak of it.
pub struct SelectionTableView {
    pub source: Seq<char>,
    pub entries: Seq<SelectionEntryView>,
}

impl View for SelectionTable {
    type V = SelectionTableView;

    open spec fn view(&self) -> SelectionTableView {
        SelectionTableView { source: self.source@, entries: entry_views(self.entries@) }
    }
}

/// The entry for `path`: of several the last.
pub open spec fn find_entry(entries: Seq<SelectionEntryView>, path: Seq<char>) -> Option<
    SelectionEntryView,
>
    decreases entries.len(),
{
    if entries.len() == 0 {
        None
    } else if entries.last().path == path {
        Some(entries.last())
    } else {
        find_entry(entries.drop_last(), path)
    }
}

impl SelectionTable {
    /// The entry for `path`.
    pub fn lookup(&self, path: &str) -> (r: Option<&SelectionEntry>)
        ensures
            match r {
                Some(e) => find_entry(self@.entries, path@) == Some(e@),
                None => find_entry(self@.entries, path@) is None,
            },
    {
        let wanted = String::from_str(path);
        let mut i: usize = self.entries.len();
        let ghost all = self@.entries;
        assert(all.take(i as int) =~= all);
        while i > 0
            invariant
                i <= self.entries@.len(),
                wanted@ == path@,
                all == self@.entries,
                find_entry(all, path@) == find_entry(all.take(i as int), path@),
            decreases i,
        {
            let ghost part = all.take(i as int);
            assert(part.drop_last() =~= all.take(i - 1));
            assert(part.last() == self.entries@[i - 1]@);
            if self.entries[i - 1].path == wanted {
                return Some(&self.entries[i - 1]);
            }
            i = i - 1;
        }
        assert(all.take(0).len() == 0);
        None
    }
}

/// The row with its flag set to `enabled`.
pub open spec fn with_enabled(n: FlatNodeView, enabled: bool) -> FlatNodeView {
    FlatNodeView { enabled, ..n }
}

/// The row with the alias `alias`.
pub open spec fn with_alias(n: FlatNodeView, alias: Seq<char>) -> FlatNodeView {
    FlatNodeView { alias, ..n }
}

/// The row as the entry `e` leaves it: enabled, and with the alias of the
/// entry where the entry has one. An entry without an alias leaves the row's
/// alias as it is.
pub open spec fn selected(n: FlatNodeView, e: SelectionEntryView) -> FlatNodeView {
    match e.alias {
        Some(alias) => with_alias(with_enabled(n, true), alias),
        None => with_enabled(n, true),
    }
}

/// The row after the selection `entries` was replayed. A peripheral, at
/// depth 0, is never selected.
pub open spec fn replayed_node(n: FlatNodeView, entries: Seq<SelectionEntryView>) -> FlatNodeView {
    if n.depth == 0 {
        n
    } else {
        match find_entry(entries, n.path) {
            Some(e) => selected(n, e),
            None => n,
        }
    }
}

/// Whether the replay of `entries` selects the row.
pub open spec fn is_selected(n: FlatNodeView, entries: Seq<SelectionEntryView>) -> bool {
    n.depth > 0 && find_entry(entries, n.path) is Some
}

/// The rows after the selection `entries` was replayed.
pub open spec fn replayed(nodes: Seq<FlatNodeView>, entries: Seq<SelectionEntryView>) -> Seq<
    FlatNodeView,
> {
    Seq::new(nodes.len(), |i: int| replayed_node(nodes[i], entries))
}

/// The places among the first `n` rows that the replay selects, ascending.
pub open spec fn selected_places(
    nodes: Seq<FlatNodeView>,
    entries: Seq<SelectionEntryView>,
    n: nat,
) -> Seq<usize>
    decreases n,
{
    if n == 0 {
        Seq::empty()
    } else {
        let before = selected_places(nodes, entries, (n - 1) as nat);
        if is_selected(nodes[n - 1], entries) {
            before.push((n - 1) as usize)
        } else {
            before
        }
    }
}

/// The rows after the selection was replayed on the row at `place` alone.
pub open spec fn replayed_at(
    nodes: Seq<FlatNodeView>,
    place: int,
    entries: Seq<SelectionEntryView>,
) -> Seq<FlatNodeView> {
    if 0 <= place < nodes.len() {
        nodes.update(place, replayed_node(nodes[place], entries))
    } else {
        nodes
    }
}

/// Replays the selection on the row at `place`: where the table has an
/// entry for the row's path, the row is enabled and takes the alias of the
/// entry, if it has one. Says whether the row was selected. A place beyond
/// the rows is no row: nothing is selected.
pub fn find_and_select(nodes: &mut Vec<FlatNode>, place: usize, table: &SelectionTable) -> (r:
    bool)
    ensures
        r == (place < old(nodes)@.len() && is_selected(
            old(nodes)@[place as int]@,
            table@.entries,
        )),
        final(nodes)@.len() == old(nodes)@.len(),
        node_views(final(nodes)@) == replayed_at(
            node_views(old(nodes)@),
            place as int,
            table@.entries,
        ),
{
    if place >= nodes.len() {
        return false;
    }
    if nodes[place].depth == 0 {
        assert(node_views(nodes@) =~= node_views(nodes@).update(place as int, nodes@[place as int]@));
        return false;
    }
    match table.lookup(nodes[place].path.as_str()) {
        None => {
            assert(node_views(nodes@) =~= node_views(nodes@).update(
                place as int,
                nodes@[place as int]@,
            ));
            false
        },
        Some(entry) => {
            let node = &mut nodes[place];
            node.enabled = true;
            match &entry.alias {
                Some(alias) => {
                    node.alias = alias.clone();
                },
                None => {},
            }
            assert(node_views(nodes@) =~= node_views(old(nodes)@).update(
                place as int,
                replayed_node(old(nodes)@[place as int]@, table@.entries),
            ));
            true
        },
    }
}

/// Replays a selection on a tree: every row below a peripheral whose path
/// the table holds is enabled and takes the alias of its entry, if that has
/// one. All other rows stay as they are. Returns the places of the rows that
/// were selected, in ascending order.
pub fn select_items(nodes: &mut Vec<FlatNode>, table: &SelectionTable) -> (places: Vec<usize>)
    ensures
        node_views(final(nodes)@) == replayed(node_views(old(nodes)@), table@.entries),
        places@ == selected_places(
            node_views(old(nodes)@),
            table@.entries,
            old(nodes)@.len(),
        ),
{
    let mut places: Vec<usize> = Vec::new();
    let mut i: usize = 0;
    let ghost before = node_views(nodes@);
    while i < nodes.len()
        invariant
            i <= nodes@.len(),
            nodes@.len() == old(nodes)@.len(),
            before == node_views(old(nodes)@),
            node_views(nodes@).len() == before.len(),
            forall|j: int|
                0 <= j < i ==> (#[trigger] node_views(nodes@)[j]) == replayed_node(
                    before[j],
                    table@.entries,
                ),
            forall|j: int| i <= j < before.len() ==> (#[trigger] node_views(nodes@)[j]) == before[j],
            places@ == selected_places(before, table@.entries, i as nat),
        decreases nodes@.len() - i,
    {
        assert(node_views(nodes@)[i as int] == before[i as int]);
        if find_and_select(nodes, i, table) {
            places.push(i);
        }
        i = i + 1;
    }
    assert(node_views(nodes@) =~= replayed(before, table@.entries));
    places
}

/// The first place at which a row with the path `path` stands.
pub open spec fn place_of(nodes: Seq<FlatNodeView>, path: Seq<char>) -> Option<int>
    decreases nodes.len(),
{
    if nodes.len() == 0 {
        None
    } else {
        match place_of(nodes.drop_last(), path) {
            Some(i) => Some(i),
            None => if nodes.last().path == path {
                Some(nodes.len() - 1)
            } else {
                None
            },
        }
    }
}

/// A place that is found holds a row of that path, and no place before it
/// does.
pub proof fn lemma_place_of(nodes: Seq<FlatNodeView>, path: Seq<char>)
    ensures
        match place_of(nodes, path) {
            Some(i) => 0 <= i < nodes.len() && nodes[i].path == path && forall|j: int|
                0 <= j < i ==> (#[trigger] nodes[j]).path != path,
            None => forall|j: int| 0 <= j < nodes.len() ==> (#[trigger] nodes[j]).path != path,
        },
    decreases nodes.len(),
{
    if nodes.len() > 0 {
        lemma_place_of(nodes.drop_last(), path);
        assert(forall|j: int|
            0 <= j < nodes.len() - 1 ==> nodes.drop_last()[j] == #[trigger] nodes[j]);
    }
}

/// Finds the row with the path `path`.
pub fn find_node(nodes: &Vec<FlatNode>, path: &str) -> (r: Option<usize>)
    ensures
        match r {
            Some(i) => place_of(node_views(nodes@), path@) == Some(i as int),
            None => place_of(node_views(nodes@), path@) is None,
        },
{
    let wanted = String::from_str(path);
    let mut i: usize = 0;
    let ghost views = node_views(nodes@);
    while i < nodes.len()
        invariant
            i <= nodes@.len(),
            wanted@ == path@,
            views == node_views(nodes@),
            place_of(views.take(i as int), path@) is None,
        decreases nodes@.len() - i,
    {
        let ghost next = views.take(i + 1);
        assert(next.drop_last() =~= views.take(i as int));
        assert(next.last() == nodes@[i as int]@);
        if nodes[i].path == wanted {
            proof {
                lemma_place_found(views, (i + 1) as nat, views.len(), path@);
            }
            return Some(i);
        }
        i = i + 1;
    }
    assert(views.take(i as int) =~= views);
    None
}

/// A place found among the first `n` rows is the place among all of them.
proof fn lemma_place_found(nodes: Seq<FlatNodeView>, n: nat, m: nat, path: Seq<char>)
    requires
        n <= m <= nodes.len(),
        place_of(nodes.take(n as int), path) is Some,
    ensures
        place_of(nodes.take(m as int), path) == place_of(nodes.take(n as int), path),
        m == nodes.len() ==> place_of(nodes, path) == place_of(nodes.take(n as int), path),
    decreases m,
{
    if n < m {
        lemma_place_found(nodes, n, (m - 1) as nat, path);
        assert(nodes.take(m as int).drop_last() =~= nodes.take(m - 1));
    }
    if m == nodes.len() {
        assert(nodes.take(m as int) =~= nodes);
    }
}

/// The rows after the row with the path `path` was switched: from enabled to
/// not enabled, or back. Without such a row nothing changes.
pub open spec fn toggled(nodes: Seq<FlatNodeView>, path: Seq<char>) -> Seq<FlatNodeView> {
    match place_of(nodes, path) {
        Some(i) => nodes.update(i, with_enabled(nodes[i], !nodes[i].enabled)),
        None => nodes,
    }
}

/// The rows after the row with the path `path` was given the alias `alias`.
/// Without such a row nothing changes.
pub open spec fn aliased(nodes: Seq<FlatNodeView>, path: Seq<char>, alias: Seq<char>) -> Seq<
    FlatNodeView,
> {
    match place_of(nodes, path) {
        Some(i) => nodes.update(i, with_alias(nodes[i], alias)),
        None => nodes,
    }
}

/// Switches the row with the path `path`, and returns its new state; `None`
/// where no row has that path. No other row changes.
pub fn on_toggle(nodes: &mut Vec<FlatNode>, path: &str) -> (r: Option<bool>)
    ensures
        node_views(final(nodes)@) == toggled(node_views(old(nodes)@), path@),
        r == match place_of(node_views(old(nodes)@), path@) {
            Some(i) => Some(!old(nodes)@[i]@.enabled),
            None => None,
        },
{
    proof {
        lemma_place_of(node_views(nodes@), path@);
    }
    match find_node(nodes, path) {
        None => None,
        Some(place) => {
            let node = &mut nodes[place];
            let state = !node.enabled;
            node.enabled = state;
            assert(node_views(nodes@) =~= toggled(node_views(old(nodes)@), path@));
            Some(state)
        },
    }
}

/// Gives the row with the path `path` the alias `alias`; an empty alias
/// takes the alias away. Says whether there is such a row. No other row
/// changes.
pub fn set_alias(nodes: &mut Vec<FlatNode>, path: &str, alias: &str) -> (r: bool)
    ensures
        node_views(final(nodes)@) == aliased(node_views(old(nodes)@), path@, alias@),
        r == place_of(node_views(old(nodes)@), path@) is Some,
{
    proof {
        lemma_place_of(node_views(nodes@), path@);
    }
    match find_node(nodes, path) {
        None => false,
        Some(place) => {
            let node = &mut nodes[place];
            node.alias = String::from_str(alias);
            assert(node_views(nodes@) =~= aliased(node_views(old(nodes)@), path@, alias@));
            true
        },
    }
}

/// Where the rows below the row at `place` end, looked for from `at` on: at
/// the first row that is not deeper than that row, or at the end.
pub open spec fn subtree_end(nodes: Seq<FlatNodeView>, place: int, at: int) -> int
    decreases nodes.len() - at,
{
    if at >= nodes.len() || nodes[at].depth <= nodes[place].depth {
        at
    } else {
        subtree_end(nodes, place, at + 1)
    }
}

/// Whether the row at `j` stands directly below the row at `place`.
pub open spec fn is_child(nodes: Seq<FlatNodeView>, place: int, j: int) -> bool {
    &&& place < j < subtree_end(nodes, place, place + 1)
    &&& nodes[j].depth == nodes[place].depth + 1
}

/// Whether every row directly below the row at `place` is enabled. A row
/// without rows below it, and a place beyond the rows, has none that is not.
pub open spec fn children_enabled(nodes: Seq<FlatNodeView>, place: int) -> bool {
    forall|j: int| is_child(nodes, place, j) ==> (#[trigger] nodes[j]).enabled
}

proof fn lemma_subtree_end(nodes: Seq<FlatNodeView>, place: int, at: int)
    requires
        0 <= at,
    ensures
        at <= subtree_end(nodes, place, at),
        at <= nodes.len() ==> subtree_end(nodes, place, at) <= nodes.len(),
    decreases nodes.len() - at,
{
    if !(at >= nodes.len() || nodes[at].depth <= nodes[place].depth) {
        lemma_subtree_end(nodes, place, at + 1);
    }
}

/// Whether all rows directly below the row at `place` are enabled: what the
/// flag of a row would be if rows took their flags from the rows below them.
/// Rows keep their own flags; this only answers the question.
pub fn all_children_enabled(nodes: &Vec<FlatNode>, place: usize) -> (r: bool)
    ensures
        r == children_enabled(node_views(nodes@), place as int),
{
    let ghost views = node_views(nodes@);
    if place >= nodes.len() {
        proof {
            lemma_subtree_end(views, place as int, place + 1);
            assert forall|j: int| is_child(views, place as int, j) implies (
            #[trigger] views[j]).enabled by {
                assert(subtree_end(views, place as int, place + 1) == place + 1);
            }
        }
        return true;
    }
    let depth = nodes[place].depth;
    let mut j: usize = place + 1;
    while j < nodes.len() && nodes[j].depth > depth
        invariant
            place < j <= nodes@.len(),
            views == node_views(nodes@),
            depth == views[place as int].depth,
            subtree_end(views, place as int, place + 1) == subtree_end(views, place as int, j as int),
            forall|k: int|
                place < k < j && views[k].depth == depth + 1 ==> (#[trigger] views[k]).enabled,
        decreases nodes@.len() - j,
    {
        assert(views[j as int] == nodes@[j as int]@);
        if nodes[j].depth - 1 == depth && !nodes[j].enabled {
            proof {
                lemma_subtree_end(views, place as int, j + 1);
                assert(is_child(views, place as int, j as int));
            }
            return false;
        }
        j = j + 1;
    }
    proof {
        if j < nodes@.len() {
            assert(views[j as int] == nodes@[j as int]@);
        }
        assert(subtree_end(views, place as int, j as int) == j);
    }
    true
}

} // verus!
