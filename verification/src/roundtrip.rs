//! The round trip of a selection: what was written is what is read, and
//! replaying it on a fresh tree enables the rows that were enabled, with their
//! aliases, and no others.
use crate::decode::decoded;
use crate::decode::decoded_lines;
use crate::decode::entry_of;
use crate::decode::first_break;
use crate::decode::is_blank;
use crate::decode::leading_word;
use crate::decode::lemma_find_entry;
use crate::decode::split_lines;
use crate::decode::tokens;
use crate::decode::trailing_spaces;
use crate::decode::trimmed;
use crate::decode::DecodeError;
use crate::encode::alias_token;
use crate::encode::encoded;
use crate::encode::has_line;
use crate::encode::node_line;
use crate::encode::node_lines;
use crate::encode::recorded_address;
use crate::encode::recorded_offset;
use crate::encode::recorded_width;
use crate::model::FlatNodeView;
use crate::model::NodeKind;
use crate::paths::paths_distinct;
use crate::selection::find_entry;
use crate::selection::replayed;
use crate::selection::SelectionEntryView;
use crate::selection::SelectionTableView;
use crate::text::address_text;
use crate::text::digit;
use crate::text::digits;
use crate::text::hex;
use crate::text::is_space;
use crate::text::leading_spaces;
use vstd::prelude::*;

verus! {

/// Whether `s` holds no whitespace.
pub open spec fn space_free(s: Seq<char>) -> bool {
    forall|i: int| 0 <= i < s.len() ==> !is_space(#[trigger] s[i])
}

/// Whether `s` is a word: not empty and without whitespace.
pub open spec fn is_word(s: Seq<char>) -> bool {
    s.len() > 0 && space_free(s)
}

/// Whether `s` holds no line break.
pub open spec fn break_free(s: Seq<char>) -> bool {
    forall|i: int| 0 <= i < s.len() ==> (#[trigger] s[i]) != '\n'
}

/// Whether the name of a description is read back as it is written: it is
/// not empty, holds no line break, and neither begins nor ends with
/// whitespace.
pub open spec fn clean_source(source: Seq<char>) -> bool {
    &&& source.len() > 0
    &&& break_free(source)
    &&& !is_space(source[0])
    &&& !is_space(source.last())
}

/// Whether the line of the row is read back as it is written: the path is a
/// word, the alias is a word other than `_` or empty, and the row has all
/// that its line records.
pub open spec fn writable(n: FlatNodeView) -> bool {
    &&& is_word(n.path)
    &&& n.alias.len() == 0 || is_word(n.alias)
    &&& n.alias != seq!['_']
    &&& n.address is Some
    &&& n.kind == NodeKind::Field ==> n.bit_offset is Some && n.bit_width is Some
}

/// The entry that the line of the row is read as.
pub open spec fn line_entry(n: FlatNodeView) -> SelectionEntryView {
    SelectionEntryView {
        path: n.path,
        alias: if n.alias.len() > 0 {
            Some(n.alias)
        } else {
            None
        },
        recorded: if n.kind == NodeKind::Register {
            seq![recorded_address(n.address)]
        } else {
            seq![
                recorded_address(n.address),
                recorded_offset(n.bit_offset),
                recorded_width(n.bit_width),
            ]
        },
    }
}

/// The entries that the lines of the first `n` rows are read as.
pub open spec fn line_entries(rows: Seq<FlatNodeView>, n: nat) -> Seq<SelectionEntryView>
    decreases n,
{
    if n == 0 {
        Seq::empty()
    } else if has_line(rows[n - 1]) {
        line_entries(rows, (n - 1) as nat).push(line_entry(rows[n - 1]))
    } else {
        line_entries(rows, (n - 1) as nat)
    }
}

/// The line of a row without the line break at its end.
pub open spec fn line_body(n: FlatNodeView) -> Seq<char> {
    node_line(n).drop_last()
}

/// The lines of the first `n` rows, one by one.
pub open spec fn line_bodies(rows: Seq<FlatNodeView>, n: nat) -> Seq<Seq<char>>
    decreases n,
{
    if n == 0 {
        Seq::empty()
    } else if has_line(rows[n - 1]) {
        line_bodies(rows, (n - 1) as nat).push(line_body(rows[n - 1]))
    } else {
        line_bodies(rows, (n - 1) as nat)
    }
}

proof fn lemma_digit_no_space(d: nat)
    requires
        d < 16,
    ensures
        !is_space(digit(d)),
{
}

proof fn lemma_digits_word(n: nat, base: nat)
    requires
        2 <= base <= 16,
    ensures
        is_word(digits(n, base)),
    decreases n,
{
    if n >= base {
        assert(n / base < n) by (nonlinear_arith)
            requires
                base >= 2,
                n >= base,
        ;
        assert(n % base < base) by (nonlinear_arith)
            requires
                base >= 2,
        ;
        lemma_digits_word(n / base, base);
        lemma_digit_no_space(n % base);
        let d = digits(n, base);
        assert forall|i: int| 0 <= i < d.len() implies !is_space(#[trigger] d[i]) by {
            if i < d.len() - 1 {
                assert(d[i] == digits(n / base, base)[i]);
            }
        }
    } else {
        lemma_digit_no_space(n);
    }
}

proof fn lemma_address_word(a: nat)
    ensures
        is_word(address_text(a)),
{
    lemma_digits_word(a, 16);
    let h = hex(a, 8);
    let d = digits(a, 16);
    assert forall|i: int| 0 <= i < h.len() implies !is_space(#[trigger] h[i]) by {
        if d.len() < 8 {
            if i < 8 - d.len() {
                assert(h[i] == '0');
            } else {
                assert(h[i] == d[i - (8 - d.len())]);
            }
        }
    }
    let t = address_text(a);
    assert forall|i: int| 0 <= i < t.len() implies !is_space(#[trigger] t[i]) by {
        if i >= 2 {
            assert(t[i] == h[i - 2]);
        }
    }
}

/// A word before whitespace, or at the end, is a leading word.
proof fn lemma_leading_word(w: Seq<char>, rest: Seq<char>)
    requires
        space_free(w),
        rest.len() == 0 || is_space(rest[0]),
    ensures
        leading_word(w + rest) == w.len(),
    decreases w.len(),
{
    let s = w + rest;
    if w.len() == 0 {
        assert(s =~= rest);
    } else {
        assert(s[0] == w[0]);
        assert(s.skip(1) =~= w.skip(1) + rest);
        assert forall|i: int| 0 <= i < w.skip(1).len() implies !is_space(
            #[trigger] w.skip(1)[i],
        ) by {
            assert(w.skip(1)[i] == w[i + 1]);
        }
        lemma_leading_word(w.skip(1), rest);
    }
}

/// The words of a word and what follows it behind a space.
proof fn lemma_tokens_word(w: Seq<char>, rest: Seq<char>)
    requires
        is_word(w),
    ensures
        tokens(w + seq![' '] + rest) == seq![w] + tokens(rest),
        tokens(w) == seq![w],
{
    let tail = seq![' '] + rest;
    let s = w + tail;
    assert(w + seq![' '] + rest =~= s);
    lemma_leading_word(w, tail);
    assert(s[0] == w[0]);
    assert(s.take(w.len() as int) =~= w);
    assert(s.skip(w.len() as int) =~= tail);
    assert(tail.skip(1) =~= rest);
    assert(tokens(tail) == tokens(rest));
    let none = Seq::<char>::empty();
    lemma_leading_word(w, none);
    assert(w + none =~= w);
    assert(w.take(w.len() as int) =~= w);
    assert(w.skip(w.len() as int) =~= none);
    assert(tokens(none) =~= Seq::<Seq<char>>::empty());
    assert(seq![w] + Seq::<Seq<char>>::empty() =~= seq![w]);
}

proof fn lemma_alias_token_word(alias: Seq<char>)
    requires
        alias.len() == 0 || is_word(alias),
    ensures
        is_word(alias_token(alias)),
{
}

/// A line that begins with a character that is no whitespace is not blank.
proof fn lemma_not_blank(line: Seq<char>)
    requires
        line.len() > 0,
        !is_space(line[0]),
    ensures
        !is_blank(line),
        leading_spaces(line) == 0,
{
}

/// The line of a writable row: it holds no line break but its last
/// character, it is not blank, and its words are those of its entry.
proof fn lemma_line(n: FlatNodeView)
    requires
        has_line(n),
        writable(n),
    ensures
        node_line(n) == line_body(n) + seq!['\n'],
        break_free(line_body(n)),
        !is_blank(line_body(n)),
        tokens(line_body(n)).len() >= 2,
        entry_of(tokens(line_body(n))) == line_entry(n),
{
    let path = n.path;
    let alias = alias_token(n.alias);
    let address = recorded_address(n.address);
    lemma_alias_token_word(n.alias);
    lemma_address_word(n.address->Some_0 as nat);
    let body = line_body(n);
    if n.kind == NodeKind::Register {
        let expected = path + seq![' '] + alias + seq![' '] + address;
        assert(node_line(n) == expected + seq!['\n']);
        assert(body =~= expected);
        lemma_tokens_word(address, Seq::empty());
        lemma_tokens_word(alias, address);
        lemma_tokens_word(path, alias + seq![' '] + address);
        assert(expected =~= path + seq![' '] + (alias + seq![' '] + address));
        let words = tokens(body);
        assert(words =~= seq![path, alias, address]);
        assert(words.skip(2) =~= seq![address]);
        assert(body[0] == path[0]);
        lemma_not_blank(body);
        assert forall|i: int| 0 <= i < body.len() implies (#[trigger] body[i]) != '\n' by {
            if i < path.len() {
                assert(body[i] == path[i]);
            } else if i == path.len() {
            } else if i < path.len() + 1 + alias.len() {
                assert(body[i] == alias[i - path.len() - 1]);
            } else if i == path.len() + 1 + alias.len() {
            } else {
                assert(body[i] == address[i - path.len() - alias.len() - 2]);
            }
        }
    } else {
        let offset = recorded_offset(n.bit_offset);
        let width = recorded_width(n.bit_width);
        lemma_digits_word(n.bit_offset->Some_0 as nat, 10);
        lemma_digits_word(n.bit_width->Some_0 as nat, 10);
        let expected = path + seq![' '] + alias + seq![' '] + address + seq![' '] + offset + seq![
            ' ',
        ] + width;
        assert(node_line(n) == expected + seq!['\n']);
        assert(body =~= expected);
        let r4 = width;
        let r3 = offset + seq![' '] + r4;
        let r2 = address + seq![' '] + r3;
        let r1 = alias + seq![' '] + r2;
        lemma_tokens_word(width, Seq::empty());
        lemma_tokens_word(offset, r4);
        lemma_tokens_word(address, r3);
        lemma_tokens_word(alias, r2);
        lemma_tokens_word(path, r1);
        assert(expected =~= path + seq![' '] + r1);
        let words = tokens(body);
        assert(words =~= seq![path, alias, address, offset, width]);
        assert(words.skip(2) =~= seq![address, offset, width]);
        assert(body[0] == path[0]);
        lemma_not_blank(body);
        assert forall|i: int| 0 <= i < body.len() implies (#[trigger] body[i]) != '\n' by {
            let a = path.len();
            let b = a + 1 + alias.len();
            let c = b + 1 + address.len();
            let d = c + 1 + offset.len();
            if i < a {
                assert(body[i] == path[i]);
            } else if i == a {
            } else if i < b {
                assert(body[i] == alias[i - a - 1]);
            } else if i == b {
            } else if i < c {
                assert(body[i] == address[i - b - 1]);
            } else if i == c {
            } else if i < d {
                assert(body[i] == offset[i - c - 1]);
            } else if i == d {
            } else {
                assert(body[i] == width[i - d - 1]);
            }
        }
    }
}

/// Where the first line of a text without a line break ends.
proof fn lemma_first_break_free(s: Seq<char>, rest: Seq<char>)
    requires
        break_free(s),
        rest.len() == 0 || rest[0] == '\n',
    ensures
        first_break(s + rest) == s.len(),
    decreases s.len(),
{
    let t = s + rest;
    if s.len() == 0 {
        assert(t =~= rest);
    } else {
        assert(t[0] == s[0]);
        assert(t.skip(1) =~= s.skip(1) + rest);
        assert forall|i: int| 0 <= i < s.skip(1).len() implies (#[trigger] s.skip(1)[i])
            != '\n' by {
            assert(s.skip(1)[i] == s[i + 1]);
        }
        lemma_first_break_free(s.skip(1), rest);
    }
}

proof fn lemma_first_break_bound(s: Seq<char>)
    ensures
        first_break(s) <= s.len(),
        forall|i: int| 0 <= i < first_break(s) ==> (#[trigger] s[i]) != '\n',
        first_break(s) < s.len() ==> s[first_break(s) as int] == '\n',
    decreases s.len(),
{
    if s.len() > 0 && s[0] != '\n' {
        lemma_first_break_bound(s.skip(1));
        assert forall|i: int| 0 <= i < first_break(s) implies (#[trigger] s[i]) != '\n' by {
            if i > 0 {
                assert(s[i] == s.skip(1)[i - 1]);
            }
        }
    }
}

/// The lines of two texts with a line break between them are the lines of
/// the one and the lines of the other.
proof fn lemma_split_at_break(a: Seq<char>, b: Seq<char>)
    ensures
        split_lines(a + seq!['\n'] + b) == split_lines(a) + split_lines(b),
    decreases a.len(),
{
    let t = a + seq!['\n'] + b;
    let k = first_break(a);
    lemma_first_break_bound(a);
    let head = a.take(k as int);
    assert(break_free(head));
    if k >= a.len() {
        assert(head =~= a);
        assert(t =~= a + (seq!['\n'] + b));
        lemma_first_break_free(a, seq!['\n'] + b);
        assert(t.take(a.len() as int) =~= a);
        assert(t.skip(a.len() as int + 1) =~= b);
        assert(split_lines(a) == seq![a]);
    } else {
        let tail = a.skip(k as int + 1);
        assert(a =~= head + (seq!['\n'] + tail));
        assert(t =~= head + (seq!['\n'] + tail + seq!['\n'] + b));
        lemma_first_break_free(head, seq!['\n'] + tail + seq!['\n'] + b);
        assert(t.take(k as int) =~= head);
        assert(t.skip(k as int + 1) =~= tail + seq!['\n'] + b);
        lemma_split_at_break(tail, b);
        assert(split_lines(a) == seq![head] + split_lines(tail));
        assert(split_lines(t) == seq![head] + split_lines(tail + seq!['\n'] + b));
        assert(seq![head] + (split_lines(tail) + split_lines(b)) =~= (seq![head] + split_lines(
            tail,
        )) + split_lines(b));
    }
}

proof fn lemma_split_nonempty(a: Seq<char>)
    ensures
        split_lines(a).len() >= 1,
    decreases a.len(),
{
    if first_break(a) < a.len() {
        lemma_split_nonempty(a.skip(first_break(a) as int + 1));
    }
}

/// More text without a line break lengthens the last line.
proof fn lemma_split_append(a: Seq<char>, b: Seq<char>)
    requires
        break_free(b),
    ensures
        split_lines(a).len() >= 1,
        split_lines(a + b) == split_lines(a).drop_last().push(split_lines(a).last() + b),
    decreases a.len(),
{
    let t = a + b;
    let k = first_break(a);
    lemma_first_break_bound(a);
    lemma_split_nonempty(a);
    if k >= a.len() {
        assert(break_free(a)) by {
            assert forall|i: int| 0 <= i < a.len() implies (#[trigger] a[i]) != '\n' by {}
        }
        assert(break_free(t)) by {
            assert forall|i: int| 0 <= i < t.len() implies (#[trigger] t[i]) != '\n' by {
                if i < a.len() {
                    assert(t[i] == a[i]);
                } else {
                    assert(t[i] == b[i - a.len()]);
                }
            }
        }
        lemma_first_break_free(t, Seq::empty());
        assert(t + Seq::<char>::empty() =~= t);
        assert(split_lines(t) == seq![t]);
        assert(split_lines(a) == seq![a]);
        assert(seq![a].drop_last().push(a + b) =~= seq![t]);
    } else {
        let head = a.take(k as int);
        let tail = a.skip(k as int + 1);
        assert(break_free(head));
        assert(t =~= head + (seq!['\n'] + tail + b));
        lemma_first_break_free(head, seq!['\n'] + tail + b);
        assert(t.take(k as int) =~= head);
        assert(t.skip(k as int + 1) =~= tail + b);
        lemma_split_append(tail, b);
        let rest = split_lines(tail);
        assert(split_lines(a) == seq![head] + rest);
        assert(split_lines(t) == seq![head] + split_lines(tail + b));
        assert((seq![head] + rest).drop_last() =~= seq![head] + rest.drop_last());
        assert((seq![head] + rest).last() == rest.last());
        assert(seq![head] + rest.drop_last().push(rest.last() + b) =~= (seq![head]
            + rest.drop_last()).push(rest.last() + b));
    }
}

/// The lines of the lines of the first `n` rows: one for each row that has a
/// line, and an empty one behind the last line break.
proof fn lemma_lines_of_rows(rows: Seq<FlatNodeView>, n: nat)
    requires
        n <= rows.len(),
        forall|i: int| 0 <= i < rows.len() && has_line(#[trigger] rows[i]) ==> writable(rows[i]),
    ensures
        split_lines(node_lines(rows, n)) == line_bodies(rows, n).push(Seq::empty()),
    decreases n,
{
    let none = Seq::<char>::empty();
    if n == 0 {
        assert(first_break(none) == 0);
        assert(split_lines(none) == seq![none]);
        assert(line_bodies(rows, 0).push(none) =~= seq![none]);
    } else {
        lemma_lines_of_rows(rows, (n - 1) as nat);
        let row = rows[n - 1];
        let before = node_lines(rows, (n - 1) as nat);
        let bodies = line_bodies(rows, (n - 1) as nat);
        if has_line(row) {
            lemma_line(row);
            let body = line_body(row);
            assert(node_lines(rows, n) =~= (before + body) + seq!['\n'] + none);
            lemma_split_at_break(before + body, none);
            lemma_split_append(before, body);
            assert(split_lines(none) == seq![none]);
            assert(bodies.push(none).drop_last() =~= bodies);
            assert(none + body =~= body);
            assert(bodies.push(body) + seq![none] =~= bodies.push(body).push(none));
        } else {
            assert(node_lines(rows, n) =~= before);
        }
    }
}

/// What the first `m` lines hold depends on these lines only.
proof fn lemma_decoded_prefix(a: Seq<Seq<char>>, b: Seq<Seq<char>>, m: nat)
    requires
        m <= a.len(),
    ensures
        decoded_lines(a + b, m) == decoded_lines(a, m),
    decreases m,
{
    if m > 0 {
        lemma_decoded_prefix(a, b, (m - 1) as nat);
        assert((a + b)[m - 1] == a[m - 1]);
    }
}

proof fn lemma_bodies_len(rows: Seq<FlatNodeView>, n: nat)
    ensures
        line_bodies(rows, n).len() == line_entries(rows, n).len(),
        line_bodies(rows, n).len() <= n,
    decreases n,
{
    if n > 0 {
        lemma_bodies_len(rows, (n - 1) as nat);
    }
}

/// What the name of the description and the lines of the first `n` rows
/// hold.
proof fn lemma_decoded_rows(source: Seq<char>, rows: Seq<FlatNodeView>, n: nat)
    requires
        n <= rows.len(),
        clean_source(source),
        forall|i: int| 0 <= i < rows.len() && has_line(#[trigger] rows[i]) ==> writable(rows[i]),
    ensures
        decoded_lines(
            seq![source] + line_bodies(rows, n),
            1 + line_bodies(rows, n).len(),
        ) == Ok::<(Option<Seq<char>>, Seq<SelectionEntryView>), DecodeError>(
            (Some(source), line_entries(rows, n)),
        ),
    decreases n,
{
    let lines = seq![source] + line_bodies(rows, n);
    if n == 0 {
        assert(lines[0] == source);
        lemma_not_blank(source);
        assert(trailing_spaces(source) == 0);
        assert(trimmed(source) =~= source);
        assert(decoded_lines(lines, 0) == Ok::<
            (Option<Seq<char>>, Seq<SelectionEntryView>),
            DecodeError,
        >((None, Seq::empty())));
    } else {
        lemma_decoded_rows(source, rows, (n - 1) as nat);
        let row = rows[n - 1];
        let fewer = seq![source] + line_bodies(rows, (n - 1) as nat);
        if has_line(row) {
            lemma_line(row);
            let body = line_body(row);
            assert(lines =~= fewer + seq![body]);
            lemma_decoded_prefix(fewer, seq![body], fewer.len());
            assert(lines[fewer.len() as int] == body);
            lemma_bodies_len(rows, (n - 1) as nat);
        }
    }
}

/// The round trip of the file. A selection file that was written for rows
/// whose lines are writable, under a name that is clean, is read as that name
/// and as one entry for each row that has a line, in the order of the rows.
pub proof fn lemma_round_trip(source: Seq<char>, rows: Seq<FlatNodeView>)
    requires
        clean_source(source),
        forall|i: int| 0 <= i < rows.len() && has_line(#[trigger] rows[i]) ==> writable(rows[i]),
    ensures
        decoded(encoded(source, rows)) == Ok::<SelectionTableView, DecodeError>(
            SelectionTableView { source, entries: line_entries(rows, rows.len()) },
        ),
{
    let none = Seq::<char>::empty();
    let bodies = line_bodies(rows, rows.len());
    let body_text = node_lines(rows, rows.len());
    lemma_lines_of_rows(rows, rows.len());
    lemma_split_at_break(source, body_text);
    lemma_first_break_free(source, none);
    assert(source + none =~= source);
    assert(split_lines(source) == seq![source]);
    let lines = split_lines(encoded(source, rows));
    let read = seq![source] + bodies;
    assert(lines =~= read + seq![none]);
    lemma_decoded_rows(source, rows, rows.len());
    lemma_decoded_prefix(read, seq![none], read.len());
    assert(lines[read.len() as int] == none);
    assert(is_blank(none));
    assert(lines.len() == read.len() + 1);
}

/// The rows as a fresh tree has them: none enabled, none with an alias.
pub open spec fn cleared(rows: Seq<FlatNodeView>) -> Seq<FlatNodeView> {
    Seq::new(rows.len(), |i: int| FlatNodeView { enabled: false, alias: Seq::empty(), ..rows[i] })
}

/// Whether the entry is that of the line of one of the first `n` rows.
pub open spec fn comes_from(e: SelectionEntryView, rows: Seq<FlatNodeView>, n: nat) -> bool {
    exists|j: int| 0 <= j < n && has_line(#[trigger] rows[j]) && e == line_entry(rows[j])
}

/// Whether the entry is one of the entries.
pub open spec fn holds(entries: Seq<SelectionEntryView>, e: SelectionEntryView) -> bool {
    exists|k: int| 0 <= k < entries.len() && #[trigger] entries[k] == e
}

/// Which rows the entries of the first `n` rows come from.
proof fn lemma_line_entries(rows: Seq<FlatNodeView>, n: nat)
    requires
        n <= rows.len(),
    ensures
        forall|k: int|
            0 <= k < line_entries(rows, n).len() ==> comes_from(
                #[trigger] line_entries(rows, n)[k],
                rows,
                n,
            ),
        forall|j: int|
            0 <= j < n && has_line(#[trigger] rows[j]) ==> holds(
                line_entries(rows, n),
                line_entry(rows[j]),
            ),
    decreases n,
{
    if n > 0 {
        lemma_line_entries(rows, (n - 1) as nat);
        let before = line_entries(rows, (n - 1) as nat);
        let all = line_entries(rows, n);
        assert forall|k: int| 0 <= k < all.len() implies comes_from(#[trigger] all[k], rows, n) by {
            if k < before.len() {
                assert(all[k] == before[k]);
                assert(comes_from(before[k], rows, (n - 1) as nat));
                let j = choose|j: int|
                    0 <= j < n - 1 && has_line(#[trigger] rows[j]) && before[k] == line_entry(
                        rows[j],
                    );
                assert(has_line(rows[j]));
            } else {
                assert(has_line(rows[n - 1]));
            }
        }
        assert forall|j: int| 0 <= j < n && has_line(#[trigger] rows[j]) implies holds(
            all,
            line_entry(rows[j]),
        ) by {
            if j < n - 1 {
                assert(holds(before, line_entry(rows[j])));
                let k = choose|k: int|
                    0 <= k < before.len() && #[trigger] before[k] == line_entry(rows[j]);
                assert(all[k] == before[k]);
            } else {
                assert(all[all.len() - 1] == line_entry(rows[j]));
            }
        }
    }
}

/// The round trip of the selection. Let no two rows of a tree have the same
/// path. Replaying the entries of the lines of this tree on the tree as it
/// is freshly built enables exactly the rows that have a line, gives each of
/// them the alias it had, and leaves every other row as it is.
pub proof fn lemma_replay_restores(rows: Seq<FlatNodeView>)
    requires
        paths_distinct(rows),
    ensures
        forall|i: int|
            0 <= i < rows.len() ==> {
                let after = #[trigger] replayed(
                    cleared(rows),
                    line_entries(rows, rows.len()),
                )[i];
                if has_line(rows[i]) {
                    after == FlatNodeView { enabled: true, ..rows[i] }
                } else {
                    after == cleared(rows)[i]
                }
            },
{
    let entries = line_entries(rows, rows.len());
    let fresh = cleared(rows);
    lemma_line_entries(rows, rows.len());
    assert forall|i: int| 0 <= i < rows.len() implies {
        let after = #[trigger] replayed(fresh, entries)[i];
        if has_line(rows[i]) {
            after == FlatNodeView { enabled: true, ..rows[i] }
        } else {
            after == fresh[i]
        }
    } by {
        let path = rows[i].path;
        lemma_find_entry(entries, path);
        match find_entry(entries, path) {
            Some(e) => {
                let k = choose|k: int| 0 <= k < entries.len() && #[trigger] entries[k] == e;
                assert(comes_from(entries[k], rows, rows.len()));
                let j = choose|j: int|
                    0 <= j < rows.len() && has_line(#[trigger] rows[j]) && entries[k]
                        == line_entry(rows[j]);
                assert(rows[j].path == rows[i].path);
                if i < j {
                    assert(rows[i].path != rows[j].path);
                }
                if j < i {
                    assert(rows[j].path != rows[i].path);
                }
                assert(i == j);
                let after = replayed(fresh, entries)[i];
                assert(after.alias =~= rows[i].alias);
            },
            None => {
                if has_line(rows[i]) {
                    assert(holds(entries, line_entry(rows[i])));
                    let k = choose|k: int|
                        0 <= k < entries.len() && #[trigger] entries[k] == line_entry(rows[i]);
                    assert(entries[k].path == path);
                }
            },
        }
    }
}

} // verus!
