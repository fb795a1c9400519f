//! Reading a selection file. The first line that is not blank names the
//! description. Every further line that is not blank names a row: its first
//! word is the row's path and its second the alias, or `_` for none. A line
//! of a single word makes the whole file unreadable: a selection is replayed
//! in full or not at all.
use crate::model::FlatNodeView;
use crate::selection::entry_views;
use crate::selection::find_entry;
use crate::selection::replayed;
use crate::selection::texts;
use crate::selection::SelectionEntry;
use crate::selection::SelectionEntryView;
use crate::selection::SelectionTable;
use crate::selection::SelectionTableView;
use crate::text::decimal;
use crate::text::is_space;
use crate::text::is_space_char;
use crate::text::leading_spaces;
use crate::text::push_decimal;
use crate::text::same_text;
use crate::text::string_of;
use crate::text::to_chars;
use vstd::prelude::*;
use vstd::string::StringExecFns;

verus! {

/// Why a selection file could not be read.
#[derive(Debug, Clone, Copy, PartialEq, Eq, Structural)]
pub enum DecodeError {
    /// The file has no line but blank ones: it names no description.
    MissingSource,
    /// The line of this index, counted from 0, has a path but no alias.
    MalformedLine(usize),
}

/// What the error says, in words.
pub open spec fn decode_error_text(e: DecodeError) -> Seq<char> {
    match e {
        DecodeError::MissingSource => "the file names no description"@,
        DecodeError::MalformedLine(line) => "the line at index "@ + decimal(line as nat)
            + " has no alias"@,
    }
}

impl DecodeError {
    /// The error in words.
    pub fn message(&self) -> (r: String)
        ensures
            r@ == decode_error_text(*self),
    {
        match self {
            DecodeError::MissingSource => String::from_str("the file names no description"),
            DecodeError::MalformedLine(line) => {
                let mut r = String::from_str("the line at index ");
                push_decimal(&mut r, *line as u64);
                r.append(" has no alias");
                r
            },
        }
    }
}

/// Where the first line of `s` ends: at its first line break, or at its end.
pub open spec fn first_break(s: Seq<char>) -> nat
    decreases s.len(),
{
    if s.len() == 0 || s[0] == '\n' {
        0
    } else {
        1 + first_break(s.skip(1))
    }
}

/// The lines of `s`: what stands between its line breaks.
pub open spec fn split_lines(s: Seq<char>) -> Seq<Seq<char>>
    decreases s.len(),
{
    let end = first_break(s);
    if end >= s.len() {
        seq![s]
    } else {
        seq![s.take(end as int)] + split_lines(s.skip(end as int + 1))
    }
}

/// How many characters other than whitespace `s` begins with.
pub open spec fn leading_word(s: Seq<char>) -> nat
    decreases s.len(),
{
    if s.len() > 0 && !is_space(s[0]) {
        1 + leading_word(s.skip(1))
    } else {
        0
    }
}

/// How many whitespace characters `s` ends with.
pub open spec fn trailing_spaces(s: Seq<char>) -> nat
    decreases s.len(),
{
    if s.len() > 0 && is_space(s.last()) {
        1 + trailing_spaces(s.drop_last())
    } else {
        0
    }
}

/// A leading word is no longer than the text.
pub proof fn lemma_leading_word_bound(s: Seq<char>)
    ensures
        leading_word(s) <= s.len(),
    decreases s.len(),
{
    if s.len() > 0 && !is_space(s[0]) {
        lemma_leading_word_bound(s.skip(1));
    }
}

/// The words of `s`: its maximal runs of characters other than whitespace.
pub open spec fn tokens(s: Seq<char>) -> Seq<Seq<char>>
    decreases s.len(),
{
    if s.len() == 0 {
        Seq::empty()
    } else if is_space(s[0]) {
        tokens(s.skip(1))
    } else {
        proof {
            lemma_leading_word_bound(s);
        }
        seq![s.take(leading_word(s) as int)] + tokens(s.skip(leading_word(s) as int))
    }
}

/// Whether the line holds nothing but whitespace.
pub open spec fn is_blank(line: Seq<char>) -> bool {
    leading_spaces(line) >= line.len()
}

/// The line without the whitespace at its ends.
pub open spec fn trimmed(line: Seq<char>) -> Seq<char> {
    line.subrange(leading_spaces(line) as int, line.len() - trailing_spaces(line))
}

/// The entry that a line of the words `words` stands for. The alias `_`
/// stands for no alias.
pub open spec fn entry_of(words: Seq<Seq<char>>) -> SelectionEntryView {
    SelectionEntryView {
        path: words[0],
        alias: if words[1] == seq!['_'] {
            None
        } else {
            Some(words[1])
        },
        recorded: words.skip(2),
    }
}

/// What the first `n` lines hold: the name of the description, once a line
/// gave it, and the entries.
pub open spec fn decoded_lines(lines: Seq<Seq<char>>, n: nat) -> Result<
    (Option<Seq<char>>, Seq<SelectionEntryView>),
    DecodeError,
>
    decreases n,
{
    if n == 0 {
        Ok((None, Seq::empty()))
    } else {
        match decoded_lines(lines, (n - 1) as nat) {
            Err(e) => Err(e),
            Ok((source, entries)) => {
                let line = lines[n - 1];
                if is_blank(line) {
                    Ok((source, entries))
                } else if source is None {
                    Ok((Some(trimmed(line)), entries))
                } else if tokens(line).len() < 2 {
                    Err(DecodeError::MalformedLine((n - 1) as usize))
                } else {
                    Ok((source, entries.push(entry_of(tokens(line)))))
                }
            },
        }
    }
}

/// What the selection file `text` holds.
pub open spec fn decoded(text: Seq<char>) -> Result<SelectionTableView, DecodeError> {
    let lines = split_lines(text);
    match decoded_lines(lines, lines.len()) {
        Err(e) => Err(e),
        Ok((None, _)) => Err(DecodeError::MissingSource),
        Ok((Some(source), entries)) => Ok(SelectionTableView { source, entries }),
    }
}

/// An error among the first `n` lines is the error of all of them.
proof fn lemma_decoded_lines_error(lines: Seq<Seq<char>>, n: nat, m: nat)
    requires
        n <= m,
        decoded_lines(lines, n) is Err,
    ensures
        decoded_lines(lines, m) == decoded_lines(lines, n),
    decreases m,
{
    if n < m {
        lemma_decoded_lines_error(lines, n, (m - 1) as nat);
    }
}

proof fn lemma_first_break(s: Seq<char>, end: int)
    requires
        0 <= end <= s.len(),
        forall|i: int| 0 <= i < end ==> s[i] != '\n',
        end == s.len() || s[end] == '\n',
    ensures
        first_break(s) == end,
    decreases end,
{
    if end > 0 {
        let rest = s.skip(1);
        assert forall|i: int| 0 <= i < end - 1 implies rest[i] != '\n' by {
            assert(rest[i] == s[i + 1]);
        }
        lemma_first_break(rest, end - 1);
    }
}

fn find_break(chars: &Vec<char>, start: usize) -> (end: usize)
    requires
        start <= chars@.len(),
    ensures
        start <= end <= chars@.len(),
        first_break(chars@.skip(start as int)) == end - start,
{
    let mut end: usize = start;
    while end < chars.len() && chars[end] != '\n'
        invariant
            start <= end <= chars@.len(),
            forall|i: int| start <= i < end ==> chars@[i] != '\n',
        decreases chars@.len() - end,
    {
        end = end + 1;
    }
    proof {
        lemma_first_break(chars@.skip(start as int), end - start);
    }
    end
}

/// The place of the first character of the line that is no whitespace, or
/// the end of the line.
fn skip_spaces(chars: &Vec<char>, from: usize, to: usize) -> (at: usize)
    requires
        from <= to <= chars@.len(),
    ensures
        from <= at <= to,
        at - from == leading_spaces(chars@.subrange(from as int, to as int)),
        at < to ==> !is_space(chars@[at as int]),
{
    let mut at: usize = from;
    let ghost line = chars@.subrange(from as int, to as int);
    assert(line.skip(0) =~= line);
    while at < to && is_space_char(chars[at])
        invariant
            from <= at <= to <= chars@.len(),
            line == chars@.subrange(from as int, to as int),
            leading_spaces(line) == (at - from) + leading_spaces(line.skip(at - from)),
        decreases to - at,
    {
        let ghost rest = line.skip(at - from);
        assert(rest[0] == chars@[at as int]);
        assert(rest.skip(1) =~= line.skip(at - from + 1));
        at = at + 1;
    }
    proof {
        let rest = line.skip(at - from);
        if at < to {
            assert(rest[0] == chars@[at as int]);
        }
    }
    at
}

/// The place behind the last character of the line that is no whitespace.
fn skip_trailing_spaces(chars: &Vec<char>, from: usize, to: usize) -> (at: usize)
    requires
        from <= to <= chars@.len(),
    ensures
        from <= at <= to,
        to - at == trailing_spaces(chars@.subrange(from as int, to as int)),
{
    let mut at: usize = to;
    let ghost line = chars@.subrange(from as int, to as int);
    assert(line.take(line.len() as int) =~= line);
    while at > from && is_space_char(chars[at - 1])
        invariant
            from <= at <= to <= chars@.len(),
            line == chars@.subrange(from as int, to as int),
            trailing_spaces(line) == (to - at) + trailing_spaces(line.take(at - from)),
        decreases at - from,
    {
        let ghost part = line.take(at - from);
        assert(part.last() == chars@[at - 1]);
        assert(part.drop_last() =~= line.take(at - from - 1));
        at = at - 1;
    }
    proof {
        let part = line.take(at - from);
        if at > from {
            assert(part.last() == chars@[at - 1]);
        }
    }
    at
}

/// The words of the characters from `from` up to `to`.
pub fn split_tokens(chars: &Vec<char>, from: usize, to: usize) -> (words: Vec<String>)
    requires
        from <= to <= chars@.len(),
    ensures
        texts(words@) == tokens(chars@.subrange(from as int, to as int)),
{
    let mut words: Vec<String> = Vec::new();
    let mut i: usize = from;
    let ghost line = chars@.subrange(from as int, to as int);
    assert(line.skip(0) =~= line);
    assert(texts(words@) + tokens(line) =~= tokens(line));
    while i < to
        invariant
            from <= i <= to <= chars@.len(),
            line == chars@.subrange(from as int, to as int),
            tokens(line) == texts(words@) + tokens(line.skip(i - from)),
        decreases to - i,
    {
        let ghost rest = line.skip(i - from);
        assert(rest[0] == chars@[i as int]);
        if is_space_char(chars[i]) {
            assert(rest.skip(1) =~= line.skip(i - from + 1));
            i = i + 1;
        } else {
            let mut j: usize = i + 1;
            assert(rest.skip(1) =~= line.skip(j - from));
            while j < to && !is_space_char(chars[j])
                invariant
                    from <= i < j <= to <= chars@.len(),
                    line == chars@.subrange(from as int, to as int),
                    rest == line.skip(i - from),
                    leading_word(rest) == (j - i) + leading_word(line.skip(j - from)),
                decreases to - j,
            {
                let ghost tail = line.skip(j - from);
                assert(tail[0] == chars@[j as int]);
                assert(tail.skip(1) =~= line.skip(j - from + 1));
                j = j + 1;
            }
            proof {
                let tail = line.skip(j - from);
                if j < to {
                    assert(tail[0] == chars@[j as int]);
                }
                assert(leading_word(rest) == j - i);
                assert(rest.take(j - i) =~= chars@.subrange(i as int, j as int));
                assert(rest.skip(j - i) =~= line.skip(j - from));
            }
            let word = string_of(chars, i, j);
            let ghost before = texts(words@);
            words.push(word);
            assert(texts(words@) =~= before.push(word@));
            assert(texts(words@) + tokens(line.skip(j - from)) =~= before + (seq![word@] + tokens(
                line.skip(j - from),
            )));
            i = j;
        }
    }
    assert(line.skip(i - from).len() == 0);
    assert(texts(words@) + Seq::<Seq<char>>::empty() =~= texts(words@));
    words
}

/// The entry of a line of at least two words.
fn make_entry(words: &Vec<String>) -> (e: SelectionEntry)
    requires
        words@.len() >= 2,
    ensures
        e@ == entry_of(texts(words@)),
{
    let path = words[0].clone();
    let mut sentinel = String::new();
    sentinel.push('_');
    let alias = if same_text(words[1].as_str(), sentinel.as_str()) {
        None
    } else {
        Some(words[1].clone())
    };
    let mut recorded: Vec<String> = Vec::new();
    let mut i: usize = 2;
    assert(texts(recorded@) =~= texts(words@).subrange(2, 2));
    while i < words.len()
        invariant
            2 <= i <= words@.len(),
            texts(recorded@) == texts(words@).subrange(2, i as int),
        decreases words@.len() - i,
    {
        let ghost before = texts(recorded@);
        let word = words[i].clone();
        recorded.push(word);
        assert(texts(recorded@) =~= before.push(word@));
        assert(word@ == texts(words@)[i as int]);
        i = i + 1;
        assert(before.push(word@) =~= texts(words@).subrange(2, i as int));
    }
    assert(texts(words@).subrange(2, i as int) =~= texts(words@).skip(2));
    assert(sentinel@ =~= seq!['_']);
    SelectionEntry { path, alias, recorded }
}

/// What the state of the reader stands for.
pub open spec fn reading(source: Option<String>, entries: Seq<SelectionEntry>) -> (
    Option<Seq<char>>,
    Seq<SelectionEntryView>,
) {
    (
        match source {
            Some(s) => Some(s@),
            None => None,
        },
        entry_views(entries),
    )
}

/// Reads the selection file `text`.
pub fn decode_selection(text: &str) -> (r: Result<SelectionTable, DecodeError>)
    ensures
        match r {
            Ok(table) => decoded(text@) == Ok::<SelectionTableView, DecodeError>(table@),
            Err(e) => decoded(text@) == Err::<SelectionTableView, DecodeError>(e),
        },
{
    let chars = to_chars(text);
    let mut source: Option<String> = None;
    let mut entries: Vec<SelectionEntry> = Vec::new();
    let mut start: usize = 0;
    let mut k: usize = 0;
    let mut done = false;
    let ghost lines = split_lines(chars@);
    let ghost mut read: nat = 0;
    proof {
        assert(chars@.skip(0) =~= chars@);
        assert(lines =~= lines.take(0) + split_lines(chars@.skip(0)));
        assert(entry_views(entries@) =~= Seq::<SelectionEntryView>::empty());
    }
    while !done
        invariant
            lines == split_lines(chars@),
            chars@ == text@,
            !done ==> start <= chars@.len() && k <= start && read == k && lines == lines.take(
                k as int,
            ) + split_lines(chars@.skip(start as int)),
            done ==> read == lines.len(),
            read <= lines.len(),
            decoded_lines(lines, read) == Ok::<
                (Option<Seq<char>>, Seq<SelectionEntryView>),
                DecodeError,
            >(reading(source, entries@)),
        decreases
                if done {
                    0
                } else {
                    chars@.len() - start + 1
                },
    {
        let end = find_break(&chars, start);
        let ghost rest = chars@.skip(start as int);
        let ghost line = chars@.subrange(start as int, end as int);
        proof {
            assert(rest.take(end - start) =~= line);
            if end < chars@.len() {
                assert(rest.skip(end - start + 1) =~= chars@.skip(end + 1));
                assert(split_lines(rest) == seq![line] + split_lines(chars@.skip(end + 1)));
            } else {
                assert(rest =~= line);
                assert(split_lines(rest) == seq![line]);
            }
            assert(lines[k as int] == split_lines(rest)[0]);
            assert(lines[k as int] == line);
        }
        let first = skip_spaces(&chars, start, end);
        if first < end {
            match &source {
                None => {
                    let last = skip_trailing_spaces(&chars, start, end);
                    proof {
                        // The character at `first` is no whitespace, so the
                        // whitespace at the end begins behind it.
                        lemma_trailing_after(line, first - start);
                        assert(line.subrange(first - start, last - start) =~= chars@.subrange(
                            first as int,
                            last as int,
                        ));
                    }
                    source = Some(string_of(&chars, first, last));
                },
                Some(_) => {
                    let words = split_tokens(&chars, start, end);
                    if words.len() < 2 {
                        proof {
                            lemma_decoded_lines_error(lines, (k + 1) as nat, lines.len());
                        }
                        return Err(DecodeError::MalformedLine(k));
                    }
                    let entry = make_entry(&words);
                    let ghost before = entry_views(entries@);
                    entries.push(entry);
                    assert(entry_views(entries@) =~= before.push(entry@));
                },
            }
        }
        if end < chars.len() {
            proof {
                assert(lines.take(k + 1) =~= lines.take(k as int) + seq![line]);
                assert(lines =~= lines.take(k + 1) + split_lines(chars@.skip(end + 1)));
                read = read + 1;
            }
            start = end + 1;
            k = k + 1;
        } else {
            proof {
                assert(lines.len() == k + 1);
                read = read + 1;
            }
            done = true;
        }
    }
    match source {
        None => Err(DecodeError::MissingSource),
        Some(source) => Ok(SelectionTable { source, entries }),
    }
}

/// Whether none of the entries has the sentinel for its alias.
pub open spec fn no_sentinel(entries: Seq<SelectionEntryView>) -> bool {
    forall|i: int| 0 <= i < entries.len() ==> (#[trigger] entries[i]).alias != Some(seq!['_'])
}

proof fn lemma_decoded_lines_no_sentinel(lines: Seq<Seq<char>>, n: nat)
    requires
        decoded_lines(lines, n) is Ok,
    ensures
        no_sentinel(decoded_lines(lines, n)->Ok_0.1),
    decreases n,
{
    if n > 0 {
        lemma_decoded_lines_no_sentinel(lines, (n - 1) as nat);
    }
}

/// An entry that is found is one of the entries.
pub proof fn lemma_find_entry(entries: Seq<SelectionEntryView>, path: Seq<char>)
    ensures
        match find_entry(entries, path) {
            Some(e) => e.path == path && exists|i: int|
                0 <= i < entries.len() && #[trigger] entries[i] == e,
            None => forall|i: int| 0 <= i < entries.len() ==> (#[trigger] entries[i]).path != path,
        },
    decreases entries.len(),
{
    if entries.len() > 0 {
        let shorter = entries.drop_last();
        lemma_find_entry(shorter, path);
        if entries.last().path == path {
            assert(entries[entries.len() - 1] == entries.last());
        } else {
            match find_entry(shorter, path) {
                Some(e) => {
                    let i = choose|i: int| 0 <= i < shorter.len() && #[trigger] shorter[i] == e;
                    assert(entries[i] == e);
                },
                None => {
                    assert forall|i: int| 0 <= i < entries.len() implies (
                    #[trigger] entries[i]).path != path by {
                        if i < shorter.len() {
                            assert(entries[i] == shorter[i]);
                        }
                    }
                },
            }
        }
    }
}

/// The alias sentinel. An alias `_` in a selection file stands for no alias:
/// no entry that is read has the alias `_`, and replaying what was read gives
/// no row the alias `_`. A row either keeps the alias it had or takes an
/// alias of the file that is not the sentinel.
pub proof fn lemma_alias_sentinel(text: Seq<char>, rows: Seq<FlatNodeView>)
    requires
        decoded(text) is Ok,
    ensures
        no_sentinel(decoded(text)->Ok_0.entries),
        forall|i: int|
            0 <= i < rows.len() ==> {
                let after = #[trigger] replayed(rows, decoded(text)->Ok_0.entries)[i];
                after.alias == rows[i].alias || after.alias != seq!['_']
            },
{
    let lines = split_lines(text);
    lemma_decoded_lines_no_sentinel(lines, lines.len());
    let entries = decoded(text)->Ok_0.entries;
    assert forall|i: int| 0 <= i < rows.len() implies {
        let after = #[trigger] replayed(rows, entries)[i];
        after.alias == rows[i].alias || after.alias != seq!['_']
    } by {
        lemma_find_entry(entries, rows[i].path);
    }
}

/// Whitespace at the end of a line does not reach over a character that is
/// none.
proof fn lemma_trailing_after(line: Seq<char>, at: int)
    requires
        0 <= at < line.len(),
        !is_space(line[at]),
    ensures
        trailing_spaces(line) < line.len() - at,
    decreases line.len(),
{
    if is_space(line.last()) {
        lemma_trailing_after(line.drop_last(), at);
    }
}

} // verus!
