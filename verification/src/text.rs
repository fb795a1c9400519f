//! Text primitives over `Seq<char>`: whitespace, number formatting,
//! placeholder replacement and dotted paths.
use vstd::prelude::*;
use vstd::string::StringExecFns;

verus! {

/// `String::push` of std appends the character to the end of the string.
pub assume_specification[ String::push ](s: &mut String, c: char)
    ensures
        final(s)@ == old(s)@.push(c),
;

/// The characters with the Unicode property `White_Space`.
pub open spec fn is_space(c: char) -> bool {
    ||| ('\t' <= c && c <= '\r')
    ||| c == ' '
    ||| c == '\u{85}'
    ||| c == '\u{a0}'
    ||| c == '\u{1680}'
    ||| ('\u{2000}' <= c && c <= '\u{200a}')
    ||| c == '\u{2028}'
    ||| c == '\u{2029}'
    ||| c == '\u{202f}'
    ||| c == '\u{205f}'
    ||| c == '\u{3000}'
}

/// Whether the character is whitespace.
pub fn is_space_char(c: char) -> (b: bool)
    ensures
        b == is_space(c),
{
    ('\t' <= c && c <= '\r') || c == ' ' || c == '\u{85}' || c == '\u{a0}' || c == '\u{1680}' || (
    '\u{2000}' <= c && c <= '\u{200a}') || c == '\u{2028}' || c == '\u{2029}' || c == '\u{202f}'
        || c == '\u{205f}' || c == '\u{3000}'
}

/// How many whitespace characters `s` begins with.
pub open spec fn leading_spaces(s: Seq<char>) -> nat
    decreases s.len(),
{
    if s.len() > 0 && is_space(s[0]) {
        1 + leading_spaces(s.skip(1))
    } else {
        0
    }
}

/// `s` with every maximal run of two or more whitespace characters replaced
/// by one space. A whitespace character that stands alone is kept as it is.
pub open spec fn collapse_spaces(s: Seq<char>) -> Seq<char>
    decreases s.len(),
{
    let run = leading_spaces(s);
    if s.len() == 0 {
        s
    } else if 2 <= run <= s.len() {
        seq![' '] + collapse_spaces(s.skip(run as int))
    } else {
        seq![s[0]] + collapse_spaces(s.skip(1))
    }
}

/// The pattern of a whitespace run of two or more characters: `\s\s+`.
pub open spec fn run_pattern() -> Seq<char> {
    seq!['\\', 's', '\\', 's', '+']
}

/// `Regex::new` and `Regex::replace_all` of the regex crate, reached
/// through lazy_regex, for the one pattern `\s\s+` and the replacement
/// `" "`. In that pattern `\s` is a character of the Unicode property
/// `White_Space`, the search goes from the left and is greedy, so each match
/// is a maximal whitespace run of two or more characters, and the
/// replacement holds no `$`, so it is put in as it is. The contract states
/// the resulting text; it is not proved.
#[verifier::external_body]
fn replace_runs(pattern: &str, text: &str, with: &str) -> (r: String)
    requires
        pattern@ == run_pattern(),
        with@ == seq![' '],
    ensures
        r@ == collapse_spaces(text@),
{
    let regex = lazy_regex::Regex::new(pattern).unwrap();
    regex.replace_all(text, with).into_owned()
}

/// `text` with its whitespace runs collapsed.
pub fn rm_white(text: &str) -> (r: String)
    ensures
        r@ == collapse_spaces(text@),
{
    let mut pattern = String::new();
    pattern.push('\\');
    pattern.push('s');
    pattern.push('\\');
    pattern.push('s');
    pattern.push('+');
    let mut with = String::new();
    with.push(' ');
    assert(pattern@ =~= run_pattern());
    assert(with@ =~= seq![' ']);
    replace_runs(pattern.as_str(), text, with.as_str())
}

/// The text of an optional description: empty when there is none.
pub open spec fn text_or_empty(text: Option<String>) -> Seq<char> {
    match text {
        Some(t) => t@,
        None => Seq::empty(),
    }
}

/// The description as it is shown: whitespace runs collapsed, empty when the
/// definition has none.
pub fn rendered_description(text: &Option<String>) -> (r: String)
    ensures
        r@ == collapse_spaces(text_or_empty(*text)),
{
    match text {
        Some(t) => rm_white(t.as_str()),
        None => {
            let empty = String::new();
            assert(collapse_spaces(Seq::<char>::empty()) =~= Seq::<char>::empty());
            empty
        },
    }
}

/// The characters of a text.
pub fn to_chars(s: &str) -> (v: Vec<char>)
    ensures
        v@ == s@,
{
    let mut v: Vec<char> = Vec::new();
    for c in it: s.chars()
        invariant
            v@ == it.seq().take(it.index() as int),
    {
        v.push(c);
    }
    v
}

/// The characters of `chars` from `from` up to `to`, as a string.
pub fn string_of(chars: &Vec<char>, from: usize, to: usize) -> (r: String)
    requires
        from <= to <= chars@.len(),
    ensures
        r@ == chars@.subrange(from as int, to as int),
{
    let mut r = String::new();
    let mut i: usize = from;
    while i < to
        invariant
            from <= i <= to <= chars@.len(),
            r@ == chars@.subrange(from as int, i as int),
        decreases to - i,
    {
        r.push(chars[i]);
        i = i + 1;
        assert(r@ =~= chars@.subrange(from as int, i as int));
    }
    r
}

/// The digit of value `d` in lower-case hexadecimal notation.
pub open spec fn digit(d: nat) -> char {
    seq!['0', '1', '2', '3', '4', '5', '6', '7', '8', '9', 'a', 'b', 'c', 'd', 'e', 'f'][d as int]
}

/// `n` written in base `base` (2 to 16), most significant digit first,
/// without leading zeros.
pub open spec fn digits(n: nat, base: nat) -> Seq<char>
    decreases n,
{
    if base < 2 || n < base {
        seq![digit(n)]
    } else {
        proof {
            assert(n / base < n) by (nonlinear_arith)
                requires
                    base >= 2,
                    n >= base,
            ;
        }
        digits(n / base, base).push(digit(n % base))
    }
}

/// `n` in decimal notation.
pub open spec fn decimal(n: nat) -> Seq<char> {
    digits(n, 10)
}

/// `count` zeros.
pub open spec fn zeros(count: nat) -> Seq<char> {
    Seq::new(count, |i: int| '0')
}

/// `n` in lower-case hexadecimal, padded with zeros on the left to at least
/// `width` digits.
pub open spec fn hex(n: nat, width: nat) -> Seq<char> {
    let d = digits(n, 16);
    if d.len() >= width {
        d
    } else {
        zeros((width - d.len()) as nat) + d
    }
}

fn digit_char(d: u64) -> (c: char)
    requires
        d < 16,
    ensures
        c == digit(d as nat),
{
    if d == 0 {
        '0'
    } else if d == 1 {
        '1'
    } else if d == 2 {
        '2'
    } else if d == 3 {
        '3'
    } else if d == 4 {
        '4'
    } else if d == 5 {
        '5'
    } else if d == 6 {
        '6'
    } else if d == 7 {
        '7'
    } else if d == 8 {
        '8'
    } else if d == 9 {
        '9'
    } else if d == 10 {
        'a'
    } else if d == 11 {
        'b'
    } else if d == 12 {
        'c'
    } else if d == 13 {
        'd'
    } else if d == 14 {
        'e'
    } else {
        'f'
    }
}

fn push_digits(out: &mut String, n: u64, base: u64)
    requires
        2 <= base <= 16,
    ensures
        final(out)@ == old(out)@ + digits(n as nat, base as nat),
    decreases n,
{
    if n >= base {
        assert(n / base < n) by (nonlinear_arith)
            requires
                base >= 2,
                n >= base,
        ;
        push_digits(out, n / base, base);
    }
    let ghost before = out@;
    out.push(digit_char(n % base));
    proof {
        let value = n as nat;
        let radix = base as nat;
        if n >= base {
            assert(digits(value, radix) == digits(value / radix, radix).push(digit(value % radix)));
        } else {
            assert(digits(value, radix) == seq![digit(value)]);
            assert(value % radix == value) by (nonlinear_arith)
                requires
                    value < radix,
            ;
        }
    }
    assert(out@ =~= old(out)@ + digits(n as nat, base as nat));
}

fn digit_count(n: u64, base: u64) -> (count: u64)
    requires
        2 <= base <= 16,
    ensures
        count == digits(n as nat, base as nat).len(),
{
    let mut count: u64 = 1;
    let mut rest: u64 = n;
    while rest >= base
        invariant
            2 <= base <= 16,
            count + rest <= n + 1,
            digits(n as nat, base as nat).len() + 1 == digits(rest as nat, base as nat).len()
                + count,
        decreases rest,
    {
        assert(rest / base < rest) by (nonlinear_arith)
            requires
                base >= 2,
                rest >= base,
        ;
        rest = rest / base;
        count = count + 1;
    }
    count
}

/// `n` in decimal notation.
pub fn decimal_string(n: u64) -> (r: String)
    ensures
        r@ == decimal(n as nat),
{
    let mut r = String::new();
    push_digits(&mut r, n, 10);
    r
}

/// Appends `n` in decimal notation.
pub fn push_decimal(out: &mut String, n: u64)
    ensures
        final(out)@ == old(out)@ + decimal(n as nat),
{
    push_digits(out, n, 10);
}

/// Appends `n` in hexadecimal notation, at least `width` digits wide.
pub fn push_hex(out: &mut String, n: u64, width: usize)
    ensures
        final(out)@ == old(out)@ + hex(n as nat, width as nat),
{
    let count = digit_count(n, 16);
    let wanted: u64 = width as u64;
    let mut padding: u64 = 0;
    if count < wanted {
        let missing: u64 = wanted - count;
        while padding < missing
            invariant
                padding <= missing,
                out@ == old(out)@ + zeros(padding as nat),
            decreases missing - padding,
        {
            out.push('0');
            padding = padding + 1;
            assert(out@ =~= old(out)@ + zeros(padding as nat));
        }
    }
    assert(out@ =~= old(out)@ + zeros(padding as nat));
    push_digits(out, n, 16);
    assert(out@ =~= old(out)@ + hex(n as nat, width as nat));
}

/// `n` in hexadecimal notation, at least `width` digits wide.
pub fn hex_string(n: u64, width: usize) -> (r: String)
    ensures
        r@ == hex(n as nat, width as nat),
{
    let mut r = String::new();
    push_hex(&mut r, n, width);
    r
}

/// The address column of a node: `0x` and at least eight hexadecimal digits.
pub open spec fn address_text(address: nat) -> Seq<char> {
    seq!['0', 'x'] + hex(address, 8)
}

/// Appends the address as the address column shows it.
pub fn push_address(out: &mut String, address: u64)
    ensures
        final(out)@ == old(out)@ + address_text(address as nat),
{
    out.push('0');
    out.push('x');
    push_hex(out, address, 8);
    assert(out@ =~= old(out)@ + address_text(address as nat));
}

/// The dotted path of the node called `name` below the node at `prefix`.
pub open spec fn join_path(prefix: Seq<char>, name: Seq<char>) -> Seq<char> {
    prefix.push('.') + name
}

/// The dotted path of the node called `name` below the node at `prefix`.
pub fn joined_path(prefix: &str, name: &str) -> (r: String)
    ensures
        r@ == join_path(prefix@, name@),
{
    let mut r = String::from_str(prefix);
    r.push('.');
    r.append(name);
    r
}

/// Whether `s` begins with `pattern`.
pub open spec fn starts_with(s: Seq<char>, pattern: Seq<char>) -> bool {
    pattern.len() <= s.len() && s.take(pattern.len() as int) == pattern
}

/// `s` with every occurrence of `pattern` replaced by `with`, found from the
/// left and without overlap. An empty pattern occurs nowhere.
pub open spec fn replaced(s: Seq<char>, pattern: Seq<char>, with: Seq<char>) -> Seq<char>
    decreases s.len(),
{
    if pattern.len() == 0 || s.len() == 0 {
        s
    } else if starts_with(s, pattern) {
        with + replaced(s.skip(pattern.len() as int), pattern, with)
    } else {
        seq![s[0]] + replaced(s.skip(1), pattern, with)
    }
}

fn occurs_at(text: &Vec<char>, at: usize, pattern: &Vec<char>) -> (b: bool)
    requires
        at <= text@.len(),
    ensures
        b == starts_with(text@.skip(at as int), pattern@),
{
    if pattern.len() > text.len() - at {
        return false;
    }
    let mut k: usize = 0;
    while k < pattern.len()
        invariant
            at + pattern@.len() <= text@.len() <= usize::MAX,
            k <= pattern@.len(),
            forall|j: int| 0 <= j < k ==> text@[at + j] == pattern@[j],
        decreases pattern@.len() - k,
    {
        if text[at + k] != pattern[k] {
            assert(text@.skip(at as int).take(pattern@.len() as int)[k as int] != pattern@[k as int]);
            return false;
        }
        k = k + 1;
    }
    assert(text@.skip(at as int).take(pattern@.len() as int) =~= pattern@);
    true
}

/// Replaces every occurrence of `pattern` in `text` by `with`.
pub fn replace_all(text: &str, pattern: &str, with: &str) -> (r: String)
    ensures
        r@ == replaced(text@, pattern@, with@),
{
    let chars = to_chars(text);
    let pat = to_chars(pattern);
    if pat.len() == 0 {
        return String::from_str(text);
    }
    let mut r = String::new();
    let mut i: usize = 0;
    assert(chars@.skip(0) =~= chars@);
    assert(r@ + replaced(chars@, pattern@, with@) =~= replaced(chars@, pattern@, with@));
    while i < chars.len()
        invariant
            i <= chars@.len(),
            pat@.len() > 0,
            pat@ == pattern@,
            chars@ == text@,
            replaced(text@, pattern@, with@) == r@ + replaced(
                chars@.skip(i as int),
                pattern@,
                with@,
            ),
        decreases chars@.len() - i,
    {
        let ghost rest = chars@.skip(i as int);
        if occurs_at(&chars, i, &pat) {
            r.append(with);
            assert(rest.skip(pat@.len() as int) =~= chars@.skip(i + pat@.len()));
            i = i + pat.len();
        } else {
            r.push(chars[i]);
            assert(rest.skip(1) =~= chars@.skip(i + 1));
            i = i + 1;
        }
        assert(replaced(text@, pattern@, with@) =~= r@ + replaced(
            chars@.skip(i as int),
            pattern@,
            with@,
        ));
    }
    assert(chars@.skip(i as int) =~= Seq::<char>::empty());
    assert(r@ + Seq::<char>::empty() =~= r@);
    r
}

/// The bracketed placeholder of an array's name, `[%s]`.
pub open spec fn bracketed_placeholder() -> Seq<char> {
    seq!['[', '%', 's', ']']
}

/// The bare placeholder of an array's name, `%s`.
pub open spec fn bare_placeholder() -> Seq<char> {
    seq!['%', 's']
}

/// `template` with the index label put in place of each placeholder: first of
/// each `[%s]`, then of each `%s` that is left.
pub open spec fn substituted(template: Seq<char>, label: Seq<char>) -> Seq<char> {
    replaced(replaced(template, bracketed_placeholder(), label), bare_placeholder(), label)
}

/// Puts `label` in place of the placeholders of `template`.
pub fn substitute_index(template: &str, label: &str) -> (r: String)
    ensures
        r@ == substituted(template@, label@),
{
    let mut bracketed = String::new();
    bracketed.push('[');
    bracketed.push('%');
    bracketed.push('s');
    bracketed.push(']');
    let mut bare = String::new();
    bare.push('%');
    bare.push('s');
    assert(bracketed@ =~= bracketed_placeholder());
    assert(bare@ =~= bare_placeholder());
    let first = replace_all(template, bracketed.as_str(), label);
    replace_all(first.as_str(), bare.as_str(), label)
}

/// Whether the two texts are the same.
pub fn same_text(a: &str, b: &str) -> (r: bool)
    ensures
        r == (a@ == b@),
{
    let x = to_chars(a);
    let y = to_chars(b);
    if x.len() != y.len() {
        return false;
    }
    let mut i: usize = 0;
    while i < x.len()
        invariant
            x@ == a@,
            y@ == b@,
            x@.len() == y@.len(),
            i <= x@.len(),
            forall|j: int| 0 <= j < i ==> x@[j] == y@[j],
        decreases x@.len() - i,
    {
        if x[i] != y[i] {
            return false;
        }
        i = i + 1;
    }
    assert(x@ =~= y@);
    true
}

} // verus!
