//! Character-level building blocks shared by the line grammar and the
//! triage rules: character classes, runs, literal matching, decimal
//! numbers, line splitting and trimming.

use vstd::prelude::*;
use vstd::string::StrSliceExecFns;
use vstd::string::StringExecFns;

verus! {

// ---------------------------------------------------------------------------
// Literal matching
// ---------------------------------------------------------------------------

/// `t` occurs in `s` starting at index `i`.
pub open spec fn occurs_at(s: Seq<char>, i: int, t: Seq<char>) -> bool {
    0 <= i && i + t.len() <= s.len() && s.subrange(i, i + t.len()) == t
}

/// `t` occurs somewhere in `s` (what `str::contains` answers).
pub open spec fn contains_seq(s: Seq<char>, t: Seq<char>) -> bool {
    exists|i: int| occurs_at(s, i, t)
}

/// The characters of a string slice, in order.
pub fn chars_of(s: &str) -> (v: Vec<char>)
    ensures
        v@ == s@,
{
    broadcast use vstd::string::group_string_axioms;
    let mut v: Vec<char> = Vec::new();
    for c in it: s.chars()
        invariant
            it.seq() == s@,
            v@ == it.seq().take(it.index() as int),
    {
        v.push(c);
        assert(v@ =~= it.seq().take(it.index() as int + 1));
    }
    assert(v@ =~= s@);
    v
}

/// `String::push`: claimed to append `c` to the characters of `s`.
#[verifier::external_body]
fn push_char(s: &mut String, c: char)
    ensures
        final(s)@ == old(s)@.push(c),
{
    s.push(c);
}

/// Appends the characters `v[from..to]` to `s`.
pub fn append_range(s: &mut String, v: &Vec<char>, from: usize, to: usize)
    requires
        from <= to <= v@.len(),
    ensures
        final(s)@ == old(s)@ + v@.subrange(from as int, to as int),
{
    let ghost start = s@;
    let mut i = from;
    while i < to
        invariant
            from <= i <= to <= v@.len(),
            s@ == start + v@.subrange(from as int, i as int),
        decreases to - i,
    {
        push_char(s, v[i]);
        i = i + 1;
        assert(s@ =~= start + v@.subrange(from as int, i as int));
    }
}

/// The string whose characters are `v[from..to]`.
pub fn string_of_range(v: &Vec<char>, from: usize, to: usize) -> (s: String)
    requires
        from <= to <= v@.len(),
    ensures
        s@ == v@.subrange(from as int, to as int),
{
    let mut s = String::new();
    append_range(&mut s, v, from, to);
    assert(s@ =~= v@.subrange(from as int, to as int));
    s
}

/// A vector holding `v[from..to]`.
pub fn vec_range(v: &Vec<char>, from: usize, to: usize) -> (r: Vec<char>)
    requires
        from <= to <= v@.len(),
    ensures
        r@ == v@.subrange(from as int, to as int),
{
    let mut r: Vec<char> = Vec::new();
    let mut i = from;
    while i < to
        invariant
            from <= i <= to <= v@.len(),
            r@ == v@.subrange(from as int, i as int),
        decreases to - i,
    {
        r.push(v[i]);
        i = i + 1;
        assert(r@ =~= v@.subrange(from as int, i as int));
    }
    r
}

/// The string whose characters are all of `v`.
pub fn string_of(v: &Vec<char>) -> (s: String)
    ensures
        s@ == v@,
{
    let s = string_of_range(v, 0, v.len());
    assert(v@.subrange(0, v@.len() as int) =~= v@);
    s
}

/// Whether the literal `lit` occurs in `v` at index `i`.
pub fn has_at(v: &Vec<char>, i: usize, lit: &str) -> (b: bool)
    ensures
        b == occurs_at(v@, i as int, lit@),
{
    let n = lit.unicode_len();
    if n > v.len() || i > v.len() - n {
        return false;
    }
    let len = v.len();
    let mut k: usize = 0;
    while k < n
        invariant
            n == lit@.len(),
            len == v@.len(),
            i + n <= len,
            k <= n,
            forall|j: int| 0 <= j < k ==> v@[i + j] == lit@[j],
        decreases n - k,
    {
        if v[i + k] != lit.get_char(k) {
            assert(v@.subrange(i as int, i + n)[k as int] != lit@[k as int]);
            return false;
        }
        k = k + 1;
    }
    assert(v@.subrange(i as int, i + n) =~= lit@);
    true
}

/// Whether the literal `lit` occurs anywhere in `v`.
pub fn contains_lit(v: &Vec<char>, lit: &str) -> (b: bool)
    ensures
        b == contains_seq(v@, lit@),
{
    let n = lit.unicode_len();
    if n > v.len() {
        assert forall|i: int| !occurs_at(v@, i, lit@) by {}
        return false;
    }
    if n == 0 {
        assert(occurs_at(v@, 0, lit@)) by {
            assert(v@.subrange(0, 0) =~= lit@);
        }
        return true;
    }
    let mut i: usize = 0;
    while i <= v.len() - n
        invariant
            n == lit@.len(),
            0 < n <= v@.len(),
            i <= v@.len() - n + 1,
            forall|j: int| 0 <= j < i ==> !occurs_at(v@, j, lit@),
        decreases v@.len() - n + 1 - i,
    {
        if has_at(v, i, lit) {
            return true;
        }
        i = i + 1;
    }
    assert forall|j: int| !occurs_at(v@, j, lit@) by {
        if 0 <= j < i {
        }
    }
    false
}

// ---------------------------------------------------------------------------
// Character classes
// ---------------------------------------------------------------------------

/// Whether a character outside ASCII is in the regex class `\d`
/// (the Unicode general category Decimal_Number).
pub uninterp spec fn unicode_decimal_digit(c: char) -> bool;

/// Whether a character outside ASCII is a regex word character (`\w`).
pub uninterp spec fn unicode_word_char(c: char) -> bool;

pub open spec fn is_ascii(c: char) -> bool {
    (c as u32) < 128
}

pub open spec fn is_ascii_digit(c: char) -> bool {
    48 <= (c as u32) <= 57
}

pub open spec fn is_ascii_alnum(c: char) -> bool {
    is_ascii_digit(c) || (65 <= (c as u32) <= 90) || (97 <= (c as u32) <= 122)
}

/// White space in the sense of the Unicode White_Space property: the
/// regex class `\s`, `char::is_whitespace`, and what `str::trim` strips.
/// In ASCII: tab, line feed, vertical tab, form feed, carriage return and
/// space; beyond it: U+0085, U+00A0, U+1680, U+2000 to U+200A, U+2028,
/// U+2029, U+202F, U+205F and U+3000.
pub open spec fn is_space(c: char) -> bool {
    let u = c as u32;
    (9 <= u <= 13) || u == 32 || u == 0x85 || u == 0xa0 || u == 0x1680 || (0x2000 <= u <= 0x200a)
        || u == 0x2028 || u == 0x2029 || u == 0x202f || u == 0x205f || u == 0x3000
}

/// The regex class `\d`.
pub open spec fn is_digit(c: char) -> bool {
    if is_ascii(c) {
        is_ascii_digit(c)
    } else {
        unicode_decimal_digit(c)
    }
}

/// The regex class `\w`.
pub open spec fn is_word(c: char) -> bool {
    if is_ascii(c) {
        is_ascii_alnum(c) || (c as u32) == 95
    } else {
        unicode_word_char(c)
    }
}

/// `regex::Regex::new` and `Regex::is_match`: whether a character outside
/// ASCII is in the class `\d`, asked of the regex crate itself. Claimed
/// only to answer `unicode_decimal_digit(c)`, a name for the answer.
#[verifier::external_body]
fn non_ascii_is_decimal_digit(c: char) -> (r: bool)
    requires
        !is_ascii(c),
    ensures
        r == unicode_decimal_digit(c),
{
    let mut buf = [0u8; 4];
    match regex::Regex::new(r"^\d$") {
        Ok(re) => re.is_match(c.encode_utf8(&mut buf)),
        Err(_) => false,
    }
}

/// `regex_syntax::is_word_character` (the class `\w` of the regex crate) on
/// a character outside ASCII: claimed only to answer `unicode_word_char(c)`,
/// a name for the answer.
#[verifier::external_body]
fn non_ascii_is_word(c: char) -> (r: bool)
    requires
        !is_ascii(c),
    ensures
        r == unicode_word_char(c),
{
    regex_syntax::is_word_character(c)
}

/// The character classes the line grammar scans for.
#[derive(Clone, Copy)]
pub enum CharClass {
    Space,
    Digit,
    Word,
}

pub open spec fn in_class(cls: CharClass, c: char) -> bool {
    match cls {
        CharClass::Space => is_space(c),
        CharClass::Digit => is_digit(c),
        CharClass::Word => is_word(c),
    }
}

/// Whether `c` belongs to `cls`.
pub fn char_in_class(cls: CharClass, c: char) -> (r: bool)
    ensures
        r == in_class(cls, c),
{
    let code = c as u32;
    match cls {
        CharClass::Space => (9 <= code && code <= 13) || code == 32 || code == 0x85 || code == 0xa0
            || code == 0x1680 || (0x2000 <= code && code <= 0x200a) || code == 0x2028 || code
            == 0x2029 || code == 0x202f || code == 0x205f || code == 0x3000,
        CharClass::Digit => if code < 128 {
            48 <= code && code <= 57
        } else {
            non_ascii_is_decimal_digit(c)
        },
        CharClass::Word => if code < 128 {
            (48 <= code && code <= 57) || (65 <= code && code <= 90) || (97 <= code && code <= 122)
                || code == 95
        } else {
            non_ascii_is_word(c)
        },
    }
}

// ---------------------------------------------------------------------------
// Runs of a class
// ---------------------------------------------------------------------------

/// Every character of `s[from..to]` is in `cls`.
pub open spec fn all_in(s: Seq<char>, from: int, to: int, cls: CharClass) -> bool {
    forall|j: int| from <= j < to ==> in_class(cls, #[trigger] s[j])
}

/// The end of the longest run of `cls` characters starting at `i`.
pub open spec fn span(s: Seq<char>, i: int, cls: CharClass) -> int
    decreases s.len() - i,
{
    if 0 <= i < s.len() && in_class(cls, s[i]) {
        span(s, i + 1, cls)
    } else {
        i
    }
}

/// The start of the longest run of `cls` characters ending just before `j`.
pub open spec fn rspan(s: Seq<char>, j: int, cls: CharClass) -> int
    decreases j,
{
    if 0 < j <= s.len() && in_class(cls, s[j - 1]) {
        rspan(s, j - 1, cls)
    } else {
        j
    }
}

pub proof fn lemma_span(s: Seq<char>, i: int, cls: CharClass)
    requires
        0 <= i <= s.len(),
    ensures
        i <= span(s, i, cls) <= s.len(),
        all_in(s, i, span(s, i, cls), cls),
        span(s, i, cls) < s.len() ==> !in_class(cls, s[span(s, i, cls)]),
    decreases s.len() - i,
{
    if i < s.len() && in_class(cls, s[i]) {
        lemma_span(s, i + 1, cls);
    }
}

pub proof fn lemma_rspan(s: Seq<char>, j: int, cls: CharClass)
    requires
        0 <= j <= s.len(),
    ensures
        0 <= rspan(s, j, cls) <= j,
        all_in(s, rspan(s, j, cls), j, cls),
        rspan(s, j, cls) > 0 ==> !in_class(cls, s[rspan(s, j, cls) - 1]),
    decreases j,
{
    if j > 0 && in_class(cls, s[j - 1]) {
        lemma_rspan(s, j - 1, cls);
    }
}

/// The end of the run of `cls` characters in `v` starting at `i`.
pub fn span_of(v: &Vec<char>, i: usize, cls: CharClass) -> (r: usize)
    requires
        i <= v@.len(),
    ensures
        r == span(v@, i as int, cls),
        i <= r <= v@.len(),
{
    proof {
        lemma_span(v@, i as int, cls);
    }
    let mut k = i;
    while k < v.len() && char_in_class(cls, v[k])
        invariant
            i <= k <= v@.len(),
            span(v@, k as int, cls) == span(v@, i as int, cls),
        decreases v@.len() - k,
    {
        k = k + 1;
    }
    k
}

/// The start of the run of `cls` characters in `v` ending just before `j`.
pub fn rspan_of(v: &Vec<char>, j: usize, cls: CharClass) -> (r: usize)
    requires
        j <= v@.len(),
    ensures
        r == rspan(v@, j as int, cls),
        r <= j,
{
    proof {
        lemma_rspan(v@, j as int, cls);
    }
    let mut k = j;
    while k > 0 && char_in_class(cls, v[k - 1])
        invariant
            k <= j <= v@.len(),
            rspan(v@, k as int, cls) == rspan(v@, j as int, cls),
        decreases k,
    {
        k = k - 1;
    }
    k
}

// ---------------------------------------------------------------------------
// Decimal numbers
// ---------------------------------------------------------------------------

pub open spec fn digit_value(c: char) -> nat {
    ((c as u32) - 48) as nat
}

/// The number that a sequence of ASCII digits spells in base ten.
pub open spec fn decimal_value(s: Seq<char>) -> nat
    decreases s.len(),
{
    if s.len() == 0 {
        0
    } else {
        decimal_value(s.drop_last()) * 10 + digit_value(s.last())
    }
}

/// What `str::parse::<usize>()` gives for a non-empty run of `\d`
/// characters: the number when every digit is ASCII and it fits in a
/// `usize`, nothing otherwise.
pub open spec fn parse_digits(s: Seq<char>) -> Option<usize> {
    if s.len() > 0 && (forall|j: int| 0 <= j < s.len() ==> is_ascii_digit(#[trigger] s[j]))
        && decimal_value(s) <= usize::MAX {
        Some(decimal_value(s) as usize)
    } else {
        None
    }
}

proof fn lemma_decimal_prefix_le(s: Seq<char>, k: int)
    requires
        0 <= k <= s.len(),
        forall|j: int| 0 <= j < s.len() ==> is_ascii_digit(#[trigger] s[j]),
    ensures
        decimal_value(s.take(k)) <= decimal_value(s),
    decreases s.len() - k,
{
    if k < s.len() {
        lemma_decimal_prefix_le(s, k + 1);
        assert(s.take(k + 1).drop_last() =~= s.take(k));
    } else {
        assert(s.take(k) =~= s);
    }
}

/// The decimal digits of `n`, as `usize`'s `Display` writes them.
pub open spec fn decimal(n: nat) -> Seq<char>
    decreases n,
{
    if n < 10 {
        seq![((n + 48) as u8) as char]
    } else {
        decimal(n / 10).push((((n % 10) + 48) as u8) as char)
    }
}

/// Appends the decimal digits of `n` to `s`.
pub fn append_decimal(s: &mut String, n: usize)
    ensures
        final(s)@ == old(s)@ + decimal(n as nat),
    decreases n,
{
    if n >= 10 {
        append_decimal(s, n / 10);
        push_char(s, (((n % 10) + 48) as u8) as char);
        assert(s@ =~= old(s)@ + decimal(n as nat));
    } else {
        push_char(s, ((n + 48) as u8) as char);
        assert(s@ =~= old(s)@ + decimal(n as nat));
    }
}

/// `str::parse::<usize>()` of the characters `v[from..to]`, a digit run.
pub fn parse_digit_run(v: &Vec<char>, from: usize, to: usize) -> (r: Option<usize>)
    requires
        from < to <= v@.len(),
    ensures
        r == parse_digits(v@.subrange(from as int, to as int)),
{
    let ghost d = v@.subrange(from as int, to as int);
    let mut acc: usize = 0;
    let mut i = from;
    while i < to
        invariant
            from <= i <= to <= v@.len(),
            d == v@.subrange(from as int, to as int),
            forall|j: int| from <= j < i ==> is_ascii_digit(#[trigger] v@[j]),
            acc == decimal_value(v@.subrange(from as int, i as int)),
        decreases to - i,
    {
        let code = v[i] as u32;
        if code < 48 || code > 57 {
            assert(!is_ascii_digit(d[i - from]));
            return None;
        }
        let dv: usize = (code - 48) as usize;
        assert(v@.subrange(from as int, i + 1).drop_last() =~= v@.subrange(from as int, i as int));
        if acc > (usize::MAX - dv) / 10 {
            proof {
                assert(acc * 10 + dv > usize::MAX) by (nonlinear_arith)
                    requires
                        acc > (usize::MAX - dv) / 10,
                        dv <= 9,
                ;
                assert(d.take(i + 1 - from) =~= v@.subrange(from as int, i + 1));
                if forall|j: int| 0 <= j < d.len() ==> is_ascii_digit(#[trigger] d[j]) {
                    lemma_decimal_prefix_le(d, i + 1 - from);
                }
            }
            return None;
        }
        acc = acc * 10 + dv;
        i = i + 1;
    }
    assert(d =~= v@.subrange(from as int, i as int));
    Some(acc)
}

// ---------------------------------------------------------------------------
// Lines
// ---------------------------------------------------------------------------

/// The first index at or after `i` that holds a line feed, or the length.
pub open spec fn newline_at_or_after(s: Seq<char>, i: int) -> int
    decreases s.len() - i,
{
    if i < 0 || i >= s.len() {
        s.len() as int
    } else if s[i] == '\n' {
        i
    } else {
        newline_at_or_after(s, i + 1)
    }
}

/// A line that ended in a line feed loses one carriage return before it.
pub open spec fn strip_cr(l: Seq<char>) -> Seq<char> {
    if l.len() > 0 && l.last() == '\r' {
        l.drop_last()
    } else {
        l
    }
}

/// The lines of `s[i..]` as `str::lines` yields them: split at each line
/// feed, a carriage return right before a line feed dropped with it, and no
/// empty last line after a final line feed.
pub open spec fn lines_from(s: Seq<char>, i: int) -> Seq<Seq<char>>
    decreases s.len() - i,
{
    if i < 0 || i >= s.len() {
        Seq::empty()
    } else {
        let j = newline_at_or_after(s, i);
        proof {
            lemma_newline_at_or_after(s, i);
        }
        if j >= s.len() {
            seq![s.subrange(i, s.len() as int)]
        } else {
            seq![strip_cr(s.subrange(i, j))] + lines_from(s, j + 1)
        }
    }
}

pub open spec fn lines(s: Seq<char>) -> Seq<Seq<char>> {
    lines_from(s, 0)
}

pub proof fn lemma_newline_at_or_after(s: Seq<char>, i: int)
    requires
        0 <= i <= s.len(),
    ensures
        i <= newline_at_or_after(s, i) <= s.len(),
        forall|k: int| i <= k < newline_at_or_after(s, i) ==> s[k] != '\n',
        newline_at_or_after(s, i) < s.len() ==> s[newline_at_or_after(s, i)] == '\n',
    decreases s.len() - i,
{
    if i < s.len() && s[i] != '\n' {
        lemma_newline_at_or_after(s, i + 1);
    }
}

/// No line contains a line feed.
pub proof fn lemma_lines_have_no_newline(s: Seq<char>, i: int)
    requires
        0 <= i <= s.len(),
    ensures
        forall|n: int, k: int|
            0 <= n < lines_from(s, i).len() && 0 <= k < lines_from(s, i)[n].len() ==> #[trigger] lines_from(s, i)[n][k] != '\n',
    decreases s.len() - i,
{
    if i < s.len() {
        let j = newline_at_or_after(s, i);
        lemma_newline_at_or_after(s, i);
        if j < s.len() {
            lemma_lines_have_no_newline(s, j + 1);
        }
        assert forall|n: int, k: int|
            0 <= n < lines_from(s, i).len() && 0 <= k < lines_from(s, i)[n].len() implies #[trigger] lines_from(s, i)[n][k] != '\n' by {
            if n > 0 {
                assert(lines_from(s, i)[n] == lines_from(s, j + 1)[n - 1]);
            } else {
                assert(lines_from(s, i)[0][k] == s[i + k]);
            }
        }
    }
}

proof fn lemma_newline_shift(p: Seq<char>, b: Seq<char>, j: int)
    requires
        0 <= j <= b.len(),
    ensures
        newline_at_or_after(p + b, p.len() + j) == p.len() + newline_at_or_after(b, j),
    decreases b.len() - j,
{
    if j < b.len() {
        assert((p + b)[p.len() + j] == b[j]);
        lemma_newline_shift(p, b, j + 1);
    }
}

proof fn lemma_lines_shift(p: Seq<char>, b: Seq<char>, j: int)
    requires
        0 <= j <= b.len(),
    ensures
        lines_from(p + b, p.len() + j) == lines_from(b, j),
    decreases b.len() - j,
{
    let c = p + b;
    if j < b.len() {
        lemma_newline_shift(p, b, j);
        lemma_newline_at_or_after(b, j);
        let k = newline_at_or_after(b, j);
        assert(c.subrange(p.len() + j, p.len() + k) =~= b.subrange(j, k));
        assert(c.subrange(p.len() + j, c.len() as int) =~= b.subrange(j, b.len() as int));
        if k < b.len() {
            lemma_lines_shift(p, b, k + 1);
        }
    }
}

proof fn lemma_lines_join_from(a: Seq<char>, b: Seq<char>, i: int)
    requires
        0 <= i < a.len(),
        a.last() != '\n',
        a.last() != '\r',
    ensures
        lines_from(a + seq!['\n'] + b, i) == lines_from(a, i) + lines(b),
    decreases a.len() - i,
{
    let p = a + seq!['\n'];
    let c = p + b;
    assert(a + seq!['\n'] + b == c);
    lemma_newline_at_or_after(a, i);
    let j = newline_at_or_after(a, i);
    // `c` agrees with `a` on `a`'s indices and holds the line feed after it.
    assert forall|k: int| 0 <= k < a.len() implies c[k] == a[k] by {}
    assert(c[a.len() as int] == '\n');
    lemma_newline_from_prefix(a, c, i);
    if j < a.len() {
        assert(a[a.len() - 1] == a.last());
        assert(j < a.len() - 1);
        assert(c.subrange(i, j) =~= a.subrange(i, j));
        lemma_lines_join_from(a, b, j + 1);
        assert(lines_from(a, i) == seq![strip_cr(a.subrange(i, j))] + lines_from(a, j + 1));
        assert(lines_from(c, i) == seq![strip_cr(c.subrange(i, j))] + lines_from(c, j + 1));
        assert(lines_from(c, i) =~= lines_from(a, i) + lines(b));
    } else {
        assert(c.subrange(i, a.len() as int) =~= a.subrange(i, a.len() as int));
        assert(a.subrange(i, a.len() as int).last() == a.last());
        assert(strip_cr(a.subrange(i, a.len() as int)) == a.subrange(i, a.len() as int));
        lemma_lines_shift(p, b, 0);
        assert(lines_from(c, i) =~= lines_from(a, i) + lines(b));
    }
}

proof fn lemma_newline_from_prefix(a: Seq<char>, c: Seq<char>, i: int)
    requires
        0 <= i <= a.len() < c.len(),
        forall|k: int| 0 <= k < a.len() ==> c[k] == a[k],
        c[a.len() as int] == '\n',
    ensures
        newline_at_or_after(c, i) == newline_at_or_after(a, i),
    decreases a.len() - i,
{
    if i < a.len() {
        lemma_newline_from_prefix(a, c, i + 1);
    }
}

proof fn lemma_lines_join_blank_from(a: Seq<char>, b: Seq<char>, i: int)
    requires
        0 <= i <= a.len(),
        a.len() == 0 || a.last() == '\n',
    ensures
        lines_from(a + seq!['\n'] + b, i) == lines_from(a, i) + seq![Seq::<char>::empty()] + lines(b),
    decreases a.len() - i,
{
    let p = a + seq!['\n'];
    let c = p + b;
    assert(a + seq!['\n'] + b == c);
    assert forall|k: int| 0 <= k < a.len() implies c[k] == a[k] by {}
    assert(c[a.len() as int] == '\n');
    lemma_newline_from_prefix(a, c, i);
    if i < a.len() {
        lemma_newline_at_or_after(a, i);
        let j = newline_at_or_after(a, i);
        assert(a[a.len() - 1] == a.last());
        assert(j < a.len());
        assert(c.subrange(i, j) =~= a.subrange(i, j));
        lemma_lines_join_blank_from(a, b, j + 1);
        assert(lines_from(a, i) == seq![strip_cr(a.subrange(i, j))] + lines_from(a, j + 1));
        assert(lines_from(c, i) == seq![strip_cr(c.subrange(i, j))] + lines_from(c, j + 1));
        assert(lines_from(c, i) =~= lines_from(a, i) + seq![Seq::<char>::empty()] + lines(b));
    } else {
        assert(newline_at_or_after(c, i) == i);
        assert(c.subrange(i, i) =~= Seq::<char>::empty());
        assert(strip_cr(Seq::<char>::empty()) =~= Seq::<char>::empty());
        lemma_lines_shift(p, b, 0);
        assert(lines_from(a, i) =~= Seq::<Seq<char>>::empty());
        assert(lines_from(c, i) =~= lines_from(a, i) + seq![Seq::<char>::empty()] + lines(b));
    }
}

/// The empty line that a line feed adds after an empty text or a text that
/// already ends in a line feed.
pub open spec fn blank_line_between(a: Seq<char>) -> Seq<Seq<char>> {
    if a.len() == 0 || a.last() == '\n' {
        seq![Seq::empty()]
    } else {
        Seq::empty()
    }
}

/// Joining two texts with a line feed joins their lines, with one empty
/// line between them when the first is empty or ends in a line feed; the
/// first must not end in a carriage return, which the line feed would strip.
pub proof fn lemma_lines_join(a: Seq<char>, b: Seq<char>)
    requires
        a.len() == 0 || a.last() != '\r',
    ensures
        lines(a + seq!['\n'] + b) == lines(a) + blank_line_between(a) + lines(b),
{
    if a.len() == 0 || a.last() == '\n' {
        lemma_lines_join_blank_from(a, b, 0);
    } else {
        lemma_lines_join_from(a, b, 0);
        assert(lines(a) + blank_line_between(a) =~= lines(a));
    }
}

/// Where the line that starts at `i` ends, and where the next one starts.
pub fn line_bounds(v: &Vec<char>, i: usize) -> (r: (usize, usize))
    requires
        i < v@.len(),
    ensures
        i <= r.0 <= r.1 <= v@.len(),
        r.1 > i,
        lines_from(v@, i as int) == seq![v@.subrange(i as int, r.0 as int)] + lines_from(v@, r.1 as int),
{
    proof {
        lemma_newline_at_or_after(v@, i as int);
    }
    let mut j = i;
    while j < v.len() && v[j] != '\n'
        invariant
            i <= j <= v@.len(),
            newline_at_or_after(v@, j as int) == newline_at_or_after(v@, i as int),
        decreases v@.len() - j,
    {
        j = j + 1;
    }
    if j == v.len() {
        assert(lines_from(v@, j as int) =~= Seq::<Seq<char>>::empty());
        assert(lines_from(v@, i as int) =~= seq![v@.subrange(i as int, j as int)] + lines_from(v@, j as int));
        (j, j)
    } else if j > i && v[j - 1] == '\r' {
        assert(strip_cr(v@.subrange(i as int, j as int)) =~= v@.subrange(i as int, j - 1));
        (j - 1, j + 1)
    } else {
        assert(strip_cr(v@.subrange(i as int, j as int)) =~= v@.subrange(i as int, j as int));
        (j, j + 1)
    }
}

// ---------------------------------------------------------------------------
// Trimming and case
// ---------------------------------------------------------------------------

/// What `str::trim` leaves of `s`: the characters between the leading and
/// the trailing white space.
pub open spec fn trim(s: Seq<char>) -> Seq<char> {
    let a = span(s, 0, CharClass::Space);
    let b = rspan(s, s.len() as int, CharClass::Space);
    if a < b {
        s.subrange(a, b)
    } else {
        Seq::empty()
    }
}

/// Only white space trims to nothing.
pub proof fn lemma_trim_empty(s: Seq<char>)
    ensures
        trim(s).len() == 0 <==> all_space(s),
{
    lemma_span(s, 0, CharClass::Space);
    lemma_rspan(s, s.len() as int, CharClass::Space);
    let a = span(s, 0, CharClass::Space);
    let b = rspan(s, s.len() as int, CharClass::Space);
    if a < b {
        assert(trim(s).len() == b - a);
        assert(!is_space(s[a]));
    } else if a < s.len() {
        assert(!is_space(s[a]));
        assert(b > a) by {
            if b <= a {
                assert(in_class(CharClass::Space, s[a]));
            }
        }
    } else {
        assert forall|k: int| 0 <= k < s.len() implies is_space(#[trigger] s[k]) by {
            assert(in_class(CharClass::Space, s[k]));
        }
    }
}

/// A run of white space holds no literal that has a character other than
/// white space.
pub proof fn lemma_space_lacks(s: Seq<char>, t: Seq<char>, k: int)
    requires
        all_space(s),
        0 <= k < t.len(),
        !is_space(t[k]),
    ensures
        !contains_seq(s, t),
{
    assert forall|i: int| !occurs_at(s, i, t) by {
        if occurs_at(s, i, t) {
            assert(s.subrange(i, i + t.len())[k] == s[i + k]);
        }
    }
}

/// The bounds of `trim(v)` within `v`.
pub fn trim_bounds(v: &Vec<char>) -> (r: (usize, usize))
    ensures
        r.0 <= r.1 <= v@.len(),
        v@.subrange(r.0 as int, r.1 as int) == trim(v@),
{
    let a = span_of(v, 0, CharClass::Space);
    let b = rspan_of(v, v.len(), CharClass::Space);
    if a < b {
        (a, b)
    } else {
        assert(v@.subrange(a as int, a as int) =~= Seq::<char>::empty());
        (a, a)
    }
}

/// What `str::to_lowercase` makes of a string.
pub uninterp spec fn lowercase(s: Seq<char>) -> Seq<char>;

/// Every character of `s` is white space.
pub open spec fn all_space(s: Seq<char>) -> bool {
    forall|k: int| 0 <= k < s.len() ==> is_space(#[trigger] s[k])
}

/// `str::to_lowercase`: claimed to answer `lowercase(s)`, a name for the
/// result, and to leave a string of white space alone (it maps each
/// character in turn, and white space has no lowercase form, so each maps
/// to itself); nothing else is stated of the mapping.
#[verifier::external_body]
pub fn to_lowercase(s: &str) -> (r: String)
    ensures
        r@ == lowercase(s@),
        all_space(s@) ==> r@ == s@,
{
    s.to_lowercase()
}

} // verus!
