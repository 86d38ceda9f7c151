//! The grammar of playlist lines: how the input splits into lines, and what each line holds.
//!
//! Each `*_at` spec function says what its grammar rule finds at a position of a line: the value
//! and the position just after it, or `None` where the rule does not match. The executable
//! function of the same rule returns exactly that.
use vstd::prelude::*;

use crate::attributes::{AttributeValue, Attributes, SpecAttributeValue};
use crate::m3u::{ExtInf, ParseError, ParseErrorKind, SpecExtInf, SpecParseError, SpecParseErrorKind};
use crate::text::{copy_range, is_digit, is_whitespace, is_ws, string_of_range, trim, trimmed};

verus! {

/// A class of characters that a run of characters is made of.
#[derive(Clone, Copy)]
pub enum Run {
    /// Spaces and tabs.
    Spaces,
    /// ASCII digits.
    Digits,
    /// ASCII letters and digits, `-`, `_` and `.`.
    KeyChars,
    /// Anything but whitespace and `,`.
    BareValue,
    /// Anything but `"`.
    NotQuote,
    /// Anything but `\n` and `\r`.
    NotLineBreak,
}

pub open spec fn is_key_char(c: char) -> bool {
    ||| 'a' <= c <= 'z'
    ||| 'A' <= c <= 'Z'
    ||| '0' <= c <= '9'
    ||| c == '-'
    ||| c == '_'
    ||| c == '.'
}

pub open spec fn in_run(c: char, run: Run) -> bool {
    match run {
        Run::Spaces => c == ' ' || c == '\t',
        Run::Digits => is_digit(c),
        Run::KeyChars => is_key_char(c),
        Run::BareValue => !is_ws(c) && c != ',',
        Run::NotQuote => c != '"',
        Run::NotLineBreak => c != '\n' && c != '\r',
    }
}

/// The end of the longest run of characters of class `run` that starts at `i`.
pub open spec fn run_end(l: Seq<char>, i: int, run: Run) -> int
    decreases l.len() - i,
{
    if 0 <= i < l.len() && in_run(l[i], run) {
        run_end(l, i + 1, run)
    } else {
        i
    }
}

pub proof fn lemma_run_end(l: Seq<char>, i: int, run: Run)
    requires
        0 <= i <= l.len(),
    ensures
        i <= run_end(l, i, run) <= l.len(),
        forall|k: int| i <= k < run_end(l, i, run) ==> in_run(#[trigger] l[k], run),
        run_end(l, i, run) < l.len() ==> !in_run(l[run_end(l, i, run)], run),
    decreases l.len() - i,
{
    if i < l.len() && in_run(l[i], run) {
        lemma_run_end(l, i + 1, run);
    }
}

/// `run_end` is the first position from `i` on whose character is not of the class, or the end.
pub proof fn lemma_run_end_at(l: Seq<char>, i: int, k: int, run: Run)
    requires
        0 <= i <= k <= l.len(),
        forall|m: int| i <= m < k ==> in_run(#[trigger] l[m], run),
        k == l.len() || !in_run(l[k], run),
    ensures
        run_end(l, i, run) == k,
    decreases k - i,
{
    if i < k {
        lemma_run_end_at(l, i + 1, k, run);
    }
}

fn in_run_exec(c: char, run: Run) -> (r: bool)
    ensures
        r == in_run(c, run),
{
    match run {
        Run::Spaces => c == ' ' || c == '\t',
        Run::Digits => '0' <= c && c <= '9',
        Run::KeyChars => ('a' <= c && c <= 'z') || ('A' <= c && c <= 'Z') || ('0' <= c && c <= '9')
            || c == '-' || c == '_' || c == '.',
        Run::BareValue => !is_whitespace(c) && c != ',',
        Run::NotQuote => c != '"',
        Run::NotLineBreak => c != '\n' && c != '\r',
    }
}

pub(crate) fn scan(l: &Vec<char>, i: usize, run: Run) -> (r: usize)
    requires
        i <= l.len(),
    ensures
        r == run_end(l@, i as int, run),
        i <= r <= l.len(),
{
    let mut j = i;
    while j < l.len() && in_run_exec(l[j], run)
        invariant
            i <= j <= l.len(),
            run_end(l@, i as int, run) == run_end(l@, j as int, run),
        decreases l.len() - j,
    {
        j += 1;
    }
    j
}

/// Whether `l` starts with `tag`.
pub open spec fn starts_with(l: Seq<char>, tag: Seq<char>) -> bool {
    tag.len() <= l.len() && l.subrange(0, tag.len() as int) == tag
}

fn has_prefix(l: &Vec<char>, tag: &[char]) -> (r: bool)
    ensures
        r == starts_with(l@, tag@),
{
    if tag.len() > l.len() {
        return false;
    }
    let mut i: usize = 0;
    while i < tag.len()
        invariant
            tag.len() <= l.len(),
            0 <= i <= tag.len(),
            forall|k: int| 0 <= k < i ==> l@[k] == tag@[k],
        decreases tag.len() - i,
    {
        if l[i] != tag[i] {
            assert(l@.subrange(0, tag.len() as int)[i as int] != tag@[i as int]);
            return false;
        }
        i += 1;
    }
    assert(l@.subrange(0, tag.len() as int) =~= tag@);
    true
}

// ---------------------------------------------------------------------------------------------
// Lines of the input.
/// One line from position `i`: the text up to a `\n` or `\r\n`, which the line takes with it;
/// or, where the text stops at the end of the input or at a `\r` that no `\n` follows, the text
/// alone if it is not empty.
pub open spec fn raw_line_at(s: Seq<char>, i: int) -> Option<(Seq<char>, int)> {
    let e = run_end(s, i, Run::NotLineBreak);
    if e < s.len() && s[e] == '\n' {
        Some((s.subrange(i, e), e + 1))
    } else if e + 1 < s.len() && s[e] == '\r' && s[e + 1] == '\n' {
        Some((s.subrange(i, e), e + 2))
    } else if e > i {
        Some((s.subrange(i, e), e))
    } else {
        None
    }
}

pub proof fn lemma_raw_line_at(s: Seq<char>, i: int)
    requires
        0 <= i <= s.len(),
    ensures
        raw_line_at(s, i) matches Some((_, next)) ==> i < next <= s.len(),
{
    lemma_run_end(s, i, Run::NotLineBreak);
}

/// How the input splits into lines from position `i`: lines one after the other for as long as
/// there is one, which must take the input to its end (`None` where they do not).
pub open spec fn raw_lines_from(s: Seq<char>, i: int) -> Option<Seq<Seq<char>>>
    decreases s.len() - i,
{
    if i < 0 || i >= s.len() {
        Some(seq![])
    } else {
        proof {
            lemma_raw_line_at(s, i);
        }
        match raw_line_at(s, i) {
            Some((line, next)) => match raw_lines_from(s, next) {
                Some(rest) => Some(seq![line] + rest),
                None => None,
            },
            None => None,
        }
    }
}

/// The lines of the whole input.
pub open spec fn raw_lines(s: Seq<char>) -> Option<Seq<Seq<char>>> {
    raw_lines_from(s, 0)
}

/// The line at position `i` is the line at the start of the input's suffix from `i`.
proof fn lemma_raw_line_suffix(s: Seq<char>, i: int)
    requires
        0 <= i <= s.len(),
    ensures
        raw_line_at(s.subrange(i, s.len() as int), 0) == match raw_line_at(s, i) {
            Some((line, next)) => Some((line, next - i)),
            None => None,
        },
{
    let t = s.subrange(i, s.len() as int);
    let e = run_end(s, i, Run::NotLineBreak);
    lemma_run_end(s, i, Run::NotLineBreak);
    assert forall|m: int| 0 <= m < e - i implies in_run(#[trigger] t[m], Run::NotLineBreak) by {
        assert(t[m] == s[i + m]);
    }
    if e < s.len() {
        assert(t[e - i] == s[e]);
    }
    if e + 1 < s.len() {
        assert(t[e - i + 1] == s[e + 1]);
    }
    lemma_run_end_at(t, 0, e - i, Run::NotLineBreak);
    assert(t.subrange(0, e - i) =~= s.subrange(i, e));
}

/// The lines from position `i` are the lines of the input's suffix from `i`.
pub proof fn lemma_raw_lines_suffix(s: Seq<char>, i: int)
    requires
        0 <= i <= s.len(),
    ensures
        raw_lines_from(s, i) == raw_lines(s.subrange(i, s.len() as int)),
    decreases s.len() - i,
{
    let t = s.subrange(i, s.len() as int);
    if i < s.len() {
        lemma_raw_line_suffix(s, i);
        lemma_raw_line_at(s, i);
        if let Some((_, next)) = raw_line_at(s, i) {
            lemma_raw_lines_suffix(s, next);
            lemma_raw_lines_suffix(t, next - i);
            assert(t.subrange(next - i, t.len() as int) =~= s.subrange(next, s.len() as int));
        }
    }
}

pub open spec fn chars_views(lines: Seq<Vec<char>>) -> Seq<Seq<char>> {
    lines.map_values(|line: Vec<char>| line@)
}

/// One line from position `i`, and the position after it.
fn raw_line(s: &Vec<char>, i: usize) -> (r: Option<(Vec<char>, usize)>)
    requires
        i <= s.len(),
    ensures
        match r {
            Some((line, next)) => raw_line_at(s@, i as int) == Some((line@, next as int)),
            None => raw_line_at(s@, i as int) is None,
        },
{
    let e = scan(s, i, Run::NotLineBreak);
    if e < s.len() && s[e] == '\n' {
        Some((copy_range(s, i, e), e + 1))
    } else if e < s.len() && s[e] == '\r' && e + 1 < s.len() && s[e + 1] == '\n' {
        Some((copy_range(s, i, e), e + 2))
    } else if e > i {
        Some((copy_range(s, i, e), e))
    } else {
        None
    }
}

/// Splits the input into its lines.
pub(crate) fn parse_lines(s: &Vec<char>) -> (r: Option<Vec<Vec<char>>>)
    ensures
        match r {
            Some(lines) => raw_lines(s@) == Some(chars_views(lines@)),
            None => raw_lines(s@) is None,
        },
{
    let mut lines: Vec<Vec<char>> = Vec::new();
    let mut i: usize = 0;
    let n = s.len();
    while i < n
        invariant
            n == s.len(),
            i <= n,
            raw_lines(s@) == match raw_lines_from(s@, i as int) {
                Some(rest) => Some(chars_views(lines@) + rest),
                None => None,
            },
        decreases n - i,
    {
        proof {
            lemma_raw_line_at(s@, i as int);
        }
        match raw_line(s, i) {
            Some((line, next)) => {
                let ghost before = chars_views(lines@);
                lines.push(line);
                assert(chars_views(lines@) =~= before + seq![line@]);
                proof {
                    if let Some(rest) = raw_lines_from(s@, next as int) {
                        assert(before + (seq![line@] + rest) =~= chars_views(lines@) + rest);
                    }
                }
                i = next;
            },
            None => {
                return None;
            },
        }
    }
    assert(chars_views(lines@) + seq![] =~= chars_views(lines@));
    Some(lines)
}

/// A line without one leading byte order mark and without surrounding whitespace.
pub open spec fn clean_line(raw: Seq<char>) -> Seq<char> {
    if raw.len() > 0 && raw[0] == '\u{feff}' {
        trim(raw.drop_first())
    } else {
        trim(raw)
    }
}

pub(crate) fn clean(raw: &Vec<char>) -> (r: Vec<char>)
    ensures
        r@ == clean_line(raw@),
{
    if raw.len() > 0 && raw[0] == '\u{feff}' {
        assert(raw@.subrange(1, raw.len() as int) =~= raw@.drop_first());
        trimmed(raw, 1)
    } else {
        assert(raw@.subrange(0, raw.len() as int) =~= raw@);
        trimmed(raw, 0)
    }
}

// ---------------------------------------------------------------------------------------------
// Attributes: `key=value` pairs, each after one or more spaces or tabs.
/// A value between double quotes; the closing quote is required.
pub open spec fn quoted_value_at(l: Seq<char>, i: int) -> Option<(SpecAttributeValue, int)> {
    if 0 <= i < l.len() && l[i] == '"' {
        let e = run_end(l, i + 1, Run::NotQuote);
        if e < l.len() {
            Some((SpecAttributeValue::Quoted(l.subrange(i + 1, e)), e + 1))
        } else {
            None
        }
    } else {
        None
    }
}

/// One or more characters up to whitespace or `,`.
pub open spec fn unquoted_value_at(l: Seq<char>, i: int) -> Option<(SpecAttributeValue, int)> {
    let e = run_end(l, i, Run::BareValue);
    if e > i {
        Some((SpecAttributeValue::Unquoted(l.subrange(i, e)), e))
    } else {
        None
    }
}

/// A quoted value, or else an unquoted one.
pub open spec fn attribute_value_at(l: Seq<char>, i: int) -> Option<(SpecAttributeValue, int)> {
    match quoted_value_at(l, i) {
        Some(r) => Some(r),
        None => unquoted_value_at(l, i),
    }
}

/// A key of one or more key characters, `=`, and a value.
pub open spec fn attribute_pair_at(l: Seq<char>, i: int) -> Option<
    (Seq<char>, SpecAttributeValue, int),
> {
    let k = run_end(l, i, Run::KeyChars);
    if k > i && k < l.len() && l[k] == '=' {
        match attribute_value_at(l, k + 1) {
            Some((v, e)) => Some((l.subrange(i, k), v, e)),
            None => None,
        }
    } else {
        None
    }
}

pub proof fn lemma_attribute_pair_at(l: Seq<char>, i: int)
    requires
        0 <= i <= l.len(),
    ensures
        attribute_pair_at(l, i) matches Some((_, _, e)) ==> i < e <= l.len(),
{
    lemma_run_end(l, i, Run::KeyChars);
    let k = run_end(l, i, Run::KeyChars);
    if k > i && k < l.len() && l[k] == '=' {
        lemma_run_end(l, k + 1, Run::BareValue);
        if k + 1 < l.len() {
            lemma_run_end(l, k + 2, Run::NotQuote);
        }
    }
}

/// The attributes from position `i` on, each preceded by spaces or tabs, added to `acc` in
/// order (a later value of a key replaces an earlier one), and the position after the last.
pub open spec fn spaced_attributes_at(
    l: Seq<char>,
    i: int,
    acc: Map<Seq<char>, SpecAttributeValue>,
) -> (Map<Seq<char>, SpecAttributeValue>, int)
    decreases l.len() - i,
{
    let s = run_end(l, i, Run::Spaces);
    if 0 <= i && s > i {
        proof {
            lemma_run_end(l, i, Run::Spaces);
            lemma_attribute_pair_at(l, s);
        }
        match attribute_pair_at(l, s) {
            Some((k, v, e)) => spaced_attributes_at(l, e, acc.insert(k, v)),
            None => (acc, i),
        }
    } else {
        (acc, i)
    }
}

/// A key as attributes have it: one or more key characters.
pub open spec fn is_key(k: Seq<char>) -> bool {
    k.len() > 0 && forall|m: int| 0 <= m < k.len() ==> is_key_char(#[trigger] k[m])
}

proof fn lemma_spaced_attributes_acc(l: Seq<char>, i: int, acc: Map<Seq<char>, SpecAttributeValue>)
    requires
        0 <= i <= l.len(),
    ensures
        ({
            let (m, e) = spaced_attributes_at(l, i, acc);
            &&& i <= e <= l.len()
            &&& e == i ==> m == acc
            &&& e > i ==> exists|k: Seq<char>| #[trigger] m.contains_key(k) && is_key(k)
            &&& forall|k: Seq<char>| #[trigger] acc.contains_key(k) ==> m.contains_key(k)
            &&& forall|k: Seq<char>| #[trigger] m.contains_key(k) ==> acc.contains_key(k) || is_key(k)
        }),
    decreases l.len() - i,
{
    let s = run_end(l, i, Run::Spaces);
    lemma_run_end(l, i, Run::Spaces);
    if s > i {
        lemma_attribute_pair_at(l, s);
        if let Some((k, v, e1)) = attribute_pair_at(l, s) {
            let kend = run_end(l, s, Run::KeyChars);
            lemma_run_end(l, s, Run::KeyChars);
            assert(k == l.subrange(s, kend));
            assert forall|m: int| 0 <= m < k.len() implies is_key_char(#[trigger] k[m]) by {
                assert(k[m] == l[s + m]);
                assert(in_run(l[s + m], Run::KeyChars));
            }
            let next = acc.insert(k, v);
            lemma_spaced_attributes_acc(l, e1, next);
            let (m, e) = spaced_attributes_at(l, e1, next);
            assert(next.contains_key(k));
            assert(m.contains_key(k) && is_key(k));
            assert forall|x: Seq<char>| #[trigger] acc.contains_key(x) implies m.contains_key(x) by {
                assert(next.contains_key(x));
            }
            assert forall|x: Seq<char>| #[trigger] m.contains_key(x) implies acc.contains_key(x)
                || is_key(x) by {
                if next.contains_key(x) && x != k {
                    assert(acc.contains_key(x));
                }
            }
        }
    }
}

/// The attributes of a line never fail to parse: they end at or after where they start and
/// within the line, they are empty exactly when no attribute was read, and each key is one or
/// more key characters.
pub proof fn lemma_spaced_attributes(l: Seq<char>, i: int)
    requires
        0 <= i <= l.len(),
    ensures
        ({
            let (m, e) = spaced_attributes_at(l, i, Map::empty());
            &&& i <= e <= l.len()
            &&& (m == Map::<Seq<char>, SpecAttributeValue>::empty()) == (e == i)
            &&& forall|k: Seq<char>| #[trigger] m.contains_key(k) ==> is_key(k)
        }),
{
    lemma_spaced_attributes_acc(l, i, Map::empty());
    let (m, e) = spaced_attributes_at(l, i, Map::empty());
    if e > i {
        let k = choose|k: Seq<char>| #[trigger] m.contains_key(k) && is_key(k);
        assert(!Map::<Seq<char>, SpecAttributeValue>::empty().contains_key(k));
    }
}

fn quoted_value(l: &Vec<char>, i: usize) -> (r: Option<(AttributeValue, usize)>)
    requires
        i <= l.len(),
    ensures
        match r {
            Some((v, e)) => quoted_value_at(l@, i as int) == Some((v@, e as int)),
            None => quoted_value_at(l@, i as int) is None,
        },
{
    if i < l.len() && l[i] == '"' {
        let e = scan(l, i + 1, Run::NotQuote);
        if e < l.len() {
            return Some((AttributeValue::Quoted(string_of_range(l, i + 1, e)), e + 1));
        }
    }
    None
}

fn unquoted_value(l: &Vec<char>, i: usize) -> (r: Option<(AttributeValue, usize)>)
    requires
        i <= l.len(),
    ensures
        match r {
            Some((v, e)) => unquoted_value_at(l@, i as int) == Some((v@, e as int)),
            None => unquoted_value_at(l@, i as int) is None,
        },
{
    let e = scan(l, i, Run::BareValue);
    if e > i {
        Some((AttributeValue::Unquoted(string_of_range(l, i, e)), e))
    } else {
        None
    }
}

fn attribute_pair(l: &Vec<char>, i: usize) -> (r: Option<(String, AttributeValue, usize)>)
    requires
        i <= l.len(),
    ensures
        match r {
            Some((k, v, e)) => attribute_pair_at(l@, i as int) == Some((k@, v@, e as int)),
            None => attribute_pair_at(l@, i as int) is None,
        },
{
    let k = scan(l, i, Run::KeyChars);
    if k > i && k < l.len() && l[k] == '=' {
        let value = match quoted_value(l, k + 1) {
            Some(r) => Some(r),
            None => unquoted_value(l, k + 1),
        };
        match value {
            Some((v, e)) => Some((string_of_range(l, i, k), v, e)),
            None => None,
        }
    } else {
        None
    }
}

fn spaced_attributes(l: &Vec<char>, i: usize) -> (r: (Attributes, usize))
    requires
        i <= l.len(),
    ensures
        spaced_attributes_at(l@, i as int, Map::empty()) == (r.0@, r.1 as int),
        i <= r.1 <= l.len(),
{
    let mut attributes = Attributes::new();
    let mut pos = i;
    loop
        invariant
            i <= pos <= l.len(),
            spaced_attributes_at(l@, i as int, Map::empty()) == spaced_attributes_at(
                l@,
                pos as int,
                attributes@,
            ),
        decreases l.len() - pos,
    {
        let s = scan(l, pos, Run::Spaces);
        if s == pos {
            return (attributes, pos);
        }
        match attribute_pair(l, s) {
            Some((key, value, e)) => {
                proof {
                    lemma_attribute_pair_at(l@, s as int);
                }
                attributes.insert(key, value);
                pos = e;
            },
            None => {
                return (attributes, pos);
            },
        }
    }
}

// ---------------------------------------------------------------------------------------------
// `#EXTINF` lines.
/// A decimal number: an optional sign, digits, and an optional `.` followed by digits. The
/// result is its text.
pub open spec fn signed_float_at(l: Seq<char>, i: int) -> Option<(Seq<char>, int)> {
    let j = if 0 <= i < l.len() && (l[i] == '+' || l[i] == '-') {
        i + 1
    } else {
        i
    };
    let d = run_end(l, j, Run::Digits);
    if d == j {
        None
    } else {
        let f = run_end(l, d + 1, Run::Digits);
        let e = if d < l.len() && l[d] == '.' && f > d + 1 {
            f
        } else {
            d
        };
        Some((l.subrange(i, e), e))
    }
}

fn signed_float(l: &Vec<char>, i: usize) -> (r: Option<(String, usize)>)
    requires
        i <= l.len(),
    ensures
        match r {
            Some((d, e)) => signed_float_at(l@, i as int) == Some((d@, e as int)) && i < e <= l.len(),
            None => signed_float_at(l@, i as int) is None,
        },
{
    let j = if i < l.len() && (l[i] == '+' || l[i] == '-') {
        i + 1
    } else {
        i
    };
    let d = scan(l, j, Run::Digits);
    if d == j {
        return None;
    }
    let mut e = d;
    if d < l.len() && l[d] == '.' {
        let f = scan(l, d + 1, Run::Digits);
        if f > d + 1 {
            e = f;
        }
    } else {
        proof {
            if d + 1 <= l.len() {
                lemma_run_end(l@, d + 1, Run::Digits);
            }
        }
    }
    Some((string_of_range(l, i, e), e))
}

/// What follows `#EXTINF:`: spaces, a duration, attributes, spaces, and an optional title after
/// a `,` that takes the rest of the line.
pub open spec fn extinf_payload_at(l: Seq<char>, i: int) -> Option<(SpecExtInf, int)> {
    let p = run_end(l, i, Run::Spaces);
    match signed_float_at(l, p) {
        None => None,
        Some((duration, a)) => {
            let (attributes, b) = spaced_attributes_at(l, a, Map::empty());
            let c = run_end(l, b, Run::Spaces);
            if 0 <= c < l.len() && l[c] == ',' {
                let title = trim(l.subrange(c + 1, l.len() as int));
                Some(
                    (
                        SpecExtInf {
                            duration,
                            title: if title.len() == 0 {
                                None
                            } else {
                                Some(title)
                            },
                            attributes,
                        },
                        l.len() as int,
                    ),
                )
            } else {
                Some((SpecExtInf { duration, title: None, attributes }, c))
            }
        },
    }
}

fn extinf_payload(l: &Vec<char>, i: usize) -> (r: Option<(ExtInf, usize)>)
    requires
        i <= l.len(),
    ensures
        match r {
            Some((info, e)) => extinf_payload_at(l@, i as int) == Some((info@, e as int)),
            None => extinf_payload_at(l@, i as int) is None,
        },
{
    let p = scan(l, i, Run::Spaces);
    let (duration, a) = match signed_float(l, p) {
        Some(r) => r,
        None => {
            return None;
        },
    };
    let (attributes, b) = spaced_attributes(l, a);
    let c = scan(l, b, Run::Spaces);
    if c < l.len() && l[c] == ',' {
        let title = trimmed(l, c + 1);
        let title = if title.len() == 0 {
            None
        } else {
            Some(crate::text::string_of(&title))
        };
        Some((ExtInf { duration, title, attributes }, l.len()))
    } else {
        Some((ExtInf { duration, title: None, attributes }, c))
    }
}

// ---------------------------------------------------------------------------------------------
// Kinds of lines.
/// The model of a playlist line.
pub enum SpecLine {
    Header(Map<Seq<char>, SpecAttributeValue>),
    PlaylistTitle(Seq<char>),
    ExtInf(SpecExtInf),
    ExtGrp(Seq<char>),
    Comment,
    Location(Seq<char>),
}

/// What a non-blank playlist line holds.
pub enum PlaylistLine {
    Header(Attributes),
    PlaylistTitle(String),
    ExtInf(ExtInf),
    ExtGrp(String),
    Comment,
    Location(String),
}

impl View for PlaylistLine {
    type V = SpecLine;

    open spec fn view(&self) -> SpecLine {
        match self {
            PlaylistLine::Header(a) => SpecLine::Header(a@),
            PlaylistLine::PlaylistTitle(t) => SpecLine::PlaylistTitle(t@),
            PlaylistLine::ExtInf(info) => SpecLine::ExtInf(info@),
            PlaylistLine::ExtGrp(g) => SpecLine::ExtGrp(g@),
            PlaylistLine::Comment => SpecLine::Comment,
            PlaylistLine::Location(l) => SpecLine::Location(l@),
        }
    }
}

pub open spec fn extm3u_tag() -> Seq<char> {
    seq!['#', 'E', 'X', 'T', 'M', '3', 'U']
}

pub open spec fn playlist_tag() -> Seq<char> {
    seq!['#', 'P', 'L', 'A', 'Y', 'L', 'I', 'S', 'T', ':']
}

pub open spec fn extinf_tag() -> Seq<char> {
    seq!['#', 'E', 'X', 'T', 'I', 'N', 'F', ':']
}

pub open spec fn extgrp_tag() -> Seq<char> {
    seq!['#', 'E', 'X', 'T', 'G', 'R', 'P', ':']
}

/// `#EXTM3U`, attributes, and spaces.
pub open spec fn header_line_at(l: Seq<char>) -> Option<(SpecLine, int)> {
    if starts_with(l, extm3u_tag()) {
        let (attributes, b) = spaced_attributes_at(l, 7, Map::empty());
        Some((SpecLine::Header(attributes), run_end(l, b, Run::Spaces)))
    } else {
        None
    }
}

/// `#PLAYLIST:` and a title that takes the rest of the line.
pub open spec fn playlist_title_line_at(l: Seq<char>) -> Option<(SpecLine, int)> {
    if starts_with(l, playlist_tag()) {
        Some((SpecLine::PlaylistTitle(trim(l.subrange(10, l.len() as int))), l.len() as int))
    } else {
        None
    }
}

/// `#EXTINF:` and its payload.
pub open spec fn extinf_line_at(l: Seq<char>) -> Option<(SpecLine, int)> {
    if starts_with(l, extinf_tag()) {
        match extinf_payload_at(l, 8) {
            Some((info, e)) => Some((SpecLine::ExtInf(info), e)),
            None => None,
        }
    } else {
        None
    }
}

/// `#EXTGRP:` and a group name that takes the rest of the line.
pub open spec fn extgrp_line_at(l: Seq<char>) -> Option<(SpecLine, int)> {
    if starts_with(l, extgrp_tag()) {
        Some((SpecLine::ExtGrp(trim(l.subrange(8, l.len() as int))), l.len() as int))
    } else {
        None
    }
}

/// Any other line that starts with `#`.
pub open spec fn comment_line_at(l: Seq<char>) -> Option<(SpecLine, int)> {
    if l.len() > 0 && l[0] == '#' {
        Some((SpecLine::Comment, l.len() as int))
    } else {
        None
    }
}

/// A line that is not blank and does not start with `#`: the location of an entry.
pub open spec fn location_line_at(l: Seq<char>) -> Option<(SpecLine, int)> {
    if trim(l).len() > 0 && !(l.len() > 0 && l[0] == '#') {
        Some((SpecLine::Location(trim(l)), l.len() as int))
    } else {
        None
    }
}

/// The first kind of line that matches, in the order header, playlist title, `#EXTINF`,
/// `#EXTGRP`, comment, location.
pub open spec fn first_line_kind_at(l: Seq<char>) -> Option<(SpecLine, int)> {
    if header_line_at(l) is Some {
        header_line_at(l)
    } else if playlist_title_line_at(l) is Some {
        playlist_title_line_at(l)
    } else if extinf_line_at(l) is Some {
        extinf_line_at(l)
    } else if extgrp_line_at(l) is Some {
        extgrp_line_at(l)
    } else if comment_line_at(l) is Some {
        comment_line_at(l)
    } else {
        location_line_at(l)
    }
}

/// What line `l` holds: the first kind of line that matches, where it takes the whole line.
pub open spec fn playlist_line(l: Seq<char>) -> Option<SpecLine> {
    match first_line_kind_at(l) {
        Some((line, e)) => if e == l.len() {
            Some(line)
        } else {
            None
        },
        None => None,
    }
}

fn header_line(l: &Vec<char>) -> (r: Option<(PlaylistLine, usize)>)
    ensures
        match r {
            Some((line, e)) => header_line_at(l@) == Some((line@, e as int)),
            None => header_line_at(l@) is None,
        },
{
    let tag: &[char] = &['#', 'E', 'X', 'T', 'M', '3', 'U'];
    assert(tag@ == extm3u_tag());
    if has_prefix(l, tag) {
        let (attributes, b) = spaced_attributes(l, 7);
        let e = scan(l, b, Run::Spaces);
        Some((PlaylistLine::Header(attributes), e))
    } else {
        None
    }
}

fn playlist_title_line(l: &Vec<char>) -> (r: Option<(PlaylistLine, usize)>)
    ensures
        match r {
            Some((line, e)) => playlist_title_line_at(l@) == Some((line@, e as int)),
            None => playlist_title_line_at(l@) is None,
        },
{
    let tag: &[char] = &['#', 'P', 'L', 'A', 'Y', 'L', 'I', 'S', 'T', ':'];
    assert(tag@ == playlist_tag());
    if has_prefix(l, tag) {
        let title = trimmed(l, 10);
        Some((PlaylistLine::PlaylistTitle(crate::text::string_of(&title)), l.len()))
    } else {
        None
    }
}

fn extinf_line(l: &Vec<char>) -> (r: Option<(PlaylistLine, usize)>)
    ensures
        match r {
            Some((line, e)) => extinf_line_at(l@) == Some((line@, e as int)),
            None => extinf_line_at(l@) is None,
        },
{
    let tag: &[char] = &['#', 'E', 'X', 'T', 'I', 'N', 'F', ':'];
    assert(tag@ == extinf_tag());
    if has_prefix(l, tag) {
        match extinf_payload(l, 8) {
            Some((info, e)) => Some((PlaylistLine::ExtInf(info), e)),
            None => None,
        }
    } else {
        None
    }
}

fn extgrp_line(l: &Vec<char>) -> (r: Option<(PlaylistLine, usize)>)
    ensures
        match r {
            Some((line, e)) => extgrp_line_at(l@) == Some((line@, e as int)),
            None => extgrp_line_at(l@) is None,
        },
{
    let tag: &[char] = &['#', 'E', 'X', 'T', 'G', 'R', 'P', ':'];
    assert(tag@ == extgrp_tag());
    if has_prefix(l, tag) {
        let group = trimmed(l, 8);
        Some((PlaylistLine::ExtGrp(crate::text::string_of(&group)), l.len()))
    } else {
        None
    }
}

fn comment_line(l: &Vec<char>) -> (r: Option<(PlaylistLine, usize)>)
    ensures
        match r {
            Some((line, e)) => comment_line_at(l@) == Some((line@, e as int)),
            None => comment_line_at(l@) is None,
        },
{
    if l.len() > 0 && l[0] == '#' {
        Some((PlaylistLine::Comment, l.len()))
    } else {
        None
    }
}

fn location_line(l: &Vec<char>) -> (r: Option<(PlaylistLine, usize)>)
    ensures
        match r {
            Some((line, e)) => location_line_at(l@) == Some((line@, e as int)),
            None => location_line_at(l@) is None,
        },
{
    let location = trimmed(l, 0);
    assert(l@.subrange(0, l.len() as int) =~= l@);
    if location.len() > 0 && !(l.len() > 0 && l[0] == '#') {
        Some((PlaylistLine::Location(crate::text::string_of(&location)), l.len()))
    } else {
        None
    }
}

/// What line `l` holds; an error for a line that no kind of line takes whole.
pub(crate) fn parse_playlist_line(l: &Vec<char>) -> (r: Result<PlaylistLine, ParseError>)
    ensures
        match r {
            Ok(line) => playlist_line(l@) == Some(line@),
            Err(e) => playlist_line(l@) is None && e@ == (SpecParseError {
                line: None,
                kind: SpecParseErrorKind::InvalidLine(l@),
            }),
        },
{
    let found = match header_line(l) {
        Some(r) => Some(r),
        None => match playlist_title_line(l) {
            Some(r) => Some(r),
            None => match extinf_line(l) {
                Some(r) => Some(r),
                None => match extgrp_line(l) {
                    Some(r) => Some(r),
                    None => match comment_line(l) {
                        Some(r) => Some(r),
                        None => location_line(l),
                    },
                },
            },
        },
    };
    match found {
        Some((line, e)) => {
            if e == l.len() {
                return Ok(line);
            }
        },
        None => {},
    }
    Err(ParseError { line: None, kind: ParseErrorKind::InvalidLine(crate::text::string_of(l)) })
}

} // verus!
