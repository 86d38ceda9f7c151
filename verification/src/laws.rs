//! Properties that hold of every playlist the parser accepts.
use vstd::prelude::*;

use crate::attributes::SpecAttributeValue;
use crate::grammar::{
    clean_line, extgrp_tag, extinf_tag, extm3u_tag, in_run, lemma_raw_line_at,
    lemma_raw_lines_suffix, lemma_run_end, lemma_run_end_at, playlist_line, playlist_tag,
    attribute_value_at, quoted_value_at, raw_line_at, raw_lines, raw_lines_from, run_end,
    signed_float_at, spaced_attributes_at,
    is_key, is_key_char, attribute_pair_at, starts_with, Run, SpecLine,
};
use crate::m3u::{
    entry_group, lower_ascii, new_entry, parsed, says_yes, run_lines, step, ParseState, SpecEntry, SpecExtInf,
    SpecParseError, SpecParseErrorKind, SpecPlaylist,
};
use crate::text::{
    all_digits, ascii_lower, decimal, digit_char, digit_value, digits_value, is_digit, is_ws, lemma_trim_ends,
    lemma_trim_idempotent, parse_u32, trim,
};

verus! {

/// A well-formed location: not empty, without whitespace at either end, and not starting
/// with `#`.
pub open spec fn location_well_formed(location: Seq<char>) -> bool {
    &&& location.len() > 0
    &&& !is_ws(location[0])
    &&& !is_ws(location.last())
    &&& location[0] != '#'
}

/// Whether `d` is decimal text whose integer digits end at `k`: an optional sign, digits up
/// to `k`, and then either nothing or `.` and one or more digits.
pub open spec fn decimal_text_at(d: Seq<char>, k: int) -> bool {
    let j: int = if d.len() > 0 && (d[0] == '+' || d[0] == '-') {
        1
    } else {
        0
    };
    &&& j < k <= d.len()
    &&& forall|m: int| j <= m < k ==> is_digit(#[trigger] d[m])
    &&& k == d.len() || (d[k] == '.' && k + 1 < d.len() && forall|m: int|
        k < m < d.len() ==> is_digit(#[trigger] d[m]))
}

/// Decimal text as an `#EXTINF` duration has it: an optional sign, one or more digits, and
/// optionally `.` and one or more digits.
pub open spec fn is_decimal_text(d: Seq<char>) -> bool {
    exists|k: int| decimal_text_at(d, k)
}

/// A title as an entry has it: not empty, and without whitespace at either end.
pub open spec fn title_well_formed(t: Seq<char>) -> bool {
    t.len() > 0 && !is_ws(t[0]) && !is_ws(t.last())
}

pub open spec fn extinf_well_formed(info: SpecExtInf) -> bool {
    &&& is_decimal_text(info.duration)
    &&& info.title matches Some(t) ==> title_well_formed(t)
}

/// A well-formed entry: a well-formed location; a duration, where there is one, in decimal
/// text; a title, where there is one, not empty and trimmed; and no title or attributes
/// without a duration (that is, without an `#EXTINF` line).
pub open spec fn entry_well_formed(e: SpecEntry) -> bool {
    &&& location_well_formed(e.location)
    &&& e.duration matches Some(d) ==> is_decimal_text(d)
    &&& e.title matches Some(t) ==> title_well_formed(t)
    &&& e.duration is None ==> e.title is None && e.attributes == Map::<
        Seq<char>,
        SpecAttributeValue,
    >::empty()
}

pub open spec fn entries_well_formed(entries: Seq<SpecEntry>) -> bool {
    forall|i: int| 0 <= i < entries.len() ==> entry_well_formed(#[trigger] entries[i])
}

pub open spec fn state_well_formed(st: ParseState) -> bool {
    &&& entries_well_formed(st.playlist.entries)
    &&& st.pending matches Some((_, info)) ==> extinf_well_formed(info)
    &&& st.playlist.title matches Some(t) ==> trim(t) == t
}

proof fn lemma_signed_float_text(l: Seq<char>, i: int)
    requires
        0 <= i <= l.len(),
    ensures
        signed_float_at(l, i) matches Some((d, _)) ==> is_decimal_text(d),
{
    if let Some((d, e)) = signed_float_at(l, i) {
        let j = if i < l.len() && (l[i] == '+' || l[i] == '-') {
            i + 1
        } else {
            i
        };
        lemma_run_end(l, j, Run::Digits);
        let de = run_end(l, j, Run::Digits);
        if de + 1 <= l.len() {
            lemma_run_end(l, de + 1, Run::Digits);
        }
        let k = de - i;
        assert(d == l.subrange(i, e));
        assert forall|m: int| j - i <= m < k implies is_digit(#[trigger] d[m]) by {
            assert(d[m] == l[i + m]);
            assert(in_run(l[i + m], Run::Digits));
        }
        if e > de {
            assert forall|m: int| k < m < d.len() implies is_digit(#[trigger] d[m]) by {
                assert(d[m] == l[i + m]);
                assert(in_run(l[i + m], Run::Digits));
            }
        }
        if j == i + 1 {
            assert(d[0] == l[i]);
        } else if d.len() > 0 {
            assert(d[0] == l[i]);
            assert(in_run(l[i], Run::Digits));
        }
        assert(k < d.len() ==> d[k] == l[de]);
        assert(decimal_text_at(d, k));
    }
}

/// The location that a cleaned line gives is well formed.
proof fn lemma_location_line(raw: Seq<char>)
    ensures
        playlist_line(clean_line(raw)) matches Some(SpecLine::Location(location))
            ==> location_well_formed(location),
{
    let l = clean_line(raw);
    let inner = if raw.len() > 0 && raw[0] == '\u{feff}' {
        raw.drop_first()
    } else {
        raw
    };
    assert(l == trim(inner));
    lemma_trim_idempotent(inner);
    lemma_trim_ends(inner);
}

/// The `#EXTINF` information that a line gives is well formed.
proof fn lemma_extinf_line(l: Seq<char>)
    ensures
        playlist_line(l) matches Some(SpecLine::ExtInf(info)) ==> extinf_well_formed(info),
{
    if let Some(SpecLine::ExtInf(info)) = playlist_line(l) {
        assert(starts_with(l, extinf_tag()));
        assert(l.len() >= 8);
        lemma_run_end(l, 8, Run::Spaces);
        let p = run_end(l, 8, Run::Spaces);
        lemma_signed_float_text(l, p);
        let (_, a) = signed_float_at(l, p)->Some_0;
        let (_, b) = spaced_attributes_at(l, a, Map::empty());
        let c = run_end(l, b, Run::Spaces);
        if 0 <= c < l.len() && l[c] == ',' {
            lemma_trim_ends(l.subrange(c + 1, l.len() as int));
        }
    }
}

/// The title that a `#PLAYLIST:` line gives is trimmed.
proof fn lemma_title_line(l: Seq<char>)
    ensures
        playlist_line(l) matches Some(SpecLine::PlaylistTitle(t)) ==> trim(t) == t,
{
    if l.len() >= 10 {
        lemma_trim_idempotent(l.subrange(10, l.len() as int));
    }
}

proof fn lemma_step_well_formed(st: ParseState, number: int, raw: Seq<char>)
    requires
        state_well_formed(st),
    ensures
        step(st, number, raw) matches Ok(next) ==> state_well_formed(next),
{
    lemma_location_line(raw);
    lemma_extinf_line(clean_line(raw));
    lemma_title_line(clean_line(raw));
    if let Ok(next) = step(st, number, raw) {
        assert forall|i: int| 0 <= i < next.playlist.entries.len() implies entry_well_formed(
            #[trigger] next.playlist.entries[i],
        ) by {
            if i < st.playlist.entries.len() {
                assert(next.playlist.entries[i] == st.playlist.entries[i]);
            }
        }
    }
}

proof fn lemma_run_well_formed(lines: Seq<Seq<char>>, i: int, st: ParseState)
    requires
        state_well_formed(st),
    ensures
        run_lines(lines, i, st) matches Ok(last) ==> state_well_formed(last),
    decreases lines.len() - i,
{
    if 0 <= i < lines.len() {
        lemma_step_well_formed(st, i + 1, lines[i]);
        if let Ok(next) = step(st, i + 1, lines[i]) {
            lemma_run_well_formed(lines, i + 1, next);
        }
    }
}

/// Every entry of a parsed playlist is well formed: its location is not empty, not trimmable
/// and does not start with `#`; its duration is decimal text; its title is not empty and not
/// trimmable; and an entry without a duration has neither title nor attributes.
pub proof fn law_entries_well_formed(input: Seq<char>)
    ensures
        parsed(input) matches Ok(playlist) ==> entries_well_formed(playlist.entries),
{
    if let Some(lines) = raw_lines(input) {
        assert(entries_well_formed(crate::m3u::initial_state().playlist.entries));
        lemma_run_well_formed(lines, 0, crate::m3u::initial_state());
    }
}

/// `s` with each line feed written as a carriage return and a line feed.
pub open spec fn with_crlf(s: Seq<char>) -> Seq<char>
    decreases s.len(),
{
    if s.len() == 0 {
        s
    } else if s[0] == '\n' {
        seq!['\r', '\n'] + with_crlf(s.drop_first())
    } else {
        seq![s[0]] + with_crlf(s.drop_first())
    }
}

proof fn lemma_crlf_no_line_feed(s: Seq<char>)
    requires
        forall|k: int| 0 <= k < s.len() ==> s[k] != '\n',
    ensures
        with_crlf(s) == s,
    decreases s.len(),
{
    if s.len() > 0 {
        lemma_crlf_no_line_feed(s.drop_first());
        assert(seq![s[0]] + s.drop_first() =~= s);
    }
}

proof fn lemma_crlf_first_line(a: Seq<char>, b: Seq<char>)
    requires
        forall|k: int| 0 <= k < a.len() ==> a[k] != '\n',
    ensures
        with_crlf(a + seq!['\n'] + b) == a + seq!['\r', '\n'] + with_crlf(b),
    decreases a.len(),
{
    let s = a + seq!['\n'] + b;
    if a.len() == 0 {
        assert(s =~= seq!['\n'] + b);
        assert(s.drop_first() =~= b);
        assert(a + seq!['\r', '\n'] + with_crlf(b) =~= seq!['\r', '\n'] + with_crlf(b));
    } else {
        lemma_crlf_first_line(a.drop_first(), b);
        assert(s.drop_first() =~= a.drop_first() + seq!['\n'] + b);
        assert(seq![a[0]] + (a.drop_first() + seq!['\r', '\n'] + with_crlf(b)) =~= a + seq![
            '\r',
            '\n',
        ] + with_crlf(b));
    }
}

proof fn lemma_crlf_lines(s: Seq<char>)
    requires
        forall|k: int| 0 <= k < s.len() ==> s[k] != '\r',
    ensures
        raw_lines(with_crlf(s)) == raw_lines(s),
    decreases s.len(),
{
    lemma_run_end(s, 0, Run::NotLineBreak);
    let e = run_end(s, 0, Run::NotLineBreak);
    if e == s.len() {
        lemma_crlf_no_line_feed(s);
    } else {
        let a = s.subrange(0, e);
        let b = s.subrange(e + 1, s.len() as int);
        assert(s =~= a + seq!['\n'] + b);
        assert forall|k: int| 0 <= k < a.len() implies a[k] != '\n' by {
            assert(in_run(s[k], Run::NotLineBreak));
        }
        lemma_crlf_first_line(a, b);
        let c = with_crlf(s);
        assert(c =~= a + seq!['\r', '\n'] + with_crlf(b));
        assert forall|m: int| 0 <= m < e implies in_run(#[trigger] c[m], Run::NotLineBreak) by {
            assert(c[m] == s[m]);
        }
        lemma_run_end_at(c, 0, e, Run::NotLineBreak);
        assert(c.subrange(0, e) =~= a);
        lemma_raw_lines_suffix(c, e + 2);
        assert(c.subrange(e + 2, c.len() as int) =~= with_crlf(b));
        lemma_raw_lines_suffix(s, e + 1);
        lemma_crlf_lines(b);
    }
}

/// A playlist written with CRLF line endings parses as the same playlist written with LF.
pub proof fn law_crlf_same_as_lf(input: Seq<char>)
    requires
        forall|k: int| 0 <= k < input.len() ==> input[k] != '\r',
    ensures
        parsed(with_crlf(input)) == parsed(input),
{
    lemma_crlf_lines(input);
}

/// The lines of `s` followed by a line feed: the same lines, and one empty line more where `s`
/// is empty or already ends with a line feed.
proof fn lemma_lines_final_break(s: Seq<char>)
    requires
        s.len() == 0 || s.last() != '\r',
    ensures
        raw_lines(s.push('\n')) == match raw_lines(s) {
            Some(lines) => Some(
                if s.len() == 0 || s.last() == '\n' {
                    lines.push(Seq::<char>::empty())
                } else {
                    lines
                },
            ),
            None => None,
        },
    decreases s.len(),
{
    let t = s.push('\n');
    let empty = Seq::<char>::empty();
    let no_lines = Seq::<Seq<char>>::empty();
    if s.len() == 0 {
        lemma_run_end_at(t, 0, 0, Run::NotLineBreak);
        assert(t.subrange(0, 0) =~= empty);
        assert(raw_lines_from(t, 1) == Some(no_lines));
        assert(seq![empty] + no_lines =~= no_lines.push(empty));
    } else {
        lemma_run_end(s, 0, Run::NotLineBreak);
        let e = run_end(s, 0, Run::NotLineBreak);
        assert forall|m: int| 0 <= m < e implies in_run(#[trigger] t[m], Run::NotLineBreak) by {
            assert(t[m] == s[m]);
        }
        lemma_run_end_at(t, 0, e, Run::NotLineBreak);
        let first = s.subrange(0, e);
        assert(t.subrange(0, e) =~= first);
        if e == s.len() {
            assert(first =~= s);
            assert(raw_lines_from(s, e) == Some(no_lines));
            assert(raw_lines_from(t, e + 1) == Some(no_lines));
            assert(in_run(s.last(), Run::NotLineBreak));
        } else {
            assert(t[e] == s[e]);
            if e + 1 < s.len() {
                assert(t[e + 1] == s[e + 1]);
            }
            if s[e] == '\n' || (e + 1 < s.len() && s[e + 1] == '\n') {
                let skip = if s[e] == '\n' {
                    e + 1
                } else {
                    e + 2
                };
                let b = s.subrange(skip, s.len() as int);
                lemma_raw_lines_suffix(s, skip);
                lemma_raw_lines_suffix(t, skip);
                assert(t.subrange(skip, t.len() as int) =~= b.push('\n'));
                if b.len() > 0 {
                    assert(b.last() == s.last());
                } else {
                    assert(s.last() == '\n');
                }
                lemma_lines_final_break(b);
                if let Some(rest) = raw_lines(b) {
                    assert(seq![first] + rest.push(empty) =~= (seq![first] + rest).push(empty));
                }
            } else {
                assert(e + 1 < s.len());
                if e > 0 {
                    lemma_run_end_at(s, e, e, Run::NotLineBreak);
                    lemma_run_end_at(t, e, e, Run::NotLineBreak);
                    assert(raw_lines_from(s, e) is None);
                    assert(raw_lines_from(t, e) is None);
                }
            }
        }
    }
}

/// A blank line at the end changes nothing.
proof fn lemma_run_final_blank(lines: Seq<Seq<char>>, i: int, st: ParseState)
    requires
        0 <= i <= lines.len(),
    ensures
        run_lines(lines.push(Seq::<char>::empty()), i, st) == run_lines(lines, i, st),
    decreases lines.len() - i,
{
    let longer = lines.push(Seq::<char>::empty());
    if i < lines.len() {
        assert(longer[i] == lines[i]);
        if let Ok(next) = step(st, i + 1, lines[i]) {
            lemma_run_final_blank(lines, i + 1, next);
        }
    } else {
        assert(clean_line(longer[i]) =~= Seq::<char>::empty());
        assert(step(st, i + 1, longer[i]) == Ok::<ParseState, crate::m3u::SpecParseError>(st));
        assert(run_lines(longer, i + 1, st) == Ok::<ParseState, crate::m3u::SpecParseError>(st));
    }
}

/// A line feed after the last line does not change what a playlist parses to.
pub proof fn law_final_line_feed(input: Seq<char>)
    requires
        input.len() == 0 || input.last() != '\r',
    ensures
        parsed(input.push('\n')) == parsed(input),
{
    lemma_lines_final_break(input);
    if let Some(lines) = raw_lines(input) {
        lemma_run_final_blank(lines, 0, crate::m3u::initial_state());
    }
}

/// Digits written by `decimal` read back as the same number.
proof fn lemma_decimal_digits(n: nat)
    ensures
        all_digits(decimal(n)),
        digits_value(decimal(n)) == n,
        decimal(n)[0] != '+',
    decreases n,
{
    let last = digit_char(n % 10);
    assert(digit_value(last) == n % 10);
    if n >= 10 {
        lemma_decimal_digits(n / 10);
        let s = decimal(n);
        assert(s.drop_last() =~= decimal(n / 10));
        assert(s.last() == last);
        assert(digits_value(s) == digits_value(decimal(n / 10)) * 10 + digit_value(last));
        assert(n == (n / 10) * 10 + n % 10) by (nonlinear_arith);
        assert(digits_value(decimal(n / 10)) == n / 10);
        assert(digits_value(s) == n);
        assert forall|i: int| 0 <= i < s.len() implies is_digit(#[trigger] s[i]) by {
            if i < s.len() - 1 {
                assert(s[i] == decimal(n / 10)[i]);
            }
        }
        assert(s[0] == decimal(n / 10)[0]);
    } else {
        assert(n % 10 == n);
        assert(decimal(n).drop_last() =~= Seq::<char>::empty());
        assert(decimal(n).last() == last);
        assert(digits_value(Seq::<char>::empty()) == 0);
        assert(digits_value(decimal(n)) == digits_value(decimal(n).drop_last()) * 10 + digit_value(last));
    }
}

/// The channel-number parser reads every `u32` written in decimal as that number, with or
/// without a leading `+`.
pub proof fn law_channel_number_decimal(n: u32)
    ensures
        parse_u32(decimal(n as nat)) == Some(n),
        parse_u32(seq!['+'] + decimal(n as nat)) == Some(n),
{
    lemma_decimal_digits(n as nat);
    assert((seq!['+'] + decimal(n as nat)).drop_first() =~= decimal(n as nat));
}

/// The locations that lines give, in order.
pub open spec fn locations_of(lines: Seq<Seq<char>>) -> Seq<Seq<char>>
    decreases lines.len(),
{
    if lines.len() == 0 {
        seq![]
    } else {
        let rest = locations_of(lines.drop_first());
        match playlist_line(clean_line(lines[0])) {
            Some(SpecLine::Location(location)) => seq![location] + rest,
            _ => rest,
        }
    }
}

pub open spec fn entry_locations(entries: Seq<SpecEntry>) -> Seq<Seq<char>> {
    entries.map_values(|e: SpecEntry| e.location)
}

proof fn lemma_run_locations(lines: Seq<Seq<char>>, i: int, st: ParseState)
    requires
        0 <= i <= lines.len(),
    ensures
        run_lines(lines, i, st) matches Ok(last) ==> entry_locations(last.playlist.entries)
            == entry_locations(st.playlist.entries) + locations_of(
            lines.subrange(i, lines.len() as int),
        ),
    decreases lines.len() - i,
{
    let rest = lines.subrange(i, lines.len() as int);
    if i < lines.len() {
        assert(rest.drop_first() =~= lines.subrange(i + 1, lines.len() as int));
        assert(rest[0] == lines[i]);
        if let Ok(next) = step(st, i + 1, lines[i]) {
            lemma_run_locations(lines, i + 1, next);
            let before = entry_locations(st.playlist.entries);
            let after = entry_locations(next.playlist.entries);
            let tail = locations_of(lines.subrange(i + 1, lines.len() as int));
            match playlist_line(clean_line(lines[i])) {
                Some(SpecLine::Location(location)) => {
                    assert(after =~= before.push(location));
                    assert(before.push(location) + tail =~= before + (seq![location] + tail));
                },
                _ => {
                    assert(after =~= before);
                },
            }
        }
    } else {
        assert(rest =~= Seq::<Seq<char>>::empty());
        assert(entry_locations(st.playlist.entries) + seq![] =~= entry_locations(
            st.playlist.entries,
        ));
    }
}

/// Each location line of the input gives one entry, in the order of the lines, and no other
/// line gives one.
pub proof fn law_one_entry_per_location_line(input: Seq<char>)
    ensures
        parsed(input) matches Ok(playlist) ==> raw_lines(input) matches Some(lines)
            && entry_locations(playlist.entries) == locations_of(lines),
{
    if let Some(lines) = raw_lines(input) {
        let init = crate::m3u::initial_state();
        lemma_run_locations(lines, 0, init);
        assert(lines.subrange(0, lines.len() as int) =~= lines);
        assert(entry_locations(init.playlist.entries) =~= Seq::<Seq<char>>::empty());
        assert(Seq::<Seq<char>>::empty() + locations_of(lines) =~= locations_of(lines));
    }
}

/// Whether the first non-blank line is an `#EXTM3U` header.
pub open spec fn starts_with_header(lines: Seq<Seq<char>>) -> bool
    decreases lines.len(),
{
    if lines.len() == 0 {
        false
    } else if clean_line(lines[0]).len() == 0 {
        starts_with_header(lines.drop_first())
    } else {
        playlist_line(clean_line(lines[0])) matches Some(SpecLine::Header(_))
    }
}

proof fn lemma_run_extended(lines: Seq<Seq<char>>, i: int, st: ParseState)
    requires
        0 <= i <= lines.len(),
        !st.seen_non_blank ==> !st.playlist.extended,
    ensures
        run_lines(lines, i, st) matches Ok(last) ==> last.playlist.extended == if st.seen_non_blank {
            st.playlist.extended
        } else {
            starts_with_header(lines.subrange(i, lines.len() as int))
        },
    decreases lines.len() - i,
{
    let rest = lines.subrange(i, lines.len() as int);
    if i < lines.len() {
        assert(rest.drop_first() =~= lines.subrange(i + 1, lines.len() as int));
        assert(rest[0] == lines[i]);
        if let Ok(next) = step(st, i + 1, lines[i]) {
            lemma_run_extended(lines, i + 1, next);
        }
    }
}

pub open spec fn is_blank_line(raw: Seq<char>) -> bool {
    clean_line(raw).len() == 0
}

pub open spec fn is_header_line(raw: Seq<char>) -> bool {
    playlist_line(clean_line(raw)) matches Some(SpecLine::Header(_))
}

proof fn lemma_run_headers(lines: Seq<Seq<char>>, i: int, st: ParseState)
    requires
        0 <= i <= lines.len(),
    ensures
        run_lines(lines, i, st) is Ok ==> forall|j: int|
            i <= j < lines.len() && is_header_line(#[trigger] lines[j]) ==> !st.seen_non_blank
                && forall|k: int| i <= k < j ==> is_blank_line(#[trigger] lines[k]),
    decreases lines.len() - i,
{
    if i < lines.len() {
        if let Ok(next) = step(st, i + 1, lines[i]) {
            lemma_run_headers(lines, i + 1, next);
        }
    }
}

/// A parsed playlist is extended exactly when its first non-blank line is an `#EXTM3U` header,
/// and no other line of it is a header.
pub proof fn law_header_only_first(input: Seq<char>)
    ensures
        parsed(input) matches Ok(playlist) ==> raw_lines(input) matches Some(lines) && {
            &&& playlist.extended == starts_with_header(lines)
            &&& forall|j: int|
                0 <= j < lines.len() && is_header_line(#[trigger] lines[j]) ==> forall|k: int|
                    0 <= k < j ==> is_blank_line(#[trigger] lines[k])
        },
{
    if let Some(lines) = raw_lines(input) {
        lemma_run_extended(lines, 0, crate::m3u::initial_state());
        lemma_run_headers(lines, 0, crate::m3u::initial_state());
        assert(lines.subrange(0, lines.len() as int) =~= lines);
    }
}

/// Two parser states that differ at most in the line number of a pending `#EXTINF`.
pub open spec fn same_but_line_numbers(a: ParseState, b: ParseState) -> bool {
    &&& a.playlist == b.playlist
    &&& a.seen_non_blank == b.seen_non_blank
    &&& a.current_group == b.current_group
    &&& match (a.pending, b.pending) {
        (None, None) => true,
        (Some((_, x)), Some((_, y))) => x == y,
        _ => false,
    }
}

pub open spec fn same_outcome(
    a: Result<ParseState, SpecParseError>,
    b: Result<ParseState, SpecParseError>,
) -> bool {
    match (a, b) {
        (Ok(x), Ok(y)) => same_but_line_numbers(x, y),
        (Err(_), Err(_)) => true,
        _ => false,
    }
}

proof fn lemma_step_same(a: ParseState, b: ParseState, na: int, nb: int, raw: Seq<char>)
    requires
        same_but_line_numbers(a, b),
    ensures
        same_outcome(step(a, na, raw), step(b, nb, raw)),
{
}

/// Runs over the same remaining lines, from states that differ at most in line numbers, end
/// alike.
proof fn lemma_run_same(
    la: Seq<Seq<char>>,
    ia: int,
    lb: Seq<Seq<char>>,
    ib: int,
    a: ParseState,
    b: ParseState,
)
    requires
        0 <= ia <= la.len(),
        0 <= ib <= lb.len(),
        la.subrange(ia, la.len() as int) == lb.subrange(ib, lb.len() as int),
        same_but_line_numbers(a, b),
    ensures
        same_outcome(run_lines(la, ia, a), run_lines(lb, ib, b)),
    decreases la.len() - ia,
{
    if ia < la.len() {
        assert(lb.subrange(ib, lb.len() as int).len() == la.len() - ia);
        assert(la[ia] == la.subrange(ia, la.len() as int)[0]);
        assert(lb[ib] == lb.subrange(ib, lb.len() as int)[0]);
        lemma_step_same(a, b, ia + 1, ib + 1, la[ia]);
        if let (Ok(na), Ok(nb)) = (step(a, ia + 1, la[ia]), step(b, ib + 1, lb[ib])) {
            assert(la.subrange(ia + 1, la.len() as int) =~= la.subrange(ia, la.len() as int).drop_first());
            assert(lb.subrange(ib + 1, lb.len() as int) =~= lb.subrange(ib, lb.len() as int).drop_first());
            lemma_run_same(la, ia + 1, lb, ib + 1, na, nb);
        }
    } else {
        assert(lb.subrange(ib, lb.len() as int).len() == 0);
    }
}

/// Runs over remaining lines that differ in one blank line, at position `p` of the longer,
/// end alike.
proof fn lemma_run_blank_inserted(
    la: Seq<Seq<char>>,
    ia: int,
    lb: Seq<Seq<char>>,
    ib: int,
    p: int,
    a: ParseState,
    b: ParseState,
)
    requires
        0 <= ia <= la.len(),
        0 <= ib <= lb.len(),
        0 <= p,
        ia + p < la.len(),
        is_blank_line(la[ia + p]),
        la.subrange(ia, ia + p) == lb.subrange(ib, ib + p),
        la.subrange(ia + p + 1, la.len() as int) == lb.subrange(ib + p, lb.len() as int),
        ib + p <= lb.len(),
        same_but_line_numbers(a, b),
    ensures
        same_outcome(run_lines(la, ia, a), run_lines(lb, ib, b)),
    decreases p,
{
    if p == 0 {
        assert(step(a, ia + 1, la[ia]) == Ok::<ParseState, SpecParseError>(a));
        lemma_run_same(la, ia + 1, lb, ib, a, b);
    } else {
        assert(la[ia] == la.subrange(ia, ia + p)[0]);
        assert(lb[ib] == lb.subrange(ib, ib + p)[0]);
        lemma_step_same(a, b, ia + 1, ib + 1, la[ia]);
        if let (Ok(na), Ok(nb)) = (step(a, ia + 1, la[ia]), step(b, ib + 1, lb[ib])) {
            assert(la.subrange(ia + 1, ia + p) =~= la.subrange(ia, ia + p).drop_first());
            assert(lb.subrange(ib + 1, ib + p) =~= lb.subrange(ib, ib + p).drop_first());
            lemma_run_blank_inserted(la, ia + 1, lb, ib + 1, p - 1, na, nb);
        }
    }
}

/// A line of `a + b` that starts within `a` is a line of `a` alone, where `a` ends with a line
/// feed.
proof fn lemma_raw_line_in_prefix(a: Seq<char>, b: Seq<char>, i: int)
    requires
        a.len() > 0,
        a.last() == '\n',
        0 <= i < a.len(),
    ensures
        raw_line_at(a + b, i) == raw_line_at(a, i),
        raw_line_at(a, i) matches Some((_, next)) ==> next <= a.len(),
{
    let s = a + b;
    lemma_run_end(a, i, Run::NotLineBreak);
    let e = run_end(a, i, Run::NotLineBreak);
    assert(e < a.len());
    assert forall|m: int| i <= m < e implies in_run(#[trigger] s[m], Run::NotLineBreak) by {
        assert(s[m] == a[m]);
    }
    assert(s[e] == a[e]);
    lemma_run_end_at(s, i, e, Run::NotLineBreak);
    if e + 1 < a.len() {
        assert(s[e + 1] == a[e + 1]);
    }
    assert(s.subrange(i, e) =~= a.subrange(i, e));
}

/// The lines of `a + b`, where `a` is empty or ends with a line feed, are those of `a` and then
/// those of `b`.
proof fn lemma_raw_lines_concat_from(a: Seq<char>, b: Seq<char>, i: int)
    requires
        a.len() == 0 || a.last() == '\n',
        0 <= i <= a.len(),
    ensures
        raw_lines_from(a + b, i) == match raw_lines_from(a, i) {
            Some(x) => match raw_lines(b) {
                Some(y) => Some(x + y),
                None => None,
            },
            None => None,
        },
    decreases a.len() - i,
{
    let s = a + b;
    if i == a.len() {
        lemma_raw_lines_suffix(s, i);
        assert(s.subrange(i, s.len() as int) =~= b);
        if let Some(y) = raw_lines(b) {
            assert(Seq::<Seq<char>>::empty() + y =~= y);
        }
    } else {
        lemma_raw_line_in_prefix(a, b, i);
        lemma_raw_line_at(a, i);
        if let Some((line, next)) = raw_line_at(a, i) {
            lemma_raw_lines_concat_from(a, b, next);
            if let (Some(x), Some(y)) = (raw_lines_from(a, next), raw_lines(b)) {
                assert(seq![line] + x + y =~= seq![line] + (x + y));
            }
        }
    }
}

/// A blank line between two parts of a playlist, after a line feed, changes nothing but the
/// line numbers of errors: the input with it parses to the same playlist as the input without
/// it, and is rejected when that one is.
pub proof fn law_blank_line_ignored(a: Seq<char>, b: Seq<char>)
    requires
        a.len() == 0 || a.last() == '\n',
    ensures
        match (parsed(a + seq!['\n'] + b), parsed(a + b)) {
            (Ok(x), Ok(y)) => x == y,
            (Err(_), Err(_)) => true,
            _ => false,
        },
{
    let nb = seq!['\n'] + b;
    assert(a + seq!['\n'] + b =~= a + nb);
    lemma_raw_lines_concat_from(a, nb, 0);
    lemma_raw_lines_concat_from(a, b, 0);
    // The lines of `"\n" + b` are an empty line and the lines of `b`.
    lemma_run_end_at(nb, 0, 0, Run::NotLineBreak);
    assert(nb.subrange(0, 0) =~= Seq::<char>::empty());
    lemma_raw_lines_suffix(nb, 1);
    assert(nb.subrange(1, nb.len() as int) =~= b);
    if let (Some(x), Some(y)) = (raw_lines(a), raw_lines(b)) {
        let empty = Seq::<char>::empty();
        let longer = x + (seq![empty] + y);
        let shorter = x + y;
        let p = x.len() as int;
        assert(longer[p] == empty);
        assert(clean_line(empty) =~= empty);
        assert(longer.subrange(0, p) =~= shorter.subrange(0, p));
        assert(longer.subrange(p + 1, longer.len() as int) =~= shorter.subrange(
            p,
            shorter.len() as int,
        ));
        let init = crate::m3u::initial_state();
        lemma_run_blank_inserted(longer, 0, shorter, 0, p, init, init);
    }
}

/// Whether position `i` of `s` holds a carriage return that no line feed follows.
pub open spec fn lone_cr_at(s: Seq<char>, i: int) -> bool {
    s[i] == '\r' && !(i + 1 < s.len() && s[i + 1] == '\n')
}

/// Whether `s` holds a carriage return that no line feed follows.
pub open spec fn has_lone_cr(s: Seq<char>) -> bool {
    exists|i: int| 0 <= i < s.len() && #[trigger] lone_cr_at(s, i)
}

proof fn lemma_lines_fail_from(s: Seq<char>, i: int)
    requires
        0 <= i <= s.len(),
    ensures
        (raw_lines_from(s, i) is None) == exists|j: int| i <= j < s.len() && #[trigger] lone_cr_at(s, j),
    decreases s.len() - i,
{
    if i < s.len() {
        lemma_run_end(s, i, Run::NotLineBreak);
        let e = run_end(s, i, Run::NotLineBreak);
        assert forall|j: int| i <= j < e implies !#[trigger] lone_cr_at(s, j) by {
            assert(in_run(s[j], Run::NotLineBreak));
        }
        if e < s.len() && s[e] == '\n' {
            lemma_lines_fail_from(s, e + 1);
            assert(!lone_cr_at(s, e));
        } else if e + 1 < s.len() && s[e] == '\r' && s[e + 1] == '\n' {
            lemma_lines_fail_from(s, e + 2);
            assert(!lone_cr_at(s, e));
            assert(!lone_cr_at(s, e + 1));
        } else if e < s.len() {
            assert(lone_cr_at(s, e));
            if e > i {
                lemma_run_end_at(s, e, e, Run::NotLineBreak);
                assert(raw_line_at(s, e) is None);
                assert(raw_lines_from(s, e) is None);
            }
        } else {
            assert(raw_lines_from(s, e) == Some(Seq::<Seq<char>>::empty()));
        }
    }
}

proof fn lemma_run_errors_not_invalid_playlist(lines: Seq<Seq<char>>, i: int, st: ParseState)
    ensures
        run_lines(lines, i, st) matches Err(e) ==> !(e.kind is InvalidPlaylist),
    decreases lines.len() - i,
{
    if 0 <= i < lines.len() {
        if let Ok(next) = step(st, i + 1, lines[i]) {
            lemma_run_errors_not_invalid_playlist(lines, i + 1, next);
        }
    }
}

/// A playlist is rejected as a whole exactly when it holds a carriage return that no line feed
/// follows; the error then has no line number.
pub proof fn law_invalid_playlist_iff_lone_cr(input: Seq<char>)
    ensures
        (parsed(input) matches Err(e) && e.kind is InvalidPlaylist) == has_lone_cr(input),
        has_lone_cr(input) ==> parsed(input) == Err::<SpecPlaylist, SpecParseError>(
            SpecParseError { line: None, kind: SpecParseErrorKind::InvalidPlaylist },
        ),
{
    lemma_lines_fail_from(input, 0);
    if let Some(lines) = raw_lines(input) {
        lemma_run_errors_not_invalid_playlist(lines, 0, crate::m3u::initial_state());
    }
}

/// What a raw line holds, once cleaned; `None` for a blank or invalid line.
pub open spec fn line_kind(raw: Seq<char>) -> Option<SpecLine> {
    playlist_line(clean_line(raw))
}

/// The group of the last `#EXTGRP` line among `lines`.
pub open spec fn last_group(lines: Seq<Seq<char>>) -> Option<Seq<char>>
    decreases lines.len(),
{
    if lines.len() == 0 {
        None
    } else {
        match line_kind(lines.last()) {
            Some(SpecLine::ExtGrp(g)) => Some(g),
            _ => last_group(lines.drop_last()),
        }
    }
}

/// The last `#EXTINF` line among `lines` that no location line follows, with its line number.
pub open spec fn pending_extinf(lines: Seq<Seq<char>>) -> Option<(int, SpecExtInf)>
    decreases lines.len(),
{
    if lines.len() == 0 {
        None
    } else {
        match line_kind(lines.last()) {
            Some(SpecLine::ExtInf(info)) => Some((lines.len() as int, info)),
            Some(SpecLine::Location(_)) => None,
            _ => pending_extinf(lines.drop_last()),
        }
    }
}

proof fn lemma_locations_push(a: Seq<Seq<char>>, x: Seq<char>)
    ensures
        locations_of(a.push(x)) == match line_kind(x) {
            Some(SpecLine::Location(location)) => locations_of(a).push(location),
            _ => locations_of(a),
        },
    decreases a.len(),
{
    let ax = a.push(x);
    let none = Seq::<Seq<char>>::empty();
    if a.len() == 0 {
        assert(ax.drop_first() =~= none);
        assert(ax[0] == x);
        assert(locations_of(none) == none);
        assert(locations_of(a) == none);
        if let Some(SpecLine::Location(location)) = line_kind(x) {
            assert(locations_of(ax) == seq![location] + none);
            assert(seq![location] + none =~= none.push(location));
        } else {
            assert(locations_of(ax) == locations_of(none));
        }
    } else {
        assert(ax.drop_first() =~= a.drop_first().push(x));
        assert(ax[0] == a[0]);
        lemma_locations_push(a.drop_first(), x);
        let rest = locations_of(a.drop_first());
        let rest_x = locations_of(a.drop_first().push(x));
        match line_kind(a[0]) {
            Some(SpecLine::Location(first)) => {
                assert(locations_of(ax) == seq![first] + rest_x);
                assert(locations_of(a) == seq![first] + rest);
                if let Some(SpecLine::Location(location)) = line_kind(x) {
                    assert(seq![first] + rest.push(location) =~= (seq![first] + rest).push(
                        location,
                    ));
                }
            },
            _ => {
                assert(locations_of(ax) == rest_x);
                assert(locations_of(a) == rest);
            },
        }
    }
}

/// What the parser has built after the first `i` lines: the current group, the pending
/// `#EXTINF`, and one entry per location line so far, made from the `#EXTINF` and `#EXTGRP`
/// lines before it.
pub open spec fn entries_follow_lines(lines: Seq<Seq<char>>, i: int, st: ParseState) -> bool {
    &&& st.current_group == last_group(lines.take(i))
    &&& st.pending == pending_extinf(lines.take(i))
    &&& st.playlist.entries.len() == locations_of(lines.take(i)).len()
    &&& forall|j: int|
        0 <= j < i ==> (#[trigger] line_kind(lines[j]) matches Some(SpecLine::Location(location))
            ==> {
            let k = locations_of(lines.take(j)).len() as int;
            &&& k < st.playlist.entries.len()
            &&& st.playlist.entries[k] == new_entry(
                location,
                pending_extinf(lines.take(j)),
                last_group(lines.take(j)),
            )
        })
}

/// A step that adds no entry leaves the entries of earlier location lines as they were.
proof fn lemma_follow_earlier(lines: Seq<Seq<char>>, i: int, st: ParseState, next: ParseState)
    requires
        0 <= i < lines.len(),
        entries_follow_lines(lines, i, st),
        next.playlist.entries.len() >= st.playlist.entries.len(),
        forall|k: int|
            0 <= k < st.playlist.entries.len() ==> #[trigger] next.playlist.entries[k]
                == st.playlist.entries[k],
    ensures
        forall|j: int|
            0 <= j < i ==> (#[trigger] line_kind(lines[j]) matches Some(SpecLine::Location(location))
                ==> {
                let k = locations_of(lines.take(j)).len() as int;
                &&& k < next.playlist.entries.len()
                &&& next.playlist.entries[k] == new_entry(
                    location,
                    pending_extinf(lines.take(j)),
                    last_group(lines.take(j)),
                )
            }),
{
    assert forall|j: int| 0 <= j < i implies (#[trigger] line_kind(lines[j]) matches Some(
        SpecLine::Location(location),
    ) ==> {
        let k = locations_of(lines.take(j)).len() as int;
        &&& k < next.playlist.entries.len()
        &&& next.playlist.entries[k] == new_entry(
            location,
            pending_extinf(lines.take(j)),
            last_group(lines.take(j)),
        )
    }) by {
        if let Some(SpecLine::Location(_)) = line_kind(lines[j]) {
            let k = locations_of(lines.take(j)).len() as int;
            assert(next.playlist.entries[k] == st.playlist.entries[k]);
        }
    }
}

/// What a step that succeeds does to the group, the pending `#EXTINF` and the entries.
proof fn lemma_step_shape(st: ParseState, number: int, x: Seq<char>)
    ensures
        step(st, number, x) matches Ok(next) ==> {
            &&& next.current_group == match line_kind(x) {
                Some(SpecLine::ExtGrp(g)) => Some(g),
                _ => st.current_group,
            }
            &&& next.pending == match line_kind(x) {
                Some(SpecLine::ExtInf(info)) => Some((number, info)),
                Some(SpecLine::Location(_)) => None,
                _ => st.pending,
            }
            &&& next.playlist.entries == match line_kind(x) {
                Some(SpecLine::Location(location)) => st.playlist.entries.push(
                    new_entry(location, st.pending, st.current_group),
                ),
                _ => st.playlist.entries,
            }
        },
{
    assert(clean_line(x).len() == 0 ==> clean_line(x) =~= Seq::<char>::empty());
}

proof fn lemma_step_follows(lines: Seq<Seq<char>>, i: int, st: ParseState)
    requires
        0 <= i < lines.len(),
        entries_follow_lines(lines, i, st),
    ensures
        step(st, i + 1, lines[i]) matches Ok(next) ==> entries_follow_lines(lines, i + 1, next),
{
    let x = lines[i];
    let before = lines.take(i);
    let after = lines.take(i + 1);
    assert(after =~= before.push(x));
    assert(after.drop_last() =~= before);
    assert(after.last() == x);
    lemma_locations_push(before, x);
    lemma_step_shape(st, i + 1, x);
    if let Ok(next) = step(st, i + 1, x) {
        assert(next.current_group == last_group(after));
        assert(next.pending == pending_extinf(after));
        if let Some(SpecLine::Location(location)) = line_kind(x) {
            let k = st.playlist.entries.len() as int;
            lemma_follow_earlier(lines, i, st, next);
            assert(next.playlist.entries[k] == new_entry(
                location,
                pending_extinf(lines.take(i)),
                last_group(lines.take(i)),
            ));
        } else {
            lemma_follow_earlier(lines, i, st, next);
        }
    }
}

proof fn lemma_run_follows(lines: Seq<Seq<char>>, i: int, st: ParseState)
    requires
        0 <= i <= lines.len(),
        entries_follow_lines(lines, i, st),
    ensures
        run_lines(lines, i, st) matches Ok(last) ==> entries_follow_lines(
            lines,
            lines.len() as int,
            last,
        ),
    decreases lines.len() - i,
{
    if i < lines.len() {
        lemma_step_follows(lines, i, st);
        if let Ok(next) = step(st, i + 1, lines[i]) {
            lemma_run_follows(lines, i + 1, next);
        }
    }
}

/// Each entry of a parsed playlist comes from its location line, with the `#EXTINF` line
/// pending at that point (the last one that no location follows) and the last `#EXTGRP` line
/// before it. Its group is that `#EXTINF` line's `group-title`, else its `tvg-group`, else that
/// `#EXTGRP` group; an `#EXTINF` line reaches only the entry right after it.
pub proof fn law_entries_from_lines(input: Seq<char>)
    ensures
        parsed(input) matches Ok(playlist) ==> raw_lines(input) matches Some(lines) && forall|
            j: int,
        |
            0 <= j < lines.len() ==> (#[trigger] line_kind(lines[j]) matches Some(
                SpecLine::Location(location),
            ) ==> {
                let k = locations_of(lines.take(j)).len() as int;
                let pending = pending_extinf(lines.take(j));
                let group = last_group(lines.take(j));
                let e = playlist.entries[k];
                &&& k < playlist.entries.len()
                &&& e == new_entry(location, pending, group)
                &&& e.location == location
                &&& e.duration == match pending {
                    Some((_, info)) => Some(info.duration),
                    None => None,
                }
                &&& e.title == match pending {
                    Some((_, info)) => info.title,
                    None => None,
                }
                &&& e.attributes == match pending {
                    Some((_, info)) => info.attributes,
                    None => Map::<Seq<char>, SpecAttributeValue>::empty(),
                }
                &&& e.group == match pending {
                    Some((_, info)) => if info.attributes.contains_key("group-title"@) {
                        Some(info.attributes["group-title"@].text())
                    } else if info.attributes.contains_key("tvg-group"@) {
                        Some(info.attributes["tvg-group"@].text())
                    } else {
                        group
                    },
                    None => group,
                }
            }),
{
    if let Some(lines) = raw_lines(input) {
        let init = crate::m3u::initial_state();
        assert(lines.take(0) =~= Seq::<Seq<char>>::empty());
        lemma_run_follows(lines, 0, init);
        assert(lines.take(lines.len() as int) =~= lines);
    }
}

/// The cleaned lines that are not blank, in order.
pub open spec fn cleaned_non_blank(lines: Seq<Seq<char>>) -> Seq<Seq<char>>
    decreases lines.len(),
{
    if lines.len() == 0 {
        seq![]
    } else {
        let rest = cleaned_non_blank(lines.drop_first());
        if clean_line(lines[0]).len() > 0 {
            seq![clean_line(lines[0])] + rest
        } else {
            rest
        }
    }
}

/// The lines that do not start with `#`.
pub open spec fn without_hash_lines(ls: Seq<Seq<char>>) -> Seq<Seq<char>>
    decreases ls.len(),
{
    if ls.len() == 0 {
        seq![]
    } else {
        let rest = without_hash_lines(ls.drop_first());
        if ls[0][0] != '#' {
            seq![ls[0]] + rest
        } else {
            rest
        }
    }
}

/// How a cleaned line is classified, told by its first characters: a non-blank line that does
/// not start with `#` is a location of itself; one that starts with `#` is no location; one that
/// starts with `#EXTM3U` is a header where it is valid; only such a line is a header.
proof fn lemma_cleaned_line_kind(raw: Seq<char>)
    ensures
        ({
            let l = clean_line(raw);
            &&& l.len() == 0 ==> line_kind(raw) is None
            &&& l.len() > 0 && l[0] != '#' ==> line_kind(raw) == Some(SpecLine::Location(l))
            &&& l.len() > 0 && l[0] == '#' ==> !(line_kind(raw) matches Some(SpecLine::Location(_)))
            &&& (line_kind(raw) matches Some(SpecLine::Header(_))) == (line_kind(raw) is Some
                && starts_with(l, extm3u_tag()))
        }),
{
    let l = clean_line(raw);
    let inner = if raw.len() > 0 && raw[0] == '\u{feff}' {
        raw.drop_first()
    } else {
        raw
    };
    assert(l == trim(inner));
    lemma_trim_idempotent(inner);
    if l.len() == 0 {
        assert(l =~= Seq::<char>::empty());
    }
    if l.len() > 0 && l[0] != '#' {
        assert(!starts_with(l, extm3u_tag())) by {
            if starts_with(l, extm3u_tag()) {
                assert(l.subrange(0, 7)[0] == l[0]);
            }
        }
        assert(!starts_with(l, playlist_tag())) by {
            if starts_with(l, playlist_tag()) {
                assert(l.subrange(0, 10)[0] == l[0]);
            }
        }
        assert(!starts_with(l, extinf_tag())) by {
            if starts_with(l, extinf_tag()) {
                assert(l.subrange(0, 8)[0] == l[0]);
            }
        }
        assert(!starts_with(l, extgrp_tag())) by {
            if starts_with(l, extgrp_tag()) {
                assert(l.subrange(0, 8)[0] == l[0]);
            }
        }
    }
}

proof fn lemma_locations_are_plain_lines(lines: Seq<Seq<char>>)
    ensures
        locations_of(lines) == without_hash_lines(cleaned_non_blank(lines)),
    decreases lines.len(),
{
    if lines.len() > 0 {
        lemma_locations_are_plain_lines(lines.drop_first());
        lemma_cleaned_line_kind(lines[0]);
        let l = clean_line(lines[0]);
        let rest = cleaned_non_blank(lines.drop_first());
        if l.len() > 0 {
            let n = seq![l] + rest;
            assert(n[0] == l);
            assert(n.drop_first() =~= rest);
        }
    }
}

proof fn lemma_run_valid(lines: Seq<Seq<char>>, i: int, st: ParseState)
    requires
        0 <= i <= lines.len(),
    ensures
        run_lines(lines, i, st) is Ok ==> forall|j: int|
            i <= j < lines.len() && clean_line(lines[j]).len() > 0 ==> #[trigger] line_kind(
                lines[j],
            ) is Some,
    decreases lines.len() - i,
{
    if i < lines.len() {
        if let Ok(next) = step(st, i + 1, lines[i]) {
            assert(clean_line(lines[i]).len() > 0 ==> line_kind(lines[i]) is Some);
            lemma_run_valid(lines, i + 1, next);
        }
    }
}

proof fn lemma_header_first_text(lines: Seq<Seq<char>>)
    requires
        forall|j: int|
            0 <= j < lines.len() && clean_line(lines[j]).len() > 0 ==> #[trigger] line_kind(
                lines[j],
            ) is Some,
    ensures
        starts_with_header(lines) == (cleaned_non_blank(lines).len() > 0 && starts_with(
            cleaned_non_blank(lines)[0],
            extm3u_tag(),
        )),
    decreases lines.len(),
{
    if lines.len() > 0 {
        assert forall|j: int|
            0 <= j < lines.drop_first().len() && clean_line(lines.drop_first()[j]).len()
                > 0 implies #[trigger] line_kind(lines.drop_first()[j]) is Some by {
            assert(lines.drop_first()[j] == lines[j + 1]);
        }
        lemma_header_first_text(lines.drop_first());
        lemma_cleaned_line_kind(lines[0]);
        let l = clean_line(lines[0]);
        if l.len() > 0 {
            assert((seq![l] + cleaned_non_blank(lines.drop_first()))[0] == l);
        }
    }
}

/// Stated over the cleaned non-blank lines of the input: the locations of a parsed playlist's
/// entries are, in order, those lines that do not start with `#`; the playlist is extended
/// exactly when the first of those lines starts with `#EXTM3U`; and a line that starts with
/// `#EXTM3U` has only blank lines before it.
pub proof fn law_entries_and_header_by_text(input: Seq<char>)
    ensures
        parsed(input) matches Ok(playlist) ==> raw_lines(input) matches Some(lines) && {
            let cleaned = cleaned_non_blank(lines);
            &&& entry_locations(playlist.entries) == without_hash_lines(cleaned)
            &&& playlist.extended == (cleaned.len() > 0 && starts_with(cleaned[0], extm3u_tag()))
            &&& forall|j: int|
                0 <= j < lines.len() && starts_with(#[trigger] clean_line(lines[j]), extm3u_tag())
                    ==> forall|k: int| 0 <= k < j ==> clean_line(#[trigger] lines[k]).len() == 0
        },
{
    law_one_entry_per_location_line(input);
    law_header_only_first(input);
    if let Some(lines) = raw_lines(input) {
        lemma_locations_are_plain_lines(lines);
        lemma_run_valid(lines, 0, crate::m3u::initial_state());
        if parsed(input) is Ok {
            lemma_header_first_text(lines);
            assert forall|j: int|
                0 <= j < lines.len() && starts_with(
                    #[trigger] clean_line(lines[j]),
                    extm3u_tag(),
                ) implies forall|k: int| 0 <= k < j ==> clean_line(#[trigger] lines[k]).len()
                == 0 by {
                lemma_cleaned_line_kind(lines[j]);
                assert(clean_line(lines[j]).len() > 0);
                assert(is_header_line(lines[j]));
                assert forall|k: int| 0 <= k < j implies clean_line(#[trigger] lines[k]).len()
                    == 0 by {
                    assert(is_blank_line(lines[k]));
                }
            }
        }
    }
}

/// The title of a parsed playlist has no whitespace at either end.
pub proof fn law_playlist_title_trimmed(input: Seq<char>)
    ensures
        parsed(input) matches Ok(playlist) ==> (playlist.title matches Some(t) ==> trim(t) == t),
{
    if let Some(lines) = raw_lines(input) {
        lemma_run_well_formed(lines, 0, crate::m3u::initial_state());
    }
}

/// A duration is read whole: decimal text `d` at position `i`, which no digit follows (nor,
/// where `d` has no fraction, a `.` and a digit), is read as `d`, up to its end.
pub proof fn law_duration_read_whole(l: Seq<char>, i: int, d: Seq<char>)
    requires
        0 <= i,
        i + d.len() <= l.len(),
        l.subrange(i, i + d.len()) == d,
        is_decimal_text(d),
        i + d.len() < l.len() ==> !is_digit(l[i + d.len()]),
        i + d.len() + 1 < l.len() && l[i + d.len()] == '.' && !d.contains('.') ==> !is_digit(
            l[i + d.len() + 1],
        ),
    ensures
        signed_float_at(l, i) == Some((d, i + d.len())),
{
    let k = choose|k: int| decimal_text_at(d, k);
    let j0: int = if d.len() > 0 && (d[0] == '+' || d[0] == '-') {
        1
    } else {
        0
    };
    assert forall|m: int| 0 <= m < d.len() implies l[i + m] == d[m] by {
        assert(l.subrange(i, i + d.len())[m] == l[i + m]);
    }
    if j0 == 0 {
        assert(is_digit(d[0]));
    }
    let j = i + j0;
    assert forall|m: int| j <= m < i + k implies in_run(#[trigger] l[m], Run::Digits) by {
        assert(l[m] == d[m - i]);
        assert(is_digit(d[m - i]));
    }
    if k < d.len() {
        assert(l[i + k] == d[k]);
        assert forall|m: int| i + k + 1 <= m < i + d.len() implies in_run(
            #[trigger] l[m],
            Run::Digits,
        ) by {
            assert(l[m] == d[m - i]);
            assert(is_digit(d[m - i]));
        }
        lemma_run_end_at(l, i + k + 1, i + d.len(), Run::Digits);
    } else {
        assert(!d.contains('.')) by {
            if d.contains('.') {
                let m = choose|m: int| 0 <= m < d.len() && d[m] == '.';
                if m >= j0 {
                    assert(is_digit(d[m]));
                }
            }
        }
        if i + k + 1 < l.len() && l[i + k] == '.' {
            lemma_run_end_at(l, i + k + 1, i + k + 1, Run::Digits);
        } else if i + k + 1 <= l.len() {
            lemma_run_end(l, i + k + 1, Run::Digits);
        }
    }
    lemma_run_end_at(l, j, i + k, Run::Digits);
    assert(l.subrange(i, i + d.len()) =~= d);
}

/// What an `#EXTINF` line with a duration and a title holds: for decimal text `d` and any text
/// `t`, the line `#EXTINF:` `d` `,` `t` has duration `d`, no attributes, and as title `t`
/// trimmed, where that is not empty.
pub proof fn law_extinf_duration_and_title(d: Seq<char>, t: Seq<char>)
    requires
        is_decimal_text(d),
    ensures
        playlist_line(extinf_tag() + d + seq![','] + t) == Some(
            SpecLine::ExtInf(
                SpecExtInf {
                    duration: d,
                    title: if trim(t).len() == 0 {
                        None
                    } else {
                        Some(trim(t))
                    },
                    attributes: Map::empty(),
                },
            ),
        ),
{
    let l = extinf_tag() + d + seq![','] + t;
    let a = 8 + d.len() as int;
    assert(l[a] == ',');
    assert(l.subrange(8, a) =~= d);
    assert(l.subrange(a + 1, l.len() as int) =~= t);
    assert(l.subrange(0, 8) =~= extinf_tag());
    assert(l[4] == 'I');
    assert(l[1] == 'E');
    assert(l.subrange(0, 7)[4] == l[4]);
    assert(l.subrange(0, 10)[1] == l[1]);
    assert(!d.contains('.') ==> true);
    law_duration_read_whole(l, 8, d);
    let k = choose|k: int| decimal_text_at(d, k);
    assert(l[8] == d[0]);
    lemma_run_end_at(l, 8, 8, Run::Spaces);
    lemma_run_end_at(l, a, a, Run::Spaces);
}

/// A quoted attribute value is read up to the first `"` after the opening one, whatever it
/// holds before it, the empty text included.
pub proof fn law_quoted_value_read(l: Seq<char>, i: int, e: int)
    requires
        0 <= i < e < l.len(),
        l[i] == '"',
        l[e] == '"',
        forall|m: int| i < m < e ==> l[m] != '"',
    ensures
        quoted_value_at(l, i) == Some((SpecAttributeValue::Quoted(l.subrange(i + 1, e)), e + 1)),
        attribute_value_at(l, i) == Some(
            (SpecAttributeValue::Quoted(l.subrange(i + 1, e)), e + 1),
        ),
{
    assert forall|m: int| i + 1 <= m < e implies in_run(#[trigger] l[m], Run::NotQuote) by {}
    lemma_run_end_at(l, i + 1, e, Run::NotQuote);
}

/// The word of ASCII letters `w` in any ASCII case: `t` has the length of `w`, and each of its
/// characters is that of `w` or its capital.
pub open spec fn any_case(t: Seq<char>, w: Seq<char>) -> bool {
    &&& t.len() == w.len()
    &&& forall|m: int|
        0 <= m < t.len() ==> t[m] == w[m] || ('a' <= w[m] <= 'z' && t[m] as u32 + 32 == w[m] as u32)
}

/// An entry is a radio exactly when its `radio` value is `true`, `1` or `yes` in any ASCII
/// case; no other value says yes.
pub proof fn law_radio_values(t: Seq<char>)
    ensures
        says_yes(t) == (any_case(t, seq!['t', 'r', 'u', 'e']) || t == seq!['1'] || any_case(
            t,
            seq!['y', 'e', 's'],
        )),
        says_yes(t) ==> t.len() <= 4,
{
    reveal_strlit("true");
    reveal_strlit("1");
    reveal_strlit("yes");
    assert("true"@ =~= seq!['t', 'r', 'u', 'e']);
    assert("1"@ =~= seq!['1']);
    assert("yes"@ =~= seq!['y', 'e', 's']);
    let l = lower_ascii(t);
    lemma_lower_is(t, seq!['t', 'r', 'u', 'e']);
    lemma_lower_is(t, seq!['1']);
    lemma_lower_is(t, seq!['y', 'e', 's']);
    assert(any_case(t, seq!['1']) == (t == seq!['1'])) by {
        if any_case(t, seq!['1']) {
            assert(t =~= seq!['1']);
        }
    }
}

/// `t` lowercases to the lowercase word `w` exactly when it is `w` in any ASCII case.
proof fn lemma_lower_is(t: Seq<char>, w: Seq<char>)
    requires
        forall|m: int| 0 <= m < w.len() ==> !('A' <= #[trigger] w[m] <= 'Z'),
    ensures
        (lower_ascii(t) == w) == any_case(t, w),
{
    let l = lower_ascii(t);
    if l == w {
        assert forall|m: int| 0 <= m < t.len() implies t[m] == w[m] || ('a' <= w[m] <= 'z'
            && t[m] as u32 + 32 == w[m] as u32) by {
            assert(l[m] == ascii_lower(t[m]));
        }
    }
    if any_case(t, w) {
        assert forall|m: int| 0 <= m < t.len() implies l[m] == w[m] by {
            assert(l[m] == ascii_lower(t[m]));
            if t[m] != w[m] {
                assert('A' <= t[m] <= 'Z');
            }
        }
        assert(l =~= w);
    }
}

/// An unquoted attribute value is read up to the first whitespace or `,`, where it does not
/// start with `"`.
pub proof fn law_unquoted_value_read(l: Seq<char>, i: int, e: int)
    requires
        0 <= i < e <= l.len(),
        l[i] != '"',
        forall|m: int| i <= m < e ==> !is_ws(#[trigger] l[m]) && l[m] != ',',
        e < l.len() ==> is_ws(l[e]) || l[e] == ',',
    ensures
        attribute_value_at(l, i) == Some((SpecAttributeValue::Unquoted(l.subrange(i, e)), e)),
{
    lemma_run_end_at(l, i, e, Run::BareValue);
}

/// The group that an `#EXTGRP:` line gives is the rest of the line, trimmed.
pub proof fn law_extgrp_line(g: Seq<char>)
    ensures
        playlist_line(extgrp_tag() + g) == Some(SpecLine::ExtGrp(trim(g))),
{
    let l = extgrp_tag() + g;
    assert(l.subrange(8, l.len() as int) =~= g);
    assert(l.subrange(0, 8) =~= extgrp_tag());
    assert(l[4] == 'G');
    assert(l[1] == 'E');
    assert(l.subrange(0, 7)[4] == l[4]);
    assert(l.subrange(0, 10)[1] == l[1] || l.len() < 10);
    assert(l.subrange(0, 8)[4] == l[4]);
}

/// The title that a `#PLAYLIST:` line gives is the rest of the line, trimmed.
pub proof fn law_playlist_title_line(t: Seq<char>)
    ensures
        playlist_line(playlist_tag() + t) == Some(SpecLine::PlaylistTitle(trim(t))),
{
    let l = playlist_tag() + t;
    assert(l.subrange(10, l.len() as int) =~= t);
    assert(l.subrange(0, 10) =~= playlist_tag());
    assert(l[1] == 'P');
    assert(l.subrange(0, 7)[1] == l[1]);
}

/// The attributes of a line that holds, from position `a`, a space, a key, `="`, a value
/// without `"`, `"` and `,`: that one binding, read up to the `,`.
proof fn lemma_one_quoted_attribute(
    l: Seq<char>,
    k: Seq<char>,
    v: Seq<char>,
    a: int,
)
    requires
        0 <= a,
        a + k.len() + v.len() + 5 <= l.len(),
        l[a] == ' ',
        l.subrange(a + 1, a + 1 + k.len()) == k,
        is_key(k),
        l[a + 1 + k.len()] == '=',
        l[a + 2 + k.len()] == '"',
        l.subrange(a + 3 + k.len(), a + 3 + k.len() + v.len()) == v,
        forall|m: int| 0 <= m < v.len() ==> v[m] != '"',
        l[a + 3 + k.len() + v.len()] == '"',
        l[a + 4 + k.len() + v.len()] == ',',
    ensures
        spaced_attributes_at(l, a, Map::empty()) == (
            Map::<Seq<char>, SpecAttributeValue>::empty().insert(k, SpecAttributeValue::Quoted(v)),
            a + 4 + k.len() + v.len(),
        ),
{
    let s = a + 1;
    let ke = s + k.len();
    let q = ke + 1;
    let e = q + 1 + v.len();
    assert(l[s] == l.subrange(s, ke)[0]);
    assert(is_key_char(k[0]));
    lemma_run_end_at(l, a, s, Run::Spaces);
    assert forall|m: int| s <= m < ke implies in_run(#[trigger] l[m], Run::KeyChars) by {
        assert(l[m] == l.subrange(s, ke)[m - s]);
    }
    lemma_run_end_at(l, s, ke, Run::KeyChars);
    assert(l.subrange(s, ke) == k);
    assert forall|m: int| q < m < e implies l[m] != '"' by {
        assert(l[m] == l.subrange(q + 1, e)[m - q - 1]);
    }
    law_quoted_value_read(l, q, e);
    assert(attribute_pair_at(l, s) == Some((k, SpecAttributeValue::Quoted(v), e + 1)));
    lemma_run_end_at(l, e + 1, e + 1, Run::Spaces);
    let one = Map::<Seq<char>, SpecAttributeValue>::empty().insert(k, SpecAttributeValue::Quoted(v));
    assert(spaced_attributes_at(l, e + 1, one) == (one, e + 1));
}

/// An `#EXTINF:` line whose duration `d` ends at `a`, whose attributes from `a` are `m` up to
/// `c`, and which has a `,` at `c`: what it holds.
proof fn lemma_extinf_line_shape(
    l: Seq<char>,
    d: Seq<char>,
    m: Map<Seq<char>, SpecAttributeValue>,
    c: int,
)
    requires
        8 + d.len() <= c < l.len(),
        l.subrange(0, 8) == extinf_tag(),
        l.subrange(8, 8 + d.len() as int) == d,
        is_decimal_text(d),
        !is_digit(l[8 + d.len() as int]),
        l[8 + d.len() as int] != '.',
        spaced_attributes_at(l, 8 + d.len() as int, Map::empty()) == (m, c),
        l[c] == ',',
    ensures
        playlist_line(l) == Some(
            SpecLine::ExtInf(
                SpecExtInf {
                    duration: d,
                    title: if trim(l.subrange(c + 1, l.len() as int)).len() == 0 {
                        None
                    } else {
                        Some(trim(l.subrange(c + 1, l.len() as int)))
                    },
                    attributes: m,
                },
            ),
        ),
{
    assert(l[4] == l.subrange(0, 8)[4]);
    assert(l[1] == l.subrange(0, 8)[1]);
    assert(l.subrange(0, 7)[4] == l[4]);
    assert(l.subrange(0, 10)[1] == l[1] || l.len() < 10);
    assert(l.subrange(0, 8) =~= extinf_tag());
    law_duration_read_whole(l, 8, d);
    let kk = choose|kk: int| decimal_text_at(d, kk);
    assert(l[8] == l.subrange(8, 8 + d.len() as int)[0]);
    lemma_run_end_at(l, 8, 8, Run::Spaces);
    lemma_run_end_at(l, c, c, Run::Spaces);
}

/// Where the parts of `#EXTINF:` `d` ` ` `k` `="` `v` `",` `t` stand.
proof fn lemma_quoted_line_layout(d: Seq<char>, k: Seq<char>, v: Seq<char>, t: Seq<char>)
    ensures
        ({
            let l = extinf_tag() + d + seq![' '] + k + seq!['=', '"'] + v + seq!['"', ','] + t;
            let a = 8 + d.len() as int;
            let c = a + 4 + k.len() + v.len();
            &&& c < l.len()
            &&& l.subrange(0, 8) == extinf_tag()
            &&& l.subrange(8, a) == d
            &&& l[a] == ' '
            &&& l.subrange(a + 1, a + 1 + k.len()) == k
            &&& l[a + 1 + k.len()] == '='
            &&& l[a + 2 + k.len()] == '"'
            &&& l.subrange(a + 3 + k.len(), a + 3 + k.len() + v.len()) == v
            &&& l[c - 1] == '"'
            &&& l[c] == ','
            &&& l.subrange(c + 1, l.len() as int) == t
        }),
{
    let head = extinf_tag() + d;
    let with_key = head + seq![' '] + k;
    let with_value = with_key + seq!['=', '"'] + v;
    let l = with_value + seq!['"', ','] + t;
    let a = 8 + d.len() as int;
    let c = with_value.len() as int + 1;
    assert(l.subrange(0, 8) =~= extinf_tag()) by {
        assert(head.subrange(0, 8) =~= extinf_tag());
    }
    assert(l.subrange(8, a) =~= d) by {
        assert(head.subrange(8, a) =~= d);
    }
    assert(l[a] == ' ') by {
        assert(with_key[a] == ' ');
    }
    assert(l.subrange(a + 1, a + 1 + k.len()) =~= k) by {
        assert(with_key.subrange(a + 1, a + 1 + k.len()) =~= k);
    }
    assert(l[a + 1 + k.len()] == '=' && l[a + 2 + k.len()] == '"') by {
        assert(with_value[a + 1 + k.len()] == '=');
        assert(with_value[a + 2 + k.len()] == '"');
    }
    assert(l.subrange(a + 3 + k.len(), a + 3 + k.len() + v.len()) =~= v) by {
        assert(with_value.subrange(a + 3 + k.len(), a + 3 + k.len() + v.len()) =~= v);
    }
    assert(l[c - 1] == '"' && l[c] == ',');
    assert(l.subrange(c + 1, l.len() as int) =~= t);
}

/// An `#EXTINF` line with one quoted attribute: for decimal text `d`, a key `k`, a value `v`
/// without `"` and any text `t`, the line `#EXTINF:` `d` ` ` `k` `="` `v` `",` `t` has duration
/// `d`, the one attribute `k` bound to the quoted `v`, and as title `t` trimmed, where that is
/// not empty.
pub proof fn law_extinf_quoted_attribute(d: Seq<char>, k: Seq<char>, v: Seq<char>, t: Seq<char>)
    requires
        is_decimal_text(d),
        is_key(k),
        forall|m: int| 0 <= m < v.len() ==> v[m] != '"',
    ensures
        playlist_line(
            extinf_tag() + d + seq![' '] + k + seq!['=', '"'] + v + seq!['"', ','] + t,
        ) == Some(
            SpecLine::ExtInf(
                SpecExtInf {
                    duration: d,
                    title: if trim(t).len() == 0 {
                        None
                    } else {
                        Some(trim(t))
                    },
                    attributes: Map::<Seq<char>, SpecAttributeValue>::empty().insert(
                        k,
                        SpecAttributeValue::Quoted(v),
                    ),
                },
            ),
        ),
{
    let l = extinf_tag() + d + seq![' '] + k + seq!['=', '"'] + v + seq!['"', ','] + t;
    let a = 8 + d.len() as int;
    let c = a + 4 + k.len() + v.len();
    lemma_quoted_line_layout(d, k, v, t);
    lemma_one_quoted_attribute(l, k, v, a);
    lemma_extinf_line_shape(
        l,
        d,
        Map::<Seq<char>, SpecAttributeValue>::empty().insert(k, SpecAttributeValue::Quoted(v)),
        c,
    );
}

/// A line that starts with `#` but with none of `#EXTM3U`, `#PLAYLIST:`, `#EXTINF:` and
/// `#EXTGRP:` is a comment.
pub proof fn law_comment_line(l: Seq<char>)
    requires
        l.len() > 0,
        l[0] == '#',
        !starts_with(l, extm3u_tag()),
        !starts_with(l, playlist_tag()),
        !starts_with(l, extinf_tag()),
        !starts_with(l, extgrp_tag()),
    ensures
        playlist_line(l) == Some(SpecLine::Comment),
{
}

proof fn lemma_run_extinf(lines: Seq<Seq<char>>, i: int, st: ParseState)
    requires
        0 <= i <= lines.len(),
        entries_follow_lines(lines, i, st),
    ensures
        run_lines(lines, i, st) is Ok ==> forall|j: int|
            i <= j < lines.len() && (#[trigger] line_kind(lines[j]) matches Some(
                SpecLine::ExtInf(_),
            )) ==> pending_extinf(lines.take(j)) is None,
    decreases lines.len() - i,
{
    if i < lines.len() {
        lemma_step_follows(lines, i, st);
        if let Ok(next) = step(st, i + 1, lines[i]) {
            lemma_run_extinf(lines, i + 1, next);
        }
    }
}

/// In a parsed playlist every `#EXTINF` line is followed by a location line before the next
/// `#EXTINF` line and before the end.
pub proof fn law_every_extinf_has_location(input: Seq<char>)
    ensures
        parsed(input) matches Ok(playlist) ==> raw_lines(input) matches Some(lines) && {
            &&& pending_extinf(lines) is None
            &&& forall|j: int|
                0 <= j < lines.len() && (#[trigger] line_kind(lines[j]) matches Some(
                    SpecLine::ExtInf(_),
                )) ==> pending_extinf(lines.take(j)) is None
        },
{
    if let Some(lines) = raw_lines(input) {
        let init = crate::m3u::initial_state();
        assert(lines.take(0) =~= Seq::<Seq<char>>::empty());
        lemma_run_follows(lines, 0, init);
        lemma_run_extinf(lines, 0, init);
        assert(lines.take(lines.len() as int) =~= lines);
    }
}

} // verus!
