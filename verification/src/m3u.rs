//! Playlists in the M3U format and its extended (IPTV) form.
use vstd::prelude::*;

pub use crate::attributes::{AttributeValue, Attributes, SpecAttributeValue};
use crate::grammar::{
    chars_views, clean, clean_line, parse_lines, parse_playlist_line, playlist_line, raw_lines,
    PlaylistLine, SpecLine,
};
use crate::text::{
    ascii_lower, chars_of, decimal, parse_u32, parse_u32_decimal, push_decimal, same_chars,
    string_of, to_ascii_lower,
};

verus! {

/// The information of an `#EXTINF` line. The duration is kept as the decimal text that the line
/// gives (an optional sign, digits, and an optional fraction).
#[derive(Debug, Clone, PartialEq)]
pub struct ExtInf {
    pub duration: String,
    pub title: Option<String>,
    pub attributes: Attributes,
}

/// The model of an `#EXTINF` line.
pub struct SpecExtInf {
    pub duration: Seq<char>,
    pub title: Option<Seq<char>>,
    pub attributes: Map<Seq<char>, SpecAttributeValue>,
}

impl View for ExtInf {
    type V = SpecExtInf;

    open spec fn view(&self) -> SpecExtInf {
        SpecExtInf {
            duration: self.duration@,
            title: self.title.deep_view(),
            attributes: self.attributes@,
        }
    }
}

/// Where and why a playlist could not be parsed. `line` counts from 1.
#[derive(Debug, Clone, PartialEq, Eq)]
pub struct ParseError {
    pub line: Option<usize>,
    pub kind: ParseErrorKind,
}

#[derive(Debug, Clone, PartialEq, Eq)]
pub enum ParseErrorKind {
    /// The input does not split into lines.
    InvalidPlaylist,
    /// A line that no kind of line takes whole; it holds the line.
    InvalidLine(String),
    /// `#EXTM3U` where it is not the first non-blank line.
    UnexpectedHeader,
    /// An `#EXTINF` line that no location follows before the next `#EXTINF` or the end.
    MissingLocation { extinf_line: usize },
}

/// The model of a parse error.
pub struct SpecParseError {
    pub line: Option<int>,
    pub kind: SpecParseErrorKind,
}

pub enum SpecParseErrorKind {
    InvalidPlaylist,
    InvalidLine(Seq<char>),
    UnexpectedHeader,
    MissingLocation(int),
}

impl View for ParseErrorKind {
    type V = SpecParseErrorKind;

    open spec fn view(&self) -> SpecParseErrorKind {
        match self {
            ParseErrorKind::InvalidPlaylist => SpecParseErrorKind::InvalidPlaylist,
            ParseErrorKind::InvalidLine(l) => SpecParseErrorKind::InvalidLine(l@),
            ParseErrorKind::UnexpectedHeader => SpecParseErrorKind::UnexpectedHeader,
            ParseErrorKind::MissingLocation { extinf_line } => SpecParseErrorKind::MissingLocation(
                *extinf_line as int,
            ),
        }
    }
}

impl View for ParseError {
    type V = SpecParseError;

    open spec fn view(&self) -> SpecParseError {
        SpecParseError {
            line: match self.line {
                Some(n) => Some(n as int),
                None => None,
            },
            kind: self.kind@,
        }
    }
}

pub type M3uResult<T> = Result<T, ParseError>;

/// A parsed playlist.
#[derive(Debug, Clone, PartialEq)]
pub struct Playlist {
    /// Whether the playlist starts with an `#EXTM3U` header.
    pub extended: bool,
    /// The attributes of the header.
    pub attributes: Attributes,
    /// The title of the last `#PLAYLIST:` line.
    pub title: Option<String>,
    pub entries: Vec<Entry>,
}

/// One location of a playlist, with what the `#EXTINF` and `#EXTGRP` lines before it say.
#[derive(Debug, Clone, PartialEq)]
pub struct Entry {
    pub location: String,
    /// The duration that the `#EXTINF` line gives, as its decimal text.
    pub duration: Option<String>,
    pub title: Option<String>,
    pub attributes: Attributes,
    pub group: Option<String>,
}

/// The model of an entry.
pub struct SpecEntry {
    pub location: Seq<char>,
    pub duration: Option<Seq<char>>,
    pub title: Option<Seq<char>>,
    pub attributes: Map<Seq<char>, SpecAttributeValue>,
    pub group: Option<Seq<char>>,
}

/// The model of a playlist.
pub struct SpecPlaylist {
    pub extended: bool,
    pub attributes: Map<Seq<char>, SpecAttributeValue>,
    pub title: Option<Seq<char>>,
    pub entries: Seq<SpecEntry>,
}

impl View for Entry {
    type V = SpecEntry;

    open spec fn view(&self) -> SpecEntry {
        SpecEntry {
            location: self.location@,
            duration: self.duration.deep_view(),
            title: self.title.deep_view(),
            attributes: self.attributes@,
            group: self.group.deep_view(),
        }
    }
}

pub open spec fn entry_views(entries: Seq<Entry>) -> Seq<SpecEntry> {
    entries.map_values(|e: Entry| e@)
}

impl View for Playlist {
    type V = SpecPlaylist;

    open spec fn view(&self) -> SpecPlaylist {
        SpecPlaylist {
            extended: self.extended,
            attributes: self.attributes@,
            title: self.title.deep_view(),
            entries: entry_views(self.entries@),
        }
    }
}

/// An `#EXTINF` line that still waits for its location.
struct PendingExtInf {
    line: usize,
    info: ExtInf,
}

spec fn pending_view(p: Option<PendingExtInf>) -> Option<(int, SpecExtInf)> {
    match p {
        Some(p) => Some((p.line as int, p.info@)),
        None => None,
    }
}

/// The text of the attribute `key`, if it is there.
pub open spec fn attribute_text(
    attributes: Map<Seq<char>, SpecAttributeValue>,
    key: Seq<char>,
) -> Option<Seq<char>> {
    if attributes.contains_key(key) {
        Some(attributes[key].text())
    } else {
        None
    }
}

/// The entry for a location: with no `#EXTINF` before it, it has no duration, title or
/// attributes and belongs to the current `#EXTGRP` group; with one, it takes the line's
/// duration, title and attributes, and its group is the `group-title` attribute, else the
/// `tvg-group` attribute, else the current `#EXTGRP` group.
pub open spec fn new_entry(
    location: Seq<char>,
    pending: Option<(int, SpecExtInf)>,
    current_group: Option<Seq<char>>,
) -> SpecEntry {
    match pending {
        None => SpecEntry {
            location,
            duration: None,
            title: None,
            attributes: Map::empty(),
            group: current_group,
        },
        Some((_, info)) => SpecEntry {
            location,
            duration: Some(info.duration),
            title: info.title,
            attributes: info.attributes,
            group: entry_group(pending, current_group),
        },
    }
}

/// The group of an entry: with an `#EXTINF` line before it, its `group-title` attribute, else
/// its `tvg-group` attribute; else the group of the last `#EXTGRP` line.
pub open spec fn entry_group(
    pending: Option<(int, SpecExtInf)>,
    current_group: Option<Seq<char>>,
) -> Option<Seq<char>> {
    match pending {
        None => current_group,
        Some((_, info)) => match attribute_text(info.attributes, "group-title"@) {
            Some(g) => Some(g),
            None => match attribute_text(info.attributes, "tvg-group"@) {
                Some(g) => Some(g),
                None => current_group,
            },
        },
    }
}

/// What the parser knows after some lines.
pub struct ParseState {
    pub playlist: SpecPlaylist,
    /// Whether a non-blank line came before.
    pub seen_non_blank: bool,
    /// The group of the last `#EXTGRP` line.
    pub current_group: Option<Seq<char>>,
    /// The line number and content of an `#EXTINF` line that waits for its location.
    pub pending: Option<(int, SpecExtInf)>,
}

pub open spec fn initial_state() -> ParseState {
    ParseState {
        playlist: SpecPlaylist {
            extended: false,
            attributes: Map::empty(),
            title: None,
            entries: Seq::empty(),
        },
        seen_non_blank: false,
        current_group: None,
        pending: None,
    }
}

/// The state after the raw line `raw`, line number `number`, or the error that it gives.
/// Blank lines change nothing.
pub open spec fn step(st: ParseState, number: int, raw: Seq<char>) -> Result<
    ParseState,
    SpecParseError,
> {
    let line = clean_line(raw);
    let p = st.playlist;
    if line.len() == 0 {
        Ok(st)
    } else {
        match playlist_line(line) {
            None => Err(
                SpecParseError { line: Some(number), kind: SpecParseErrorKind::InvalidLine(line) },
            ),
            Some(SpecLine::Header(attributes)) => if st.seen_non_blank {
                Err(SpecParseError { line: Some(number), kind: SpecParseErrorKind::UnexpectedHeader })
            } else {
                Ok(
                    ParseState {
                        playlist: SpecPlaylist {
                            extended: true,
                            attributes,
                            title: p.title,
                            entries: p.entries,
                        },
                        seen_non_blank: true,
                        current_group: st.current_group,
                        pending: st.pending,
                    },
                )
            },
            Some(SpecLine::PlaylistTitle(title)) => Ok(
                ParseState {
                    playlist: SpecPlaylist {
                        extended: p.extended,
                        attributes: p.attributes,
                        title: Some(title),
                        entries: p.entries,
                    },
                    seen_non_blank: true,
                    current_group: st.current_group,
                    pending: st.pending,
                },
            ),
            Some(SpecLine::ExtInf(info)) => match st.pending {
                Some((extinf_line, _)) => Err(
                    SpecParseError {
                        line: Some(number),
                        kind: SpecParseErrorKind::MissingLocation(extinf_line),
                    },
                ),
                None => Ok(
                    ParseState {
                        playlist: p,
                        seen_non_blank: true,
                        current_group: st.current_group,
                        pending: Some((number, info)),
                    },
                ),
            },
            Some(SpecLine::ExtGrp(group)) => Ok(
                ParseState {
                    playlist: p,
                    seen_non_blank: true,
                    current_group: Some(group),
                    pending: st.pending,
                },
            ),
            Some(SpecLine::Comment) => Ok(
                ParseState {
                    playlist: p,
                    seen_non_blank: true,
                    current_group: st.current_group,
                    pending: st.pending,
                },
            ),
            Some(SpecLine::Location(location)) => Ok(
                ParseState {
                    playlist: SpecPlaylist {
                        extended: p.extended,
                        attributes: p.attributes,
                        title: p.title,
                        entries: p.entries.push(
                            new_entry(location, st.pending, st.current_group),
                        ),
                    },
                    seen_non_blank: true,
                    current_group: st.current_group,
                    pending: None,
                },
            ),
        }
    }
}

/// The state after the lines from index `i` on (line number `i + 1`), or the first error.
pub open spec fn run_lines(lines: Seq<Seq<char>>, i: int, st: ParseState) -> Result<
    ParseState,
    SpecParseError,
>
    decreases lines.len() - i,
{
    if 0 <= i < lines.len() {
        match step(st, i + 1, lines[i]) {
            Ok(next) => run_lines(lines, i + 1, next),
            Err(e) => Err(e),
        }
    } else {
        Ok(st)
    }
}

/// The playlist that `input` holds, or why it holds none.
pub open spec fn parsed(input: Seq<char>) -> Result<SpecPlaylist, SpecParseError> {
    match raw_lines(input) {
        None => Err(SpecParseError { line: None, kind: SpecParseErrorKind::InvalidPlaylist }),
        Some(lines) => match run_lines(lines, 0, initial_state()) {
            Err(e) => Err(e),
            Ok(st) => match st.pending {
                Some((extinf_line, _)) => Err(
                    SpecParseError {
                        line: None,
                        kind: SpecParseErrorKind::MissingLocation(extinf_line),
                    },
                ),
                None => Ok(st.playlist),
            },
        },
    }
}

spec fn state_of(
    playlist: Playlist,
    seen_non_blank: bool,
    current_group: Option<String>,
    pending: Option<PendingExtInf>,
) -> ParseState {
    ParseState {
        playlist: playlist@,
        seen_non_blank,
        current_group: current_group.deep_view(),
        pending: pending_view(pending),
    }
}

fn clone_option(s: &Option<String>) -> (r: Option<String>)
    ensures
        r.deep_view() == s.deep_view(),
{
    match s {
        Some(s) => Some(s.clone()),
        None => None,
    }
}

/// Parses a playlist.
pub fn parse(input: &str) -> (r: M3uResult<Playlist>)
    ensures
        match r {
            Ok(playlist) => parsed(input@) == Ok::<SpecPlaylist, SpecParseError>(playlist@),
            Err(e) => parsed(input@) == Err::<SpecPlaylist, SpecParseError>(e@),
        },
{
    let chars = chars_of(input);
    let lines = match parse_lines(&chars) {
        Some(lines) => lines,
        None => {
            return Err(ParseError { line: None, kind: ParseErrorKind::InvalidPlaylist });
        },
    };
    let ghost views = chars_views(lines@);
    let mut playlist = Playlist {
        extended: false,
        attributes: Attributes::new(),
        title: None,
        entries: Vec::new(),
    };
    let mut seen_non_blank = false;
    let mut current_group: Option<String> = None;
    let mut pending_extinf: Option<PendingExtInf> = None;
    assert(entry_views(playlist.entries@) =~= Seq::<SpecEntry>::empty());
    let mut index: usize = 0;
    while index < lines.len()
        invariant
            index <= lines.len(),
            views == chars_views(lines@),
            raw_lines(input@) == Some(views),
            run_lines(views, 0, initial_state()) == run_lines(
                views,
                index as int,
                state_of(playlist, seen_non_blank, current_group, pending_extinf),
            ),
        decreases lines.len() - index,
    {
        let line_number = index + 1;
        let line = clean(&lines[index]);
        let ghost before = state_of(playlist, seen_non_blank, current_group, pending_extinf);
        assert(views[index as int] == lines@[index as int]@);
        if line.len() == 0 {
            index += 1;
            continue;
        }
        let parsed_line = match parse_playlist_line(&line) {
            Ok(parsed_line) => parsed_line,
            Err(_) => {
                return Err(
                    ParseError {
                        line: Some(line_number),
                        kind: ParseErrorKind::InvalidLine(string_of(&line)),
                    },
                );
            },
        };
        match parsed_line {
            PlaylistLine::Header(attributes) => {
                if seen_non_blank {
                    return Err(
                        ParseError { line: Some(line_number), kind: ParseErrorKind::UnexpectedHeader },
                    );
                }
                playlist.extended = true;
                playlist.attributes = attributes;
            },
            PlaylistLine::PlaylistTitle(title) => {
                playlist.title = Some(title);
            },
            PlaylistLine::ExtInf(info) => {
                match pending_extinf {
                    Some(pending) => {
                        return Err(
                            ParseError {
                                line: Some(line_number),
                                kind: ParseErrorKind::MissingLocation { extinf_line: pending.line },
                            },
                        );
                    },
                    None => {},
                }
                pending_extinf = Some(PendingExtInf { line: line_number, info });
            },
            PlaylistLine::ExtGrp(group) => {
                current_group = Some(group);
            },
            PlaylistLine::Comment => {},
            PlaylistLine::Location(location) => {
                let pending = pending_extinf;
                pending_extinf = None;
                let entry = Entry::new(location, pending, clone_option(&current_group));
                let ghost old_entries = playlist.entries@;
                playlist.entries.push(entry);
                assert(entry_views(playlist.entries@) =~= entry_views(old_entries).push(entry@));
            },
        }
        seen_non_blank = true;
        index += 1;
    }
    match pending_extinf {
        Some(pending) => {
            return Err(
                ParseError {
                    line: None,
                    kind: ParseErrorKind::MissingLocation { extinf_line: pending.line },
                },
            );
        },
        None => {},
    }
    Ok(playlist)
}

impl Entry {
    fn new(location: String, pending: Option<PendingExtInf>, current_group: Option<String>) -> (r:
        Entry)
        ensures
            r@ == new_entry(location@, pending_view(pending), current_group.deep_view()),
    {
        match pending {
            None => Entry {
                location,
                duration: None,
                title: None,
                attributes: Attributes::new(),
                group: current_group,
            },
            Some(pending) => {
                let group = match attribute(&pending.info.attributes, "group-title") {
                    Some(g) => Some(g.to_owned()),
                    None => match attribute(&pending.info.attributes, "tvg-group") {
                        Some(g) => Some(g.to_owned()),
                        None => current_group,
                    },
                };
                Entry {
                    location,
                    duration: Some(pending.info.duration),
                    title: pending.info.title,
                    attributes: pending.info.attributes,
                    group,
                }
            },
        }
    }
}

/// The text of the attribute `key` of `attributes`, if it is there.
fn attribute<'a>(attributes: &'a Attributes, key: &str) -> (r: Option<&'a str>)
    ensures
        r.deep_view() == attribute_text(attributes@, key@),
{
    match attributes.get(key) {
        Some(value) => Some(value.as_str()),
        None => None,
    }
}

/// `t` with ASCII capitals in lowercase.
pub open spec fn lower_ascii(t: Seq<char>) -> Seq<char> {
    t.map_values(|c: char| ascii_lower(c))
}

/// Whether an attribute value says yes: `true`, `1` or `yes`, in any ASCII case.
pub open spec fn says_yes(t: Seq<char>) -> bool {
    let l = lower_ascii(t);
    l == "true"@ || l == "1"@ || l == "yes"@
}

fn lowercase_chars(v: &Vec<char>) -> (r: Vec<char>)
    ensures
        r@ == lower_ascii(v@),
{
    let mut r: Vec<char> = Vec::new();
    let mut i: usize = 0;
    while i < v.len()
        invariant
            i <= v.len(),
            r@ == lower_ascii(v@.subrange(0, i as int)),
        decreases v.len() - i,
    {
        r.push(to_ascii_lower(v[i]));
        assert(lower_ascii(v@.subrange(0, i + 1)) =~= lower_ascii(v@.subrange(0, i as int)).push(
            ascii_lower(v@[i as int]),
        ));
        i += 1;
    }
    assert(v@.subrange(0, v.len() as int) =~= v@);
    r
}

impl Entry {
    /// The text of the attribute `key`, if the entry has it.
    pub fn attribute(&self, key: &str) -> (r: Option<&str>)
        ensures
            r.deep_view() == attribute_text(self.attributes@, key@),
    {
        attribute(&self.attributes, key)
    }

    pub fn tvg_id(&self) -> (r: Option<&str>)
        ensures
            r.deep_view() == attribute_text(self.attributes@, "tvg-id"@),
    {
        self.attribute("tvg-id")
    }

    pub fn tvg_name(&self) -> (r: Option<&str>)
        ensures
            r.deep_view() == attribute_text(self.attributes@, "tvg-name"@),
    {
        self.attribute("tvg-name")
    }

    pub fn tvg_logo(&self) -> (r: Option<&str>)
        ensures
            r.deep_view() == attribute_text(self.attributes@, "tvg-logo"@),
    {
        self.attribute("tvg-logo")
    }

    pub fn tvg_chno(&self) -> (r: Option<&str>)
        ensures
            r.deep_view() == attribute_text(self.attributes@, "tvg-chno"@),
    {
        self.attribute("tvg-chno")
    }

    /// The channel number that `tvg-chno` gives, where it is a decimal `u32`.
    pub fn channel_number(&self) -> (r: Option<u32>)
        ensures
            r == match attribute_text(self.attributes@, "tvg-chno"@) {
                Some(t) => parse_u32(t),
                None => None,
            },
    {
        match self.tvg_chno() {
            Some(text) => parse_u32_decimal(text),
            None => None,
        }
    }

    pub fn tvg_country(&self) -> (r: Option<&str>)
        ensures
            r.deep_view() == attribute_text(self.attributes@, "tvg-country"@),
    {
        self.attribute("tvg-country")
    }

    pub fn tvg_language(&self) -> (r: Option<&str>)
        ensures
            r.deep_view() == attribute_text(self.attributes@, "tvg-language"@),
    {
        self.attribute("tvg-language")
    }

    /// Whether the `radio` attribute says yes.
    pub fn is_radio(&self) -> (r: bool)
        ensures
            r == match attribute_text(self.attributes@, "radio"@) {
                Some(t) => says_yes(t),
                None => false,
            },
    {
        match self.attribute("radio") {
            Some(value) => {
                let lower = lowercase_chars(&chars_of(value));
                same_chars(&lower, &chars_of("true")) || same_chars(&lower, &chars_of("1"))
                    || same_chars(&lower, &chars_of("yes"))
            },
            None => false,
        }
    }
}

/// The message that describes an error.
pub open spec fn message(e: SpecParseError) -> Seq<char> {
    match (e.line, e.kind) {
        (Some(line), SpecParseErrorKind::InvalidLine(content)) => "invalid M3U line "@ + decimal(
            line as nat,
        ) + ": "@ + content,
        (Some(line), SpecParseErrorKind::UnexpectedHeader) =>
            "#EXTM3U header must be the first non-empty line, found on line "@ + decimal(line as nat),
        (_, SpecParseErrorKind::MissingLocation(extinf_line)) => "#EXTINF on line "@ + decimal(
            extinf_line as nat,
        ) + " is missing a following location"@,
        (_, SpecParseErrorKind::InvalidPlaylist) => "invalid M3U playlist"@,
        (None, SpecParseErrorKind::InvalidLine(content)) => "invalid M3U line: "@ + content,
        (None, SpecParseErrorKind::UnexpectedHeader) =>
            "#EXTM3U header must be the first non-empty line"@,
    }
}

impl ParseError {
    /// The message that describes the error.
    pub fn to_string(&self) -> (r: String)
        ensures
            r@ == message(self@),
    {
        match (&self.line, &self.kind) {
            (Some(line), ParseErrorKind::InvalidLine(content)) => {
                let mut r = String::from_str("invalid M3U line ");
                push_decimal(&mut r, *line);
                r.append(": ");
                r.append(content.as_str());
                r
            },
            (Some(line), ParseErrorKind::UnexpectedHeader) => {
                let mut r = String::from_str(
                    "#EXTM3U header must be the first non-empty line, found on line ",
                );
                push_decimal(&mut r, *line);
                r
            },
            (_, ParseErrorKind::MissingLocation { extinf_line }) => {
                let mut r = String::from_str("#EXTINF on line ");
                push_decimal(&mut r, *extinf_line);
                r.append(" is missing a following location");
                r
            },
            (_, ParseErrorKind::InvalidPlaylist) => String::from_str("invalid M3U playlist"),
            (None, ParseErrorKind::InvalidLine(content)) => {
                let mut r = String::from_str("invalid M3U line: ");
                r.append(content.as_str());
                r
            },
            (None, ParseErrorKind::UnexpectedHeader) => String::from_str(
                "#EXTM3U header must be the first non-empty line",
            ),
        }
    }
}

} // verus!
