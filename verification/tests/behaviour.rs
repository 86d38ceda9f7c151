use channarr::m3u::{parse, AttributeValue, Attributes, ParseError, ParseErrorKind};

fn entry_with(extinf_attributes: &str) -> channarr::m3u::Entry {
    let input = format!("#EXTM3U\n#EXTINF:-1 {extinf_attributes},Name\nhttp://example.com/x\n");
    parse(&input).unwrap().entries.remove(0)
}

#[test]
fn crlf_and_lf_parse_alike() {
    let lf = "#EXTM3U a=\"1\"\n#EXTGRP:G\n#EXTINF:10 tvg-id=\"x\",T\nhttp://a\n\n# c\nhttp://b\n";
    let crlf = lf.replace('\n', "\r\n");
    assert_eq!(parse(lf), parse(&crlf));
    assert!(parse(lf).is_ok());
}

#[test]
fn final_line_feed_changes_nothing() {
    for input in ["#EXTM3U\nhttp://a", "http://a\n", "", "#EXTINF:1,x", "#EXTM3U\n#EXTM3U"] {
        assert_eq!(parse(input), parse(&format!("{input}\n")));
    }
}

#[test]
fn entries_are_well_formed() {
    let playlist = parse("  http://a  \n\u{feff}b\t\n#EXTINF:2,  spaced title  \n c \n").unwrap();
    let locations: Vec<&str> = playlist.entries.iter().map(|e| e.location.as_str()).collect();
    assert_eq!(locations, vec!["http://a", "b", "c"]);
    assert_eq!(playlist.entries[2].title.as_deref(), Some("spaced title"));
    assert_eq!(playlist.entries[0].title, None);
    assert_eq!(playlist.entries[0].duration, None);
    assert!(playlist.entries[0].attributes.get("x").is_none());
}

#[test]
fn durations_keep_their_decimal_text() {
    let playlist = parse("#EXTINF:+3.50,a\nx\n#EXTINF: -1,b\ny\n#EXTINF:007\nz\n").unwrap();
    let durations: Vec<Option<&str>> =
        playlist.entries.iter().map(|e| e.duration.as_deref()).collect();
    assert_eq!(durations, vec![Some("+3.50"), Some("-1"), Some("007")]);
    let seconds: Vec<f64> = playlist
        .entries
        .iter()
        .map(|e| e.duration.as_deref().unwrap().parse::<f64>().unwrap())
        .collect();
    assert_eq!(seconds, vec![3.5, -1.0, 7.0]);
}

#[test]
fn channel_numbers_read_decimal_u32() {
    assert_eq!(entry_with("tvg-chno=0").channel_number(), Some(0));
    assert_eq!(entry_with("tvg-chno=\"+12\"").channel_number(), Some(12));
    assert_eq!(entry_with("tvg-chno=007").channel_number(), Some(7));
    assert_eq!(entry_with("tvg-chno=4294967295").channel_number(), Some(u32::MAX));
    assert_eq!(entry_with("tvg-chno=4294967296").channel_number(), None);
    assert_eq!(entry_with("tvg-chno=-1").channel_number(), None);
    assert_eq!(entry_with("tvg-chno=\"\"").channel_number(), None);
    assert_eq!(entry_with("tvg-chno=\"+\"").channel_number(), None);
    assert_eq!(entry_with("tvg-chno=12a").channel_number(), None);
    assert_eq!(entry_with("tvg-id=1").channel_number(), None);
    for n in [0u32, 9, 10, 99, 12345, u32::MAX] {
        assert_eq!(entry_with(&format!("tvg-chno={n}")).channel_number(), Some(n));
    }
}

#[test]
fn radio_flag_ignores_ascii_case() {
    assert!(entry_with("radio=YES").is_radio());
    assert!(entry_with("radio=\"True\"").is_radio());
    assert!(entry_with("radio=1").is_radio());
    assert!(!entry_with("radio=no").is_radio());
    assert!(!entry_with("radio=\"true \"").is_radio());
    assert!(!entry_with("tvg-id=1").is_radio());
}

#[test]
fn invalid_playlist_for_lone_carriage_return() {
    let expected = ParseError { line: None, kind: ParseErrorKind::InvalidPlaylist };
    assert_eq!(parse("http://a\rhttp://b"), Err(expected.clone()));
    assert_eq!(parse("http://a\r"), Err(expected.clone()));
    assert_eq!(parse("\r"), Err(expected));
    assert!(parse("http://a\r\n").is_ok());
}

#[test]
fn invalid_lines_are_reported_with_their_number() {
    let error = parse("#EXTM3U\n\n#EXTM3U8\n").unwrap_err();
    assert_eq!(error.line, Some(3));
    assert_eq!(error.kind, ParseErrorKind::InvalidLine("#EXTM3U8".to_string()));

    let error = parse("  #EXTINF:-1 foo  \nhttp://a").unwrap_err();
    assert_eq!(error.line, Some(1));
    assert_eq!(error.kind, ParseErrorKind::InvalidLine("#EXTINF:-1 foo".to_string()));

    let error = parse("#EXTINF:1.\nhttp://a").unwrap_err();
    assert_eq!(error.kind, ParseErrorKind::InvalidLine("#EXTINF:1.".to_string()));

    let error = parse("#EXTM3U x=\n").unwrap_err();
    assert_eq!(error.kind, ParseErrorKind::InvalidLine("#EXTM3U x=".to_string()));

    let playlist = parse("#EXTM3U x=\"unclosed\n").unwrap();
    assert_eq!(playlist.attributes.get("x"), Some(&AttributeValue::Unquoted("\"unclosed".to_string())));
}

#[test]
fn extinf_without_a_duration_is_a_comment() {
    let playlist = parse("#EXTINF:abc\nhttp://a\n#EXTINF:+-1,x\nhttp://b").unwrap();
    assert_eq!(playlist.entries.len(), 2);
    assert_eq!(playlist.entries[0].duration, None);
    assert_eq!(playlist.entries[1].title, None);
}

#[test]
fn second_extinf_before_a_location_is_an_error() {
    let error = parse("#EXTINF:1,a\n\n#EXTINF:2,b\nhttp://x").unwrap_err();
    assert_eq!(error.line, Some(3));
    assert_eq!(error.kind, ParseErrorKind::MissingLocation { extinf_line: 1 });

    let error = parse("http://x\n#EXTINF:1,a").unwrap_err();
    assert_eq!(error.line, None);
    assert_eq!(error.kind, ParseErrorKind::MissingLocation { extinf_line: 2 });
}

#[test]
fn header_rules() {
    let playlist = parse("\n \n\u{feff}#EXTM3U\thttp-x=1 y=\"2 3\"  \nhttp://a").unwrap();
    assert!(playlist.extended);
    assert_eq!(playlist.attributes.get("http-x"), Some(&AttributeValue::Unquoted("1".to_string())));
    assert_eq!(playlist.attributes.get("y"), Some(&AttributeValue::Quoted("2 3".to_string())));

    let error = parse("#EXTM3U\n#EXTM3U").unwrap_err();
    assert_eq!(error.line, Some(2));
    assert_eq!(error.kind, ParseErrorKind::UnexpectedHeader);
}

#[test]
fn playlist_title_is_the_last_one() {
    let playlist = parse("#PLAYLIST:  First \n#PLAYLIST:Second\n").unwrap();
    assert_eq!(playlist.title.as_deref(), Some("Second"));
    let playlist = parse("#PLAYLIST:").unwrap();
    assert_eq!(playlist.title.as_deref(), Some(""));
    assert!(!playlist.extended);
}

#[test]
fn attribute_values() {
    let entry = entry_with("a=1 a=2 q=\"x, y\" open=\"z");
    assert_eq!(entry.attributes.get("a"), Some(&AttributeValue::Unquoted("2".to_string())));
    assert_eq!(entry.attribute("q"), Some("x, y"));
    assert!(entry.attributes.get("q").unwrap().is_quoted());
    assert_eq!(entry.attributes.get("open"), Some(&AttributeValue::Unquoted("\"z".to_string())));
    assert!(!entry.attributes.get("open").unwrap().is_quoted());
    assert_eq!(entry.title.as_deref(), Some("Name"));
    assert!(entry.attributes.contains_key("a"));
    assert!(!entry.attributes.contains_key("b"));
}

#[test]
fn group_comes_from_group_title_then_tvg_group_then_extgrp() {
    let playlist = parse(
        "#EXTGRP:Outer\nhttp://0\n#EXTINF:1 tvg-group=\"T\",a\nhttp://1\n#EXTINF:1 tvg-group=T group-title=\"G\",b\nhttp://2\n#EXTINF:1,c\nhttp://3\n#EXTGRP:  Inner  \nhttp://4\n",
    )
    .unwrap();
    let groups: Vec<Option<&str>> = playlist.entries.iter().map(|e| e.group.as_deref()).collect();
    assert_eq!(groups, vec![Some("Outer"), Some("T"), Some("G"), Some("Outer"), Some("Inner")]);
}

#[test]
fn empty_titles_are_none() {
    let playlist = parse("#EXTINF:5,   \nhttp://a\n#EXTINF:5\nhttp://b").unwrap();
    assert_eq!(playlist.entries[0].title, None);
    assert_eq!(playlist.entries[1].title, None);
    assert_eq!(playlist.entries[0].duration.as_deref(), Some("5"));
}

#[test]
fn error_messages() {
    let message = |line, kind| ParseError { line, kind }.to_string();
    assert_eq!(
        message(Some(12), ParseErrorKind::InvalidLine("x y".to_string())),
        "invalid M3U line 12: x y"
    );
    assert_eq!(message(None, ParseErrorKind::InvalidLine("x".to_string())), "invalid M3U line: x");
    assert_eq!(
        message(Some(3), ParseErrorKind::UnexpectedHeader),
        "#EXTM3U header must be the first non-empty line, found on line 3"
    );
    assert_eq!(
        message(None, ParseErrorKind::UnexpectedHeader),
        "#EXTM3U header must be the first non-empty line"
    );
    assert_eq!(
        message(Some(9), ParseErrorKind::MissingLocation { extinf_line: 105 }),
        "#EXTINF on line 105 is missing a following location"
    );
    assert_eq!(message(Some(1), ParseErrorKind::InvalidPlaylist), "invalid M3U playlist");
    assert_eq!(
        parse("#EXTM3U\n#EXTINF:-1,Missing\n").unwrap_err().to_string(),
        "#EXTINF on line 2 is missing a following location"
    );
}

#[test]
fn attribute_value_display() {
    assert_eq!(AttributeValue::Quoted("a b".to_string()).to_string(), "\"a b\"");
    assert_eq!(AttributeValue::Unquoted("ab".to_string()).to_string(), "ab");
    assert_eq!(AttributeValue::Quoted("a".to_string()).as_str(), "a");
    assert!(!AttributeValue::Unquoted("a".to_string()).is_quoted());
}

#[test]
fn attribute_tables_bind_each_key_once() {
    let mut table = Attributes::new();
    assert_eq!(table.get("k"), None);
    table.insert("k".to_string(), AttributeValue::Unquoted("1".to_string()));
    table.insert("j".to_string(), AttributeValue::Quoted("2".to_string()));
    table.insert("k".to_string(), AttributeValue::Quoted("3".to_string()));
    assert_eq!(table.get("k"), Some(&AttributeValue::Quoted("3".to_string())));
    assert_eq!(table.get("j"), Some(&AttributeValue::Quoted("2".to_string())));

    let mut other = Attributes::new();
    other.insert("j".to_string(), AttributeValue::Quoted("2".to_string()));
    other.insert("k".to_string(), AttributeValue::Quoted("3".to_string()));
    assert!(table == other);
    other.insert("k".to_string(), AttributeValue::Unquoted("3".to_string()));
    assert!(table != other);
    other.insert("k".to_string(), AttributeValue::Quoted("3".to_string()));
    other.insert("extra".to_string(), AttributeValue::Quoted("".to_string()));
    assert!(table != other);
}

#[test]
fn header_attribute_order_does_not_matter() {
    let a = parse("#EXTM3U a=1 b=2").unwrap();
    let b = parse("#EXTM3U b=2 a=1").unwrap();
    assert_eq!(a, b);
}

#[test]
fn blank_lines_change_nothing_but_error_line_numbers() {
    let with_blank = "#EXTM3U\n#EXTINF:1,a\n\nhttp://a\n";
    let without = "#EXTM3U\n#EXTINF:1,a\nhttp://a\n";
    assert_eq!(parse(with_blank), parse(without));

    let with_blank = parse("http://a\n\n#EXTM3U\n").unwrap_err();
    let without = parse("http://a\n#EXTM3U\n").unwrap_err();
    assert_eq!(with_blank.kind, without.kind);
    assert_eq!(with_blank.line, Some(3));
    assert_eq!(without.line, Some(2));
}

#[test]
fn one_entry_per_location_line_in_order() {
    let playlist =
        parse("#EXTM3U\n# note\nhttp://1\n#EXTGRP:g\n#PLAYLIST:t\nhttp://2\n#EXTINF:3\nhttp://3\n")
            .unwrap();
    let locations: Vec<&str> = playlist.entries.iter().map(|e| e.location.as_str()).collect();
    assert_eq!(locations, vec!["http://1", "http://2", "http://3"]);
}

#[test]
fn attribute_tables_count_and_list_their_keys() {
    let mut table = Attributes::new();
    assert_eq!(table.len(), 0);
    assert!(table.keys().is_empty());
    table.insert("b".to_string(), AttributeValue::Unquoted("1".to_string()));
    table.insert("a".to_string(), AttributeValue::Unquoted("2".to_string()));
    table.insert("b".to_string(), AttributeValue::Quoted("3".to_string()));
    assert_eq!(table.len(), 2);
    assert_eq!(table.keys(), vec!["b".to_string(), "a".to_string()]);

    let copy = table.clone();
    assert!(copy == table);
    assert_eq!(copy.get("b"), Some(&AttributeValue::Quoted("3".to_string())));

    let entry = entry_with("x=1 y=\"2\" x=3");
    assert_eq!(entry.attributes.len(), 2);
    assert_eq!(entry.attributes.keys(), vec!["x".to_string(), "y".to_string()]);
}

#[test]
fn lone_carriage_return_rejects_the_whole_playlist() {
    for input in ["#EXTM3U\n#EXTINF:1,a\rb\nhttp://a", "\r#EXTM3U", "a\r\r\n"] {
        let error = parse(input).unwrap_err();
        assert_eq!(error, ParseError { line: None, kind: ParseErrorKind::InvalidPlaylist });
    }
    for input in ["#EXTM3U\r\nhttp://a\r\n", "a\r\nb\n#EXTM3U"] {
        assert_ne!(
            parse(input).err().map(|e| e.kind),
            Some(ParseErrorKind::InvalidPlaylist)
        );
    }
}

#[test]
fn extinf_reaches_only_the_next_entry() {
    let playlist = parse(
        "#EXTGRP:Base\n#EXTINF:1 group-title=\"News\",a\nhttp://1\nhttp://2\n#EXTINF:2 tvg-group=\"T\",b\n#EXTGRP:Later\nhttp://3\n",
    )
    .unwrap();
    let groups: Vec<Option<&str>> = playlist.entries.iter().map(|e| e.group.as_deref()).collect();
    assert_eq!(groups, vec![Some("News"), Some("Base"), Some("T")]);
    assert_eq!(playlist.entries[1].duration, None);
    assert_eq!(playlist.entries[2].title.as_deref(), Some("b"));
}

#[test]
fn locations_are_the_plain_cleaned_lines() {
    let input = "\u{feff}#EXTM3U\n\n  first \n# comment\n\t#EXTGRP:g\nsecond\n";
    let playlist = parse(input).unwrap();
    let expected: Vec<&str> = input
        .lines()
        .map(|l| l.strip_prefix('\u{feff}').unwrap_or(l).trim())
        .filter(|l| !l.is_empty() && !l.starts_with('#'))
        .collect();
    let locations: Vec<&str> = playlist.entries.iter().map(|e| e.location.as_str()).collect();
    assert_eq!(locations, expected);
    assert!(playlist.extended);
}
