use channarr::m3u::{parse, AttributeValue, ParseErrorKind};

fn seconds(duration: &Option<String>) -> Option<f64> {
    duration.as_deref().map(|d| d.parse::<f64>().unwrap())
}

#[test]
fn parses_standard_m3u_locations() {
    let playlist = parse(
        r#"# plain comment
C:\Music\Heavysets.mp3
relative/song.mp3
https://example.com/radio
"#,
    )
    .unwrap();

    assert!(!playlist.extended);
    assert_eq!(playlist.entries.len(), 3);
    assert_eq!(playlist.entries[0].location, r"C:\Music\Heavysets.mp3");
    assert_eq!(playlist.entries[1].location, "relative/song.mp3");
    assert_eq!(playlist.entries[2].location, "https://example.com/radio");
    assert_eq!(seconds(&playlist.entries[0].duration), None);
}

#[test]
fn parses_extended_m3u_entries() {
    let playlist = parse(
        "#EXTM3U\r\n#PLAYLIST:Music TV\r\n#EXTINF:419,Alice in Chains - Rotten Apple\r\nAlice in Chains_Jar of Flies_01_Rotten Apple.mp3\r\n",
    )
    .unwrap();

    assert!(playlist.extended);
    assert_eq!(playlist.title.as_deref(), Some("Music TV"));
    assert_eq!(playlist.entries.len(), 1);

    let entry = &playlist.entries[0];
    assert_eq!(seconds(&entry.duration), Some(419.0));
    assert_eq!(
        entry.title.as_deref(),
        Some("Alice in Chains - Rotten Apple")
    );
    assert_eq!(
        entry.location,
        "Alice in Chains_Jar of Flies_01_Rotten Apple.mp3"
    );
}

#[test]
fn parses_iptv_extinf_attributes() {
    let playlist = parse(
        r#"#EXTM3U x-tvg-url="https://example.com/epg.xml"
#EXTINF:-1 tvg-id="123" tvg-name="Channel Name" tvg-logo="http://example.com/logo.png" group-title="Examples" tvg-chno="12" tvg-country="NZ" tvg-language="English" radio=true, Channel Name
rtsp://example.com/stream
"#,
    )
    .unwrap();

    assert_eq!(
        playlist
            .attributes
            .get("x-tvg-url")
            .map(AttributeValue::as_str),
        Some("https://example.com/epg.xml")
    );

    let entry = &playlist.entries[0];
    assert_eq!(seconds(&entry.duration), Some(-1.0));
    assert_eq!(entry.title.as_deref(), Some("Channel Name"));
    assert_eq!(entry.location, "rtsp://example.com/stream");
    assert_eq!(entry.group.as_deref(), Some("Examples"));
    assert_eq!(entry.tvg_id(), Some("123"));
    assert_eq!(entry.tvg_name(), Some("Channel Name"));
    assert_eq!(entry.tvg_logo(), Some("http://example.com/logo.png"));
    assert_eq!(entry.tvg_chno(), Some("12"));
    assert_eq!(entry.channel_number(), Some(12));
    assert_eq!(entry.tvg_country(), Some("NZ"));
    assert_eq!(entry.tvg_language(), Some("English"));
    assert!(entry.is_radio());
    assert_eq!(
        entry.attributes.get("radio"),
        Some(&AttributeValue::Unquoted("true".to_string()))
    );
}

#[test]
fn applies_extgrp_to_following_locations() {
    let playlist = parse(
        r#"#EXTM3U
#EXTGRP:Foreign Channels
#EXTINF:-1,Channel
http://example.com/channel
http://example.com/backup
"#,
    )
    .unwrap();

    assert_eq!(playlist.entries.len(), 2);
    assert_eq!(
        playlist.entries[0].group.as_deref(),
        Some("Foreign Channels")
    );
    assert_eq!(
        playlist.entries[1].group.as_deref(),
        Some("Foreign Channels")
    );
}

#[test]
fn iptv_group_attribute_overrides_extgrp() {
    let playlist = parse(
        r#"#EXTM3U
#EXTGRP:Fallback Group
#EXTINF:-1 group-title="News",Channel
http://example.com/news
"#,
    )
    .unwrap();

    assert_eq!(playlist.entries[0].group.as_deref(), Some("News"));
}

#[test]
fn errors_when_extinf_has_no_location() {
    let error = parse("#EXTM3U\n#EXTINF:-1,Missing\n").unwrap_err();

    assert_eq!(
        error.kind,
        ParseErrorKind::MissingLocation { extinf_line: 2 }
    );
}

#[test]
fn errors_when_header_is_not_first_non_empty_line() {
    let error = parse("# comment\n#EXTM3U\nhttp://example.com").unwrap_err();

    assert_eq!(error.line, Some(2));
    assert_eq!(error.kind, ParseErrorKind::UnexpectedHeader);
}
