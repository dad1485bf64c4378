//! The signature grammar and the bus-name pattern matcher, exercised on
//! concrete texts.

use dbus_core::error::Error;
use dbus_core::pattern::Pattern;
use dbus_core::signature::parse;
use dbus_core::signature::parse_single;
use dbus_core::signature::to_text;
use dbus_core::signature::to_text_all;
use dbus_core::signature::Signature;

#[test]
fn parse_basic_codes() {
    let sigs = parse("ybnqiuxtdsogvh").unwrap();
    assert_eq!(sigs.len(), 14);
    assert_eq!(sigs[0], Signature::Byte);
    assert_eq!(sigs[9], Signature::Str);
    assert_eq!(sigs[12], Signature::Variant);
}

#[test]
fn parse_containers() {
    let sigs = parse("a{sv}").unwrap();
    assert_eq!(sigs.len(), 1);
    assert_eq!(
        sigs[0],
        Signature::Dict(Box::new(Signature::Str), Box::new(Signature::Variant))
    );
    let sigs = parse("aai").unwrap();
    assert_eq!(
        sigs[0],
        Signature::Array(Box::new(Signature::Array(Box::new(Signature::Int32))))
    );
    let sigs = parse("(ii)x").unwrap();
    assert_eq!(sigs.len(), 2);
    assert_eq!(
        sigs[0],
        Signature::Struct(vec![Signature::Int32, Signature::Int32])
    );
    assert_eq!(sigs[1], Signature::Int64);
}

#[test]
fn parse_rejects_malformed() {
    // unknown code
    assert_eq!(parse("z"), Err(Error::MalformedSignature));
    // unterminated containers
    assert_eq!(parse("(i"), Err(Error::MalformedSignature));
    assert_eq!(parse("a"), Err(Error::MalformedSignature));
    assert_eq!(parse("a{sv"), Err(Error::MalformedSignature));
    // a struct needs at least one member
    assert_eq!(parse("()"), Err(Error::MalformedSignature));
    // a dict key must be basic
    assert_eq!(parse("a{vs}"), Err(Error::MalformedSignature));
    assert_eq!(parse("a{(i)s}"), Err(Error::MalformedSignature));
    // a dict entry only directly after an array marker
    assert_eq!(parse("{sv}"), Err(Error::MalformedSignature));
}

#[test]
fn parse_single_rejects_trailing() {
    assert!(parse_single("i").is_ok());
    assert_eq!(parse_single("ii"), Err(Error::MalformedSignature));
    assert_eq!(parse_single(""), Err(Error::MalformedSignature));
}

#[test]
fn signature_text_round_trips() {
    for text in ["", "i", "a{sv}", "aai", "(ii)x", "a{s(aiv)}", "a{yv}((b))"] {
        let sigs = parse(text).unwrap();
        assert_eq!(to_text_all(&sigs).as_str(), text);
    }
    let one = parse_single("a{s(ai)}").unwrap();
    assert_eq!(to_text(&one).as_str(), "a{s(ai)}");
}

#[test]
fn pattern_rejects_inner_multi_level() {
    assert_eq!(
        Pattern::compile("org.**.mpris").err(),
        Some(Error::InvalidPattern)
    );
    assert_eq!(Pattern::compile("**.x").err(), Some(Error::InvalidPattern));
    assert!(Pattern::compile("org.mpris.**").is_ok());
    assert!(Pattern::compile("**").is_ok());
}

#[test]
fn single_level_wildcard_consumes_one_segment() {
    let p = Pattern::compile("org.freedesktop.*").unwrap();
    assert!(p.matches("org.freedesktop.DBus"));
    assert!(!p.matches("org.freedesktop.Management.Inhibit"));
    assert!(!p.matches("org.freedesktop"));
}

#[test]
fn multi_level_wildcard_consumes_all_trailing_segments() {
    let p = Pattern::compile("org.mpris.MediaPlayer2.**").unwrap();
    assert!(p.matches("org.mpris.MediaPlayer2.spotify"));
    assert!(p.matches("org.mpris.MediaPlayer2.kdeconnect.mpris_1"));
    // zero trailing segments are allowed too
    assert!(p.matches("org.mpris.MediaPlayer2"));
    assert!(!p.matches("org.mpris.MediaPlayerX"));
}

#[test]
fn literal_pattern_needs_exact_count() {
    let p = Pattern::compile("org.freedesktop.DBus").unwrap();
    assert!(p.matches("org.freedesktop.DBus"));
    assert!(!p.matches("org.freedesktop.DBus.Peer"));
    assert!(!p.matches("org.freedesktop"));
    // a lone single-level wildcard rejects an empty segment
    let q = Pattern::compile("org.*").unwrap();
    assert!(!q.matches("org."));
    assert!(q.matches("org.x"));
}
