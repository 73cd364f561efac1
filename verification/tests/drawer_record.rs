use mnemosyne_core::drawer::{Drawer, DrawerMeta, FIELD_SEPARATOR};

/// A mention as a test reading produces it: the words and the date they
/// resolve to, if any.
type Mention = (String, Option<String>);

fn drawer(content: &str) -> Drawer<Mention> {
    Drawer {
        id: "drawer-id".to_string(),
        content: content.to_string(),
        meta: DrawerMeta {
            wing: "w".to_string(),
            room: "r".to_string(),
            source_file: None,
            chunk_index: 0,
            added_by: "test".to_string(),
            filed_at: "2024-01-01T00:00:00Z".to_string(),
            normalize_version: 1,
            id_recipe: "recipe".to_string(),
            line_start: None,
            line_end: None,
            content_date: None,
            time_mentions: Vec::new(),
            hall: None,
            entities: Vec::new(),
        },
    }
}

/// A date anchors when it has the shape YYYY-MM-DD.
fn parse_anchor(date: &String) -> Option<String> {
    if date.len() == 10 && date.as_bytes()[4] == b'-' && date.as_bytes()[7] == b'-' {
        Some(date.clone())
    } else {
        None
    }
}

/// Every "yesterday" in the text is a mention, resolved to the anchor.
fn extract(text: &String, anchor: Option<String>) -> Vec<Mention> {
    text.split_whitespace()
        .filter(|w| *w == "yesterday")
        .map(|w| (w.to_string(), anchor.clone()))
        .collect()
}

#[test]
fn content_date_resolves_mentions_and_keeps_identity() {
    let d = drawer("we met yesterday");
    let id_before = d.id.clone();
    let d = d.with_content_date(Some("2023-05-08".to_string()), parse_anchor, extract);
    assert_eq!(d.id, id_before);
    assert_eq!(d.content, "we met yesterday");
    assert_eq!(d.meta.content_date, Some("2023-05-08".to_string()));
    assert_eq!(
        d.meta.time_mentions,
        vec![("yesterday".to_string(), Some("2023-05-08".to_string()))]
    );
}

#[test]
fn an_unparseable_content_date_keeps_the_sealed_mentions() {
    let mut d = drawer("we met yesterday");
    d.meta.time_mentions = vec![("yesterday".to_string(), None)];
    let d = d.with_content_date(Some("last spring".to_string()), parse_anchor, extract);
    assert_eq!(d.meta.content_date, Some("last spring".to_string()));
    assert_eq!(d.meta.time_mentions, vec![("yesterday".to_string(), None)]);
}

#[test]
fn an_up_to_date_drawer_reports_no_difference() {
    let d = drawer("we met yesterday").with_content_date(
        Some("2023-05-08".to_string()),
        parse_anchor,
        extract,
    );
    assert!(!d.time_mentions_differ(parse_anchor, extract));
    assert_eq!(d.live_time_mentions(parse_anchor, extract), d.meta.time_mentions);
}

#[test]
fn a_stale_sealed_reading_is_reported_and_superseded() {
    let mut d = drawer("we met yesterday").with_content_date(
        Some("2023-05-08".to_string()),
        parse_anchor,
        extract,
    );
    let sealed_before = d.meta.time_mentions.clone();
    d.meta.time_mentions[0].1 = Some("2023-05-01".to_string());
    assert!(d.time_mentions_differ(parse_anchor, extract));
    assert_eq!(d.live_time_mentions(parse_anchor, extract), sealed_before);
    assert_eq!(d.content, "we met yesterday");
}

#[test]
fn live_reading_without_a_date_invents_no_anchor() {
    let d = drawer("we met yesterday");
    let live = d.live_time_mentions(parse_anchor, extract);
    assert_eq!(live, vec![("yesterday".to_string(), None)]);
}

#[test]
fn canonical_bytes_frame_id_meta_and_content() {
    let d = drawer("c");
    let out = d.canonical_bytes(b"{\"m\":1}", b"body");
    let mut want = b"drawer-id".to_vec();
    want.push(0x1f);
    want.extend_from_slice(b"{\"m\":1}");
    want.push(0x1f);
    want.extend_from_slice(b"body");
    assert_eq!(out, want);
    assert_eq!(FIELD_SEPARATOR, 0x1f);
}

#[test]
fn canonical_bytes_change_with_meta_json() {
    let d = drawer("c");
    let before = d.canonical_bytes(b"{\"room\":\"r\"}", b"c");
    let after = d.canonical_bytes(b"{\"room\":\"other\"}", b"c");
    assert_ne!(before, after);
}

#[test]
fn canonical_bytes_encode_the_id_as_utf8() {
    let mut d = drawer("c");
    d.id = "é".to_string();
    let out = d.canonical_bytes(b"", b"");
    assert_eq!(out, vec![0xc3, 0xa9, 0x1f, 0x1f]);
}

/// The slot key as a toy id: a real id hashes the same four parts.
fn slot_id(wing: &str, room: &str, source: &str, chunk_index: u32) -> String {
    format!("{wing}/{room}/{source}/{chunk_index}")
}

fn entities(text: &String) -> Vec<String> {
    text.split_whitespace()
        .filter(|w| w.chars().next().map_or(false, |c| c.is_uppercase()))
        .map(|w| w.to_lowercase())
        .collect()
}

fn filed(content: &str, source_file: Option<String>, chunk_index: u32) -> Drawer<Mention> {
    Drawer::new::<String, _, _, _>(
        "w",
        "r",
        content.into(),
        source_file,
        chunk_index,
        "test",
        "2024-01-01T00:00:00Z".to_string(),
        3,
        "recipe".to_string(),
        slot_id,
        extract,
        entities,
    )
}

#[test]
fn deterministic_id_same_slot() {
    let a = filed("one", Some("f.md".into()), 0);
    let b = filed("two", Some("f.md".into()), 0);
    assert_eq!(a.id, b.id);
}

#[test]
fn a_drawer_without_a_source_is_keyed_direct() {
    let d = filed("one", None, 2);
    assert_eq!(d.id, "w/r/(direct)/2");
    assert_ne!(d.id, filed("one", None, 3).id);
}

#[test]
fn a_new_drawer_records_its_fields_and_reads_without_an_anchor() {
    let d = filed("we met Alice yesterday", Some("f.md".into()), 4);
    assert_eq!(d.content, "we met Alice yesterday");
    assert_eq!(d.meta.wing, "w");
    assert_eq!(d.meta.room, "r");
    assert_eq!(d.meta.source_file, Some("f.md".to_string()));
    assert_eq!(d.meta.chunk_index, 4);
    assert_eq!(d.meta.added_by, "test");
    assert_eq!(d.meta.filed_at, "2024-01-01T00:00:00Z");
    assert_eq!(d.meta.normalize_version, 3);
    assert_eq!(d.meta.id_recipe, "recipe");
    assert_eq!(d.meta.line_start, None);
    assert_eq!(d.meta.line_end, None);
    assert_eq!(d.meta.content_date, None);
    assert_eq!(d.meta.hall, None);
    assert_eq!(d.meta.time_mentions, vec![("yesterday".to_string(), None)]);
    assert_eq!(d.meta.entities, vec!["alice".to_string()]);
}

#[test]
fn setting_a_content_date_twice_is_setting_it_once() {
    let d = filed("we met yesterday", None, 0);
    let once = d.clone().with_content_date(Some("2023-05-08".to_string()), parse_anchor, extract);
    let twice = once.clone().with_content_date(Some("2023-05-08".to_string()), parse_anchor, extract);
    assert_eq!(once, twice);
}
