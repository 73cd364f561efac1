//! Laws of the drawer record, proved over the contracts of `drawer`.

use vstd::prelude::*;
use crate::drawer::{is_dated, is_reading, is_slot_id, reads_anchor, slot_source, Drawer};

verus! {

/// `drawer_id` answers the same for slots that read the same.
pub open spec fn ids_are_a_function<I: Fn(&str, &str, &str, u32) -> String>(drawer_id: I) -> bool {
    forall|w1: &str, r1: &str, s1: &str, w2: &str, r2: &str, s2: &str, c: u32, i1: String, i2: String|
        w1@ == w2@ && r1@ == r2@ && s1@ == s2@ && #[trigger] call_ensures(drawer_id, (w1, r1, s1, c), i1)
            && #[trigger] call_ensures(drawer_id, (w2, r2, s2, c), i2) ==> i1@ == i2@
}

/// The temporal reader answers the same for texts that read the same.
pub open spec fn reader_is_a_function<A, M, P: Fn(&String) -> Option<A>, X: Fn(&String, Option<A>) -> Vec<M>>(
    parse_anchor: P,
    extract: X,
) -> bool {
    &&& forall|s1: &String, s2: &String, a1: Option<A>, a2: Option<A>|
        s1@ == s2@ && #[trigger] call_ensures(parse_anchor, (s1,), a1) && #[trigger] call_ensures(
            parse_anchor,
            (s2,),
            a2,
        ) ==> a1 == a2
    &&& forall|s1: &String, s2: &String, a: Option<A>, m1: Vec<M>, m2: Vec<M>|
        s1@ == s2@ && #[trigger] call_ensures(extract, (s1, a), m1) && #[trigger] call_ensures(
            extract,
            (s2, a),
            m2,
        ) ==> m1 == m2
}

/// Deterministic ids: two drawers filed in the same slot (wing, room,
/// source, chunk index) get the same id, whatever their content, so
/// re-mining is idempotent.
pub proof fn lemma_same_slot_same_id<I: Fn(&str, &str, &str, u32) -> String>(
    drawer_id: I,
    wing1: &str,
    room1: &str,
    wing2: &str,
    room2: &str,
    source_file: Option<String>,
    chunk_index: u32,
    id1: String,
    id2: String,
)
    requires
        ids_are_a_function(drawer_id),
        wing1@ == wing2@,
        room1@ == room2@,
        is_slot_id(drawer_id, wing1, room1, source_file, chunk_index, id1),
        is_slot_id(drawer_id, wing2, room2, source_file, chunk_index, id2),
    ensures
        id1@ == id2@,
{
    let s1 = choose|s: &str| slot_source(source_file) == s@ && #[trigger] call_ensures(
        drawer_id,
        (wing1, room1, s, chunk_index),
        id1,
    );
    let s2 = choose|s: &str| slot_source(source_file) == s@ && #[trigger] call_ensures(
        drawer_id,
        (wing2, room2, s, chunk_index),
        id2,
    );
}

/// The same content and content date read the same times, whatever else
/// the drawers hold (a stale sealed reading included).
pub proof fn lemma_live_reading_depends_on_content_and_date<A, M, P, X>(
    parse_anchor: P,
    extract: X,
    content1: String,
    content2: String,
    content_date: Option<String>,
    ms1: Vec<M>,
    ms2: Vec<M>,
) where P: Fn(&String) -> Option<A>, X: Fn(&String, Option<A>) -> Vec<M>
    requires
        reader_is_a_function(parse_anchor, extract),
        content1@ == content2@,
        is_reading(parse_anchor, extract, content1, content_date, ms1),
        is_reading(parse_anchor, extract, content2, content_date, ms2),
    ensures
        ms1 == ms2,
{
    let a1 = choose|a: Option<A>| #[trigger] reads_anchor(parse_anchor, content_date, a) && call_ensures(
        extract,
        (&content1, a),
        ms1,
    );
    let a2 = choose|a: Option<A>| #[trigger] reads_anchor(parse_anchor, content_date, a) && call_ensures(
        extract,
        (&content2, a),
        ms2,
    );
    if let Some(d) = content_date {
        assert(call_ensures(parse_anchor, (&d,), a1));
        assert(call_ensures(parse_anchor, (&d,), a2));
    }
    assert(a1 == a2);
}

/// Setting the same content date twice gives the drawer that setting it
/// once gives.
pub proof fn lemma_content_date_is_idempotent<A, M, P, X>(
    parse_anchor: P,
    extract: X,
    d0: Drawer<M>,
    content_date: Option<String>,
    d1: Drawer<M>,
    d2: Drawer<M>,
) where P: Fn(&String) -> Option<A>, X: Fn(&String, Option<A>) -> Vec<M>
    requires
        reader_is_a_function(parse_anchor, extract),
        is_dated(parse_anchor, extract, d0, content_date, d1),
        is_dated(parse_anchor, extract, d1, content_date, d2),
    ensures
        d2 == d1,
{
    let a1 = choose|a: Option<A>|
        {
            &&& #[trigger] reads_anchor(parse_anchor, content_date, a)
            &&& a is None ==> d1.meta.time_mentions == d0.meta.time_mentions
            &&& a is Some ==> call_ensures(extract, (&d0.content, a), d1.meta.time_mentions)
            &&& a is Some ==> is_reading(
                parse_anchor,
                extract,
                d1.content,
                d1.meta.content_date,
                d1.meta.time_mentions,
            )
        };
    let a2 = choose|a: Option<A>|
        {
            &&& #[trigger] reads_anchor(parse_anchor, content_date, a)
            &&& a is None ==> d2.meta.time_mentions == d1.meta.time_mentions
            &&& a is Some ==> call_ensures(extract, (&d1.content, a), d2.meta.time_mentions)
            &&& a is Some ==> is_reading(
                parse_anchor,
                extract,
                d2.content,
                d2.meta.content_date,
                d2.meta.time_mentions,
            )
        };
    if let Some(d) = content_date {
        assert(call_ensures(parse_anchor, (&d,), a1));
        assert(call_ensures(parse_anchor, (&d,), a2));
    }
    assert(a1 == a2);
    assert(d2.meta.time_mentions == d1.meta.time_mentions);
    assert(d2.meta == d1.meta);
}

/// A drawer's slot is keyed by its source file's own name, and by
/// "(direct)" only when it has none: chunks of different files sit in
/// different slots, and the id of a filed drawer is what `drawer_id` gives
/// for that name.
pub proof fn lemma_slot_is_keyed_by_source_file<I: Fn(&str, &str, &str, u32) -> String>(
    drawer_id: I,
    wing: &str,
    room: &str,
    source_file: Option<String>,
    chunk_index: u32,
    id: String,
)
    ensures
        source_file matches Some(f) ==> slot_source(source_file) == f@,
        source_file is None ==> slot_source(source_file) == "(direct)"@,
        is_slot_id(drawer_id, wing, room, source_file, chunk_index, id) ==> (source_file matches Some(f)
            ==> exists|src: &str| src@ == f@ && #[trigger] call_ensures(drawer_id, (wing, room, src, chunk_index), id)),
        forall|f1: String, f2: String| f1@ != f2@ ==> #[trigger] slot_source(Some(f1)) != #[trigger] slot_source(Some(f2)),
{
}

} // verus!
