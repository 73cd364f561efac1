//! The drawer record: one verbatim chunk filed in the palace.
//!
//! A drawer's times are read from its own text, resolved against its
//! `content_date` where that date parses as an anchor. The reading itself
//! (the temporal module: anchor parsing and mention extraction) is supplied
//! by the caller as two functions; this module decides when it is applied
//! and what is kept.

use vstd::prelude::*;
use vstd::std_specs::cmp::PartialEqSpec;
use vstd::utf8::encode_utf8;

verus! {

/// Metadata stored beside a drawer's content. `M` is the type of one time
/// mention read from the content.
#[derive(Debug, Clone, PartialEq)]
pub struct DrawerMeta<M> {
    pub wing: String,
    pub room: String,
    pub source_file: Option<String>,
    pub chunk_index: u32,
    pub added_by: String,
    /// RFC 3339 timestamp of when the drawer was filed.
    pub filed_at: String,
    pub normalize_version: u32,
    pub id_recipe: String,
    pub line_start: Option<u32>,
    pub line_end: Option<u32>,
    pub content_date: Option<String>,
    /// Dates and times written into the content itself, resolved against
    /// `content_date` where possible. The text is never altered.
    pub time_mentions: Vec<M>,
    pub hall: Option<String>,
    pub entities: Vec<String>,
}

/// One verbatim chunk with its deterministic id and metadata.
#[derive(Debug, Clone, PartialEq)]
pub struct Drawer<M> {
    pub id: String,
    /// Verbatim content. Encrypted at rest in sealed vaults.
    pub content: String,
    pub meta: DrawerMeta<M>,
}

/// The field separator of the canonical byte form.
pub const FIELD_SEPARATOR: u8 = 0x1f;

/// `a` is an anchor that `parse_anchor` may read from `content_date`:
/// none at all when there is no date.
pub open spec fn reads_anchor<A, P: Fn(&String) -> Option<A>>(
    parse_anchor: P,
    content_date: Option<String>,
    a: Option<A>,
) -> bool {
    match content_date {
        None => a is None,
        Some(d) => call_ensures(parse_anchor, (&d,), a),
    }
}

/// `ms` is a reading of the times in `content` against `content_date`:
/// the anchor read from the date, then the mentions extracted with it.
pub open spec fn is_reading<A, M, P: Fn(&String) -> Option<A>, X: Fn(&String, Option<A>) -> Vec<M>>(
    parse_anchor: P,
    extract: X,
    content: String,
    content_date: Option<String>,
    ms: Vec<M>,
) -> bool {
    exists|a: Option<A>|
        #[trigger] reads_anchor(parse_anchor, content_date, a) && call_ensures(
            extract,
            (&content, a),
            ms,
        )
}

/// `after` is `before` with its content date set to `content_date`: the id,
/// the content and every other field are kept; the anchor read from the
/// date decides the mentions: with none they stay, with one they are read
/// again from the content against it, and are then themselves a live
/// reading of the drawer.
pub open spec fn is_dated<M, A, P: Fn(&String) -> Option<A>, X: Fn(&String, Option<A>) -> Vec<M>>(
    parse_anchor: P,
    extract: X,
    before: Drawer<M>,
    content_date: Option<String>,
    after: Drawer<M>,
) -> bool {
    &&& after.id == before.id
    &&& after.content == before.content
    &&& after.meta.content_date == content_date
    &&& after.meta.same_but_times(before.meta)
    &&& exists|a: Option<A>|
        {
            &&& #[trigger] reads_anchor(parse_anchor, content_date, a)
            &&& a is None ==> after.meta.time_mentions == before.meta.time_mentions
            &&& a is Some ==> call_ensures(extract, (&before.content, a), after.meta.time_mentions)
            &&& a is Some ==> is_reading(
                parse_anchor,
                extract,
                after.content,
                after.meta.content_date,
                after.meta.time_mentions,
            )
        }
}

/// The key of a drawer's slot: its source file, or "(direct)" when it has
/// none.
pub open spec fn slot_source(source_file: Option<String>) -> Seq<char> {
    match source_file {
        Some(f) => f@,
        None => "(direct)"@,
    }
}

/// `id` is an id that `drawer_id` may give the slot (wing, room, source,
/// chunk index), the source taken by `slot_source`.
pub open spec fn is_slot_id<I: Fn(&str, &str, &str, u32) -> String>(
    drawer_id: I,
    wing: &str,
    room: &str,
    source_file: Option<String>,
    chunk_index: u32,
    id: String,
) -> bool {
    exists|source: &str|
        slot_source(source_file) == source@ && #[trigger] call_ensures(
            drawer_id,
            (wing, room, source, chunk_index),
            id,
        )
}

/// The canonical byte form: id, metadata, content, separated by 0x1f.
pub open spec fn spec_canonical_bytes(id: Seq<char>, meta_json: Seq<u8>, content_at_rest: Seq<u8>) -> Seq<u8> {
    encode_utf8(id) + seq![FIELD_SEPARATOR] + meta_json + seq![FIELD_SEPARATOR] + content_at_rest
}

impl<M> DrawerMeta<M> {
    /// Every field but the content date and the time mentions agrees.
    pub open spec fn same_but_times(self, other: Self) -> bool {
        &&& self.wing == other.wing
        &&& self.room == other.room
        &&& self.source_file == other.source_file
        &&& self.chunk_index == other.chunk_index
        &&& self.added_by == other.added_by
        &&& self.filed_at == other.filed_at
        &&& self.normalize_version == other.normalize_version
        &&& self.id_recipe == other.id_recipe
        &&& self.line_start == other.line_start
        &&& self.line_end == other.line_end
        &&& self.hall == other.hall
        &&& self.entities == other.entities
    }
}

/// The canonical bytes are the id's UTF-8 bytes, a separator, the
/// metadata JSON, a separator, and the whole content as stored: nothing is
/// dropped, cut short or reordered.
pub proof fn lemma_canonical_bytes_layout(id: Seq<char>, meta_json: Seq<u8>, content_at_rest: Seq<u8>)
    ensures
        ({
            let out = spec_canonical_bytes(id, meta_json, content_at_rest);
            let n = encode_utf8(id).len() as int;
            let m = meta_json.len() as int;
            &&& out.len() == n + m + content_at_rest.len() + 2
            &&& out.subrange(0, n) == encode_utf8(id)
            &&& out[n] == FIELD_SEPARATOR
            &&& out.subrange(n + 1, n + 1 + m) == meta_json
            &&& out[n + 1 + m] == FIELD_SEPARATOR
            &&& out.subrange(out.len() - content_at_rest.len(), out.len() as int) == content_at_rest
        }),
{
    let out = spec_canonical_bytes(id, meta_json, content_at_rest);
    let n = encode_utf8(id).len() as int;
    let m = meta_json.len() as int;
    let e = encode_utf8(id);
    assert(out.subrange(0, n) =~= e);
    assert(out.subrange(n + 1, n + 1 + m) =~= meta_json);
    assert(out.subrange(out.len() - content_at_rest.len(), out.len() as int) =~= content_at_rest);
}

/// Append `bytes` to `out`.
fn append_bytes(out: &mut Vec<u8>, bytes: &[u8])
    ensures
        final(out)@ == old(out)@ + bytes@,
{
    out.extend_from_slice(bytes);
    assert(final(out)@ =~= old(out)@ + bytes@);
}

impl<M> Drawer<M> {
    /// Build a drawer from normalized content with a deterministic id.
    ///
    /// The id is made from the slot alone (wing, room, source file or
    /// "(direct)", chunk index) by `drawer_id`, never from the content. The
    /// times written into the content are read with no anchor, since none
    /// is known yet, and the entities it names are recorded; the line span,
    /// content date and hall start empty.
    pub fn new<A, I, X, E>(
        wing: &str,
        room: &str,
        content: String,
        source_file: Option<String>,
        chunk_index: u32,
        added_by: &str,
        filed_at: String,
        normalize_version: u32,
        id_recipe: String,
        drawer_id: I,
        extract: X,
        extract_entities: E,
    ) -> (d: Self) where
        I: Fn(&str, &str, &str, u32) -> String,
        X: Fn(&String, Option<A>) -> Vec<M>,
        E: Fn(&String) -> Vec<String>,
        requires
            forall|w: &str, r: &str, s: &str, c: u32| call_requires(drawer_id, (w, r, s, c)),
            forall|s: &String, a: Option<A>| call_requires(extract, (s, a)),
            forall|s: &String| call_requires(extract_entities, (s,)),
        ensures
            is_slot_id(drawer_id, wing, room, source_file, chunk_index, d.id),
            // The source file's own name keys the slot; "(direct)" only
            // when there is none.
            source_file matches Some(f) ==> exists|src: &str|
                src@ == f@ && #[trigger] call_ensures(drawer_id, (wing, room, src, chunk_index), d.id),
            source_file is None ==> exists|src: &str|
                src@ == "(direct)"@ && #[trigger] call_ensures(drawer_id, (wing, room, src, chunk_index), d.id),
            d.content == content,
            d.meta.wing@ == wing@,
            d.meta.room@ == room@,
            d.meta.source_file == source_file,
            d.meta.chunk_index == chunk_index,
            d.meta.added_by@ == added_by@,
            d.meta.filed_at == filed_at,
            d.meta.normalize_version == normalize_version,
            d.meta.id_recipe == id_recipe,
            d.meta.line_start is None,
            d.meta.line_end is None,
            d.meta.content_date is None,
            d.meta.hall is None,
            call_ensures(extract, (&content, None::<A>), d.meta.time_mentions),
            call_ensures(extract_entities, (&content,), d.meta.entities),
    {
        let source: &str = match &source_file {
            Some(f) => f.as_str(),
            None => "(direct)",
        };
        let id = drawer_id(wing, room, source, chunk_index);
        assert(slot_source(source_file) == source@);
        assert(source_file matches Some(f) ==> source@ == f@);
        assert(source_file is None ==> source@ == "(direct)"@);
        // Read here rather than at each call site so no write path can
        // forget: every drawer keeps the times and entities written into it.
        let time_mentions = extract(&content, None);
        let entities = extract_entities(&content);
        Drawer {
            id,
            content,
            meta: DrawerMeta {
                wing: wing.to_string(),
                room: room.to_string(),
                source_file,
                chunk_index,
                added_by: added_by.to_string(),
                filed_at,
                normalize_version,
                id_recipe,
                line_start: None,
                line_end: None,
                content_date: None,
                time_mentions,
                hall: None,
                entities,
            },
        }
    }

    /// Record when the content happened, as distinct from `filed_at`.
    ///
    /// Does not affect the drawer id, content or any other field. When the
    /// date parses as an anchor, the mentions are read again from the
    /// content against it; otherwise the sealed mentions stay.
    pub fn with_content_date<A, P, X>(
        self,
        content_date: Option<String>,
        parse_anchor: P,
        extract: X,
    ) -> (d: Self) where P: Fn(&String) -> Option<A>, X: Fn(&String, Option<A>) -> Vec<M>
        requires
            forall|s: &String| call_requires(parse_anchor, (s,)),
            forall|s: &String, a: Option<A>| call_requires(extract, (s, a)),
        ensures
            is_dated(parse_anchor, extract, self, content_date, d),
            d.id == self.id,
            d.content == self.content,
            d.meta.content_date == content_date,
            content_date is None ==> d.meta.time_mentions == self.meta.time_mentions,
    {
        let mut d = self;
        let anchor = match &content_date {
            Some(date) => parse_anchor(date),
            None => None,
        };
        assert(reads_anchor(parse_anchor, content_date, anchor));
        if anchor.is_some() {
            d.meta.time_mentions = extract(&d.content, anchor);
        }
        d.meta.content_date = content_date;
        d
    }

    /// The times written into this drawer's text, as read now from its
    /// content and its own `content_date`: the same call
    /// `with_content_date` makes, so the two readings agree by construction.
    /// With no `content_date` no anchor is invented.
    pub fn live_time_mentions<A, P, X>(&self, parse_anchor: P, extract: X) -> (ms: Vec<M>) where
        P: Fn(&String) -> Option<A>,
        X: Fn(&String, Option<A>) -> Vec<M>,
        requires
            forall|s: &String| call_requires(parse_anchor, (s,)),
            forall|s: &String, a: Option<A>| call_requires(extract, (s, a)),
        ensures
            is_reading(parse_anchor, extract, self.content, self.meta.content_date, ms),
            // No date, no anchor: the reading is the extraction with none.
            self.meta.content_date is None ==> call_ensures(extract, (&self.content, None::<A>), ms),
    {
        let anchor = match &self.meta.content_date {
            Some(date) => parse_anchor(date),
            None => None,
        };
        let ms = extract(&self.content, anchor);
        assert(reads_anchor(parse_anchor, self.meta.content_date, anchor));
        ms
    }

    /// Whether the live reading of this drawer's times differs from the
    /// reading sealed onto it.
    pub fn time_mentions_differ<A, P, X>(&self, parse_anchor: P, extract: X) -> (r: bool) where
        M: PartialEq,
        P: Fn(&String) -> Option<A>,
        X: Fn(&String, Option<A>) -> Vec<M>,
        requires
            forall|s: &String| call_requires(parse_anchor, (s,)),
            forall|s: &String, a: Option<A>| call_requires(extract, (s, a)),
        ensures
            exists|live: Vec<M>|
                {
                    &&& #[trigger] is_reading(
                        parse_anchor,
                        extract,
                        self.content,
                        self.meta.content_date,
                        live,
                    )
                    &&& <Vec<M> as PartialEqSpec>::obeys_eq_spec() ==> r == !live.eq_spec(
                        &self.meta.time_mentions,
                    )
                },
    {
        let live = self.live_time_mentions(parse_anchor, extract);
        !(live == self.meta.time_mentions)
    }

    /// The canonical bytes covered by the integrity tag: the id, the
    /// metadata in canonical JSON (`meta_json`), and the content as stored,
    /// separated by 0x1f so fields cannot bleed into each other.
    pub fn canonical_bytes(&self, meta_json: &[u8], content_at_rest: &[u8]) -> (out: Vec<u8>)
        ensures
            out@ == spec_canonical_bytes(self.id@, meta_json@, content_at_rest@),
            out@.len() == encode_utf8(self.id@).len() + meta_json@.len() + content_at_rest@.len() + 2,
            out@.subrange(0, encode_utf8(self.id@).len() as int) == encode_utf8(self.id@),
            out@[encode_utf8(self.id@).len() as int] == FIELD_SEPARATOR,
            out@.subrange(
                encode_utf8(self.id@).len() + 1int,
                encode_utf8(self.id@).len() + 1int + meta_json@.len(),
            ) == meta_json@,
            out@[encode_utf8(self.id@).len() + 1int + meta_json@.len()] == FIELD_SEPARATOR,
            out@.subrange(out@.len() - content_at_rest@.len(), out@.len() as int) == content_at_rest@,
    {
        let mut out: Vec<u8> = Vec::new();
        append_bytes(&mut out, self.id.as_str().as_bytes());
        out.push(FIELD_SEPARATOR);
        append_bytes(&mut out, meta_json);
        out.push(FIELD_SEPARATOR);
        append_bytes(&mut out, content_at_rest);
        proof {
            lemma_canonical_bytes_layout(self.id@, meta_json@, content_at_rest@);
        }
        out
    }
}

} // verus!
