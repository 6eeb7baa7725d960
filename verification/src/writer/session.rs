//! Writer sessions: starting a source, resuming one, and the record that either
//! leaves in its metadata.

use vstd::prelude::*;
use vstd::string::*;

use crate::db::model::DbView;
use crate::db::store;
use crate::db::{Db, SourceMeta, SourceMetaView};
use crate::error::{Error, ErrorView};
use crate::keys;
use crate::segment;
use crate::segment::{check_encoder, SegmentEncoder};
use crate::seqs;
use crate::text;
use crate::text::{append_signed, same_text};
use crate::text_map;
use crate::text_map::{Entry, TextMap};

verus! {

broadcast use crate::seqs::group_views;

/// The version of this crate, which every session records.
pub const VERSION: &'static str = "0.1.0";

// ------------------------------------------------------------ JSON

/// A member of a JSON object: an array's elements, each as its text, or
/// anything else as its text.
#[derive(Debug)]
pub enum Member {
    /// An array.
    Array(Vec<String>),
    /// Anything else.
    Other(String),
}

/// What a text holds as JSON, as deep as sessions and events are read.
#[derive(Debug)]
pub enum Json {
    /// It is no JSON.
    Invalid,
    /// `null`.
    Null,
    /// An array's elements, each as its text.
    Array(Vec<String>),
    /// An object's members.
    Object(Vec<(String, Member)>),
    /// Anything else.
    Other,
}

/// A member of a JSON object, as mathematics.
pub enum MemberView {
    Array(Seq<Seq<char>>),
    Other(Seq<char>),
}

/// What a text holds as JSON, as mathematics.
pub enum JsonView {
    Invalid,
    Null,
    Array(Seq<Seq<char>>),
    Object(Seq<(Seq<char>, MemberView)>),
    Other,
}

impl View for Member {
    type V = MemberView;

    open spec fn view(&self) -> MemberView {
        match *self {
            Member::Array(e) => MemberView::Array(seqs::views(e@)),
            Member::Other(t) => MemberView::Other(t@),
        }
    }
}

impl View for Json {
    type V = JsonView;

    open spec fn view(&self) -> JsonView {
        match *self {
            Json::Invalid => JsonView::Invalid,
            Json::Null => JsonView::Null,
            Json::Array(e) => JsonView::Array(seqs::views(e@)),
            Json::Object(m) => JsonView::Object(seqs::views(m@)),
            Json::Other => JsonView::Other,
        }
    }
}

/// What `serde_json::from_str` reads in a text, its values printed as
/// `serde_json` prints them.
pub uninterp spec fn json_read(text: Seq<char>) -> JsonView;

/// How `serde_json` prints a text: in quotes, with escapes.
pub uninterp spec fn json_text(s: Seq<char>) -> Seq<char>;

/// `serde_json::from_str` into a `serde_json::Value`, and `to_string` of the
/// values in it: what a text holds is a function of the text alone.
#[verifier::external_body]
fn read_json(text: &str) -> (r: Json)
    ensures
        r@ == json_read(text@),
{
    match serde_json::from_str::<serde_json::Value>(text) {
        Err(_) => Json::Invalid,
        Ok(serde_json::Value::Null) => Json::Null,
        Ok(serde_json::Value::Array(a)) => Json::Array(a.iter().map(|v| v.to_string()).collect()),
        Ok(serde_json::Value::Object(m)) => Json::Object(m.into_iter().map(|(k, v)| match v {
            serde_json::Value::Array(a) => (k, Member::Array(a.iter().map(|e| e.to_string()).collect())),
            other => (k, Member::Other(other.to_string())),
        }).collect()),
        Ok(_) => Json::Other,
    }
}

/// `serde_json::Value::from` of a text, and its `to_string`: the text in quotes,
/// with escapes, which is a function of the text alone.
#[verifier::external_body]
fn quote_json(s: &str) -> (r: String)
    ensures
        r@ == json_text(s@),
{
    serde_json::Value::from(s).to_string()
}

/// Texts with commas between them.
pub open spec fn joined(parts: Seq<Seq<char>>) -> Seq<char>
    decreases parts.len(),
{
    if parts.len() == 0 {
        Seq::empty()
    } else if parts.len() == 1 {
        parts[0]
    } else {
        joined(parts.drop_last()) + ","@ + parts.last()
    }
}

/// A JSON array of elements, each given as its text.
pub open spec fn array_text(elements: Seq<Seq<char>>) -> Seq<char> {
    "["@ + joined(elements) + "]"@
}

/// The members of a JSON object, each value given as its text.
pub open spec fn member_texts(members: Seq<Entry>) -> Seq<Seq<char>> {
    members.map_values(|m: Entry| json_text(m.0) + ":"@ + m.1)
}

/// A JSON object of members, each value given as its text.
pub open spec fn object_text(members: Seq<Entry>) -> Seq<char> {
    "{"@ + joined(member_texts(members)) + "}"@
}

fn join(parts: &Vec<String>) -> (r: String)
    ensures
        r@ == joined(seqs::views(parts@)),
{
    let ghost all = seqs::views(parts@);
    if parts.len() == 0 {
        let r = String::new();
        assert(r@ =~= Seq::empty());
        return r;
    }
    let mut out = parts[0].clone();
    let mut i: usize = 1;
    proof {
        assert(all.take(1)[0] == parts@[0]@);
    }
    while i < parts.len()
        invariant
            1 <= i <= parts@.len(),
            all == seqs::views(parts@),
            out@ == joined(all.take(i as int)),
        decreases parts@.len() - i,
    {
        proof {
            assert(all.take(i + 1).drop_last() =~= all.take(i as int));
            assert(all.take(i + 1).last() == parts@[i as int]@);
        }
        out.append(",");
        out.append(parts[i].as_str());
        i += 1;
    }
    proof {
        assert(all.take(i as int) =~= all);
    }
    out
}

fn print_array(elements: &Vec<String>) -> (r: String)
    ensures
        r@ == array_text(seqs::views(elements@)),
{
    let mut out = String::from_str("[");
    out.append(join(elements).as_str());
    out.append("]");
    out
}

fn print_object(members: &TextMap) -> (r: String)
    ensures
        r@ == object_text(members@),
{
    let ghost all = members@;
    let mut parts: Vec<String> = Vec::new();
    let mut i: usize = 0;
    proof {
        seqs::lemma_views_empty::<String>();
        assert(member_texts(all.take(0)) =~= Seq::empty());
    }
    while i < members.len()
        invariant
            i <= members@.len(),
            all == members@,
            seqs::views(parts@) == member_texts(all.take(i as int)),
        decreases members@.len() - i,
    {
        let ghost was = seqs::views(parts@);
        let mut part = quote_json(members.key_at(i).as_str());
        part.append(":");
        part.append(members.value_at(i).as_str());
        let ghost p = part@;
        parts.push(part);
        proof {
            assert(member_texts(all.take(i + 1)) =~= was.push(p));
        }
        i += 1;
    }
    proof {
        assert(all.take(i as int) =~= all);
    }
    let mut out = String::from_str("{");
    out.append(join(&parts).as_str());
    out.append("}");
    out
}

// ------------------------------------------------------------ the record of a session

/// A timestamp that may be absent, as JSON.
pub open spec fn maybe_text(ts: Option<i64>) -> Seq<char> {
    match ts {
        Some(t) => text::signed_decimal(t as int),
        None => "null"@,
    }
}

/// A session's entry. One that reopened the archive names the newest row the
/// previous session left.
pub open spec fn session_text(
    session: Seq<char>,
    anchor: i64,
    resumed_after: Option<Option<i64>>,
) -> Seq<char> {
    let head = "{\"clock_anchor_wall_ns\":"@ + text::signed_decimal(anchor as int)
        + ",\"dendro\":"@ + json_text(VERSION@);
    let resumed = match resumed_after {
        Some(after) => head + ",\"resumed_after_ts\":"@ + maybe_text(after),
        None => head,
    };
    resumed + ",\"session\":"@ + json_text(session) + "}"@
}

/// What a resume says of the session before it.
pub open spec fn details_text(after: Option<i64>) -> Seq<char> {
    match after {
        Some(ts) => "previous session's last row at "@ + text::signed_decimal(ts as int),
        None => "previous session left no rows"@,
    }
}

/// A resume's entry among the timeline events.
pub open spec fn event_text(session: Seq<char>, anchor: i64, after: Option<i64>) -> Seq<char> {
    "{\"description\":\"source resumed by a new writer session\",\"details\":"@ + json_text(
        details_text(after),
    ) + ",\"id\":"@ + json_text("writer_session:"@ + session)
        + ",\"kind\":\"writer_session\",\"timestamp\":"@ + text::signed_decimal(anchor as int)
        + "}"@
}

/// The sessions recorded so far: none where the text is no array.
pub open spec fn sessions_in(recorded: Option<Seq<char>>) -> Seq<Seq<char>> {
    match recorded {
        Some(t) => match json_read(t) {
            JsonView::Array(e) => e,
            _ => Seq::empty(),
        },
        None => Seq::empty(),
    }
}

/// An object's members other than the events, each value as its text.
pub open spec fn other_members(members: Seq<(Seq<char>, MemberView)>) -> Seq<Entry>
    decreases members.len(),
{
    if members.len() == 0 {
        Seq::empty()
    } else {
        let head = other_members(members.drop_last());
        let (k, v) = members.last();
        if k == keys::EVENTS@ {
            head
        } else {
            text_map::put_entry(
                head,
                k,
                match v {
                    MemberView::Array(e) => array_text(e),
                    MemberView::Other(t) => t,
                },
            )
        }
    }
}

/// The events in an object: none where its member is no array.
pub open spec fn events_in(members: Seq<(Seq<char>, MemberView)>) -> Seq<Seq<char>>
    decreases members.len(),
{
    if members.len() == 0 {
        Seq::empty()
    } else if members.last().0 == keys::EVENTS@ {
        match members.last().1 {
            MemberView::Array(e) => e,
            MemberView::Other(_) => Seq::empty(),
        }
    } else {
        events_in(members.drop_last())
    }
}

/// The timeline events with one more, or `None` where what is recorded is JSON
/// of another shape, which nothing can be appended to.
pub open spec fn events_with(recorded: Option<Seq<char>>, event: Seq<char>) -> Option<Seq<char>> {
    let read = match recorded {
        Some(t) => json_read(t),
        None => JsonView::Invalid,
    };
    match read {
        JsonView::Invalid => Some(
            object_text(seq![(keys::EVENTS@, array_text(seq![event]))]),
        ),
        JsonView::Null => Some(object_text(seq![(keys::EVENTS@, array_text(seq![event]))])),
        JsonView::Object(m) => Some(
            object_text(
                text_map::put_entry(
                    other_members(m),
                    keys::EVENTS@,
                    array_text(events_in(m).push(event)),
                ),
            ),
        ),
        _ => None,
    }
}

/// What is said of events that nothing can be appended to.
pub open spec fn events_refusal(source: i64) -> ErrorView {
    ErrorView::Message(
        "source "@ + text::signed_decimal(source as int)
            + ": its `events` metadata is not a JSON object"@,
    )
}

/// The metadata keys that a session's record writes, with their values.
pub open spec fn session_patched(
    source: i64,
    metadata: Seq<Entry>,
    session: Seq<char>,
    anchor: i64,
    resumed_after: Option<Option<i64>>,
) -> Result<Seq<Entry>, ErrorView> {
    let sessions = array_text(
        sessions_in(text_map::lookup(metadata, keys::WRITER_SESSIONS@)).push(
            session_text(session, anchor, resumed_after),
        ),
    );
    match resumed_after {
        None => Ok(text_map::put_entry(Seq::empty(), keys::WRITER_SESSIONS@, sessions)),
        Some(after) => match events_with(
            text_map::lookup(metadata, keys::EVENTS@),
            event_text(session, anchor, after),
        ) {
            None => Err(events_refusal(source)),
            Some(events) => Ok(
                text_map::put_entry(
                    text_map::put_entry(Seq::empty(), keys::EVENTS@, events),
                    keys::WRITER_SESSIONS@,
                    sessions,
                ),
            ),
        },
    }
}

fn print_session(session: &str, anchor: i64, resumed_after: Option<Option<i64>>) -> (r: String)
    ensures
        r@ == session_text(session@, anchor, resumed_after),
{
    let mut s = String::from_str("{\"clock_anchor_wall_ns\":");
    append_signed(&mut s, anchor);
    s.append(",\"dendro\":");
    s.append(quote_json(VERSION).as_str());
    match resumed_after {
        Some(Some(ts)) => {
            s.append(",\"resumed_after_ts\":");
            append_signed(&mut s, ts);
        },
        Some(None) => {
            s.append(",\"resumed_after_ts\":");
            s.append("null");
        },
        None => {},
    }
    s.append(",\"session\":");
    s.append(quote_json(session).as_str());
    s.append("}");
    s
}

fn print_event(session: &str, anchor: i64, after: Option<i64>) -> (r: String)
    ensures
        r@ == event_text(session@, anchor, after),
{
    let details = match after {
        Some(ts) => {
            let mut d = String::from_str("previous session's last row at ");
            append_signed(&mut d, ts);
            d
        },
        None => String::from_str("previous session left no rows"),
    };
    let mut id = String::from_str("writer_session:");
    id.append(session);
    let mut s = String::from_str(
        "{\"description\":\"source resumed by a new writer session\",\"details\":",
    );
    s.append(quote_json(details.as_str()).as_str());
    s.append(",\"id\":");
    s.append(quote_json(id.as_str()).as_str());
    s.append(",\"kind\":\"writer_session\",\"timestamp\":");
    append_signed(&mut s, anchor);
    s.append("}");
    s
}

fn member_text(m: &Member) -> (r: String)
    ensures
        r@ == (match m@ {
            MemberView::Array(e) => array_text(e),
            MemberView::Other(t) => t,
        }),
{
    match m {
        Member::Array(e) => print_array(e),
        Member::Other(t) => t.clone(),
    }
}

fn copy_texts(v: &Vec<String>) -> (r: Vec<String>)
    ensures
        seqs::views(r@) == seqs::views(v@),
{
    let ghost all = seqs::views(v@);
    let mut out: Vec<String> = Vec::new();
    let mut i: usize = 0;
    proof {
        seqs::lemma_views_empty::<String>();
    }
    while i < v.len()
        invariant
            i <= v@.len(),
            all == seqs::views(v@),
            seqs::views(out@) == all.take(i as int),
        decreases v@.len() - i,
    {
        let ghost was = seqs::views(out@);
        out.push(v[i].clone());
        proof {
            assert(all.take(i + 1) =~= was.push(all[i as int]));
        }
        i += 1;
    }
    proof {
        assert(all.take(i as int) =~= all);
    }
    out
}

fn split_events(members: &Vec<(String, Member)>) -> (r: (TextMap, Vec<String>))
    ensures
        r.0@ == other_members(seqs::views(members@)),
        seqs::views(r.1@) == events_in(seqs::views(members@)),
{
    let ghost all = seqs::views(members@);
    let mut others = TextMap::new();
    let mut events: Vec<String> = Vec::new();
    let mut i: usize = 0;
    proof {
        seqs::lemma_views_empty::<String>();
    }
    while i < members.len()
        invariant
            i <= members@.len(),
            all == seqs::views(members@),
            others@ == other_members(all.take(i as int)),
            seqs::views(events@) == events_in(all.take(i as int)),
        decreases members@.len() - i,
    {
        proof {
            assert(all.take(i + 1).drop_last() =~= all.take(i as int));
            assert(all.take(i + 1).last() == members@[i as int]@);
        }
        if same_text(members[i].0.as_str(), keys::EVENTS) {
            events =
            match &members[i].1 {
                Member::Array(e) => copy_texts(e),
                Member::Other(_) => {
                    proof {
                        seqs::lemma_views_empty::<String>();
                    }
                    Vec::new()
                },
            };
        } else {
            others.insert(members[i].0.clone(), member_text(&members[i].1));
        }
        i += 1;
    }
    proof {
        assert(all.take(i as int) =~= all);
    }
    (others, events)
}

fn append_event(recorded: Option<&String>, event: String) -> (r: Option<String>)
    ensures
        seqs::opt_view(r) == events_with(
            match recorded {
                Some(t) => Some(t@),
                None => None,
            },
            event@,
        ),
{
    let read = match recorded {
        Some(t) => read_json(t.as_str()),
        None => Json::Invalid,
    };
    let ghost e = event@;
    let (mut others, mut events) = match &read {
        Json::Invalid => (TextMap::new(), Vec::new()),
        Json::Null => (TextMap::new(), Vec::new()),
        Json::Object(m) => split_events(m),
        _ => {
            return None;
        },
    };
    let ghost was = seqs::views(events@);
    events.push(event);
    proof {
        seqs::lemma_views_empty::<String>();
        assert(seqs::views(events@) =~= was.push(e));
        assert(Seq::<Seq<char>>::empty().push(e) =~= seq![e]);
        assert(text_map::put_entry(Seq::empty(), keys::EVENTS@, array_text(seq![e])) =~= seq![
            (keys::EVENTS@, array_text(seq![e])),
        ]);
    }
    others.insert(String::from_str(keys::EVENTS), print_array(&events));
    Some(print_object(&others))
}

/// The metadata that records a writer session: its entry appended to
/// [`keys::WRITER_SESSIONS`], and for a resume an event appended to those under
/// [`keys::EVENTS`]. `session` is the session's identity, which the caller mints.
///
/// Refused where the events recorded are JSON that is no object: they are the
/// caller's, and are appended to, never replaced.
pub fn session_patch(
    source_id: i64,
    metadata: &TextMap,
    session: &str,
    clock_anchor_wall_ns: i64,
    resumed_after_ts: Option<Option<i64>>,
) -> (r: Result<TextMap, Error>)
    ensures
        match session_patched(
            source_id,
            metadata@,
            session@,
            clock_anchor_wall_ns,
            resumed_after_ts,
        ) {
            Ok(p) => r matches Ok(m) && m@ == p,
            Err(e) => r matches Err(x) && x@ == e,
        },
{
    let mut sessions: Vec<String> = match metadata.get(keys::WRITER_SESSIONS) {
        Some(t) => match read_json(t.as_str()) {
            Json::Array(e) => e,
            _ => Vec::new(),
        },
        None => Vec::new(),
    };
    proof {
        seqs::lemma_views_empty::<String>();
    }
    let ghost was = seqs::views(sessions@);
    let entry = print_session(session, clock_anchor_wall_ns, resumed_after_ts);
    let ghost e = entry@;
    sessions.push(entry);
    proof {
        assert(seqs::views(sessions@) =~= was.push(e));
    }
    let mut patch = TextMap::new();
    match resumed_after_ts {
        Some(after) => {
            let event = print_event(session, clock_anchor_wall_ns, after);
            match append_event(metadata.get(keys::EVENTS), event) {
                None => {
                    let mut s = String::from_str("source ");
                    append_signed(&mut s, source_id);
                    s.append(": its `events` metadata is not a JSON object");
                    return Err(Error::Message(s));
                },
                Some(events) => {
                    patch.insert(String::from_str(keys::EVENTS), events);
                },
            }
        },
        None => {},
    }
    patch.insert(String::from_str(keys::WRITER_SESSIONS), print_array(&sessions));
    Ok(patch)
}

// ------------------------------------------------------------ starting and resuming

/// Recording a session in a source's metadata.
pub open spec fn session_recorded(
    d: DbView,
    source: i64,
    session: Seq<char>,
    anchor: i64,
    resumed_after: Option<Option<i64>>,
) -> Result<DbView, ErrorView> {
    match d.source(source) {
        None => Err(ErrorView::Message(store::no_source_text(source))),
        Some(s) => match session_patched(
            source,
            s.meta.metadata,
            session,
            anchor,
            resumed_after,
        ) {
            Err(e) => Err(e),
            Ok(patch) => store::written(
                d,
                store::changes::metadata_patched(d, source, patch),
            ),
        },
    }
}

/// Append a writer session to a source's metadata, and for a resume an event
/// at the new anchor.
pub fn record_session(
    db: &mut Db,
    source_id: i64,
    session: &str,
    clock_anchor_wall_ns: i64,
    resumed_after_ts: Option<Option<i64>>,
) -> (r: Result<(), Error>)
    ensures
        store::changed(
            r,
            old(db)@,
            final(db)@,
            session_recorded(
                old(db)@,
                source_id,
                session@,
                clock_anchor_wall_ns,
                resumed_after_ts,
            ),
        ),
{
    let metadata = match db.source_metadata(source_id) {
        Err(e) => {
            return Err(e);
        },
        Ok(m) => m,
    };
    match session_patch(source_id, &metadata, session, clock_anchor_wall_ns, resumed_after_ts) {
        Err(e) => Err(e),
        Ok(patch) => db.patch_source_metadata(source_id, &patch),
    }
}

/// Starting a source: its row, its first session, and the version of the
/// encoder that will write it. The archive then, and the id or the refusal.
pub open spec fn source_added(
    d: DbView,
    seed: SourceMetaView,
    session: Seq<char>,
    version: Option<Seq<char>>,
) -> (DbView, Result<i64, ErrorView>) {
    if !d.writable() {
        (d, Err(d.write_refusal()))
    } else {
        match store::changes::source_started(d, seed, None) {
            Err(e) => (d, Err(e)),
            Ok((id, started)) => match session_recorded(
                started,
                id,
                session,
                seed.clock_anchor_wall_ns,
                None,
            ) {
                Err(e) => (started, Err(e)),
                Ok(recorded) => match version {
                    None => (recorded, Ok(id)),
                    Some(v) => match store::written(
                        recorded,
                        store::changes::metadata_patched(recorded, id, seq![(keys::ENCODER@, v)]),
                    ) {
                        Err(e) => (recorded, Err(e)),
                        Ok(n) => (n, Ok(id)),
                    },
                },
            },
        }
    }
}

/// Start a source, returning its id: the session is recorded, and the version
/// of the encoder that will write its rows, so that a reader can tell whether
/// its own would decode them.
pub fn add_source<E: SegmentEncoder>(
    db: &mut Db,
    seed: &SourceMeta,
    session: &str,
    encoder: &E,
) -> (r: Result<i64, Error>)
    ensures
        ({
            let (d, outcome) = source_added(old(db)@, seed@, session@, encoder.reported());
            &&& final(db)@ == d
            &&& match outcome {
                Ok(id) => r == Ok::<i64, Error>(id),
                Err(e) => r matches Err(x) && x@ == e,
            }
        }),
{
    let id: i64 = match db.insert_source(seed) {
        Err(e) => {
            return Err(e);
        },
        Ok(id) => id,
    };
    match record_session(db, id, session, seed.clock_anchor_wall_ns, None) {
        Err(e) => {
            return Err(e);
        },
        Ok(_) => {},
    }
    match encoder.version() {
        None => Ok(id),
        Some(v) => {
            let mut patch = TextMap::new();
            patch.insert(String::from_str(keys::ENCODER), v.to_owned());
            proof {
                assert(text_map::put_entry(Seq::empty(), keys::ENCODER@, v@) =~= seq![
                    (keys::ENCODER@, v@),
                ]);
            }
            match db.patch_source_metadata(id, &patch) {
                Err(e) => Err(e),
                Ok(_) => Ok(id),
            }
        },
    }
}

/// What a resumed source's handle needs.
#[derive(Debug)]
pub struct Resumed {
    /// The source's labels.
    pub labels: TextMap,
    /// The newest row timestamp the source holds, segments and WAL together;
    /// `None` for a source with no rows.
    pub last_ts: Option<i64>,
}

/// What is said of a source to resume that is not there.
pub open spec fn no_resume_text(source: i64) -> Seq<char> {
    "no source with id "@ + text::signed_decimal(source as int) + " to resume"@
}

/// The refusal of resuming a source: it is not there, another encoder version
/// wrote it, or the clock went backwards.
pub open spec fn resume_refusal(
    d: DbView,
    source: i64,
    anchor: i64,
    version: Option<Seq<char>>,
) -> Option<ErrorView> {
    match d.source(source) {
        None => Some(ErrorView::Message(no_resume_text(source))),
        Some(s) => match segment::encoder_refusal(source, s.meta.metadata, version) {
            Some(e) => Some(e),
            None => match d.time_span(source).1 {
                Some(floor) => if anchor <= floor {
                    Some(ErrorView::TimelineBackwards { source_id: source, ts: anchor, floor })
                } else {
                    None
                },
                None => None,
            },
        },
    }
}

/// Resuming a source: the session is recorded, and it is going on again. The
/// archive then, and the refusal, which leaves the archive as it was.
pub open spec fn source_resumed(
    d: DbView,
    source: i64,
    anchor: i64,
    session: Seq<char>,
    version: Option<Seq<char>>,
) -> (DbView, Option<ErrorView>) {
    match resume_refusal(d, source, anchor, version) {
        Some(e) => (d, Some(e)),
        None => if !d.writable() {
            (d, Some(d.write_refusal()))
        } else {
            match session_recorded(d, source, session, anchor, Some(d.time_span(source).1)) {
                Err(e) => (d, Some(e)),
                Ok(n) => (n.with_complete(source, false), None),
            }
        },
    }
}

/// Reopen an existing source for a new writer session: it is refused where it
/// is not there, where another encoder version wrote it, and where the anchor
/// is not after its newest row, and where its events cannot be appended to;
/// otherwise the session is recorded and it is marked as going on.
pub fn resume_source<E: SegmentEncoder>(
    db: &mut Db,
    source_id: i64,
    clock_anchor_wall_ns: i64,
    session: &str,
    encoder: &E,
) -> (r: Result<Resumed, Error>)
    ensures
        ({
            let (d, refusal) = source_resumed(
                old(db)@,
                source_id,
                clock_anchor_wall_ns,
                session@,
                encoder.reported(),
            );
            &&& final(db)@ == d
            &&& match refusal {
                Some(e) => r matches Err(x) && x@ == e,
                None => {
                    &&& r matches Ok(resumed)
                    &&& resumed.labels@ == old(db)@.source(source_id)->0.meta.labels
                    &&& resumed.last_ts == old(db)@.time_span(source_id).1
                },
            }
        }),
{
    let src = match db.read_source(source_id) {
        None => {
            let mut s = String::from_str("no source with id ");
            append_signed(&mut s, source_id);
            s.append(" to resume");
            return Err(Error::Message(s));
        },
        Some(s) => s,
    };
    match check_encoder(source_id, &src.meta.metadata, encoder) {
        Err(e) => {
            return Err(e);
        },
        Ok(_) => {},
    }
    let (_, last_ts) = db.source_time_span(source_id);
    match last_ts {
        Some(floor) => {
            if clock_anchor_wall_ns <= floor {
                return Err(
                    Error::TimelineBackwards { source_id, ts: clock_anchor_wall_ns, floor },
                );
            }
        },
        None => {},
    }
    match db.writable() {
        Err(e) => {
            return Err(e);
        },
        Ok(_) => {},
    }
    match record_session(db, source_id, session, clock_anchor_wall_ns, Some(last_ts)) {
        Err(e) => {
            return Err(e);
        },
        Ok(_) => {},
    }
    let mut tx = match db.begin() {
        Err(e) => {
            return Err(e);
        },
        Ok(t) => t,
    };
    match tx.mark_incomplete(source_id) {
        Err(e) => {
            return Err(e);
        },
        Ok(_) => {},
    }
    db.commit(tx);
    Ok(Resumed { labels: src.meta.labels, last_ts })
}

} // verus!
