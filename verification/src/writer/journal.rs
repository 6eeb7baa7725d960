//! What a writer session leaves in a source's metadata, and what it leaves alone.

use vstd::prelude::*;

use super::session;
use super::session::{JsonView, MemberView};
use crate::keys;
use crate::text_map;
use crate::text_map::Entry;

verus! {

// ------------------------------------------------------------ texts

/// Texts are joined in order, with one comma between each two and none at either end.
pub proof fn law_texts_are_joined_by_commas(a: Seq<Seq<char>>, b: Seq<Seq<char>>)
    requires
        a.len() > 0,
        b.len() > 0,
    ensures
        session::joined(a + b) == session::joined(a) + ","@ + session::joined(b),
        a.len() == 1 ==> session::joined(a) == a[0],
    decreases b.len(),
{
    let all = a + b;
    if b.len() == 1 {
        assert(all.drop_last() =~= a);
    } else {
        law_texts_are_joined_by_commas(a, b.drop_last());
        assert(all.drop_last() =~= a + b.drop_last());
        assert(session::joined(all) =~= session::joined(a) + ","@ + session::joined(b));
    }
}

/// The text of an array with one more element at its end.
pub open spec fn appended(elements: Seq<Seq<char>>, x: Seq<char>) -> Seq<char> {
    if elements.len() == 0 {
        "["@ + x + "]"@
    } else {
        "["@ + session::joined(elements) + ","@ + x + "]"@
    }
}

proof fn lemma_appended(elements: Seq<Seq<char>>, x: Seq<char>)
    ensures
        session::array_text(elements.push(x)) == appended(elements, x),
{
    let all = elements.push(x);
    if elements.len() > 0 {
        assert(all.drop_last() =~= elements);
        assert(session::array_text(all) =~= appended(elements, x));
    }
}

proof fn lemma_keys_differ()
    ensures
        keys::EVENTS@ != keys::WRITER_SESSIONS@,
{
    reveal_strlit("events");
    reveal_strlit("writer_sessions");
    assert(keys::EVENTS@.len() != keys::WRITER_SESSIONS@.len());
}

// ------------------------------------------------------------ sessions

/// A session is recorded behind every session recorded before it, which stay as they
/// were; where nothing that is an array was recorded, it is the first. Of the metadata a
/// start writes nothing else, and a resume only the events.
pub proof fn law_a_session_is_recorded_last(
    source: i64,
    metadata: Seq<Entry>,
    name: Seq<char>,
    anchor: i64,
    resumed: Option<Option<i64>>,
    key: Seq<char>,
)
    requires
        session::session_patched(source, metadata, name, anchor, resumed) is Ok,
    ensures
        ({
            let p = session::session_patched(source, metadata, name, anchor, resumed)->Ok_0;
            let entry = session::session_text(name, anchor, resumed);
            &&& text_map::lookup(p, keys::WRITER_SESSIONS@) == Some(
                match text_map::lookup(metadata, keys::WRITER_SESSIONS@) {
                    Some(t) => match session::json_read(t) {
                        JsonView::Array(e) => appended(e, entry),
                        _ => "["@ + entry + "]"@,
                    },
                    None => "["@ + entry + "]"@,
                },
            )
            &&& text_map::lookup(p, keys::EVENTS@) is Some <==> resumed is Some
            &&& key != keys::WRITER_SESSIONS@ && key != keys::EVENTS@ ==> text_map::lookup(p, key)
                is None
        }),
{
    lemma_keys_differ();
    let p = session::session_patched(source, metadata, name, anchor, resumed)->Ok_0;
    let entry = session::session_text(name, anchor, resumed);
    let before = session::sessions_in(text_map::lookup(metadata, keys::WRITER_SESSIONS@));
    let sessions = session::array_text(before.push(entry));
    lemma_appended(before, entry);
    let none = Seq::<Entry>::empty();
    let first = match resumed {
        None => none,
        Some(after) => text_map::put_entry(
            none,
            keys::EVENTS@,
            session::events_with(
                text_map::lookup(metadata, keys::EVENTS@),
                session::event_text(name, anchor, after),
            )->0,
        ),
    };
    assert(p == text_map::put_entry(first, keys::WRITER_SESSIONS@, sessions));
    if resumed is Some {
        let events = session::events_with(
            text_map::lookup(metadata, keys::EVENTS@),
            session::event_text(name, anchor, resumed->0),
        )->0;
        text_map::lemma_put_ascending(none, keys::EVENTS@, events);
        text_map::lemma_lookup_put(none, keys::EVENTS@, events, keys::EVENTS@);
        text_map::lemma_lookup_put(none, keys::EVENTS@, events, key);
    }
    text_map::lemma_lookup_put(first, keys::WRITER_SESSIONS@, sessions, keys::WRITER_SESSIONS@);
    text_map::lemma_lookup_put(first, keys::WRITER_SESSIONS@, sessions, keys::EVENTS@);
    text_map::lemma_lookup_put(first, keys::WRITER_SESSIONS@, sessions, key);
}

/// A session is refused its record exactly where it resumes a source whose events are
/// JSON of a shape that nothing can be appended to.
pub proof fn law_a_record_is_refused_by_other_json(
    source: i64,
    metadata: Seq<Entry>,
    name: Seq<char>,
    anchor: i64,
    resumed: Option<Option<i64>>,
)
    ensures
        session::session_patched(source, metadata, name, anchor, resumed) is Err <==> {
            &&& resumed is Some
            &&& text_map::lookup(metadata, keys::EVENTS@) matches Some(t) && (session::json_read(
                t,
            ) is Array || session::json_read(t) is Other)
        },
{
}

// ------------------------------------------------------------ events

/// What a member of an object is written as.
pub open spec fn value_text(v: MemberView) -> Seq<char> {
    match v {
        MemberView::Array(e) => session::array_text(e),
        MemberView::Other(t) => t,
    }
}

/// Whether a place of an object is the last of its key.
pub open spec fn last_of_key(m: Seq<(Seq<char>, MemberView)>, i: int) -> bool {
    &&& 0 <= i < m.len()
    &&& forall|j: int| i < j < m.len() ==> (#[trigger] m[j]).0 != m[i].0
}

proof fn lemma_others(m: Seq<(Seq<char>, MemberView)>, key: Seq<char>)
    requires
        key != keys::EVENTS@,
    ensures
        text_map::ascending(session::other_members(m)),
        (forall|j: int| 0 <= j < m.len() ==> (#[trigger] m[j]).0 != key) ==> text_map::lookup(
            session::other_members(m),
            key,
        ) is None,
        forall|i: int| #[trigger]
            last_of_key(m, i) && m[i].0 == key ==> text_map::lookup(
                session::other_members(m),
                key,
            ) == Some(value_text(m[i].1)),
    decreases m.len(),
{
    if m.len() > 0 {
        let head = m.drop_last();
        let (k, v) = m.last();
        let before = session::other_members(head);
        lemma_others(head, key);
        if k != keys::EVENTS@ {
            text_map::lemma_put_ascending(before, k, value_text(v));
            text_map::lemma_lookup_put(before, k, value_text(v), key);
        }
        if forall|j: int| 0 <= j < m.len() ==> (#[trigger] m[j]).0 != key {
            assert(m[m.len() - 1].0 != key);
            assert forall|j: int| 0 <= j < head.len() implies (#[trigger] head[j]).0 != key by {
                assert(head[j] == m[j]);
            }
        }
        assert forall|i: int| #[trigger] last_of_key(m, i) && m[i].0 == key implies
            text_map::lookup(session::other_members(m), key) == Some(value_text(m[i].1)) by {
            if i < m.len() - 1 {
                assert(m[m.len() - 1].0 != key);
                assert forall|j: int| i < j < head.len() implies (#[trigger] head[j]).0
                    != head[i].0 by {
                    assert(head[j] == m[j]);
                }
                assert(last_of_key(head, i));
                assert(head[i] == m[i]);
            }
        }
    }
}

proof fn lemma_events(m: Seq<(Seq<char>, MemberView)>, i: int)
    requires
        last_of_key(m, i),
        m[i].0 == keys::EVENTS@,
    ensures
        session::events_in(m) == match m[i].1 {
            MemberView::Array(e) => e,
            MemberView::Other(_) => Seq::empty(),
        },
    decreases m.len(),
{
    if i < m.len() - 1 {
        let head = m.drop_last();
        assert(m[m.len() - 1].0 != keys::EVENTS@);
        assert forall|j: int| i < j < head.len() implies (#[trigger] head[j]).0 != head[i].0 by {
            assert(head[j] == m[j]);
        }
        lemma_events(head, i);
    }
}

/// An event is recorded behind every event recorded before it, and every other member of
/// the record stays as it was.
pub proof fn law_an_event_is_recorded_last(
    recorded: Option<Seq<char>>,
    event: Seq<char>,
    m: Seq<(Seq<char>, MemberView)>,
    key: Seq<char>,
)
    requires
        recorded matches Some(t) && session::json_read(t) == JsonView::Object(m),
        key != keys::EVENTS@,
    ensures
        exists|e: Seq<Entry>|
            {
                &&& session::events_with(recorded, event) == Some(#[trigger] session::object_text(e))
                &&& text_map::ascending(e)
                &&& forall|i: int| #[trigger]
                    last_of_key(m, i) && m[i].0 == keys::EVENTS@ ==> text_map::lookup(
                        e,
                        keys::EVENTS@,
                    ) == Some(
                        match m[i].1 {
                            MemberView::Array(events) => appended(events, event),
                            MemberView::Other(_) => "["@ + event + "]"@,
                        },
                    )
                &&& forall|i: int| #[trigger]
                    last_of_key(m, i) && m[i].0 == key ==> text_map::lookup(e, key) == Some(
                        value_text(m[i].1),
                    )
                &&& (forall|j: int| 0 <= j < m.len() ==> (#[trigger] m[j]).0 != key)
                    ==> text_map::lookup(e, key) is None
            },
{
    let others = session::other_members(m);
    let events = session::array_text(session::events_in(m).push(event));
    let e = text_map::put_entry(others, keys::EVENTS@, events);
    lemma_others(m, key);
    text_map::lemma_put_ascending(others, keys::EVENTS@, events);
    text_map::lemma_lookup_put(others, keys::EVENTS@, events, keys::EVENTS@);
    text_map::lemma_lookup_put(others, keys::EVENTS@, events, key);
    lemma_appended(session::events_in(m), event);
    assert forall|i: int| #[trigger] last_of_key(m, i) && m[i].0 == keys::EVENTS@ implies
        text_map::lookup(e, keys::EVENTS@) == Some(
        match m[i].1 {
            MemberView::Array(events) => appended(events, event),
            MemberView::Other(_) => "["@ + event + "]"@,
        },
    ) by {
        lemma_events(m, i);
    }
    assert(session::events_with(recorded, event) == Some(session::object_text(e)));
}

/// Where no events are recorded, or what is recorded is no JSON or null, the record
/// begins with the event alone.
pub proof fn law_a_first_event_begins_the_record(recorded: Option<Seq<char>>, event: Seq<char>)
    requires
        recorded matches Some(t) ==> session::json_read(t) is Invalid || session::json_read(
            t,
        ) is Null,
    ensures
        session::events_with(recorded, event) == Some(
            "{"@ + session::json_text(keys::EVENTS@) + ":"@ + "["@ + event + "]"@ + "}"@,
        ),
{
    let one = seq![(keys::EVENTS@, session::array_text(seq![event]))];
    lemma_appended(Seq::empty(), event);
    assert(Seq::<Seq<char>>::empty().push(event) =~= seq![event]);
    let texts = session::member_texts(one);
    assert(texts.len() == 1);
    assert(session::joined(texts) == texts[0]);
    assert(session::object_text(one) =~= "{"@ + session::json_text(keys::EVENTS@) + ":"@ + "["@
        + event + "]"@ + "}"@);
}

} // verus!
