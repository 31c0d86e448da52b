//! Companion memory shared across sessions: whose memory a session uses, and
//! how a character's continuity (soul growth and per-persona relationship
//! state) is carried between sessions.
use vstd::prelude::*;

use crate::text::{
    eq_ignore_ascii_case, eq_ignore_ascii_case_seq, str_chars, chars_to_string, trim_chars,
    trim_spec, str_eq,
};
use crate::asr::owned;
use crate::text::opt_str_view;

verus! {

/// Whose memory a session reads and writes.
#[derive(Clone, Copy, Debug, PartialEq, Eq, Structural)]
pub enum SessionKind {
    Session,
    CompanionShared,
}

/// The owner of the memory a session uses.
pub struct EffectiveMemoryOwner {
    pub owner_id: String,
    pub kind: SessionKind,
    pub shared: bool,
}

/// A character's memory shared by its companion sessions. The JSON fields
/// hold serialised JSON text.
pub struct SharedMemoryState {
    pub memories_json: String,
    pub memory_summary: Option<String>,
    pub memory_summary_token_count: i64,
    pub memory_tool_events_json: String,
    pub memory_status: Option<String>,
    pub memory_error: Option<String>,
    pub memory_progress_step: Option<i64>,
    pub soul_growth_json: String,
    pub relationship_states_json: String,
}

impl Default for SharedMemoryState {
    fn default() -> (r: Self)
        ensures
            r.memories_json@ == "[]"@,
            r.memory_summary.is_none(),
            r.memory_summary_token_count == 0,
            r.memory_tool_events_json@ == "[]"@,
            r.memory_status.is_none(),
            r.memory_error.is_none(),
            r.memory_progress_step.is_none(),
            r.soul_growth_json@ == "[]"@,
            r.relationship_states_json@ == "{}"@,
    {
        SharedMemoryState {
            memories_json: owned("[]"),
            memory_summary: None,
            memory_summary_token_count: 0,
            memory_tool_events_json: owned("[]"),
            memory_status: None,
            memory_error: None,
            memory_progress_step: None,
            soul_growth_json: owned("[]"),
            relationship_states_json: owned("{}"),
        }
    }
}

/// Whether a session runs in companion mode: the session's own mode, or the
/// stored mode of its character, is "companion" in any ASCII case. A
/// character that is not found never does.
pub open spec fn uses_companion_mode_spec(
    character_found: bool,
    character_mode: Option<Seq<char>>,
    mode: Seq<char>,
) -> bool {
    character_found && (eq_ignore_ascii_case_seq(mode, "companion"@) || match character_mode {
        Some(m) => eq_ignore_ascii_case_seq(m, "companion"@),
        None => false,
    })
}

pub fn uses_companion_mode(character_found: bool, character_mode: Option<&str>, mode: &str) -> (r:
    bool)
    ensures
        r == uses_companion_mode_spec(character_found, opt_str_view(character_mode), mode@),
{
    if !character_found {
        return false;
    }
    if eq_ignore_ascii_case(mode, "companion") {
        return true;
    }
    match character_mode {
        Some(m) => eq_ignore_ascii_case(m, "companion"),
        None => false,
    }
}

/// Memory is shared across sessions when the session is in companion mode
/// and the character's companion settings enable it.
pub fn shared_memory_enabled(uses_companion: bool, enabled_in_settings: Option<bool>) -> (r: bool)
    ensures
        r == (uses_companion && enabled_in_settings == Some(true)),
{
    if !uses_companion {
        return false;
    }
    match enabled_in_settings {
        Some(v) => v,
        None => false,
    }
}

/// The character owns a shared memory; otherwise the session owns its own.
pub fn resolve_effective_memory_owner(shared: bool, session_id: &str, character_id: &str) -> (r:
    EffectiveMemoryOwner)
    ensures
        r.shared == shared,
        shared ==> r.owner_id@ == character_id@ && r.kind == SessionKind::CompanionShared,
        !shared ==> r.owner_id@ == session_id@ && r.kind == SessionKind::Session,
{
    if shared {
        EffectiveMemoryOwner {
            owner_id: owned(character_id),
            kind: SessionKind::CompanionShared,
            shared: true,
        }
    } else {
        EffectiveMemoryOwner { owner_id: owned(session_id), kind: SessionKind::Session, shared: false }
    }
}

/// Key of the relationship state kept for a persona: its trimmed id, or
/// `__default__` when there is none or it is blank.
pub open spec fn relationship_key_spec(persona_id: Option<Seq<char>>) -> Seq<char> {
    match persona_id {
        Some(p) => if trim_spec(p).len() > 0 {
            trim_spec(p)
        } else {
            "__default__"@
        },
        None => "__default__"@,
    }
}

pub fn relationship_key(persona_id: Option<&str>) -> (r: String)
    ensures
        r@ == relationship_key_spec(opt_str_view(persona_id)),
{
    match persona_id {
        Some(p) => {
            let chars = str_chars(p);
            let t = trim_chars(chars.as_slice());
            if t.len() > 0 {
                chars_to_string(t.as_slice())
            } else {
                owned("__default__")
            }
        },
        None => owned("__default__"),
    }
}

// ---------------------------------------------------------------------------
// JSON documents, as far as continuity reads them
// ---------------------------------------------------------------------------

/// A JSON value. Numbers are kept as their text; an object keeps its
/// members in order, each key at most once.
pub enum JsonValue {
    Null,
    Bool(bool),
    Number(String),
    Text(String),
    Array(Vec<JsonValue>),
    Object(Vec<(String, JsonValue)>),
}

/// An object's members, each key by its text.
pub type MembersView = Seq<(Seq<char>, JsonValue)>;

pub open spec fn members_view(m: Seq<(String, JsonValue)>) -> MembersView {
    m.map_values(|e: (String, JsonValue)| (e.0@, e.1))
}

/// Position of the first member named `key`, or -1.
pub open spec fn member_pos(ms: MembersView, key: Seq<char>) -> int
    decreases ms.len(),
{
    if ms.len() == 0 {
        -1
    } else {
        let p = member_pos(ms.drop_last(), key);
        if p >= 0 {
            p
        } else if ms.last().0 == key {
            ms.len() - 1
        } else {
            -1
        }
    }
}

/// The value of the member named `key`, if any.
pub open spec fn get_member(ms: MembersView, key: Seq<char>) -> Option<JsonValue> {
    let p = member_pos(ms, key);
    if p >= 0 {
        Some(ms[p].1)
    } else {
        None
    }
}

/// The members with `key` set to `v`: the member of that name replaced, or
/// a new member appended.
pub open spec fn set_member(ms: MembersView, key: Seq<char>, v: JsonValue) -> MembersView {
    let p = member_pos(ms, key);
    if p >= 0 {
        ms.update(p, (key, v))
    } else {
        ms.push((key, v))
    }
}

proof fn lemma_member_pos(ms: MembersView, key: Seq<char>, i: int)
    requires
        0 <= i <= ms.len(),
        forall|k: int| 0 <= k < i ==> (#[trigger] ms[k]).0 != key,
        i < ms.len() ==> ms[i].0 == key,
    ensures
        member_pos(ms, key) == if i < ms.len() {
            i
        } else {
            -1
        },
    decreases ms.len(),
{
    if ms.len() > 0 {
        let init = ms.drop_last();
        if i < ms.len() - 1 {
            assert(init[i] == ms[i]);
            assert forall|k: int| 0 <= k < i implies (#[trigger] init[k]).0 != key by {
                assert(init[k] == ms[k]);
            }
            lemma_member_pos(init, key, i);
        } else {
            assert forall|k: int| 0 <= k < init.len() implies (#[trigger] init[k]).0 != key by {
                assert(init[k] == ms[k]);
            }
            lemma_member_pos(init, key, init.len() as int);
        }
    }
}

proof fn lemma_member_pos_bounds(ms: MembersView, key: Seq<char>)
    ensures
        -1 <= member_pos(ms, key) < ms.len(),
        member_pos(ms, key) >= 0 ==> ms[member_pos(ms, key)].0 == key,
    decreases ms.len(),
{
    if ms.len() > 0 {
        lemma_member_pos_bounds(ms.drop_last(), key);
        let p = member_pos(ms.drop_last(), key);
        if p >= 0 {
            assert(ms.drop_last()[p] == ms[p]);
        }
    }
}

/// Position of the first member named `key`.
fn find_member(members: &Vec<(String, JsonValue)>, key: &str) -> (r: Option<usize>)
    ensures
        match r {
            Some(i) => member_pos(members_view(members@), key@) == i as int && i < members@.len(),
            None => member_pos(members_view(members@), key@) == -1,
        },
{
    let ghost ms = members_view(members@);
    let mut i: usize = 0;
    while i < members.len()
        invariant
            i <= members.len(),
            ms == members_view(members@),
            forall|k: int| 0 <= k < i ==> (#[trigger] ms[k]).0 != key@,
        decreases members.len() - i,
    {
        if str_eq(members[i].0.as_str(), key) {
            proof {
                lemma_member_pos(ms, key@, i as int);
            }
            return Some(i);
        }
        i += 1;
    }
    proof {
        lemma_member_pos(ms, key@, ms.len() as int);
    }
    None
}

/// Sets the member named `key` to `v`.
fn put_member(members: &mut Vec<(String, JsonValue)>, key: String, v: JsonValue)
    ensures
        members_view(final(members)@) == set_member(members_view(old(members)@), key@, v),
{
    let ghost ms = members_view(members@);
    let ghost k = key@;
    let ghost value = v;
    match find_member(members, key.as_str()) {
        Some(i) => {
            members[i] = (key, v);
            assert(members_view(members@) =~= ms.update(i as int, (k, value)));
        },
        None => {
            members.push((key, v));
            assert(members_view(members@) =~= ms.push((k, value)));
        },
    }
}

/// What `merge_continuity_into_state` puts into a session's state object:
/// the character's soul growth when it is a non-empty array, then the
/// relationship state kept for the persona when it is an object.
pub open spec fn merged_members(
    ms: MembersView,
    soul_growth: Option<JsonValue>,
    relationship_states: Option<JsonValue>,
    key: Seq<char>,
) -> MembersView {
    let with_soul = match soul_growth {
        Some(JsonValue::Array(items)) => if items@.len() > 0 {
            set_member(ms, "soulGrowth"@, JsonValue::Array(items))
        } else {
            ms
        },
        _ => ms,
    };
    match relationship_states {
        Some(JsonValue::Object(rs)) => match get_member(members_view(rs@), key) {
            Some(JsonValue::Object(r)) => set_member(
                with_soul,
                "relationshipState"@,
                JsonValue::Object(r),
            ),
            _ => with_soul,
        },
        _ => with_soul,
    }
}

/// Hydrates a session's state with the character's continuity. The stored
/// soul growth and relationship states are given parsed, or none where they
/// do not parse. A missing state stays missing and a state that is not an
/// object is returned unchanged.
pub fn merge_continuity_into_state(
    state: Option<JsonValue>,
    soul_growth: Option<JsonValue>,
    relationship_states: Option<JsonValue>,
    persona_id: Option<&str>,
) -> (r: Option<JsonValue>)
    ensures
        state is None ==> r is None,
        (state is Some && !(state->0 is Object)) ==> r == state,
        state matches Some(JsonValue::Object(ms)) ==> r matches Some(JsonValue::Object(out))
            && members_view(out@) == merged_members(
            members_view(ms@),
            soul_growth,
            relationship_states,
            relationship_key_spec(opt_str_view(persona_id)),
        ),
{
    let mut members = match state {
        None => {
            return None;
        },
        Some(JsonValue::Object(ms)) => ms,
        Some(other) => {
            return Some(other);
        },
    };
    let ghost start = members_view(members@);
    let ghost key_view = relationship_key_spec(opt_str_view(persona_id));
    let ghost soul_in = soul_growth;
    let ghost rels_in = relationship_states;
    proof {
        reveal_strlit("soulGrowth");
        reveal_strlit("relationshipState");
    }
    match soul_growth {
        Some(JsonValue::Array(items)) => {
            if items.len() > 0 {
                put_member(&mut members, owned("soulGrowth"), JsonValue::Array(items));
            }
        },
        _ => {},
    }
    let ghost with_soul = members_view(members@);
    match relationship_states {
        Some(JsonValue::Object(mut rs)) => {
            let key = relationship_key(persona_id);
            match find_member(&rs, key.as_str()) {
                Some(i) => {
                    proof {
                        lemma_member_pos_bounds(members_view(rs@), key@);
                    }
                    let ghost rs_view = members_view(rs@);
                    let entry = rs.remove(i);
                    assert(entry.1 == rs_view[i as int].1);
                    match entry.1 {
                        JsonValue::Object(r) => {
                            put_member(&mut members, owned("relationshipState"), JsonValue::Object(r));
                        },
                        _ => {},
                    }
                },
                None => {},
            }
        },
        _ => {},
    }
    Some(JsonValue::Object(members))
}

/// What persisting a session's state changes in the character's continuity:
/// the soul growth to store, and the relationship states to store.
pub struct ContinuityUpdate {
    pub soul_growth: Option<JsonValue>,
    pub relationship_states: Option<JsonValue>,
}

/// The relationship states with the persona's entry set, starting from the
/// stored states when they are an object and from no states otherwise.
pub open spec fn updated_relationships(
    stored: Option<JsonValue>,
    key: Seq<char>,
    relationship: JsonValue,
) -> MembersView {
    let base = match stored {
        Some(JsonValue::Object(rs)) => members_view(rs@),
        _ => Seq::empty(),
    };
    set_member(base, key, relationship)
}

/// Takes the values at two distinct positions out of the members.
fn take_two(members: Vec<(String, JsonValue)>, a: Option<usize>, b: Option<usize>) -> (r: (
    Option<JsonValue>,
    Option<JsonValue>,
))
    requires
        a matches Some(i) ==> i < members@.len(),
        b matches Some(j) ==> j < members@.len(),
        a is Some && b is Some ==> a->0 != b->0,
    ensures
        match a {
            Some(i) => r.0 == Some(members@[i as int].1),
            None => r.0 is None,
        },
        match b {
            Some(j) => r.1 == Some(members@[j as int].1),
            None => r.1 is None,
        },
{
    let ghost orig = members@;
    let mut members = members;
    match (a, b) {
        (Some(i), Some(j)) => {
            if i > j {
                let x = members.remove(i);
                assert(members@[j as int] == orig[j as int]);
                let y = members.remove(j);
                (Some(x.1), Some(y.1))
            } else {
                let y = members.remove(j);
                assert(members@[i as int] == orig[i as int]);
                let x = members.remove(i);
                (Some(x.1), Some(y.1))
            }
        },
        (Some(i), None) => {
            let x = members.remove(i);
            (Some(x.1), None)
        },
        (None, Some(j)) => {
            let y = members.remove(j);
            (None, Some(y.1))
        },
        (None, None) => (None, None),
    }
}

/// What a session's state, when it is an object, asks to store: its soul
/// growth when that is an array, and the relationship states with its
/// relationship state under the persona's key when that is an object. The
/// stored relationship states are given parsed, or none where they do not
/// parse.
pub fn persist_continuity_from_state(
    state: JsonValue,
    stored_relationship_states: Option<JsonValue>,
    persona_id: Option<&str>,
) -> (r: ContinuityUpdate)
    ensures
        !(state is Object) ==> r.soul_growth is None && r.relationship_states is None,
        state matches JsonValue::Object(ms) ==> {
            &&& match get_member(members_view(ms@), "soulGrowth"@) {
                Some(JsonValue::Array(items)) => r.soul_growth == Some(JsonValue::Array(items)),
                _ => r.soul_growth is None,
            }
            &&& match get_member(members_view(ms@), "relationshipState"@) {
                Some(JsonValue::Object(rel)) => r.relationship_states matches Some(
                    JsonValue::Object(out),
                ) && members_view(out@) == updated_relationships(
                    stored_relationship_states,
                    relationship_key_spec(opt_str_view(persona_id)),
                    JsonValue::Object(rel),
                ),
                _ => r.relationship_states is None,
            }
        },
{
    let members = match state {
        JsonValue::Object(ms) => ms,
        _ => {
            return ContinuityUpdate { soul_growth: None, relationship_states: None };
        },
    };
    let ghost ms = members_view(members@);
    proof {
        reveal_strlit("soulGrowth");
        reveal_strlit("relationshipState");
        lemma_member_pos_bounds(ms, "soulGrowth"@);
        lemma_member_pos_bounds(ms, "relationshipState"@);
    }
    let soul_at = find_member(&members, "soulGrowth");
    let rel_at = find_member(&members, "relationshipState");
    proof {
        if soul_at is Some && rel_at is Some {
            assert("soulGrowth"@ != "relationshipState"@) by {
                assert("soulGrowth"@[0] != "relationshipState"@[0]);
            }
        }
    }
    let (soul, rel) = take_two(members, soul_at, rel_at);
    let soul_growth = match soul {
        Some(JsonValue::Array(items)) => Some(JsonValue::Array(items)),
        _ => None,
    };
    let relationship_states = match rel {
        Some(JsonValue::Object(r)) => {
            let mut base = match stored_relationship_states {
                Some(JsonValue::Object(rs)) => rs,
                _ => Vec::new(),
            };
            assert(members_view(base@) == match stored_relationship_states {
                Some(JsonValue::Object(rs)) => members_view(rs@),
                _ => Seq::<(Seq<char>, JsonValue)>::empty(),
            });
            let key = relationship_key(persona_id);
            put_member(&mut base, key, JsonValue::Object(r));
            Some(JsonValue::Object(base))
        },
        _ => None,
    };
    ContinuityUpdate { soul_growth, relationship_states }
}

} // verus!
verus! {

proof fn lemma_member_pos_first(ms: MembersView, key: Seq<char>)
    ensures
        member_pos(ms, key) >= 0 ==> forall|j: int|
            0 <= j < member_pos(ms, key) ==> (#[trigger] ms[j]).0 != key,
        member_pos(ms, key) == -1 ==> forall|j: int| 0 <= j < ms.len() ==> (#[trigger] ms[j]).0 != key,
    decreases ms.len(),
{
    if ms.len() > 0 {
        let init = ms.drop_last();
        lemma_member_pos_first(init, key);
        lemma_member_pos_bounds(init, key);
        lemma_member_pos_bounds(ms, key);
        assert forall|j: int| 0 <= j < init.len() implies init[j] == ms[j] by {}
    }
}

proof fn lemma_get_set_same(ms: MembersView, key: Seq<char>, v: JsonValue)
    ensures
        get_member(set_member(ms, key, v), key) == Some(v),
{
    lemma_member_pos_bounds(ms, key);
    lemma_member_pos_first(ms, key);
    let p = member_pos(ms, key);
    let out = set_member(ms, key, v);
    if p >= 0 {
        assert forall|j: int| 0 <= j < p implies (#[trigger] out[j]).0 != key by {
            assert(out[j] == ms[j]);
        }
        lemma_member_pos(out, key, p);
    } else {
        assert forall|j: int| 0 <= j < ms.len() implies (#[trigger] out[j]).0 != key by {
            assert(out[j] == ms[j]);
        }
        lemma_member_pos(out, key, ms.len() as int);
    }
}

proof fn lemma_get_set_other(ms: MembersView, key: Seq<char>, other: Seq<char>, v: JsonValue)
    requires
        key != other,
    ensures
        get_member(set_member(ms, key, v), other) == get_member(ms, other),
{
    lemma_member_pos_bounds(ms, key);
    lemma_member_pos_bounds(ms, other);
    lemma_member_pos_first(ms, other);
    let p = member_pos(ms, key);
    let q = member_pos(ms, other);
    let out = set_member(ms, key, v);
    assert forall|j: int| 0 <= j < ms.len() && j != p implies (#[trigger] out[j]) == ms[j] by {}
    if q >= 0 {
        assert(q != p);
        assert forall|j: int| 0 <= j < q implies (#[trigger] out[j]).0 != other by {
            if j != p {
                assert(out[j] == ms[j]);
            }
        }
        lemma_member_pos(out, other, q);
    } else {
        assert forall|j: int| 0 <= j < out.len() implies (#[trigger] out[j]).0 != other by {
            if j < ms.len() && j != p {
                assert(out[j] == ms[j]);
            }
        }
        lemma_member_pos(out, other, out.len() as int);
    }
}

/// A relationship state persisted for a persona is what a later session of
/// that persona is hydrated with, whatever its state held before.
pub proof fn law_persona_relationship_round_trip(
    ms: MembersView,
    soul_growth: Option<JsonValue>,
    stored: Option<JsonValue>,
    key: Seq<char>,
    relationship: Vec<(String, JsonValue)>,
    persisted: Vec<(String, JsonValue)>,
)
    requires
        members_view(persisted@) == updated_relationships(
            stored,
            key,
            JsonValue::Object(relationship),
        ),
    ensures
        get_member(
            merged_members(ms, soul_growth, Some(JsonValue::Object(persisted)), key),
            "relationshipState"@,
        ) == Some(JsonValue::Object(relationship)),
{
    let base = match stored {
        Some(JsonValue::Object(rs)) => members_view(rs@),
        _ => Seq::empty(),
    };
    lemma_get_set_same(base, key, JsonValue::Object(relationship));
    let with_soul = match soul_growth {
        Some(JsonValue::Array(items)) => if items@.len() > 0 {
            set_member(ms, "soulGrowth"@, JsonValue::Array(items))
        } else {
            ms
        },
        _ => ms,
    };
    lemma_get_set_same(with_soul, "relationshipState"@, JsonValue::Object(relationship));
}

/// Persisting one persona's relationship state leaves the state stored for
/// every other persona as it was.
pub proof fn law_relationships_isolated_per_persona(
    stored: Option<JsonValue>,
    key: Seq<char>,
    other: Seq<char>,
    relationship: JsonValue,
)
    requires
        key != other,
    ensures
        get_member(updated_relationships(stored, key, relationship), other) == match stored {
            Some(JsonValue::Object(rs)) => get_member(members_view(rs@), other),
            _ => None,
        },
{
    let base = match stored {
        Some(JsonValue::Object(rs)) => members_view(rs@),
        _ => Seq::empty(),
    };
    lemma_get_set_other(base, key, other, relationship);
}

/// A non-empty soul growth kept for the character is what a later session
/// is hydrated with.
pub proof fn law_soul_growth_carried_into_session(
    ms: MembersView,
    items: Vec<JsonValue>,
    relationship_states: Option<JsonValue>,
    key: Seq<char>,
)
    requires
        items@.len() > 0,
    ensures
        get_member(
            merged_members(ms, Some(JsonValue::Array(items)), relationship_states, key),
            "soulGrowth"@,
        ) == Some(JsonValue::Array(items)),
{
    reveal_strlit("soulGrowth");
    reveal_strlit("relationshipState");
    let with_soul = set_member(ms, "soulGrowth"@, JsonValue::Array(items));
    lemma_get_set_same(ms, "soulGrowth"@, JsonValue::Array(items));
    assert("relationshipState"@ != "soulGrowth"@) by {
        assert("soulGrowth"@[0] != "relationshipState"@[0]);
    }
    match relationship_states {
        Some(JsonValue::Object(rs)) => match get_member(members_view(rs@), key) {
            Some(JsonValue::Object(r)) => {
                lemma_get_set_other(
                    with_soul,
                    "relationshipState"@,
                    "soulGrowth"@,
                    JsonValue::Object(r),
                );
            },
            _ => {},
        },
        _ => {},
    }
}

} // verus!
