use lettuce_core::companion::{
    merge_continuity_into_state, persist_continuity_from_state, relationship_key,
    resolve_effective_memory_owner, shared_memory_enabled, uses_companion_mode, JsonValue,
    SessionKind, SharedMemoryState,
};

fn num(text: &str) -> JsonValue {
    JsonValue::Number(text.to_string())
}

fn text(value: &str) -> JsonValue {
    JsonValue::Text(value.to_string())
}

fn object(members: Vec<(&str, JsonValue)>) -> JsonValue {
    JsonValue::Object(members.into_iter().map(|(k, v)| (k.to_string(), v)).collect())
}

fn member<'a>(value: &'a JsonValue, key: &str) -> Option<&'a JsonValue> {
    match value {
        JsonValue::Object(members) => members.iter().find(|(k, _)| k == key).map(|(_, v)| v),
        _ => None,
    }
}

fn number_text(value: Option<&JsonValue>) -> Option<String> {
    match value {
        Some(JsonValue::Number(n)) => Some(n.clone()),
        _ => None,
    }
}

/// Stands in for the row the application keeps per character.
struct StoredContinuity {
    soul_growth: Option<JsonValue>,
    relationship_states: Option<JsonValue>,
}

fn persist(stored: &mut StoredContinuity, persona: Option<&str>, state: JsonValue) {
    let previous = stored.relationship_states.take();
    let update = persist_continuity_from_state(state, previous.clone_tree(), persona);
    if let Some(soul) = update.soul_growth {
        stored.soul_growth = Some(soul);
    }
    stored.relationship_states = match update.relationship_states {
        Some(states) => Some(states),
        None => previous,
    };
}

trait CloneTree {
    fn clone_tree(&self) -> Self;
}

impl CloneTree for Option<JsonValue> {
    fn clone_tree(&self) -> Self {
        self.as_ref().map(clone_json)
    }
}

fn clone_json(value: &JsonValue) -> JsonValue {
    match value {
        JsonValue::Null => JsonValue::Null,
        JsonValue::Bool(b) => JsonValue::Bool(*b),
        JsonValue::Number(n) => JsonValue::Number(n.clone()),
        JsonValue::Text(t) => JsonValue::Text(t.clone()),
        JsonValue::Array(items) => JsonValue::Array(items.iter().map(clone_json).collect()),
        JsonValue::Object(members) => {
            JsonValue::Object(members.iter().map(|(k, v)| (k.clone(), clone_json(v))).collect())
        }
    }
}

fn hydrate(stored: &StoredContinuity, persona: Option<&str>, state: JsonValue) -> JsonValue {
    merge_continuity_into_state(
        Some(state),
        stored.soul_growth.clone_tree(),
        stored.relationship_states.clone_tree(),
        persona,
    )
    .unwrap()
}

#[test]
fn continuity_carries_soul_and_persona_relationship_between_sessions() {
    let mut stored = StoredContinuity { soul_growth: None, relationship_states: None };
    let first = object(vec![
        (
            "soulGrowth",
            JsonValue::Array(vec![object(vec![
                ("id", text("growth-1")),
                ("category", text("goals")),
                ("value", text("Protect the garden")),
            ])]),
        ),
        ("relationshipState", object(vec![("trust", num("0.82")), ("interactionCount", num("14"))])),
        ("emotionalState", object(vec![("felt", object(vec![("calm", num("0.1"))]))])),
    ]);
    persist(&mut stored, Some("persona-1"), first);

    let fresh_session = object(vec![
        ("soulGrowth", JsonValue::Array(vec![])),
        ("relationshipState", object(vec![("trust", num("0.2")), ("interactionCount", num("0"))])),
        ("emotionalState", object(vec![("felt", object(vec![("calm", num("0.9"))]))])),
    ]);
    let hydrated = hydrate(&stored, Some("persona-1"), fresh_session);

    let soul = member(&hydrated, "soulGrowth").unwrap();
    let first_growth = match soul {
        JsonValue::Array(items) => &items[0],
        _ => panic!("soul growth is not an array"),
    };
    assert!(matches!(member(first_growth, "id"), Some(JsonValue::Text(t)) if t == "growth-1"));
    let relationship = member(&hydrated, "relationshipState").unwrap();
    assert_eq!(number_text(member(relationship, "trust")), Some("0.82".to_string()));
    assert_eq!(number_text(member(relationship, "interactionCount")), Some("14".to_string()));
    let felt = member(member(&hydrated, "emotionalState").unwrap(), "felt").unwrap();
    assert_eq!(number_text(member(felt, "calm")), Some("0.9".to_string()));
}

#[test]
fn relationships_remain_isolated_per_persona() {
    let mut stored = StoredContinuity { soul_growth: None, relationship_states: None };
    persist(
        &mut stored,
        Some("persona-1"),
        object(vec![("relationshipState", object(vec![("trust", num("0.9"))]))]),
    );
    persist(
        &mut stored,
        Some("persona-2"),
        object(vec![("relationshipState", object(vec![("trust", num("-0.4"))]))]),
    );

    let first = hydrate(
        &stored,
        Some("persona-1"),
        object(vec![("relationshipState", object(vec![("trust", num("0.0"))]))]),
    );
    let second = hydrate(
        &stored,
        Some("persona-2"),
        object(vec![("relationshipState", object(vec![("trust", num("0.0"))]))]),
    );

    assert_eq!(
        number_text(member(member(&first, "relationshipState").unwrap(), "trust")),
        Some("0.9".to_string())
    );
    assert_eq!(
        number_text(member(member(&second, "relationshipState").unwrap(), "trust")),
        Some("-0.4".to_string())
    );
}

#[test]
fn a_state_that_is_not_an_object_is_left_alone() {
    let merged = merge_continuity_into_state(
        Some(JsonValue::Array(vec![])),
        Some(JsonValue::Array(vec![text("x")])),
        None,
        None,
    );
    assert!(matches!(merged, Some(JsonValue::Array(items)) if items.is_empty()));
    assert!(merge_continuity_into_state(None, None, None, None).is_none());
    let update = persist_continuity_from_state(JsonValue::Null, None, None);
    assert!(update.soul_growth.is_none() && update.relationship_states.is_none());
}

#[test]
fn an_empty_soul_growth_is_not_carried() {
    let merged = merge_continuity_into_state(
        Some(object(vec![("soulGrowth", JsonValue::Array(vec![text("mine")]))])),
        Some(JsonValue::Array(vec![])),
        None,
        None,
    )
    .unwrap();
    assert!(matches!(member(&merged, "soulGrowth"), Some(JsonValue::Array(items)) if items.len() == 1));
}

#[test]
fn relationship_keys_default_for_blank_personas() {
    assert_eq!(relationship_key(None), "__default__");
    assert_eq!(relationship_key(Some("   ")), "__default__");
    assert_eq!(relationship_key(Some("  persona-1 ")), "persona-1");
}

#[test]
fn companion_mode_and_memory_owner() {
    assert!(uses_companion_mode(true, None, "Companion"));
    assert!(uses_companion_mode(true, Some("COMPANION"), "chat"));
    assert!(!uses_companion_mode(false, Some("companion"), "companion"));
    assert!(!uses_companion_mode(true, Some("roleplay"), "chat"));
    assert!(shared_memory_enabled(true, Some(true)));
    assert!(!shared_memory_enabled(true, None));
    assert!(!shared_memory_enabled(false, Some(true)));
    let shared = resolve_effective_memory_owner(true, "session-1", "character-1");
    assert_eq!(shared.owner_id, "character-1");
    assert_eq!(shared.kind, SessionKind::CompanionShared);
    assert!(shared.shared);
    let own = resolve_effective_memory_owner(false, "session-1", "character-1");
    assert_eq!(own.owner_id, "session-1");
    assert_eq!(own.kind, SessionKind::Session);
}

#[test]
fn shared_memory_state_defaults_to_empty_json() {
    let state = SharedMemoryState::default();
    assert_eq!(state.memories_json, "[]");
    assert_eq!(state.memory_tool_events_json, "[]");
    assert_eq!(state.soul_growth_json, "[]");
    assert_eq!(state.relationship_states_json, "{}");
    assert_eq!(state.memory_summary_token_count, 0);
    assert!(state.memory_summary.is_none());
}
