//! Unit tests of the key schema, sort-key codec, outcome interpretation,
//! and the store primitives.

use matchmaking::CancellationReason;
use matchmaking::InMemoryStore;
use matchmaking::MatchResult;
use matchmaking::MatchmakingSkey;
use matchmaking::PutOutcome;
use matchmaking::TransactionOutcome;
use matchmaking::get_random_string;
use matchmaking::interpret_transaction;
use matchmaking::matchmaking_pkey;
use matchmaking::partition_key_attribute;
use matchmaking::sort_key_attribute;

fn skey(random_component: &str, run_id: &str) -> MatchmakingSkey {
    MatchmakingSkey {
        random_component: random_component.to_string(),
        run_id: run_id.to_string(),
    }
}

#[test]
fn key_attribute_names() {
    assert_eq!(partition_key_attribute(), "pk");
    assert_eq!(sort_key_attribute(), "sk");
}

#[test]
fn pkey_renders_turn_number_in_decimal() {
    assert_eq!(matchmaking_pkey(0), "matchmaking#turn_0");
    assert_eq!(matchmaking_pkey(1), "matchmaking#turn_1");
    assert_eq!(matchmaking_pkey(907), "matchmaking#turn_907");
    assert_eq!(matchmaking_pkey(u32::MAX), "matchmaking#turn_4294967295");
}

#[test]
fn pkey_distinguishes_turns() {
    assert_ne!(matchmaking_pkey(1), matchmaking_pkey(2));
    assert_ne!(matchmaking_pkey(12), matchmaking_pkey(21));
    assert_ne!(matchmaking_pkey(1), matchmaking_pkey(10));
    assert_eq!(matchmaking_pkey(42), matchmaking_pkey(42));
}

#[test]
fn skey_format_joins_with_underscore() {
    let k = skey("abcdefghijklmnop", "player-1");
    assert_eq!(k.format(), "abcdefghijklmnop_player-1");
}

#[test]
fn skey_format_and_parse_round_trip() {
    let k = skey("abcdefghijklmnop", "player-1");
    let parsed = MatchmakingSkey::parse(&k.format()).expect("round trip must parse");
    assert_eq!(parsed.random_component, "abcdefghijklmnop");
    assert_eq!(parsed.run_id, "player-1");
}

#[test]
fn parse_splits_on_first_underscore_only() {
    let parsed = MatchmakingSkey::parse("abc_run_with_underscores").expect("must parse");
    assert_eq!(parsed.random_component, "abc");
    assert_eq!(parsed.run_id, "run_with_underscores");
}

#[test]
fn parse_allows_empty_components() {
    let parsed = MatchmakingSkey::parse("_").expect("must parse");
    assert_eq!(parsed.random_component, "");
    assert_eq!(parsed.run_id, "");
}

#[test]
fn parse_without_underscore_is_an_error() {
    let err = MatchmakingSkey::parse("nounderscore").expect_err("must not parse");
    assert_eq!(err, "failed to detect MatchmakingSkey from 'nounderscore'");
}

#[test]
fn round_trip_with_underscores_in_run_id() {
    let k = skey("qqqqqqqqqqqqqqqq", "a_b_c");
    let parsed = MatchmakingSkey::parse(&k.format()).expect("must parse");
    assert_eq!(parsed.random_component, k.random_component);
    assert_eq!(parsed.run_id, k.run_id);
}

#[test]
fn generated_skey_has_16_lowercase_random_component() {
    let k = MatchmakingSkey::new("runner".to_string());
    assert_eq!(k.run_id, "runner");
    assert_eq!(k.random_component.chars().count(), 16);
    assert!(k.random_component.chars().all(|c| c.is_ascii_lowercase()));
    let parsed = MatchmakingSkey::parse(&k.format()).expect("must parse");
    assert_eq!(parsed.random_component, k.random_component);
    assert_eq!(parsed.run_id, k.run_id);
}

#[test]
fn random_string_length_and_alphabet() {
    let s = get_random_string(32);
    assert_eq!(s.chars().count(), 32);
    assert!(s.chars().all(|c| c.is_ascii_lowercase()));
    assert_eq!(get_random_string(0), "");
}

#[test]
fn interpret_committed_is_matched() {
    let p1 = skey("aaaaaaaaaaaaaaaa", "a");
    let p2 = skey("bbbbbbbbbbbbbbbb", "b");
    let r = interpret_transaction(TransactionOutcome::Committed, p1.clone(), p2.clone());
    assert_eq!(r, MatchResult::Matched(p1, p2));
}

fn canceled(first_failed: bool, second_failed: bool) -> TransactionOutcome {
    let message = |failed: bool| {
        if failed {
            Some("The conditional request failed".to_string())
        } else {
            None
        }
    };
    TransactionOutcome::Canceled {
        detail: "TransactionCanceledException".to_string(),
        reasons: vec![
            CancellationReason { message: message(first_failed) },
            CancellationReason { message: message(second_failed) },
        ],
    }
}

#[test]
fn interpret_first_condition_failure() {
    let r = interpret_transaction(canceled(true, false), skey("a", "a"), skey("b", "b"));
    assert_eq!(r, MatchResult::P1ConditionError);
}

#[test]
fn interpret_second_condition_failure() {
    let r = interpret_transaction(canceled(false, true), skey("a", "a"), skey("b", "b"));
    assert_eq!(r, MatchResult::P2ConditionError);
}

#[test]
fn interpret_tie_break_prefers_first_player() {
    let r = interpret_transaction(canceled(true, true), skey("a", "a"), skey("b", "b"));
    assert_eq!(r, MatchResult::P1ConditionError);
}

#[test]
fn interpret_cancellation_without_condition_failures_is_unrecoverable() {
    let r = interpret_transaction(canceled(false, false), skey("a", "a"), skey("b", "b"));
    assert_eq!(
        r,
        MatchResult::UnrecoverableError("TransactionCanceledException".to_string())
    );
}

#[test]
fn interpret_service_failure_is_unrecoverable() {
    let r = interpret_transaction(
        TransactionOutcome::ServiceFailure("ResourceNotFoundException: gone".to_string()),
        skey("a", "a"),
        skey("b", "b"),
    );
    assert_eq!(
        r,
        MatchResult::UnrecoverableError("ResourceNotFoundException: gone".to_string())
    );
}

#[test]
fn put_is_conditional_on_absence() {
    let mut store = InMemoryStore::new("t".to_string());
    let first = store.put_if_absent("t", "p".to_string(), "s".to_string());
    assert_eq!(first, PutOutcome::Stored);
    let second = store.put_if_absent("t", "p".to_string(), "s".to_string());
    assert_eq!(second, PutOutcome::ConditionFailed);
}

#[test]
fn put_against_missing_table_fails() {
    let mut store = InMemoryStore::new("t".to_string());
    match store.put_if_absent("other", "p".to_string(), "s".to_string()) {
        PutOutcome::ServiceFailure(m) => assert!(m.contains("ResourceNotFoundException"), "{m}"),
        other => panic!("unexpected outcome: {other:?}"),
    }
}

#[test]
fn query_returns_one_partition_in_store_order() {
    let mut store = InMemoryStore::new("t".to_string());
    assert_eq!(store.put_if_absent("t", "p1".to_string(), "b".to_string()), PutOutcome::Stored);
    assert_eq!(store.put_if_absent("t", "p2".to_string(), "x".to_string()), PutOutcome::Stored);
    assert_eq!(store.put_if_absent("t", "p1".to_string(), "a".to_string()), PutOutcome::Stored);
    let page = store.query("t", "p1").expect("query must succeed");
    assert_eq!(page, vec!["b".to_string(), "a".to_string()]);
    let empty = store.query("t", "p3").expect("query must succeed");
    assert!(empty.is_empty());
    let err = store.query("missing", "p1").expect_err("wrong table must fail");
    assert!(err.contains("ResourceNotFoundException"), "{err}");
}

#[test]
fn delete_removes_only_the_named_record() {
    let mut store = InMemoryStore::new("t".to_string());
    store.put_if_absent("t", "p".to_string(), "a".to_string());
    store.put_if_absent("t", "p".to_string(), "b".to_string());
    store.delete("t", "p", "a").expect("delete must succeed");
    assert_eq!(store.query("t", "p").unwrap(), vec!["b".to_string()]);
    store.delete("t", "p", "never-existed").expect("deleting an absent key succeeds");
    assert_eq!(store.query("t", "p").unwrap(), vec!["b".to_string()]);
}

#[test]
fn transact_delete_pair_is_atomic() {
    let mut store = InMemoryStore::new("t".to_string());
    store.put_if_absent("t", "p".to_string(), "a".to_string());
    store.put_if_absent("t", "p".to_string(), "b".to_string());
    let r = store.transact_delete_pair("t", "p", "a", "p", "b");
    assert_eq!(r, TransactionOutcome::Committed);
    assert!(store.query("t", "p").unwrap().is_empty());
}

#[test]
fn transact_delete_pair_cancels_when_a_condition_fails() {
    let mut store = InMemoryStore::new("t".to_string());
    store.put_if_absent("t", "p".to_string(), "a".to_string());
    match store.transact_delete_pair("t", "p", "a", "p", "gone") {
        TransactionOutcome::Canceled { reasons, .. } => {
            assert_eq!(reasons.len(), 2);
            assert!(reasons[0].message.is_none());
            assert!(reasons[1].message.is_some());
        },
        other => panic!("unexpected outcome: {other:?}"),
    }
    // The transaction aborted as a whole: the present record survived.
    assert_eq!(store.query("t", "p").unwrap(), vec!["a".to_string()]);
}

#[test]
fn transact_delete_pair_rejects_duplicate_items() {
    let mut store = InMemoryStore::new("t".to_string());
    store.put_if_absent("t", "p".to_string(), "a".to_string());
    match store.transact_delete_pair("t", "p", "a", "p", "a") {
        TransactionOutcome::ServiceFailure(m) => {
            assert!(m.contains("ValidationException"), "{m}")
        },
        other => panic!("unexpected outcome: {other:?}"),
    }
    assert_eq!(store.query("t", "p").unwrap(), vec!["a".to_string()]);
}
