//! End-to-end scenarios of the pairing protocol and the matchmaking
//! driver, run against the in-memory store.

use matchmaking::AsyncMatchmakingRequest;
use matchmaking::DriverAction;
use matchmaking::InMemoryStore;
use matchmaking::MatchResult;
use matchmaking::MatchmakingDriver;
use matchmaking::MatchmakingResult;
use matchmaking::MatchmakingSkey;
use matchmaking::attempt_match;
use matchmaking::attempt_matchmaking;
use matchmaking::delete_item;
use matchmaking::end_turn;
use matchmaking::list_matchmaking_entries;
use matchmaking::matchmaking_pkey;
use matchmaking::register;

const TC_TABLE: &str = "mygametable2025";

/// Registers a player with a deterministic sort key (the random
/// component equals the run identifier), so tests control listing order.
fn register_fixed(store: &mut InMemoryStore, turn: u32, run_id: &str) -> MatchmakingSkey {
    let skey = MatchmakingSkey {
        random_component: run_id.to_string(),
        run_id: run_id.to_string(),
    };
    register(store, TC_TABLE, turn, &skey).expect("registration must succeed");
    skey
}

/// Drives a matchmaking run by hand: lists once with `list_table`, then
/// attempts candidates against `attempt_table`, with `between` run after
/// the listing and before the first attempt (a stand-in for a concurrent
/// worker). Returns the result and the candidates attempted, in order.
fn drive(
    store: &mut InMemoryStore,
    list_table: &str,
    attempt_table: &str,
    request: AsyncMatchmakingRequest,
    between: impl FnOnce(&mut InMemoryStore),
) -> (MatchmakingResult, Vec<MatchmakingSkey>) {
    let turn = request.turn_number;
    let requester = request.skey.clone();
    let listed = list_matchmaking_entries(store, list_table, turn).expect("listing must succeed");
    let mut driver = MatchmakingDriver::new(request, listed);
    between(store);
    let mut attempted = Vec::new();
    loop {
        match driver.next_action() {
            DriverAction::Finish(outcome) => return (outcome, attempted),
            DriverAction::Attempt(op) => {
                attempted.push(op.clone());
                let result = attempt_match(store, attempt_table, turn, requester.clone(), op);
                if let Some(outcome) = driver.record_outcome(result) {
                    return (outcome, attempted);
                }
            },
        }
    }
}

#[test]
fn match_happy_path_works() {
    let mut store = InMemoryStore::new(TC_TABLE.to_string());
    let player1 = end_turn(&mut store, TC_TABLE, 1, "a".to_string()).expect("failed to end turn");
    let player2 = end_turn(&mut store, TC_TABLE, 1, "b".to_string()).expect("failed to end turn");
    let res = attempt_match(&mut store, TC_TABLE, 1, player1, player2);
    match res {
        MatchResult::Matched(p1, p2) => {
            assert_eq!(p1.run_id, "a");
            assert_eq!(p2.run_id, "b");
        },
        e => panic!("Unexpected result: {e:?}"),
    }
    let left = list_matchmaking_entries(&mut store, TC_TABLE, 1).expect("listing must succeed");
    assert!(left.is_empty(), "both records must be consumed");
}

#[test]
fn match_can_report_if_p2_already_matched() {
    let mut store = InMemoryStore::new(TC_TABLE.to_string());
    let player1 = end_turn(&mut store, TC_TABLE, 1, "a".to_string()).expect("failed to end turn");
    // player2 has no record in the table.
    let player2 = MatchmakingSkey::new("b".to_string());
    let res = attempt_match(&mut store, TC_TABLE, 1, player1.clone(), player2);
    assert_eq!(res, MatchResult::P2ConditionError);
    // player1's record survived the aborted transaction.
    let left = list_matchmaking_entries(&mut store, TC_TABLE, 1).expect("listing must succeed");
    assert_eq!(left, vec![player1]);
}

#[test]
fn match_can_report_if_p1_already_matched() {
    let mut store = InMemoryStore::new(TC_TABLE.to_string());
    let player1 = MatchmakingSkey::new("a".to_string());
    let player2 = end_turn(&mut store, TC_TABLE, 1, "b".to_string()).expect("failed to end turn");
    let res = attempt_match(&mut store, TC_TABLE, 1, player1, player2.clone());
    assert_eq!(res, MatchResult::P1ConditionError);
    let left = list_matchmaking_entries(&mut store, TC_TABLE, 1).expect("listing must succeed");
    assert_eq!(left, vec![player2]);
}

#[test]
fn match_tie_break_when_both_absent_is_p1() {
    let mut store = InMemoryStore::new(TC_TABLE.to_string());
    let player1 = MatchmakingSkey::new("a".to_string());
    let player2 = MatchmakingSkey::new("b".to_string());
    let res = attempt_match(&mut store, TC_TABLE, 1, player1, player2);
    assert_eq!(res, MatchResult::P1ConditionError);
}

#[test]
fn match_can_report_unknown_errors() {
    let mut store = InMemoryStore::new(TC_TABLE.to_string());
    let player1 = MatchmakingSkey::new("a".to_string());
    let player2 = MatchmakingSkey::new("a".to_string());
    let res = attempt_match(&mut store, "eeeeeeeeefaketable", 1, player1, player2);
    match res {
        MatchResult::UnrecoverableError(e) => {
            assert!(e.contains("ResourceNotFoundException"), "{e:?}");
        },
        e => panic!("Unexpected result: {e:?}"),
    }
}

#[test]
fn registration_conflict_is_an_error() {
    let mut store = InMemoryStore::new(TC_TABLE.to_string());
    let skey = register_fixed(&mut store, 1, "a");
    let err = register(&mut store, TC_TABLE, 1, &skey).expect_err("second write must fail");
    assert_eq!(
        err,
        "Failed to end turn: ConditionalCheckFailedException: The conditional request failed"
    );
    // The record is still there exactly once.
    let left = list_matchmaking_entries(&mut store, TC_TABLE, 1).expect("listing must succeed");
    assert_eq!(left.len(), 1);
}

#[test]
fn matchmaking_happy_path() {
    let mut store = InMemoryStore::new(TC_TABLE.to_string());
    let player1 = end_turn(&mut store, TC_TABLE, 3, "a".to_string()).expect("failed to end turn");
    let player2 = end_turn(&mut store, TC_TABLE, 3, "b".to_string()).expect("failed to end turn");
    let request = AsyncMatchmakingRequest { turn_number: 3, skey: player1 };
    let res = attempt_matchmaking(&mut store, TC_TABLE, request).expect("should succeed");
    match res {
        MatchmakingResult::Matched(opponent) => {
            assert_eq!(opponent.random_component, player2.random_component);
            assert_eq!(opponent.run_id, player2.run_id);
        },
        e => panic!("unexpected matchmakingresult: {e:?}"),
    }
    let left = list_matchmaking_entries(&mut store, TC_TABLE, 3).expect("listing must succeed");
    assert!(left.is_empty(), "both records must be consumed");
}

#[test]
fn matchmaking_can_be_dropped_if_p1_already_matched() {
    let mut store = InMemoryStore::new(TC_TABLE.to_string());
    let player1 = end_turn(&mut store, TC_TABLE, 4, "a".to_string()).expect("failed to end turn");
    let _ = end_turn(&mut store, TC_TABLE, 4, "b".to_string()).expect("failed to end turn");
    let p1_skey = player1.format();
    let request = AsyncMatchmakingRequest { turn_number: 4, skey: player1 };
    // Between the listing and the first attempt, another worker consumes
    // the requester's record.
    let (res, _) = drive(&mut store, TC_TABLE, TC_TABLE, request, |store| {
        delete_item(store, TC_TABLE, &matchmaking_pkey(4), &p1_skey)
            .expect("failed to delete item for test case");
    });
    assert_eq!(res, MatchmakingResult::CanDrop);
}

#[test]
fn matchmaking_can_fake_simulation_if_no_opponents() {
    let mut store = InMemoryStore::new(TC_TABLE.to_string());
    let player1 = end_turn(&mut store, TC_TABLE, 999, "a".to_string()).expect(
        "failed to end turn",
    );
    let request = AsyncMatchmakingRequest { turn_number: 999, skey: player1 };
    let res = attempt_matchmaking(&mut store, TC_TABLE, request).expect("should succeed");
    match res {
        MatchmakingResult::FakeSimulate(x) => {
            // No opponents, not an error: no diagnostic.
            assert!(x.is_none());
        },
        e => panic!("unexpected matchmakingresult: {e:?}"),
    }
}

#[test]
fn matchmaking_can_fake_simulation_in_case_of_error() {
    let mut store = InMemoryStore::new(TC_TABLE.to_string());
    let _ = end_turn(&mut store, TC_TABLE, 6, "b".to_string()).expect("failed to end turn");
    let player1 = end_turn(&mut store, TC_TABLE, 6, "a".to_string()).expect("failed to end turn");
    let request = AsyncMatchmakingRequest { turn_number: 6, skey: player1 };
    // The listing reads the real table, the attempts hit a missing one.
    let (res, _) = drive(
        &mut store,
        TC_TABLE,
        "fake-table-that-doesnt-exist",
        request,
        |_| {},
    );
    match res {
        MatchmakingResult::FakeSimulate(x) => {
            let msg = x.expect("a degraded fake simulation must carry the diagnostic");
            assert!(msg.contains("ResourceNotFoundException"), "{msg}");
        },
        e => panic!("unexpected matchmakingresult: {e:?}"),
    }
}

#[test]
fn matchmaking_attempts_opponents_in_order() {
    let mut store = InMemoryStore::new(TC_TABLE.to_string());
    let player1 = register_fixed(&mut store, 7, "a");
    let player2 = register_fixed(&mut store, 7, "b");
    let player3 = register_fixed(&mut store, 7, "c");
    let player4 = register_fixed(&mut store, 7, "d");
    let request = AsyncMatchmakingRequest { turn_number: 7, skey: player1 };
    let p2_skey = player2.format();
    let p3_skey = player3.format();
    // Between the listing and the attempts, players 2 and 3 are consumed
    // by other workers, so the driver must skip past both of them.
    let (res, attempted) = drive(&mut store, TC_TABLE, TC_TABLE, request, |store| {
        delete_item(store, TC_TABLE, &matchmaking_pkey(7), &p2_skey).expect("delete failed");
        delete_item(store, TC_TABLE, &matchmaking_pkey(7), &p3_skey).expect("delete failed");
    });
    match res {
        MatchmakingResult::Matched(x) => assert_eq!(x.run_id, "d"),
        e => panic!("unexpected matchmakingresult: {e:?}"),
    }
    // Attempts follow listing order: p2 and p3 each answered with a
    // candidate-side condition failure before p4 matched.
    assert_eq!(attempted, vec![player2, player3, player4]);
}

#[test]
fn driver_excludes_exact_self_but_keeps_same_run_id() {
    let mut store = InMemoryStore::new(TC_TABLE.to_string());
    let requester = MatchmakingSkey {
        random_component: "aaaaaaaaaaaaaaaa".to_string(),
        run_id: "shared".to_string(),
    };
    register(&mut store, TC_TABLE, 8, &requester).expect("registration must succeed");
    // A re-registration under the same run identifier but another random
    // component is a legitimate opponent.
    let replay = MatchmakingSkey {
        random_component: "bbbbbbbbbbbbbbbb".to_string(),
        run_id: "shared".to_string(),
    };
    register(&mut store, TC_TABLE, 8, &replay).expect("registration must succeed");
    let request = AsyncMatchmakingRequest { turn_number: 8, skey: requester.clone() };
    let (res, attempted) = drive(&mut store, TC_TABLE, TC_TABLE, request, |_| {});
    assert_eq!(res, MatchmakingResult::Matched(replay.clone()));
    assert_eq!(attempted, vec![replay]);
    assert!(!attempted.contains(&requester), "the requester must never attempt itself");
}

#[test]
fn matchmaking_propagates_listing_failure() {
    let mut store = InMemoryStore::new(TC_TABLE.to_string());
    let player1 = end_turn(&mut store, TC_TABLE, 9, "a".to_string()).expect("failed to end turn");
    let request = AsyncMatchmakingRequest { turn_number: 9, skey: player1 };
    let err = attempt_matchmaking(&mut store, "does-not-exist", request)
        .expect_err("a listing failure is the one error exit");
    assert_eq!(err, "ResourceNotFoundException: Requested resource not found");
}

#[test]
fn malformed_sort_key_fails_the_listing() {
    let mut store = InMemoryStore::new(TC_TABLE.to_string());
    register_fixed(&mut store, 11, "a");
    // A corrupted record without the `_` separator poisons the page.
    store.put_if_absent(TC_TABLE, matchmaking_pkey(11), "nounderscore".to_string());
    let err = list_matchmaking_entries(&mut store, TC_TABLE, 11)
        .expect_err("a malformed sort key is fatal for the listing");
    assert_eq!(err, "failed to detect MatchmakingSkey from 'nounderscore'");
}

#[test]
fn end_turn_against_missing_table_is_an_error() {
    let mut store = InMemoryStore::new(TC_TABLE.to_string());
    let err = end_turn(&mut store, "does-not-exist", 12, "a".to_string())
        .expect_err("a missing table fails the registration");
    assert_eq!(
        err,
        "Failed to end turn: ResourceNotFoundException: Requested resource not found"
    );
}
