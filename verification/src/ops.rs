//! The matchmaking operations over the store: end-turn registration,
//! single-page candidate listing, the two-record pair attempt, and the
//! administrative delete.

use crate::keys::matchmaking_pkey;
use crate::keys::pkey_text;
use crate::outcome::MatchResult;
use crate::outcome::interpret_transaction;
use crate::skey::MatchmakingSkey;
use crate::skey::has_underscore;
use crate::skey::parse_error_text;
use crate::skey::parsed_skey;
use crate::store::InMemoryStore;
use crate::store::PutOutcome;
use crate::store::contains_record;
use crate::store::lemma_without_record_membership;
use crate::store::lemma_without_record_removes;
use crate::store::partition_skeys;
use crate::store::resource_not_found_text;
use crate::store::without_record;
use vstd::prelude::*;
use vstd::string::*;

verus! {

/// The two textual components of a sort key.
pub open spec fn skey_view(k: MatchmakingSkey) -> (Seq<char>, Seq<char>) {
    (k.random_component@, k.run_id@)
}

/// True when every sort key of the sequence is parseable (holds an `_`).
pub open spec fn all_parse(skeys: Seq<Seq<char>>) -> bool {
    forall|i: int| 0 <= i < skeys.len() ==> has_underscore(#[trigger] skeys[i])
}

/// The store's diagnostic of a registration whose condition check
/// failed: a record with the same primary key already exists.
pub open spec fn registration_conflict_text() -> Seq<char> {
    "ConditionalCheckFailedException: The conditional request failed"@
}

/// The error text of a failed end-turn registration: a fixed prefix
/// followed by the store's diagnostic.
pub open spec fn end_turn_error_text(detail: Seq<char>) -> Seq<char> {
    "Failed to end turn: "@ + detail
}

/// Writes the availability record for `skey` at the given turn, under
/// the condition that no record with the same primary key exists.
pub fn register(
    store: &mut InMemoryStore,
    table_name: &str,
    turn_number: u32,
    skey: &MatchmakingSkey,
) -> (r: Result<(), String>)
    ensures
        final(store).table() == old(store).table(),
        final(store).queries() == old(store).queries(),
        old(store).wf() ==> final(store).wf(),
        r is Ok <==> (old(store).table() == table_name@ && !contains_record(
            old(store).records(),
            pkey_text(turn_number),
            skey.formatted(),
        )),
        r is Ok ==> final(store).records() == old(store).records().push(
            (pkey_text(turn_number), skey.formatted()),
        ),
        r is Err ==> final(store).records() == old(store).records(),
        (old(store).table() != table_name@ ==> (r matches Err(m) ==> m@ == end_turn_error_text(
            resource_not_found_text(),
        ))),
        (old(store).table() == table_name@ ==> (r matches Err(m) ==> m@ == end_turn_error_text(
            registration_conflict_text(),
        ))),
{
    let pkey = matchmaking_pkey(turn_number);
    let sort_key = skey.format();
    match store.put_if_absent(table_name, pkey, sort_key) {
        PutOutcome::Stored => Ok(()),
        PutOutcome::ConditionFailed => {
            let mut msg = String::from_str("Failed to end turn: ");
            msg.append("ConditionalCheckFailedException: The conditional request failed");
            assert(msg@ =~= end_turn_error_text(registration_conflict_text()));
            Err(msg)
        },
        PutOutcome::ServiceFailure(detail) => {
            let mut msg = String::from_str("Failed to end turn: ");
            msg.append(detail.as_str());
            assert(msg@ =~= end_turn_error_text(resource_not_found_text()));
            Err(msg)
        },
    }
}

/// Ends a turn for `run_id`: generates a fresh sort key with a random
/// 16-character lowercase prefix and registers it. The returned sort key
/// is what the caller later drives pairing with. Registration is not
/// retried; a collision of the random key or a store failure is returned
/// as an error.
pub fn end_turn(
    store: &mut InMemoryStore,
    table_name: &str,
    turn_number: u32,
    run_id: String,
) -> (r: Result<MatchmakingSkey, String>)
    ensures
        final(store).table() == old(store).table(),
        final(store).queries() == old(store).queries(),
        old(store).wf() ==> final(store).wf(),
        (r matches Ok(k) ==> {
            &&& k.run_id == run_id
            &&& k.generated()
            &&& old(store).table() == table_name@
            &&& !contains_record(old(store).records(), pkey_text(turn_number), k.formatted())
            &&& final(store).records() == old(store).records().push(
                (pkey_text(turn_number), k.formatted()),
            )
        }),
        r is Err ==> final(store).records() == old(store).records(),
        old(store).table() != table_name@ ==> r is Err,
        (r is Err && old(store).table() == table_name@ ==> exists|k: MatchmakingSkey|
            k.generated() && k.run_id@ == run_id@ && contains_record(
                old(store).records(),
                pkey_text(turn_number),
                #[trigger] k.formatted(),
            )),
        (old(store).table() != table_name@ ==> (r matches Err(m) ==> m@ == end_turn_error_text(
            resource_not_found_text(),
        ))),
        (old(store).table() == table_name@ ==> (r matches Err(m) ==> m@ == end_turn_error_text(
            registration_conflict_text(),
        ))),
{
    let skey = MatchmakingSkey::new(run_id);
    match register(store, table_name, turn_number, &skey) {
        Ok(()) => Ok(skey),
        Err(msg) => {
            proof {
                if old(store).table() == table_name@ {
                    assert(skey.generated() && skey.run_id@ == run_id@ && contains_record(
                        old(store).records(),
                        pkey_text(turn_number),
                        skey.formatted(),
                    ));
                }
            }
            Err(msg)
        },
    }
}

/// Lists the sort keys registered for one turn and parses each. Issues
/// exactly one query — a single page, never paginated: pairing is 1:1,
/// so the first page already holds far more candidates than needed, and
/// the random sort-key prefixes make the store's sort-key order a
/// pseudo-random shuffle. A malformed sort key fails the whole listing.
pub fn list_matchmaking_entries(
    store: &mut InMemoryStore,
    table_name: &str,
    turn_number: u32,
) -> (r: Result<Vec<MatchmakingSkey>, String>)
    ensures
        final(store).table() == old(store).table(),
        final(store).records() == old(store).records(),
        final(store).queries() == old(store).queries() + 1,
        r is Ok <==> (old(store).table() == table_name@ && all_parse(
            partition_skeys(old(store).records(), pkey_text(turn_number)),
        )),
        (r matches Ok(v) ==> {
            let skeys = partition_skeys(old(store).records(), pkey_text(turn_number));
            &&& v@.len() == skeys.len()
            &&& forall|i: int|
                0 <= i < v@.len() ==> parsed_skey(#[trigger] skeys[i]) == Some(skey_view(v@[i]))
        }),
        (old(store).table() != table_name@ ==> (r matches Err(m) ==> m@
            == resource_not_found_text())),
        (old(store).table() == table_name@ ==> (r matches Err(m) ==> {
            let skeys = partition_skeys(old(store).records(), pkey_text(turn_number));
            exists|j: int|
                0 <= j < skeys.len() && !has_underscore(#[trigger] skeys[j]) && m@
                    == parse_error_text(skeys[j])
        })),
{
    let pkey = matchmaking_pkey(turn_number);
    let raw = match store.query(table_name, pkey.as_str()) {
        Ok(raw) => raw,
        Err(msg) => {
            return Err(msg);
        },
    };
    let ghost skeys = partition_skeys(old(store).records(), pkey_text(turn_number));
    let n = raw.len();
    let mut out: Vec<MatchmakingSkey> = Vec::new();
    let mut i: usize = 0;
    while i < n
        invariant
            store.table() == old(store).table(),
            store.records() == old(store).records(),
            store.queries() == old(store).queries() + 1,
            old(store).table() == table_name@,
            skeys == partition_skeys(old(store).records(), pkey_text(turn_number)),
            n == raw@.len(),
            i <= n,
            raw.deep_view() == skeys,
            out@.len() == i,
            forall|j: int|
                0 <= j < i ==> parsed_skey(#[trigger] skeys[j]) == Some(skey_view(out@[j])),
            forall|j: int| 0 <= j < i ==> has_underscore(#[trigger] skeys[j]),
        decreases n - i,
    {
        assert(raw@[i as int]@ == skeys[i as int]);
        match MatchmakingSkey::parse(raw[i].as_str()) {
            Ok(entry) => {
                out.push(entry);
            },
            Err(msg) => {
                proof {
                    assert(!has_underscore(skeys[i as int]));
                    assert(msg@ == parse_error_text(skeys[i as int]));
                }
                return Err(msg);
            },
        }
        i += 1;
    }
    Ok(out)
}

/// Deletes one availability record unconditionally. Used by tests and
/// administration, not by the pairing protocol.
pub fn delete_item(
    store: &mut InMemoryStore,
    table_name: &str,
    pkey: &str,
    skey: &str,
) -> (r: Result<(), String>)
    ensures
        final(store).table() == old(store).table(),
        final(store).queries() == old(store).queries(),
        old(store).wf() ==> final(store).wf(),
        r is Ok <==> old(store).table() == table_name@,
        r is Ok ==> final(store).records() == without_record(old(store).records(), pkey@, skey@),
        r is Err ==> final(store).records() == old(store).records(),
        (r matches Err(m) ==> m@ == resource_not_found_text()),
{
    store.delete(table_name, pkey, skey)
}

/// Attempts to pair two players for a turn by transactionally deleting
/// both availability records, each under the condition that it exists.
///
/// Either both records are consumed (`Matched`) or neither is. A missing
/// first record means the requester was already paired and trumps a
/// missing second one (`P1ConditionError`); a missing second record
/// alone means only this candidate was taken (`P2ConditionError`); any
/// other failure is `UnrecoverableError` with the store's diagnostic.
pub fn attempt_match(
    store: &mut InMemoryStore,
    table_name: &str,
    turn_number: u32,
    player1: MatchmakingSkey,
    player2: MatchmakingSkey,
) -> (r: MatchResult)
    ensures
        final(store).table() == old(store).table(),
        final(store).queries() == old(store).queries(),
        old(store).wf() ==> final(store).wf(),
        (if old(store).table() != table_name@ {
            (r matches MatchResult::UnrecoverableError(m) && m@
                == crate::store::resource_not_found_text()) && final(store).records() == old(
                store,
            ).records()
        } else if player1.formatted() == player2.formatted() {
            (r matches MatchResult::UnrecoverableError(m) && m@
                == crate::store::duplicate_item_text()) && final(store).records() == old(
                store,
            ).records()
        } else if !contains_record(
            old(store).records(),
            pkey_text(turn_number),
            player1.formatted(),
        ) {
            r == MatchResult::P1ConditionError && final(store).records() == old(store).records()
        } else if !contains_record(
            old(store).records(),
            pkey_text(turn_number),
            player2.formatted(),
        ) {
            r == MatchResult::P2ConditionError && final(store).records() == old(store).records()
        } else {
            &&& r == MatchResult::Matched(player1, player2)
            &&& final(store).records() == without_record(
                without_record(
                    old(store).records(),
                    pkey_text(turn_number),
                    player1.formatted(),
                ),
                pkey_text(turn_number),
                player2.formatted(),
            )
            &&& !contains_record(final(store).records(), pkey_text(turn_number), player1.formatted())
            &&& !contains_record(final(store).records(), pkey_text(turn_number), player2.formatted())
        }),
{
    let pkey = matchmaking_pkey(turn_number);
    let key1 = player1.format();
    let key2 = player2.format();
    let outcome = store.transact_delete_pair(
        table_name,
        pkey.as_str(),
        key1.as_str(),
        pkey.as_str(),
        key2.as_str(),
    );
    proof {
        let recs = old(store).records();
        let p = pkey_text(turn_number);
        if old(store).table() == table_name@ && player1.formatted() != player2.formatted()
            && contains_record(recs, p, player1.formatted()) && contains_record(
            recs,
            p,
            player2.formatted(),
        ) {
            lemma_without_record_removes(recs, p, player1.formatted());
            lemma_without_record_removes(
                without_record(recs, p, player1.formatted()),
                p,
                player2.formatted(),
            );
            if contains_record(store.records(), p, player1.formatted()) {
                lemma_without_record_membership(
                    without_record(recs, p, player1.formatted()),
                    p,
                    player2.formatted(),
                    (p, player1.formatted()),
                );
            }
        }
    }
    interpret_transaction(outcome, player1, player2)
}

} // verus!
