//! The matchmaking driver: lists the candidates of a turn once, then
//! attempts to pair the requester with each candidate in listing order
//! until a pair succeeds, the requester turns out to be paired already,
//! or the pool or the store gives out.

use crate::keys::pkey_text;
use crate::outcome::MatchResult;
use crate::skey::MatchmakingSkey;
use crate::skey::has_underscore;
use crate::skey::lemma_format_parse_round_trip;
use crate::skey::lemma_parse_format_inverse;
use crate::skey::parse_error_text;
use crate::skey::parsed_skey;
use crate::skey::underscore_free;
use crate::store::InMemoryStore;
use crate::store::contains_record;
use crate::store::lemma_partition_skeys_membership;
use crate::store::partition_skeys;
use crate::store::resource_not_found_text;
use crate::store::without_record;
use crate::ops::all_parse;
use crate::ops::attempt_match;
use crate::ops::list_matchmaking_entries;
use crate::ops::skey_view;
use vstd::prelude::*;

verus! {

/// A worker's assertion "pair this player for this turn".
pub struct AsyncMatchmakingRequest {
    pub turn_number: u32,
    pub skey: MatchmakingSkey,
}

/// What a whole matchmaking attempt produced.
#[derive(Debug, PartialEq)]
pub enum MatchmakingResult {
    /// A real opponent was paired with the requester.
    Matched(MatchmakingSkey),
    /// No pair was formed and the caller should simulate a synthetic
    /// opponent: `None` when the pool held no opponent, `Some(message)`
    /// when an attempt failed unrecoverably.
    FakeSimulate(Option<String>),
    /// The requester was already paired by another worker; the request
    /// may be discarded.
    CanDrop,
}

/// True when a listed candidate is the requester's own record: both the
/// run identifier and the random component match. Matching on the run
/// identifier alone would exclude legitimate re-registrations under the
/// same identifier.
pub open spec fn is_self(candidate: MatchmakingSkey, requester: MatchmakingSkey) -> bool {
    candidate.run_id@ == requester.run_id@ && candidate.random_component@
        == requester.random_component@
}

/// The listed candidates that are not the requester itself, in listing
/// order.
pub open spec fn filter_not_self(
    candidates: Seq<MatchmakingSkey>,
    requester: MatchmakingSkey,
) -> Seq<MatchmakingSkey>
    decreases candidates.len(),
{
    if candidates.len() == 0 {
        Seq::empty()
    } else {
        let rest = filter_not_self(candidates.drop_last(), requester);
        if is_self(candidates.last(), requester) {
            rest
        } else {
            rest.push(candidates.last())
        }
    }
}

/// Self-exclusion: no candidate the driver retains is the requester
/// itself, so the driver never attempts to pair a player with itself.
pub proof fn lemma_self_exclusion(
    candidates: Seq<MatchmakingSkey>,
    requester: MatchmakingSkey,
    i: int,
)
    requires
        0 <= i < filter_not_self(candidates, requester).len(),
    ensures
        !is_self(filter_not_self(candidates, requester)[i], requester),
    decreases candidates.len(),
{
    if candidates.len() > 0 {
        let rest = filter_not_self(candidates.drop_last(), requester);
        if i < rest.len() {
            lemma_self_exclusion(candidates.drop_last(), requester, i);
        }
    }
}

/// The candidates a driver attempts, given the candidate pool and the
/// pair-attempt results it receives in turn: it advances past a
/// candidate only on `P2ConditionError` and stops at the first other
/// result, or when the pool is exhausted.
pub open spec fn attempt_sequence(
    candidates: Seq<MatchmakingSkey>,
    results: Seq<MatchResult>,
) -> Seq<MatchmakingSkey>
    decreases candidates.len(),
{
    if candidates.len() == 0 {
        Seq::empty()
    } else {
        seq![candidates[0]] + (if results.len() > 0 && results[0] is P2ConditionError {
            attempt_sequence(candidates.skip(1), results.skip(1))
        } else {
            Seq::empty()
        })
    }
}

/// Order preservation: the attempt sequence is a prefix of the candidate
/// pool, every attempt before the last was answered `P2ConditionError`,
/// and the sequence falls short of the pool only where the answers ran
/// out or the last answer was not `P2ConditionError`.
pub proof fn lemma_attempt_sequence_is_prefix(
    candidates: Seq<MatchmakingSkey>,
    results: Seq<MatchResult>,
)
    ensures
        attempt_sequence(candidates, results).len() <= candidates.len(),
        attempt_sequence(candidates, results).len() <= results.len() + 1,
        attempt_sequence(candidates, results) == candidates.take(
            attempt_sequence(candidates, results).len() as int,
        ),
        forall|j: int|
            0 <= j < attempt_sequence(candidates, results).len() - 1 ==> results[j]
                is P2ConditionError,
        attempt_sequence(candidates, results).len() < candidates.len() ==> (attempt_sequence(
            candidates,
            results,
        ).len() > results.len() || !(results[attempt_sequence(candidates, results).len()
            - 1] is P2ConditionError)),
    decreases candidates.len(),
{
    if candidates.len() > 0 {
        let a = attempt_sequence(candidates, results);
        if results.len() > 0 && results[0] is P2ConditionError {
            lemma_attempt_sequence_is_prefix(candidates.skip(1), results.skip(1));
            let tail = attempt_sequence(candidates.skip(1), results.skip(1));
            assert(a =~= candidates.take(a.len() as int)) by {
                assert(tail == candidates.skip(1).take(tail.len() as int));
            }
            assert forall|j: int| 0 <= j < a.len() - 1 implies results[j] is P2ConditionError by {
                if j > 0 {
                    assert(results.skip(1)[j - 1] == results[j]);
                }
            }
        } else {
            assert(a =~= candidates.take(1));
        }
    }
}

/// The sort keys of a listing that do not parse to the requester's own
/// components, in listing order: the records the driver will attempt.
pub open spec fn opponent_keys(skeys: Seq<Seq<char>>, requester: MatchmakingSkey) -> Seq<
    Seq<char>,
>
    decreases skeys.len(),
{
    if skeys.len() == 0 {
        Seq::empty()
    } else {
        let rest = opponent_keys(skeys.drop_last(), requester);
        if parsed_skey(skeys.last()) == Some(skey_view(requester)) {
            rest
        } else {
            rest.push(skeys.last())
        }
    }
}

proof fn lemma_opponent_keys_membership(
    skeys: Seq<Seq<char>>,
    requester: MatchmakingSkey,
    x: Seq<char>,
)
    requires
        opponent_keys(skeys, requester).contains(x),
    ensures
        skeys.contains(x),
    decreases skeys.len(),
{
    if skeys.len() > 0 {
        let rest = opponent_keys(skeys.drop_last(), requester);
        if rest.contains(x) {
            lemma_opponent_keys_membership(skeys.drop_last(), requester, x);
            let i = choose|i: int| 0 <= i < skeys.drop_last().len() && skeys.drop_last()[i] == x;
            assert(skeys[i] == x);
        } else {
            assert(skeys.last() == x);
            assert(skeys[skeys.len() - 1] == x);
        }
    }
}

/// A listing whose entries parse pointwise into the listed sort keys
/// filters in lockstep: the kept raw strings parse into the kept keys.
proof fn lemma_opponents_correspond(
    skeys: Seq<Seq<char>>,
    listed: Seq<MatchmakingSkey>,
    requester: MatchmakingSkey,
)
    requires
        listed.len() == skeys.len(),
        forall|i: int|
            0 <= i < listed.len() ==> parsed_skey(#[trigger] skeys[i]) == Some(
                skey_view(listed[i]),
            ),
    ensures
        opponent_keys(skeys, requester).len() == filter_not_self(listed, requester).len(),
        forall|i: int|
            0 <= i < opponent_keys(skeys, requester).len() ==> parsed_skey(
                #[trigger] opponent_keys(skeys, requester)[i],
            ) == Some(skey_view(filter_not_self(listed, requester)[i])),
    decreases skeys.len(),
{
    if skeys.len() > 0 {
        assert forall|i: int|
            0 <= i < listed.drop_last().len() implies parsed_skey(
            #[trigger] skeys.drop_last()[i],
        ) == Some(skey_view(listed.drop_last()[i])) by {
            assert(skeys.drop_last()[i] == skeys[i]);
            assert(listed.drop_last()[i] == listed[i]);
        }
        lemma_opponents_correspond(skeys.drop_last(), listed.drop_last(), requester);
        assert(parsed_skey(skeys[skeys.len() - 1]) == Some(skey_view(listed[listed.len() - 1])));
        let o = opponent_keys(skeys, requester);
        let f = filter_not_self(listed, requester);
        let o_rest = opponent_keys(skeys.drop_last(), requester);
        let f_rest = filter_not_self(listed.drop_last(), requester);
        if is_self(listed.last(), requester) {
            assert(skey_view(listed.last()) == skey_view(requester));
            assert(o == o_rest && f == f_rest);
        } else {
            assert(skey_view(listed.last()) != skey_view(requester));
            assert(parsed_skey(skeys.last()) != Some(skey_view(requester)));
            assert forall|i: int| 0 <= i < o.len() implies parsed_skey(#[trigger] o[i]) == Some(
                skey_view(f[i]),
            ) by {
                if i < o_rest.len() {
                    assert(o[i] == o_rest[i] && f[i] == f_rest[i]);
                } else {
                    assert(o[i] == skeys.last() && f[i] == listed.last());
                }
            }
        }
    }
}

/// One step the driver asks its caller to take.
#[derive(Debug)]
pub enum DriverAction {
    /// Attempt a pair with this candidate, then report the result.
    Attempt(MatchmakingSkey),
    /// The run is over with this result.
    Finish(MatchmakingResult),
}

/// The driver's state between pair attempts: the requester, the filtered
/// candidate pool in listing order, and how many candidates have been
/// passed over. The caller alternates `next_action` with
/// `record_outcome` until a result is produced; the listing function is
/// outside this type so that a test can perturb the store between the
/// listing and the attempts.
pub struct MatchmakingDriver {
    turn_number: u32,
    skey: MatchmakingSkey,
    candidates: Vec<MatchmakingSkey>,
    next_index: usize,
}

impl MatchmakingDriver {
    /// The turn being paired.
    pub closed spec fn turn(&self) -> u32 {
        self.turn_number
    }

    /// The requester's sort key.
    pub closed spec fn requester(&self) -> MatchmakingSkey {
        self.skey
    }

    /// The candidate pool, already purged of the requester itself.
    pub closed spec fn candidates(&self) -> Seq<MatchmakingSkey> {
        self.candidates@
    }

    /// The position of the next candidate to attempt.
    pub closed spec fn index(&self) -> int {
        self.next_index as int
    }

    /// The driver never runs past the end of its pool.
    pub open spec fn wf(&self) -> bool {
        0 <= self.index() <= self.candidates().len()
    }

    /// Builds a driver from the listing of a turn, dropping any
    /// candidate that is the requester itself.
    pub fn new(request: AsyncMatchmakingRequest, listed: Vec<MatchmakingSkey>) -> (d: Self)
        ensures
            d.turn() == request.turn_number,
            d.requester() == request.skey,
            d.candidates() == filter_not_self(listed@, request.skey),
            d.index() == 0,
            d.wf(),
    {
        let n = listed.len();
        let mut candidates: Vec<MatchmakingSkey> = Vec::new();
        let mut i: usize = 0;
        while i < n
            invariant
                n == listed@.len(),
                i <= n,
                candidates@ == filter_not_self(listed@.take(i as int), request.skey),
            decreases n - i,
        {
            proof {
                assert(listed@.take(i as int + 1).drop_last() =~= listed@.take(i as int));
                assert(listed@.take(i as int + 1).last() == listed@[i as int]);
            }
            let c = &listed[i];
            let self_match = c.run_id == request.skey.run_id && c.random_component
                == request.skey.random_component;
            if !self_match {
                candidates.push(c.clone());
            }
            i += 1;
        }
        proof {
            assert(listed@.take(n as int) =~= listed@);
        }
        MatchmakingDriver {
            turn_number: request.turn_number,
            skey: request.skey,
            candidates,
            next_index: 0,
        }
    }

    /// The next step: attempt the candidate at the current position, or
    /// finish with an empty-pool fake simulation once the pool is
    /// exhausted.
    pub fn next_action(&self) -> (a: DriverAction)
        requires
            self.wf(),
        ensures
            (if self.index() < self.candidates().len() {
                a == DriverAction::Attempt(self.candidates()[self.index()])
            } else {
                a == DriverAction::Finish(MatchmakingResult::FakeSimulate(None))
            }),
    {
        if self.next_index < self.candidates.len() {
            DriverAction::Attempt(self.candidates[self.next_index].clone())
        } else {
            DriverAction::Finish(MatchmakingResult::FakeSimulate(None))
        }
    }

    /// Records the result of the attempt against the current candidate.
    /// `P2ConditionError` (the candidate was taken by another worker)
    /// advances to the next candidate and returns nothing; every other
    /// result ends the run: a pair returns the consumed opponent, a
    /// missing requester record becomes `CanDrop`, and an unrecoverable
    /// failure becomes a degraded fake simulation carrying the
    /// diagnostic.
    pub fn record_outcome(&mut self, result: MatchResult) -> (r: Option<MatchmakingResult>)
        requires
            old(self).wf(),
            old(self).index() < old(self).candidates().len(),
        ensures
            final(self).wf(),
            final(self).turn() == old(self).turn(),
            final(self).requester() == old(self).requester(),
            final(self).candidates() == old(self).candidates(),
            (match result {
                MatchResult::P2ConditionError => {
                    &&& r is None
                    &&& final(self).index() == old(self).index() + 1
                },
                MatchResult::P1ConditionError => {
                    &&& r == Some(MatchmakingResult::CanDrop)
                    &&& final(self).index() == old(self).index()
                },
                MatchResult::UnrecoverableError(m) => {
                    &&& r == Some(MatchmakingResult::FakeSimulate(Some(m)))
                    &&& final(self).index() == old(self).index()
                },
                MatchResult::Matched(_, op) => {
                    &&& r == Some(MatchmakingResult::Matched(op))
                    &&& final(self).index() == old(self).index()
                },
            }),
    {
        match result {
            MatchResult::P2ConditionError => {
                let pool_len = self.candidates.len();
                assert(self.next_index < pool_len);
                self.next_index = self.next_index + 1;
                None
            },
            MatchResult::P1ConditionError => Some(MatchmakingResult::CanDrop),
            MatchResult::UnrecoverableError(m) => Some(
                MatchmakingResult::FakeSimulate(Some(m)),
            ),
            MatchResult::Matched(_, op) => Some(MatchmakingResult::Matched(op)),
        }
    }
}

/// Runs one whole matchmaking attempt for a requester: lists the turn's
/// candidates once, filters the requester itself out, and attempts each
/// remaining candidate in listing order until a pair is formed, the
/// requester turns out to be consumed already (`CanDrop`), an attempt
/// fails unrecoverably (a degraded fake simulation carrying the
/// diagnostic), or the pool is exhausted (an empty-pool fake
/// simulation). Only a listing failure is returned as an error; with the
/// store unperturbed between listing and attempts, the requester pairs
/// with the first listed opponent whenever its own record is still
/// present.
pub fn attempt_matchmaking(
    store: &mut InMemoryStore,
    table_name: &str,
    player1: AsyncMatchmakingRequest,
) -> (r: Result<MatchmakingResult, String>)
    requires
        underscore_free(player1.skey.random_component@),
    ensures
        final(store).table() == old(store).table(),
        final(store).queries() == old(store).queries() + 1,
        old(store).wf() ==> final(store).wf(),
        ({
            let pkey = pkey_text(player1.turn_number);
            let skeys = partition_skeys(old(store).records(), pkey);
            let opponents = opponent_keys(skeys, player1.skey);
            &&& (r is Err <==> (old(store).table() != table_name@ || !all_parse(skeys)))
            &&& (r is Err ==> final(store).records() == old(store).records())
            &&& (old(store).table() != table_name@ ==> (r matches Err(m) ==> m@
                == resource_not_found_text()))
            &&& (old(store).table() == table_name@ ==> (r matches Err(m) ==> exists|j: int|
                0 <= j < skeys.len() && !has_underscore(#[trigger] skeys[j]) && m@
                    == parse_error_text(skeys[j])))
            &&& (r is Ok && opponents.len() == 0 ==> r == Ok::<MatchmakingResult, String>(
                MatchmakingResult::FakeSimulate(None),
            ) && final(store).records() == old(store).records())
            &&& (r is Ok && opponents.len() > 0 && !contains_record(
                old(store).records(),
                pkey,
                player1.skey.formatted(),
            ) ==> r == Ok::<MatchmakingResult, String>(MatchmakingResult::CanDrop)
                && final(store).records() == old(store).records())
            &&& (r is Ok && opponents.len() > 0 && contains_record(
                old(store).records(),
                pkey,
                player1.skey.formatted(),
            ) ==> {
                &&& (r matches Ok(MatchmakingResult::Matched(op)) && op.formatted()
                    == opponents[0] && parsed_skey(opponents[0]) == Some(skey_view(op)))
                &&& final(store).records() == without_record(
                    without_record(old(store).records(), pkey, player1.skey.formatted()),
                    pkey,
                    opponents[0],
                )
            })
        }),
{
    let turn_number = player1.turn_number;
    let ghost requester = player1.skey;
    let ghost pkey = pkey_text(turn_number);
    let ghost skeys = partition_skeys(store.records(), pkey);
    let ghost opponents = opponent_keys(skeys, requester);

    let available = match list_matchmaking_entries(store, table_name, turn_number) {
        Ok(v) => v,
        Err(msg) => {
            return Err(msg);
        },
    };
    let ghost listed = available@;
    let mut driver = MatchmakingDriver::new(player1, available);
    loop
        invariant
            driver.wf(),
            driver.index() == 0,
            driver.turn() == turn_number,
            driver.requester() == requester,
            driver.candidates() == filter_not_self(listed, requester),
            underscore_free(requester.random_component@),
            turn_number == player1.turn_number,
            requester == player1.skey,
            pkey == pkey_text(turn_number),
            skeys == partition_skeys(old(store).records(), pkey),
            opponents == opponent_keys(skeys, requester),
            listed.len() == skeys.len(),
            forall|i: int|
                0 <= i < listed.len() ==> parsed_skey(#[trigger] skeys[i]) == Some(
                    skey_view(listed[i]),
                ),
            all_parse(skeys),
            store.table() == old(store).table(),
            store.records() == old(store).records(),
            store.queries() == old(store).queries() + 1,
            old(store).table() == table_name@,
        decreases driver.candidates().len() - driver.index(),
    {
        match driver.next_action() {
            DriverAction::Finish(out) => {
                proof {
                    lemma_opponents_correspond(skeys, listed, requester);
                    assert(opponents.len() == 0);
                }
                return Ok(out);
            },
            DriverAction::Attempt(op) => {
                let ghost op_snap = op;
                proof {
                    lemma_opponents_correspond(skeys, listed, requester);
                    assert(parsed_skey(opponents[0]) == Some(skey_view(op_snap)));
                    lemma_parse_format_inverse(opponents[0], op_snap);
                    assert(opponents.contains(opponents[0]));
                    lemma_opponent_keys_membership(skeys, requester, opponents[0]);
                    lemma_partition_skeys_membership(old(store).records(), pkey, opponents[0]);
                    lemma_format_parse_round_trip(requester);
                    lemma_self_exclusion(listed, requester, 0);
                    assert(skey_view(op_snap) != skey_view(requester));
                    assert(requester.formatted() != opponents[0]) by {
                        if requester.formatted() == opponents[0] {
                            assert(parsed_skey(opponents[0]) == Some(skey_view(requester)));
                        }
                    }
                }
                let requester_key = driver.skey.clone();
                let result = attempt_match(store, table_name, turn_number, requester_key, op);
                if let Some(outcome) = driver.record_outcome(result) {
                    return Ok(outcome);
                }
                proof {
                    assert(false);
                }
            },
        }
    }
}

} // verus!
