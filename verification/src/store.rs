//! An in-memory model of the partitioned key-value store the protocol
//! runs against: one table of records addressed by (partition key, sort
//! key), with a conditional put, an unconditional delete, a
//! single-partition query, and a two-item transactional delete whose
//! per-item conditions abort the whole transaction.

use crate::outcome::CancellationReason;
use crate::outcome::TransactionOutcome;
use crate::outcome::condition_failed;
use vstd::prelude::*;
use vstd::string::*;

verus! {

/// One availability record.
#[derive(Debug)]
pub struct Record {
    pub partition_key: String,
    pub sort_key: String,
}

impl Record {
    /// The record's full primary key.
    pub open spec fn key(&self) -> (Seq<char>, Seq<char>) {
        (self.partition_key@, self.sort_key@)
    }
}

impl Clone for Record {
    fn clone(&self) -> (r: Self)
        ensures
            r == *self,
    {
        Record {
            partition_key: self.partition_key.clone(),
            sort_key: self.sort_key.clone(),
        }
    }
}

/// The primary keys of a sequence of records, in store order.
pub open spec fn record_keys(rs: Seq<Record>) -> Seq<(Seq<char>, Seq<char>)> {
    rs.map_values(|r: Record| r.key())
}

/// True when the store holds a record under the given primary key.
pub open spec fn contains_record(
    rs: Seq<(Seq<char>, Seq<char>)>,
    pkey: Seq<char>,
    skey: Seq<char>,
) -> bool {
    rs.contains((pkey, skey))
}

/// The records left after deleting the given primary key, in order.
pub open spec fn without_record(
    rs: Seq<(Seq<char>, Seq<char>)>,
    pkey: Seq<char>,
    skey: Seq<char>,
) -> Seq<(Seq<char>, Seq<char>)>
    decreases rs.len(),
{
    if rs.len() == 0 {
        Seq::empty()
    } else {
        let rest = without_record(rs.drop_last(), pkey, skey);
        if rs.last() == (pkey, skey) {
            rest
        } else {
            rest.push(rs.last())
        }
    }
}

/// The sort keys of one partition, in store order.
pub open spec fn partition_skeys(rs: Seq<(Seq<char>, Seq<char>)>, pkey: Seq<char>) -> Seq<
    Seq<char>,
>
    decreases rs.len(),
{
    if rs.len() == 0 {
        Seq::empty()
    } else {
        let rest = partition_skeys(rs.drop_last(), pkey);
        if rs.last().0 == pkey {
            rest.push(rs.last().1)
        } else {
            rest
        }
    }
}

/// True when no two records share a primary key.
pub open spec fn unique_records(rs: Seq<(Seq<char>, Seq<char>)>) -> bool {
    forall|i: int, j: int| 0 <= i < j < rs.len() ==> rs[i] != rs[j]
}

/// Deleting cannot invent records.
pub proof fn lemma_without_record_membership(
    rs: Seq<(Seq<char>, Seq<char>)>,
    pkey: Seq<char>,
    skey: Seq<char>,
    x: (Seq<char>, Seq<char>),
)
    requires
        without_record(rs, pkey, skey).contains(x),
    ensures
        rs.contains(x),
    decreases rs.len(),
{
    if rs.len() > 0 {
        let rest = without_record(rs.drop_last(), pkey, skey);
        if rest.contains(x) {
            lemma_without_record_membership(rs.drop_last(), pkey, skey, x);
            let i = choose|i: int| 0 <= i < rs.drop_last().len() && rs.drop_last()[i] == x;
            assert(rs[i] == x);
        } else {
            assert(rs.last() == x);
            assert(rs[rs.len() - 1] == x);
        }
    }
}

/// Deleting a key removes every record under it.
pub proof fn lemma_without_record_removes(
    rs: Seq<(Seq<char>, Seq<char>)>,
    pkey: Seq<char>,
    skey: Seq<char>,
)
    ensures
        !without_record(rs, pkey, skey).contains((pkey, skey)),
    decreases rs.len(),
{
    if rs.len() > 0 {
        lemma_without_record_removes(rs.drop_last(), pkey, skey);
        let w = without_record(rs, pkey, skey);
        let rest = without_record(rs.drop_last(), pkey, skey);
        if rs.last() != (pkey, skey) {
            if w.contains((pkey, skey)) {
                let i = choose|i: int| 0 <= i < w.len() && w[i] == (pkey, skey);
                if i < rest.len() {
                    assert(rest[i] == (pkey, skey));
                } else {
                    assert(w[i] == rs.last());
                }
            }
        }
    }
}

/// Deleting one key leaves every other key's presence unchanged.
pub proof fn lemma_without_record_keeps(
    rs: Seq<(Seq<char>, Seq<char>)>,
    pkey: Seq<char>,
    skey: Seq<char>,
    x: (Seq<char>, Seq<char>),
)
    requires
        x != (pkey, skey),
    ensures
        without_record(rs, pkey, skey).contains(x) <==> rs.contains(x),
    decreases rs.len(),
{
    if rs.len() > 0 {
        lemma_without_record_keeps(rs.drop_last(), pkey, skey, x);
        let w = without_record(rs, pkey, skey);
        let rest = without_record(rs.drop_last(), pkey, skey);
        if rs.contains(x) {
            let i = choose|i: int| 0 <= i < rs.len() && rs[i] == x;
            if i < rs.len() - 1 {
                assert(rs.drop_last()[i] == x);
                assert(rest.contains(x));
                let j = choose|j: int| 0 <= j < rest.len() && rest[j] == x;
                if rs.last() != (pkey, skey) {
                    assert(w[j] == x);
                } else {
                    assert(w == rest);
                }
            } else {
                assert(rs.last() == x);
                assert(w.last() == x);
            }
        }
        if w.contains(x) {
            lemma_without_record_membership(rs, pkey, skey, x);
        }
    }
}

/// Deleting preserves key uniqueness.
pub proof fn lemma_without_record_unique(
    rs: Seq<(Seq<char>, Seq<char>)>,
    pkey: Seq<char>,
    skey: Seq<char>,
)
    requires
        unique_records(rs),
    ensures
        unique_records(without_record(rs, pkey, skey)),
    decreases rs.len(),
{
    if rs.len() > 0 {
        assert(unique_records(rs.drop_last())) by {
            assert(forall|i: int, j: int|
                0 <= i < j < rs.drop_last().len() ==> rs.drop_last()[i] == rs[i]
                    && rs.drop_last()[j] == rs[j]);
        }
        lemma_without_record_unique(rs.drop_last(), pkey, skey);
        let rest = without_record(rs.drop_last(), pkey, skey);
        if rs.last() != (pkey, skey) {
            if rest.contains(rs.last()) {
                lemma_without_record_membership(rs.drop_last(), pkey, skey, rs.last());
                let i = choose|i: int|
                    0 <= i < rs.drop_last().len() && rs.drop_last()[i] == rs.last();
                assert(rs[i] == rs[rs.len() - 1]);
                assert(false);
            }
            let w = without_record(rs, pkey, skey);
            assert forall|i: int, j: int| 0 <= i < j < w.len() implies w[i] != w[j] by {
                if j < rest.len() {
                } else {
                    assert(w[j] == rs.last());
                    assert(rest.contains(w[i]));
                }
            }
        }
    }
}

/// A sort key appears in a partition's listing exactly when the store
/// holds the corresponding record.
pub proof fn lemma_partition_skeys_membership(
    rs: Seq<(Seq<char>, Seq<char>)>,
    pkey: Seq<char>,
    skey: Seq<char>,
)
    ensures
        partition_skeys(rs, pkey).contains(skey) <==> rs.contains((pkey, skey)),
    decreases rs.len(),
{
    if rs.len() > 0 {
        lemma_partition_skeys_membership(rs.drop_last(), pkey, skey);
        let ps = partition_skeys(rs, pkey);
        let rest = partition_skeys(rs.drop_last(), pkey);
        if rs.contains((pkey, skey)) {
            let i = choose|i: int| 0 <= i < rs.len() && rs[i] == (pkey, skey);
            if i < rs.len() - 1 {
                assert(rs.drop_last()[i] == (pkey, skey));
                assert(rest.contains(skey));
                let j = choose|j: int| 0 <= j < rest.len() && rest[j] == skey;
                assert(ps[j] == skey);
            } else {
                assert(rs.last() == (pkey, skey));
                assert(ps.last() == skey);
            }
        }
        if ps.contains(skey) {
            if !rest.contains(skey) {
                let j = choose|j: int| 0 <= j < ps.len() && ps[j] == skey;
                assert(j == rest.len() && rs.last().0 == pkey && rs.last().1 == skey);
                assert(rs.last() == (pkey, skey));
                assert(rs[rs.len() - 1] == (pkey, skey));
            } else {
                let i = choose|i: int|
                    0 <= i < rs.drop_last().len() && rs.drop_last()[i] == (pkey, skey);
                assert(rs[i] == (pkey, skey));
            }
        }
    }
}

/// The store's diagnostic when an operation names an absent table.
pub open spec fn resource_not_found_text() -> Seq<char> {
    "ResourceNotFoundException: Requested resource not found"@
}

/// The store's diagnostic when one transaction names the same item twice.
pub open spec fn duplicate_item_text() -> Seq<char> {
    "ValidationException: Transaction request cannot include multiple operations on one item"@
}

/// The store's diagnostic on a canceled transaction.
pub open spec fn transaction_canceled_text() -> Seq<char> {
    "TransactionCanceledException: Transaction cancelled, please refer cancellation reasons for specific reasons"@
}

/// The store's per-item diagnostic for a failed condition check.
pub open spec fn condition_failed_text() -> Seq<char> {
    "The conditional request failed"@
}

/// Relies on std's `str` equality: two string slices are equal exactly
/// when their character sequences are.
#[verifier::external_body]
fn str_eq(a: &str, b: &str) -> (r: bool)
    ensures
        r == (a@ == b@),
{
    a == b
}

fn resource_not_found_message() -> (m: String)
    ensures
        m@ == resource_not_found_text(),
{
    String::from_str("ResourceNotFoundException: Requested resource not found")
}

/// Outcome of a conditional put.
#[derive(Debug, PartialEq)]
pub enum PutOutcome {
    /// The record was absent and has been written.
    Stored,
    /// A record with the same primary key already exists; nothing was
    /// written.
    ConditionFailed,
    /// The request never executed; the message names the store's error
    /// class.
    ServiceFailure(String),
}

/// One table of records, plus a count of the queries issued against it.
pub struct InMemoryStore {
    table_name: String,
    records: Vec<Record>,
    queries_issued: Ghost<nat>,
}

impl InMemoryStore {
    /// The table's name.
    pub closed spec fn table(&self) -> Seq<char> {
        self.table_name@
    }

    /// The primary keys of the records the table holds, in store order.
    pub closed spec fn records(&self) -> Seq<(Seq<char>, Seq<char>)> {
        record_keys(self.records@)
    }

    /// How many queries have been issued against this store.
    pub closed spec fn queries(&self) -> nat {
        self.queries_issued@
    }

    /// The store's invariant: primary keys are unique.
    pub open spec fn wf(&self) -> bool {
        unique_records(self.records())
    }

    /// An empty table.
    pub fn new(table_name: String) -> (store: Self)
        ensures
            store.table() == table_name@,
            store.records() == Seq::<(Seq<char>, Seq<char>)>::empty(),
            store.queries() == 0,
            store.wf(),
    {
        let store = InMemoryStore { table_name, records: Vec::new(), queries_issued: Ghost(0) };
        proof {
            assert(store.records() =~= Seq::<(Seq<char>, Seq<char>)>::empty());
        }
        store
    }

    fn holds_record(&self, partition_key: &str, sort_key: &str) -> (b: bool)
        ensures
            b == contains_record(self.records(), partition_key@, sort_key@),
    {
        let n = self.records.len();
        let mut i: usize = 0;
        while i < n
            invariant
                n == self.records@.len(),
                i <= n,
                forall|j: int|
                    0 <= j < i ==> #[trigger] self.records()[j] != (partition_key@, sort_key@),
            decreases n - i,
        {
            let rec = &self.records[i];
            if str_eq(rec.partition_key.as_str(), partition_key) && str_eq(
                rec.sort_key.as_str(),
                sort_key,
            ) {
                assert(self.records()[i as int] == (partition_key@, sort_key@));
                return true;
            }
            i += 1;
        }
        false
    }

    /// Writes a record under the condition that its primary key is
    /// absent; on a key collision nothing is written.
    pub fn put_if_absent(&mut self, table_name: &str, partition_key: String, sort_key: String) -> (r:
        PutOutcome)
        ensures
            final(self).table() == old(self).table(),
            final(self).queries() == old(self).queries(),
            old(self).wf() ==> final(self).wf(),
            (if old(self).table() != table_name@ {
                (r matches PutOutcome::ServiceFailure(m) && m@ == resource_not_found_text())
                    && final(self).records() == old(self).records()
            } else if contains_record(old(self).records(), partition_key@, sort_key@) {
                r == PutOutcome::ConditionFailed && final(self).records() == old(self).records()
            } else {
                r == PutOutcome::Stored && final(self).records() == old(self).records().push(
                    (partition_key@, sort_key@),
                )
            }),
    {
        if !str_eq(self.table_name.as_str(), table_name) {
            return PutOutcome::ServiceFailure(resource_not_found_message());
        }
        if self.holds_record(partition_key.as_str(), sort_key.as_str()) {
            return PutOutcome::ConditionFailed;
        }
        let ghost before = self.records();
        self.records.push(Record { partition_key, sort_key });
        proof {
            assert(self.records() =~= before.push((partition_key@, sort_key@)));
            if unique_records(before) {
                assert forall|i: int, j: int|
                    0 <= i < j < self.records().len() implies self.records()[i]
                    != self.records()[j] by {
                    if j == self.records().len() - 1 {
                        assert(!before.contains((partition_key@, sort_key@)));
                        assert(before[i] != (partition_key@, sort_key@));
                    }
                }
            }
        }
        PutOutcome::Stored
    }

    /// Returns one page: the sort keys of every record of the given
    /// partition, in store order. Issues exactly one query.
    pub fn query(&mut self, table_name: &str, partition_key: &str) -> (r: Result<
        Vec<String>,
        String,
    >)
        ensures
            final(self).table() == old(self).table(),
            final(self).records() == old(self).records(),
            final(self).queries() == old(self).queries() + 1,
            r is Ok <==> old(self).table() == table_name@,
            (r matches Ok(v) ==> v.deep_view() == partition_skeys(
                old(self).records(),
                partition_key@,
            )),
            (r matches Err(m) ==> m@ == resource_not_found_text()),
    {
        let table_matches = str_eq(self.table_name.as_str(), table_name);
        proof {
            self.queries_issued@ = self.queries_issued@ + 1;
        }
        if !table_matches {
            return Err(resource_not_found_message());
        }
        let n = self.records.len();
        let mut out: Vec<String> = Vec::new();
        let mut i: usize = 0;
        while i < n
            invariant
                n == self.records@.len(),
                i <= n,
                self.records() == old(self).records(),
                out.deep_view() == partition_skeys(self.records().take(i as int), partition_key@),
            decreases n - i,
        {
            let ghost prefix = self.records().take(i as int);
            let ghost prefix_next = self.records().take(i as int + 1);
            proof {
                assert(prefix_next.drop_last() =~= prefix);
                assert(prefix_next.last() == self.records()[i as int]);
            }
            let rec = &self.records[i];
            if str_eq(rec.partition_key.as_str(), partition_key) {
                let ghost before = out.deep_view();
                out.push(rec.sort_key.clone());
                proof {
                    assert(out.deep_view() =~= before.push(rec.sort_key@));
                }
            }
            i += 1;
        }
        proof {
            assert(self.records().take(n as int) =~= self.records());
        }
        Ok(out)
    }

    /// Deletes a record unconditionally; deleting an absent key succeeds
    /// and changes nothing.
    pub fn delete(&mut self, table_name: &str, partition_key: &str, sort_key: &str) -> (r: Result<
        (),
        String,
    >)
        ensures
            final(self).table() == old(self).table(),
            final(self).queries() == old(self).queries(),
            old(self).wf() ==> final(self).wf(),
            r is Ok <==> old(self).table() == table_name@,
            r is Ok ==> final(self).records() == without_record(
                old(self).records(),
                partition_key@,
                sort_key@,
            ),
            r is Err ==> final(self).records() == old(self).records(),
            (r matches Err(m) ==> m@ == resource_not_found_text()),
    {
        if !str_eq(self.table_name.as_str(), table_name) {
            return Err(resource_not_found_message());
        }
        self.remove_matching(partition_key, sort_key);
        proof {
            if unique_records(old(self).records()) {
                lemma_without_record_unique(old(self).records(), partition_key@, sort_key@);
            }
        }
        Ok(())
    }

    fn remove_matching(&mut self, partition_key: &str, sort_key: &str)
        ensures
            final(self).table() == old(self).table(),
            final(self).queries() == old(self).queries(),
            final(self).records() == without_record(
                old(self).records(),
                partition_key@,
                sort_key@,
            ),
    {
        let n = self.records.len();
        let mut kept: Vec<Record> = Vec::new();
        let mut i: usize = 0;
        while i < n
            invariant
                n == self.records@.len(),
                i <= n,
                self.records() == old(self).records(),
                record_keys(kept@) == without_record(
                    self.records().take(i as int),
                    partition_key@,
                    sort_key@,
                ),
            decreases n - i,
        {
            let ghost prefix = self.records().take(i as int);
            let ghost prefix_next = self.records().take(i as int + 1);
            proof {
                assert(prefix_next.drop_last() =~= prefix);
                assert(prefix_next.last() == self.records()[i as int]);
            }
            let rec = &self.records[i];
            let matches_key = str_eq(rec.partition_key.as_str(), partition_key) && str_eq(
                rec.sort_key.as_str(),
                sort_key,
            );
            if !matches_key {
                let ghost before = record_keys(kept@);
                kept.push(rec.clone());
                proof {
                    assert(record_keys(kept@) =~= before.push(self.records()[i as int]));
                }
            } else {
                proof {
                    assert(self.records()[i as int] == (partition_key@, sort_key@));
                }
            }
            i += 1;
        }
        proof {
            assert(self.records().take(n as int) =~= self.records());
        }
        self.records = kept;
    }

    /// Atomically deletes two records, each under the condition that it
    /// exists. Either both are deleted or neither is: when a condition
    /// fails the transaction is canceled with one reason per item, a
    /// message marking each item whose condition check failed. A
    /// transaction may not name the same item twice.
    pub fn transact_delete_pair(
        &mut self,
        table_name: &str,
        partition_key1: &str,
        sort_key1: &str,
        partition_key2: &str,
        sort_key2: &str,
    ) -> (r: TransactionOutcome)
        ensures
            final(self).table() == old(self).table(),
            final(self).queries() == old(self).queries(),
            old(self).wf() ==> final(self).wf(),
            (if old(self).table() != table_name@ {
                (r matches TransactionOutcome::ServiceFailure(m) && m@ == resource_not_found_text())
                    && final(self).records() == old(self).records()
            } else if (partition_key1@, sort_key1@) == (partition_key2@, sort_key2@) {
                (r matches TransactionOutcome::ServiceFailure(m) && m@ == duplicate_item_text())
                    && final(self).records() == old(self).records()
            } else if contains_record(old(self).records(), partition_key1@, sort_key1@)
                && contains_record(old(self).records(), partition_key2@, sort_key2@) {
                r == TransactionOutcome::Committed && final(self).records() == without_record(
                    without_record(old(self).records(), partition_key1@, sort_key1@),
                    partition_key2@,
                    sort_key2@,
                )
            } else {
                (r matches TransactionOutcome::Canceled { detail, reasons } && {
                    &&& detail@ == transaction_canceled_text()
                    &&& reasons@.len() == 2
                    &&& condition_failed(reasons@, 0) <==> !contains_record(
                        old(self).records(),
                        partition_key1@,
                        sort_key1@,
                    )
                    &&& condition_failed(reasons@, 1) <==> !contains_record(
                        old(self).records(),
                        partition_key2@,
                        sort_key2@,
                    )
                }) && final(self).records() == old(self).records()
            }),
    {
        if !str_eq(self.table_name.as_str(), table_name) {
            return TransactionOutcome::ServiceFailure(resource_not_found_message());
        }
        if str_eq(partition_key1, partition_key2) && str_eq(sort_key1, sort_key2) {
            return TransactionOutcome::ServiceFailure(
                String::from_str(
                    "ValidationException: Transaction request cannot include multiple operations on one item",
                ),
            );
        }
        let present1 = self.holds_record(partition_key1, sort_key1);
        let present2 = self.holds_record(partition_key2, sort_key2);
        if present1 && present2 {
            self.remove_matching(partition_key1, sort_key1);
            self.remove_matching(partition_key2, sort_key2);
            proof {
                if unique_records(old(self).records()) {
                    lemma_without_record_unique(
                        old(self).records(),
                        partition_key1@,
                        sort_key1@,
                    );
                    lemma_without_record_unique(
                        without_record(old(self).records(), partition_key1@, sort_key1@),
                        partition_key2@,
                        sort_key2@,
                    );
                }
            }
            TransactionOutcome::Committed
        } else {
            let mut reasons: Vec<CancellationReason> = Vec::new();
            reasons.push(
                CancellationReason {
                    message: if present1 {
                        None
                    } else {
                        Some(String::from_str("The conditional request failed"))
                    },
                },
            );
            reasons.push(
                CancellationReason {
                    message: if present2 {
                        None
                    } else {
                        Some(String::from_str("The conditional request failed"))
                    },
                },
            );
            TransactionOutcome::Canceled {
                detail: String::from_str(
                    "TransactionCanceledException: Transaction cancelled, please refer cancellation reasons for specific reasons",
                ),
                reasons,
            }
        }
    }
}

} // verus!
