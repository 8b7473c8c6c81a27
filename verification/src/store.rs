//! The transaction store and balance calculator.
//!
//! The store owns the ledger rows: it appends new transactions with a
//! fresh identifier and a strictly increasing creation stamp, and answers
//! owner-scoped reads. Lock records are owned by an outside accounting
//! process; the store only holds and reads them. Identifiers and clock
//! readings come from outside collaborators, and every rule about the
//! stored data holds whatever values they return.

use vstd::prelude::*;
use crate::amount::{Amount, spec_parse};
use crate::query::{
    ListFilter, Status, TransactionQuery, build_filter, paginate, spec_limit, spec_page,
    spec_search_facet, spec_status_facet,
};
use crate::text::{contains_ci, contains_text_ci};
use crate::LedgerError;

verus! {

/// A ledger entry. `id`, `created_at` and `amount` never change once the
/// row is stored; `owner_id` is `None` for not-yet-attributed payments.
#[derive(Debug, Clone, PartialEq)]
pub struct Transaction {
    pub id: u128,
    pub owner_id: Option<u128>,
    pub tx_type: String,
    pub amount: Amount,
    pub currency: String,
    pub status: Status,
    pub customer_email: Option<String>,
    pub metadata: Option<String>,
    pub created_at: i64,
}

fn clone_opt_string(s: &Option<String>) -> (r: Option<String>)
    ensures
        r == *s,
{
    match s {
        Some(v) => Some(v.clone()),
        None => None,
    }
}

impl Transaction {
    /// A transaction is well formed when its amount is.
    pub open spec fn wf(self) -> bool {
        self.amount.wf()
    }

    /// An exact copy of the row.
    pub fn duplicate(&self) -> (r: Transaction)
        ensures
            r == *self,
    {
        Transaction {
            id: self.id,
            owner_id: self.owner_id,
            tx_type: self.tx_type.clone(),
            amount: self.amount,
            currency: self.currency.clone(),
            status: self.status,
            customer_email: clone_opt_string(&self.customer_email),
            metadata: clone_opt_string(&self.metadata),
            created_at: self.created_at,
        }
    }
}

/// A per-owner lock record as the outside accounting process maintains
/// it.
#[derive(Clone, Copy, Debug, PartialEq, Eq, Structural)]
pub struct LockRecord {
    pub owner_id: u128,
    pub locked_amount: Amount,
    pub required_amount: Amount,
    pub last_calculated_at: i64,
}

impl LockRecord {
    pub open spec fn wf(self) -> bool {
        self.locked_amount.wf() && self.required_amount.wf()
    }
}

/// The lock-balance view derived for an owner: the stored amounts plus
/// the deficit, or the zero state when no record exists.
#[derive(Clone, Copy, Debug, PartialEq, Eq, Structural)]
pub struct BusLockBalance {
    pub user_id: u128,
    pub locked_amount: Amount,
    pub required_amount: Amount,
    pub deficit: Amount,
    pub last_calculated_at: i64,
}

/// One page of a listing: the matching rows, the owner's unfiltered row
/// count, and the effective page number.
#[derive(Debug)]
pub struct TransactionListResponse {
    pub transactions: Vec<Transaction>,
    pub total: i32,
    pub page: i32,
}

/// Whether `t` belongs to `owner` and passes both optional facets: the
/// free-text needle must occur case-insensitively in the customer email
/// or in the status text, and the status facet must equal the row's
/// status.
pub open spec fn row_matches(
    t: Transaction,
    owner: u128,
    search: Option<Seq<char>>,
    status: Option<Status>,
) -> bool {
    &&& t.owner_id == Some(owner)
    &&& match search {
        None => true,
        Some(p) => (match t.customer_email {
            Some(e) => contains_ci(e@, p),
            None => false,
        }) || contains_ci(t.status.spec_text(), p),
    }
    &&& match status {
        None => true,
        Some(st) => t.status == st,
    }
}

/// The rows of `owner` that pass the facets, newest first. Rows are kept
/// in ascending creation order, so the newest-first listing walks them
/// from the back.
pub open spec fn newest_matches(
    rows: Seq<Transaction>,
    owner: u128,
    search: Option<Seq<char>>,
    status: Option<Status>,
) -> Seq<Transaction>
    decreases rows.len(),
{
    if rows.len() == 0 {
        Seq::empty()
    } else {
        newest_matches(rows.drop_first(), owner, search, status) + (if row_matches(
            rows.first(),
            owner,
            search,
            status,
        ) {
            seq![rows.first()]
        } else {
            Seq::empty()
        })
    }
}

/// How many rows belong to `owner`, regardless of any filter.
pub open spec fn owner_count(rows: Seq<Transaction>, owner: u128) -> int
    decreases rows.len(),
{
    if rows.len() == 0 {
        0
    } else {
        owner_count(rows.drop_first(), owner) + (if rows.first().owner_id == Some(owner) {
            1int
        } else {
            0int
        })
    }
}

/// The first row carrying `id`, if any.
pub open spec fn spec_find_tx(rows: Seq<Transaction>, id: u128) -> Option<Transaction>
    decreases rows.len(),
{
    if rows.len() == 0 {
        None
    } else if rows.first().id == id {
        Some(rows.first())
    } else {
        spec_find_tx(rows.drop_first(), id)
    }
}

/// The row carrying `id` as seen by `owner`: present only when it exists
/// and belongs to that owner. A row of another owner and a missing row
/// are indistinguishable.
pub open spec fn spec_get_scoped(rows: Seq<Transaction>, id: u128, owner: u128) -> Option<
    Transaction,
> {
    match spec_find_tx(rows, id) {
        Some(t) => if t.owner_id == Some(owner) {
            Some(t)
        } else {
            None
        },
        None => None,
    }
}

/// The lock record of `owner`, if one is stored.
pub open spec fn spec_find_lock(locks: Seq<LockRecord>, owner: u128) -> Option<LockRecord>
    decreases locks.len(),
{
    if locks.len() == 0 {
        None
    } else if locks.first().owner_id == owner {
        Some(locks.first())
    } else {
        spec_find_lock(locks.drop_first(), owner)
    }
}

/// A fresh creation stamp can be assigned unless the newest stored stamp
/// has exhausted the clock's range.
pub open spec fn can_stamp(rows: Seq<Transaction>) -> bool {
    rows.len() == 0 || rows.last().created_at < i64::MAX
}

proof fn lemma_find_tx_none(rows: Seq<Transaction>, id: u128)
    requires
        spec_find_tx(rows, id) is None,
    ensures
        forall|i: int| 0 <= i < rows.len() ==> (#[trigger] rows[i]).id != id,
    decreases rows.len(),
{
    if rows.len() > 0 {
        lemma_find_tx_none(rows.drop_first(), id);
        assert forall|i: int| 0 <= i < rows.len() implies (#[trigger] rows[i]).id != id by {
            if i == 0 {
                assert(rows[0] == rows.first());
            } else {
                assert(rows.drop_first()[i - 1] == rows[i]);
            }
        }
    }
}

proof fn lemma_find_lock_none(locks: Seq<LockRecord>, owner: u128)
    requires
        spec_find_lock(locks, owner) is None,
    ensures
        forall|i: int| 0 <= i < locks.len() ==> (#[trigger] locks[i]).owner_id != owner,
    decreases locks.len(),
{
    if locks.len() > 0 {
        lemma_find_lock_none(locks.drop_first(), owner);
        assert forall|i: int| 0 <= i < locks.len() implies (#[trigger] locks[i]).owner_id
            != owner by {
            if i == 0 {
                assert(locks[0] == locks.first());
            } else {
                assert(locks.drop_first()[i - 1] == locks[i]);
            }
        }
    }
}

proof fn lemma_find_lock_found(locks: Seq<LockRecord>, owner: u128)
    requires
        spec_find_lock(locks, owner) is Some,
    ensures
        exists|i: int| 0 <= i < locks.len() && locks[i] == spec_find_lock(locks, owner)->0,
    decreases locks.len(),
{
    if locks.len() > 0 && locks.first().owner_id != owner {
        lemma_find_lock_found(locks.drop_first(), owner);
        let i = choose|i: int|
            0 <= i < locks.drop_first().len() && locks.drop_first()[i] == spec_find_lock(
                locks.drop_first(),
                owner,
            )->0;
        assert(locks[i + 1] == locks.drop_first()[i]);
    }
}

/// Bounds: no selection can have more rows than the store.
proof fn lemma_newest_matches_len(
    rows: Seq<Transaction>,
    owner: u128,
    search: Option<Seq<char>>,
    status: Option<Status>,
)
    ensures
        0 <= newest_matches(rows, owner, search, status).len() <= rows.len(),
    decreases rows.len(),
{
    if rows.len() > 0 {
        lemma_newest_matches_len(rows.drop_first(), owner, search, status);
    }
}

proof fn lemma_owner_count_bounds(rows: Seq<Transaction>, owner: u128)
    ensures
        0 <= owner_count(rows, owner) <= rows.len(),
    decreases rows.len(),
{
    if rows.len() > 0 {
        lemma_owner_count_bounds(rows.drop_first(), owner);
    }
}

/// An owner with no rows at all is listed an empty selection, whatever
/// the facets say.
pub proof fn lemma_empty_owner_lists_nothing(
    rows: Seq<Transaction>,
    owner: u128,
    search: Option<Seq<char>>,
    status: Option<Status>,
)
    requires
        owner_count(rows, owner) == 0,
    ensures
        newest_matches(rows, owner, search, status) == Seq::<Transaction>::empty(),
    decreases rows.len(),
{
    if rows.len() > 0 {
        lemma_owner_count_bounds(rows.drop_first(), owner);
        lemma_empty_owner_lists_nothing(rows.drop_first(), owner, search, status);
        assert(newest_matches(rows, owner, search, status) =~= Seq::<Transaction>::empty());
    }
}

/// Cross-owner isolation: to owner `b`, a row created for a different
/// owner `a` is exactly as invisible as a row that does not exist — both
/// lookups produce the same empty outcome.
pub proof fn lemma_cross_owner_isolation(
    rows: Seq<Transaction>,
    id: u128,
    owner_a: u128,
    owner_b: u128,
    missing_id: u128,
)
    requires
        spec_find_tx(rows, id) is Some,
        spec_find_tx(rows, id)->0.owner_id == Some(owner_a),
        owner_a != owner_b,
        spec_find_tx(rows, missing_id) is None,
    ensures
        spec_get_scoped(rows, id, owner_b) is None,
        spec_get_scoped(rows, missing_id, owner_b) is None,
        spec_get_scoped(rows, id, owner_b) == spec_get_scoped(rows, missing_id, owner_b),
{
}

/// Relies on `uuid::Uuid::new_v4` for a freshly generated identifier,
/// taken as its 128-bit value. Nothing is assumed about the value: the
/// store checks it against the stored rows itself.
#[verifier::external_body]
fn fresh_id() -> u128 {
    uuid::Uuid::new_v4().as_u128()
}

/// Relies on `chrono::Utc::now` for the current wall-clock time in
/// microseconds. Nothing is assumed about the reading: the store orders
/// creation stamps itself.
#[verifier::external_body]
fn now_micros() -> i64 {
    chrono::Utc::now().timestamp_micros()
}

fn find_index_by_id(rows: &Vec<Transaction>, id: u128) -> (r: Option<usize>)
    ensures
        r is None <==> spec_find_tx(rows@, id) is None,
        r matches Some(i) ==> 0 <= i < rows@.len() && rows@[i as int].id == id && spec_find_tx(
            rows@,
            id,
        ) == Some(rows@[i as int]),
{
    let n = rows.len();
    let mut i: usize = 0;
    proof {
        assert(rows@.subrange(0, n as int) =~= rows@);
    }
    while i < n
        invariant
            n == rows@.len(),
            i <= n,
            spec_find_tx(rows@, id) == spec_find_tx(rows@.subrange(i as int, n as int), id),
        decreases n - i,
    {
        let sub = Ghost(rows@.subrange(i as int, n as int));
        if rows[i].id == id {
            proof {
                assert(sub@.first() == rows@[i as int]);
            }
            return Some(i);
        }
        proof {
            assert(sub@.first() == rows@[i as int]);
            assert(sub@.drop_first() =~= rows@.subrange(i + 1, n as int));
        }
        i = i + 1;
    }
    proof {
        assert(rows@.subrange(n as int, n as int) =~= Seq::<Transaction>::empty());
    }
    None
}

/// Whether `t` passes the owner scope and the validated filter.
fn row_matches_exec(t: &Transaction, owner_id: u128, fl: &ListFilter) -> (r: bool)
    ensures
        r == row_matches(
            *t,
            owner_id,
            match fl.search {
                Some(s) => Some(s@),
                None => None,
            },
            fl.status,
        ),
{
    let owned = match t.owner_id {
        Some(o) => o == owner_id,
        None => false,
    };
    if !owned {
        return false;
    }
    let search_ok = match &fl.search {
        None => true,
        Some(p) => {
            let email_hit = match &t.customer_email {
                Some(e) => contains_text_ci(e.as_str(), p.as_str()),
                None => false,
            };
            email_hit || contains_text_ci(t.status.as_text(), p.as_str())
        },
    };
    if !search_ok {
        return false;
    }
    match fl.status {
        None => true,
        Some(st) => t.status == st,
    }
}

/// The ledger store: transaction rows in creation order, plus the lock
/// records maintained for it by the outside accounting process.
pub struct Store {
    rows: Vec<Transaction>,
    locks: Vec<LockRecord>,
}

impl Store {
    /// The stored rows, oldest first.
    pub closed spec fn rows(self) -> Seq<Transaction> {
        self.rows@
    }

    /// The stored lock records.
    pub closed spec fn locks(self) -> Seq<LockRecord> {
        self.locks@
    }

    /// Store invariant: every row is well formed, identifiers are unique,
    /// creation stamps strictly increase in storage order (so storage
    /// order is creation order), the row count stays within the count
    /// type, and lock records are well formed with one per owner.
    pub open spec fn wf(self) -> bool {
        &&& self.rows().len() <= 0x7fffffff
        &&& forall|i: int| 0 <= i < self.rows().len() ==> (#[trigger] self.rows()[i]).wf()
        &&& forall|i: int, j: int|
            0 <= i < j < self.rows().len() ==> (#[trigger] self.rows()[i]).id != (
            #[trigger] self.rows()[j]).id
        &&& forall|i: int, j: int|
            0 <= i < j < self.rows().len() ==> (#[trigger] self.rows()[i]).created_at < (
            #[trigger] self.rows()[j]).created_at
        &&& forall|i: int| 0 <= i < self.locks().len() ==> (#[trigger] self.locks()[i]).wf()
        &&& forall|i: int, j: int|
            0 <= i < j < self.locks().len() ==> (#[trigger] self.locks()[i]).owner_id != (
            #[trigger] self.locks()[j]).owner_id
    }

    /// An empty store.
    pub fn new() -> (s: Store)
        ensures
            s.wf(),
            s.rows() == Seq::<Transaction>::empty(),
            s.locks() == Seq::<LockRecord>::empty(),
    {
        Store { rows: Vec::new(), locks: Vec::new() }
    }

    /// Appends a row built from the given fields, identifier and clock
    /// reading. Succeeds exactly when the identifier is not already in
    /// use, the store is not full, and a fresh creation stamp can still
    /// be assigned; the stamp is then newer than every stored one and not
    /// before `now`. Any failure is a `StoreError` and leaves the store
    /// unchanged.
    pub fn insert_row(
        &mut self,
        owner_id: Option<u128>,
        tx_type: String,
        amount: Amount,
        currency: String,
        status: Status,
        customer_email: Option<String>,
        metadata: Option<String>,
        id: u128,
        now: i64,
    ) -> (r: Result<Transaction, LedgerError>)
        requires
            old(self).wf(),
            amount.wf(),
        ensures
            final(self).wf(),
            final(self).locks() == old(self).locks(),
            (r is Ok) <==> (spec_find_tx(old(self).rows(), id) is None && old(self).rows().len()
                < 0x7fffffff && can_stamp(old(self).rows())),
            r is Err ==> final(self).rows() == old(self).rows() && r == Err::<
                Transaction,
                LedgerError,
            >(LedgerError::StoreError),
            r matches Ok(t) ==> final(self).rows() == old(self).rows().push(t) && t == (Transaction {
                id,
                owner_id,
                tx_type,
                amount,
                currency,
                status,
                customer_email,
                metadata,
                created_at: t.created_at,
            }) && t.created_at >= now,
    {
        if self.rows.len() >= 0x7fffffff {
            return Err(LedgerError::StoreError);
        }
        if find_index_by_id(&self.rows, id).is_some() {
            return Err(LedgerError::StoreError);
        }
        let ts: i64;
        if self.rows.len() == 0 {
            ts = now;
        } else {
            let last = self.rows[self.rows.len() - 1].created_at;
            if now > last {
                ts = now;
            } else {
                if last == i64::MAX {
                    return Err(LedgerError::StoreError);
                }
                ts = last + 1;
            }
        }
        let row = Transaction {
            id,
            owner_id,
            tx_type,
            amount,
            currency,
            status,
            customer_email,
            metadata,
            created_at: ts,
        };
        let stored = row.duplicate();
        self.rows.push(row);
        proof {
            lemma_find_tx_none(old(self).rows(), id);
            assert(self.locks() == old(self).locks());
            assert forall|i: int| 0 <= i < self.locks().len() implies (
            #[trigger] self.locks()[i]).wf() by {
                assert(self.locks()[i] == old(self).locks()[i]);
            }
            let rs = self.rows();
            let n = rs.len() - 1;
            assert(forall|i: int| 0 <= i < n ==> rs[i] == old(self).rows()[i]);
            assert(rs[n] == row);
            assert forall|i: int| 0 <= i < n implies (#[trigger] rs[i]).created_at
                < rs[n].created_at by {
                assert(rs[i] == old(self).rows()[i]);
                if i < n - 1 {
                    assert(old(self).rows()[i].created_at < old(self).rows()[n
                        - 1].created_at);
                }
                assert(old(self).rows()[n - 1] == old(self).rows().last());
            }
            assert forall|i: int| 0 <= i < n implies (#[trigger] rs[i]).id != rs[n].id by {
                assert(rs[i] == old(self).rows()[i]);
            }
        }
        Ok(stored)
    }

    /// Validates and stores a new payment: exact amount text, `payment`
    /// type, `pending` status, no owner attribution yet. Unparseable
    /// amount text is rejected as `InvalidAmount` before anything is
    /// stored; a storage failure surfaces as `StoreError`. On an empty
    /// store a parseable payment always succeeds: a storage failure can
    /// only arise once rows exist, from the drawn identifier colliding
    /// with a stored row, the row cap, or an exhausted stamp.
    pub fn create_payment(
        &mut self,
        amount_text: &[u8],
        currency: String,
        customer_email: String,
        metadata: Option<String>,
    ) -> (r: Result<Transaction, LedgerError>)
        requires
            old(self).wf(),
        ensures
            final(self).wf(),
            final(self).locks() == old(self).locks(),
            r is Err ==> final(self).rows() == old(self).rows(),
            r matches Err(e) ==> ((e == LedgerError::InvalidAmount) <==> spec_parse(amount_text@)
                is None) && (e == LedgerError::InvalidAmount || e == LedgerError::StoreError),
            spec_parse(amount_text@) is Some && old(self).rows().len() == 0 ==> r is Ok,
            r matches Ok(t) ==> {
                &&& final(self).rows() == old(self).rows().push(t)
                &&& spec_parse(amount_text@) == Some(t.amount)
                &&& t.amount.wf()
                &&& t.tx_type@ == "payment"@
                &&& t.status == Status::Pending
                &&& t.owner_id is None
                &&& t.currency == currency
                &&& t.customer_email == Some(customer_email)
                &&& t.metadata == metadata
            },
    {
        let amount = match Amount::parse(amount_text) {
            Ok(a) => a,
            Err(e) => {
                return Err(e);
            },
        };
        let id = fresh_id();
        let now = now_micros();
        self.insert_row(
            None,
            "payment".to_owned(),
            amount,
            currency,
            Status::Pending,
            Some(customer_email),
            metadata,
            id,
            now,
        )
    }

    /// Reads a transaction by identifier alone, as the unauthenticated
    /// payment view does. `NotFound` exactly when no row carries the
    /// identifier.
    pub fn get_payment(&self, id: u128) -> (r: Result<Transaction, LedgerError>)
        ensures
            (r is Ok) <==> spec_find_tx(self.rows(), id) is Some,
            r matches Ok(t) ==> spec_find_tx(self.rows(), id) == Some(t),
            r is Err ==> r == Err::<Transaction, LedgerError>(LedgerError::NotFound),
    {
        match find_index_by_id(&self.rows, id) {
            Some(i) => Ok(self.rows[i].duplicate()),
            None => Err(LedgerError::NotFound),
        }
    }

    /// Reads a transaction by identifier for one owner. `NotFound` both
    /// when the identifier is unknown and when the row belongs to a
    /// different owner: the two cases are indistinguishable to the
    /// caller.
    pub fn get_transaction(&self, id: u128, owner_id: u128) -> (r: Result<
        Transaction,
        LedgerError,
    >)
        ensures
            (r is Ok) <==> spec_get_scoped(self.rows(), id, owner_id) is Some,
            r matches Ok(t) ==> spec_get_scoped(self.rows(), id, owner_id) == Some(t),
            r is Err ==> r == Err::<Transaction, LedgerError>(LedgerError::NotFound),
    {
        match find_index_by_id(&self.rows, id) {
            Some(i) => {
                let t = &self.rows[i];
                let owned = match t.owner_id {
                    Some(o) => o == owner_id,
                    None => false,
                };
                if owned {
                    Ok(t.duplicate())
                } else {
                    Err(LedgerError::NotFound)
                }
            },
            None => Err(LedgerError::NotFound),
        }
    }

    /// The owner's stored lock record, if any; absence is a valid state,
    /// not an error.
    pub fn get_lock_balance(&self, owner_id: u128) -> (r: Option<LockRecord>)
        ensures
            r == spec_find_lock(self.locks(), owner_id),
    {
        let n = self.locks.len();
        let mut i: usize = 0;
        proof {
            assert(self.locks().subrange(0, n as int) =~= self.locks());
        }
        while i < n
            invariant
                n == self.locks().len(),
                i <= n,
                spec_find_lock(self.locks(), owner_id) == spec_find_lock(
                    self.locks().subrange(i as int, n as int),
                    owner_id,
                ),
            decreases n - i,
        {
            let sub = Ghost(self.locks().subrange(i as int, n as int));
            proof {
                assert(sub@.first() == self.locks()[i as int]);
                assert(sub@.drop_first() =~= self.locks().subrange(i + 1, n as int));
            }
            if self.locks[i].owner_id == owner_id {
                return Some(self.locks[i]);
            }
            i = i + 1;
        }
        proof {
            assert(self.locks().subrange(n as int, n as int) =~= Seq::<LockRecord>::empty());
        }
        None
    }

    /// Installs the lock record the outside accounting process computed
    /// for an owner that has none yet.
    pub fn install_lock_record(&mut self, rec: LockRecord)
        requires
            old(self).wf(),
            rec.wf(),
            spec_find_lock(old(self).locks(), rec.owner_id) is None,
        ensures
            final(self).wf(),
            final(self).rows() == old(self).rows(),
            final(self).locks() == old(self).locks().push(rec),
    {
        proof {
            lemma_find_lock_none(old(self).locks(), rec.owner_id);
        }
        self.locks.push(rec);
    }

    /// The owner's lock-balance view "as of `now`": the stored amounts
    /// and their deficit, or, where no record exists, the zero state
    /// stamped with `now` itself. Absence never fails.
    pub fn get_bus_lock_balance(&self, owner_id: u128, now: i64) -> (r: BusLockBalance)
        requires
            self.wf(),
        ensures
            r.user_id == owner_id,
            r.deficit.wf(),
            match spec_find_lock(self.locks(), owner_id) {
                Some(rec) => {
                    &&& r.locked_amount == rec.locked_amount
                    &&& r.required_amount == rec.required_amount
                    &&& r.last_calculated_at == rec.last_calculated_at
                    &&& r.deficit.scaled() == if rec.required_amount.scaled()
                        >= rec.locked_amount.scaled() {
                        rec.required_amount.scaled() - rec.locked_amount.scaled()
                    } else {
                        0
                    }
                },
                None => r == (BusLockBalance {
                    user_id: owner_id,
                    locked_amount: Amount { units: 0, scale: 0 },
                    required_amount: Amount { units: 0, scale: 0 },
                    deficit: Amount { units: 0, scale: 0 },
                    last_calculated_at: now,
                }),
            },
    {
        match self.get_lock_balance(owner_id) {
            Some(rec) => {
                proof {
                    lemma_find_lock_found(self.locks(), owner_id);
                }
                let deficit = Amount::deficit(&rec.required_amount, &rec.locked_amount);
                BusLockBalance {
                    user_id: owner_id,
                    locked_amount: rec.locked_amount,
                    required_amount: rec.required_amount,
                    deficit,
                    last_calculated_at: rec.last_calculated_at,
                }
            },
            None => {
                let zero = Amount::zero();
                BusLockBalance {
                    user_id: owner_id,
                    locked_amount: zero,
                    required_amount: zero,
                    deficit: zero,
                    last_calculated_at: now,
                }
            },
        }
    }

    /// The lock-balance view stamped with the current clock reading.
    pub fn current_bus_lock_balance(&self, owner_id: u128) -> (r: BusLockBalance)
        requires
            self.wf(),
        ensures
            r.user_id == owner_id,
            r.deficit.wf(),
            match spec_find_lock(self.locks(), owner_id) {
                Some(rec) => {
                    &&& r.locked_amount == rec.locked_amount
                    &&& r.required_amount == rec.required_amount
                    &&& r.last_calculated_at == rec.last_calculated_at
                    &&& r.deficit.scaled() == if rec.required_amount.scaled()
                        >= rec.locked_amount.scaled() {
                        rec.required_amount.scaled() - rec.locked_amount.scaled()
                    } else {
                        0
                    }
                },
                None => r.locked_amount == (Amount { units: 0, scale: 0 }) && r.required_amount
                    == (Amount { units: 0, scale: 0 }) && r.deficit == (Amount {
                    units: 0,
                    scale: 0,
                }),
            },
    {
        let now = now_micros();
        self.get_bus_lock_balance(owner_id, now)
    }

    /// Lists one page of the owner's transactions, newest first.
    ///
    /// The page honours both facets of the validated filter, while
    /// `total` deliberately counts all of the owner's rows regardless of
    /// any filter. Paging past the end yields an empty page with `total`
    /// still correct, and no other owner's row can ever appear.
    pub fn list_transactions(&self, owner_id: u128, params: &TransactionQuery) -> (r:
        TransactionListResponse)
        requires
            self.wf(),
        ensures
            r.page as int == spec_page(*params),
            r.total as int == owner_count(self.rows(), owner_id),
            ({
                let m = newest_matches(
                    self.rows(),
                    owner_id,
                    spec_search_facet(*params),
                    spec_status_facet(*params),
                );
                let off = (spec_page(*params) - 1) * spec_limit(*params);
                let start = if off > m.len() {
                    m.len() as int
                } else {
                    off
                };
                let end = if off + spec_limit(*params) > m.len() {
                    m.len() as int
                } else {
                    off + spec_limit(*params)
                };
                r.transactions@ == m.subrange(start, end)
            }),
    {
        let pg = paginate(params);
        let fl = build_filter(params);
        let ghost search_facet = spec_search_facet(*params);
        let ghost status_facet = spec_status_facet(*params);
        let offset: u64 = pg.offset;
        let limit: u64 = pg.limit as u64;
        let n = self.rows.len();
        let mut i: usize = n;
        let mut seen: u64 = 0;
        let mut total: u64 = 0;
        let mut pushed: u64 = 0;
        let mut out: Vec<Transaction> = Vec::new();
        while i > 0
            invariant
                self.wf(),
                n == self.rows().len(),
                i <= n,
                offset as int == (spec_page(*params) - 1) * spec_limit(*params),
                limit as int == spec_limit(*params),
                1 <= limit <= 100,
                (match fl.search {
                    Some(s) => search_facet == Some(s@),
                    None => search_facet is None,
                }),
                fl.status == status_facet,
                ({
                    let g = newest_matches(
                        self.rows().subrange(i as int, n as int),
                        owner_id,
                        search_facet,
                        status_facet,
                    );
                    let start = if offset as int > g.len() {
                        g.len() as int
                    } else {
                        offset as int
                    };
                    let end = if offset as int + limit as int > g.len() {
                        g.len() as int
                    } else {
                        offset as int + limit as int
                    };
                    seen as int == g.len() && out@ == g.subrange(start, end) && pushed as int
                        == out@.len()
                }),
                total as int == owner_count(self.rows().subrange(i as int, n as int), owner_id),
            decreases i,
        {
            let idx = i - 1;
            let ghost prev = self.rows().subrange(i as int, n as int);
            let ghost cur = self.rows().subrange(idx as int, n as int);
            proof {
                assert(cur.first() == self.rows()[idx as int]);
                assert(cur.drop_first() =~= prev);
                lemma_newest_matches_len(prev, owner_id, search_facet, status_facet);
                lemma_owner_count_bounds(prev, owner_id);
            }
            let t = &self.rows[idx];
            let owned = match t.owner_id {
                Some(o) => o == owner_id,
                None => false,
            };
            if owned {
                total = total + 1;
            }
            let ghost g = newest_matches(prev, owner_id, search_facet, status_facet);
            let ghost g2 = newest_matches(cur, owner_id, search_facet, status_facet);
            if row_matches_exec(t, owner_id, &fl) {
                proof {
                    assert(g2 =~= g + seq![self.rows()[idx as int]]);
                }
                if seen >= offset && pushed < limit {
                    out.push(t.duplicate());
                    pushed = pushed + 1;
                    proof {
                        let start2 = if offset as int > g2.len() {
                            g2.len() as int
                        } else {
                            offset as int
                        };
                        let end2 = if offset as int + limit as int > g2.len() {
                            g2.len() as int
                        } else {
                            offset as int + limit as int
                        };
                        assert(out@ =~= g2.subrange(start2, end2));
                    }
                } else {
                    proof {
                        let start2 = if offset as int > g2.len() {
                            g2.len() as int
                        } else {
                            offset as int
                        };
                        let end2 = if offset as int + limit as int > g2.len() {
                            g2.len() as int
                        } else {
                            offset as int + limit as int
                        };
                        assert(out@ =~= g2.subrange(start2, end2));
                    }
                }
                seen = seen + 1;
            } else {
                proof {
                    assert(g2 =~= g);
                }
            }
            i = idx;
        }
        proof {
            assert(self.rows().subrange(0, n as int) =~= self.rows());
            lemma_owner_count_bounds(self.rows(), owner_id);
        }
        TransactionListResponse { transactions: out, total: total as i32, page: pg.page }
    }
}

} // verus!
