use ledger_core::amount::Amount;
use ledger_core::query::{status_of_text, paginate, Status, TransactionQuery};
use ledger_core::store::Store;
use ledger_core::LedgerError;
use ledger_core::store::LockRecord;

fn query(
    search: Option<&str>,
    filter: Option<&str>,
    page: Option<i32>,
    limit: Option<i32>,
) -> TransactionQuery {
    TransactionQuery {
        search: search.map(|s| s.to_string()),
        filter: filter.map(|s| s.to_string()),
        page,
        limit,
    }
}

fn seed_payment(store: &mut Store, id: u128, owner: Option<u128>, amount: &str, email: &str, status: Status, now: i64) {
    let a = Amount::parse(amount.as_bytes()).expect("amount must parse");
    let r = store.insert_row(
        owner,
        "payment".to_string(),
        a,
        "USD".to_string(),
        status,
        Some(email.to_string()),
        None,
        id,
        now,
    );
    assert!(r.is_ok());
}

#[test]
fn amount_round_trip_is_exact() {
    for text in ["19.99", "0.01", "1000000.000001", "7", "0.000000000001", "123456.789"] {
        let a = Amount::parse(text.as_bytes()).expect("parses");
        let rendered = a.to_text();
        assert_eq!(rendered, text.as_bytes().to_vec());
        let b = Amount::parse(&rendered).expect("re-parses");
        assert_eq!(a, b);
        assert_eq!(b.to_text(), text.as_bytes().to_vec());
    }
}

#[test]
fn amount_rejects_bad_text() {
    for text in ["", "abc", "1.2.3", "-1", "1.", ".5", "1,50", "NaN", "inf", "1e5",
                 "123456789012345678901", "0.1234567890123"] {
        assert_eq!(Amount::parse(text.as_bytes()), Err(LedgerError::InvalidAmount));
    }
}

#[test]
fn deficit_is_required_minus_locked_floored_at_zero() {
    let required = Amount::parse(b"10.00").unwrap();
    let locked = Amount::parse(b"3.5").unwrap();
    let d = Amount::deficit(&required, &locked);
    assert_eq!(d.to_text(), b"6.50".to_vec());

    // Locked above required: never negative, reported as zero.
    let d2 = Amount::deficit(&locked, &required);
    assert_eq!(d2.to_text(), b"0.00".to_vec());

    let equal = Amount::deficit(&required, &required);
    assert_eq!(equal.to_text(), b"0.00".to_vec());
}

#[test]
fn listing_unknown_owner_is_empty_for_any_page_and_limit() {
    let mut store = Store::new();
    seed_payment(&mut store, 1, Some(77), "5.00", "a@x.com", Status::Pending, 100);
    for (page, limit) in [(None, None), (Some(1), Some(10)), (Some(-3), Some(1000)), (Some(50), Some(1))] {
        let r = store.list_transactions(99, &query(None, None, page, limit));
        assert_eq!(r.total, 0);
        assert!(r.transactions.is_empty());
    }
}

#[test]
fn pagination_clamps_page_and_limit() {
    let p = paginate(&query(None, None, Some(-5), Some(1000)));
    assert_eq!(p.page, 1);
    assert_eq!(p.limit, 100);
    assert_eq!(p.offset, 0);

    let q = paginate(&query(None, None, None, None));
    assert_eq!(q.page, 1);
    assert_eq!(q.limit, 10);
    assert_eq!(q.offset, 0);

    let r = paginate(&query(None, None, Some(3), Some(0)));
    assert_eq!(r.page, 3);
    assert_eq!(r.limit, 1);
    assert_eq!(r.offset, 2);
}

#[test]
fn page_below_one_lists_like_page_one() {
    let mut store = Store::new();
    for i in 0..5u128 {
        seed_payment(&mut store, i + 1, Some(7), "1.00", "a@x.com", Status::Pending, 100 + i as i64);
    }
    let low = store.list_transactions(7, &query(None, None, Some(-2), Some(2)));
    let one = store.list_transactions(7, &query(None, None, Some(1), Some(2)));
    assert_eq!(low.total, 5);
    assert_eq!(one.total, 5);
    assert_eq!(low.transactions.len(), 2);
    let low_ids: Vec<u128> = low.transactions.iter().map(|t| t.id).collect();
    let one_ids: Vec<u128> = one.transactions.iter().map(|t| t.id).collect();
    assert_eq!(low_ids, one_ids);
    // Newest first: the last inserted row leads the page.
    assert_eq!(low_ids, vec![5, 4]);
}

#[test]
fn paging_past_the_end_keeps_total() {
    let mut store = Store::new();
    seed_payment(&mut store, 1, Some(7), "1.00", "a@x.com", Status::Pending, 10);
    seed_payment(&mut store, 2, Some(7), "2.00", "b@x.com", Status::Settled, 20);
    let r = store.list_transactions(7, &query(None, None, Some(50), Some(10)));
    assert_eq!(r.total, 2);
    assert!(r.transactions.is_empty());
    assert_eq!(r.page, 50);
}

#[test]
fn unknown_status_filter_acts_like_no_filter() {
    let mut store = Store::new();
    seed_payment(&mut store, 1, Some(7), "1.00", "a@x.com", Status::Pending, 10);
    seed_payment(&mut store, 2, Some(7), "2.00", "b@x.com", Status::Settled, 20);
    let bogus = store.list_transactions(7, &query(None, Some("bogus"), None, None));
    let none = store.list_transactions(7, &query(None, None, None, None));
    assert_eq!(bogus.total, none.total);
    let bogus_ids: Vec<u128> = bogus.transactions.iter().map(|t| t.id).collect();
    let none_ids: Vec<u128> = none.transactions.iter().map(|t| t.id).collect();
    assert_eq!(bogus_ids, none_ids);
    assert_eq!(bogus_ids, vec![2, 1]);
}

#[test]
fn status_parsing_recognises_only_the_closed_set() {
    assert_eq!(status_of_text("pending"), Some(Status::Pending));
    assert_eq!(status_of_text("settled"), Some(Status::Settled));
    assert_eq!(status_of_text("failed"), Some(Status::Failed));
    assert_eq!(status_of_text("bogus"), None);
    assert_eq!(status_of_text("PENDING"), None);
    assert_eq!(status_of_text(""), None);
}

#[test]
fn status_filter_selects_matching_rows() {
    let mut store = Store::new();
    seed_payment(&mut store, 1, Some(7), "1.00", "a@x.com", Status::Pending, 10);
    seed_payment(&mut store, 2, Some(7), "2.00", "b@x.com", Status::Settled, 20);
    seed_payment(&mut store, 3, Some(7), "3.00", "c@x.com", Status::Settled, 30);
    let r = store.list_transactions(7, &query(None, Some("settled"), None, None));
    let ids: Vec<u128> = r.transactions.iter().map(|t| t.id).collect();
    assert_eq!(ids, vec![3, 2]);
    // Total stays the unfiltered owner count.
    assert_eq!(r.total, 3);
}

#[test]
fn cross_owner_lookup_is_not_found_like_a_missing_id() {
    let mut store = Store::new();
    seed_payment(&mut store, 42, Some(1), "1.00", "a@x.com", Status::Pending, 10);
    // Owner 2 looking up owner 1's transaction.
    let foreign = store.get_transaction(42, 2);
    // Anyone looking up an id that was never stored.
    let missing = store.get_transaction(777, 2);
    assert_eq!(foreign, Err(LedgerError::NotFound));
    assert_eq!(missing, Err(LedgerError::NotFound));
    // The owner itself still sees the row.
    let own = store.get_transaction(42, 1).unwrap();
    assert_eq!(own.id, 42);
    assert_eq!(own.owner_id, Some(1));
}

#[test]
fn lock_balance_without_record_is_zero_state_with_fresh_stamp() {
    let store = Store::new();
    let b = store.get_bus_lock_balance(9, 123456);
    assert_eq!(b.user_id, 9);
    assert_eq!(b.locked_amount.to_text(), b"0".to_vec());
    assert_eq!(b.required_amount.to_text(), b"0".to_vec());
    assert_eq!(b.deficit.to_text(), b"0".to_vec());
    assert_eq!(b.last_calculated_at, 123456);
}

#[test]
fn lock_balance_with_record_reports_deficit() {
    let mut store = Store::new();
    store.install_lock_record(LockRecord {
        owner_id: 9,
        locked_amount: Amount::parse(b"40.25").unwrap(),
        required_amount: Amount::parse(b"100.00").unwrap(),
        last_calculated_at: 555,
    });
    let b = store.get_bus_lock_balance(9, 999);
    assert_eq!(b.user_id, 9);
    assert_eq!(b.locked_amount.to_text(), b"40.25".to_vec());
    assert_eq!(b.required_amount.to_text(), b"100.00".to_vec());
    assert_eq!(b.deficit.to_text(), b"59.75".to_vec());
    // The stored stamp is reported, not the current clock.
    assert_eq!(b.last_calculated_at, 555);
}

#[test]
fn created_payment_is_pending_unattributed_and_exact() {
    let mut store = Store::new();
    let t = store
        .create_payment(b"19.99", "USD".to_string(), "a@x.com".to_string(), None)
        .expect("payment stored");
    assert_eq!(t.tx_type, "payment");
    assert_eq!(t.status, Status::Pending);
    assert_eq!(t.owner_id, None);
    assert_eq!(t.currency, "USD");
    assert_eq!(t.customer_email.as_deref(), Some("a@x.com"));
    assert_eq!(t.amount.to_text(), b"19.99".to_vec());
    // The stored row is readable back by its generated identifier.
    let read = store.get_payment(t.id).unwrap();
    assert_eq!(read.id, t.id);
    assert_eq!(read.amount.to_text(), b"19.99".to_vec());
}

#[test]
fn create_payment_rejects_bad_amount_text() {
    let mut store = Store::new();
    let r = store.create_payment(b"not-a-number", "USD".to_string(), "a@x.com".to_string(), None);
    assert_eq!(r.err(), Some(LedgerError::InvalidAmount));
    let r2 = store.get_payment(1);
    assert_eq!(r2.err(), Some(LedgerError::NotFound));
}

#[test]
fn search_applies_while_bogus_status_filter_is_dropped() {
    let mut store = Store::new();
    seed_payment(&mut store, 1, Some(7), "19.99", "a@x.com", Status::Pending, 10);
    seed_payment(&mut store, 2, Some(7), "5.00", "other@y.org", Status::Settled, 20);
    let r = store.list_transactions(7, &query(Some("a@x"), Some("bogus"), None, None));
    assert_eq!(r.transactions.len(), 1);
    assert_eq!(r.transactions[0].id, 1);
    assert_eq!(r.transactions[0].status, Status::Pending);
    // Total still reflects the owner's full, unfiltered count.
    assert_eq!(r.total, 2);
}

#[test]
fn search_matches_email_and_status_case_insensitively() {
    let mut store = Store::new();
    seed_payment(&mut store, 1, Some(7), "1.00", "Alice@Example.COM", Status::Pending, 10);
    seed_payment(&mut store, 2, Some(7), "2.00", "bob@example.com", Status::Failed, 20);

    // Case-insensitive hit on the email.
    let by_email = store.list_transactions(7, &query(Some("ALICE"), None, None, None));
    let ids: Vec<u128> = by_email.transactions.iter().map(|t| t.id).collect();
    assert_eq!(ids, vec![1]);

    // The needle also matches against the status text.
    let by_status = store.list_transactions(7, &query(Some("FAIL"), None, None, None));
    let ids2: Vec<u128> = by_status.transactions.iter().map(|t| t.id).collect();
    assert_eq!(ids2, vec![2]);

    // A needle matching nothing yields an empty page but the full total.
    let none = store.list_transactions(7, &query(Some("zzz"), None, None, None));
    assert!(none.transactions.is_empty());
    assert_eq!(none.total, 2);
}

#[test]
fn combined_search_and_status_filters_compose() {
    let mut store = Store::new();
    seed_payment(&mut store, 1, Some(7), "1.00", "a@x.com", Status::Pending, 10);
    seed_payment(&mut store, 2, Some(7), "2.00", "a@x.com", Status::Settled, 20);
    seed_payment(&mut store, 3, Some(7), "3.00", "b@y.org", Status::Settled, 30);
    let r = store.list_transactions(7, &query(Some("a@x"), Some("settled"), None, None));
    let ids: Vec<u128> = r.transactions.iter().map(|t| t.id).collect();
    assert_eq!(ids, vec![2]);
    assert_eq!(r.total, 3);
}

#[test]
fn listing_never_leaks_other_owners() {
    let mut store = Store::new();
    seed_payment(&mut store, 1, Some(7), "1.00", "a@x.com", Status::Pending, 10);
    seed_payment(&mut store, 2, Some(8), "2.00", "a@x.com", Status::Pending, 20);
    seed_payment(&mut store, 3, None, "3.00", "a@x.com", Status::Pending, 30);
    let r = store.list_transactions(7, &query(None, None, None, None));
    let ids: Vec<u128> = r.transactions.iter().map(|t| t.id).collect();
    assert_eq!(ids, vec![1]);
    assert_eq!(r.total, 1);
}

#[test]
fn insert_keeps_ids_unique() {
    let mut store = Store::new();
    seed_payment(&mut store, 1, Some(7), "1.00", "a@x.com", Status::Pending, 10);
    let dup = store.insert_row(
        Some(7),
        "payment".to_string(),
        Amount::parse(b"2.00").unwrap(),
        "USD".to_string(),
        Status::Pending,
        None,
        None,
        1,
        20,
    );
    assert_eq!(dup.err(), Some(LedgerError::StoreError));
    let r = store.list_transactions(7, &query(None, None, None, None));
    assert_eq!(r.total, 1);
}

#[test]
fn creation_stamps_stay_strictly_increasing() {
    let mut store = Store::new();
    // A clock that goes backwards still yields increasing stamps.
    seed_payment(&mut store, 1, Some(7), "1.00", "a@x.com", Status::Pending, 100);
    seed_payment(&mut store, 2, Some(7), "2.00", "b@x.com", Status::Pending, 50);
    let r = store.list_transactions(7, &query(None, None, None, None));
    assert_eq!(r.transactions.len(), 2);
    assert!(r.transactions[0].created_at > r.transactions[1].created_at);
    assert_eq!(r.transactions[0].id, 2);
}
