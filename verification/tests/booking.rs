use beanru::booking::{posting_amount_to_balance, BookingError};
use beanru::number::Decimal;
use beanru::types::{Amount, Cost, Currency, Posting, PostingPrice, Transaction};

fn amount(v: i64, cur: &str) -> Amount {
    Amount { value: Decimal::from_int(v), currency: Currency(cur.to_string()) }
}

fn posting(acct: &str, am: Option<Amount>) -> Posting {
    Posting {
        flag: None,
        account: beanru::types::Account(acct.to_string()),
        amount: am,
        cost: None,
        price: None,
        metadata: Vec::new(),
        autocomputed: false,
    }
}

fn tx(postings: Vec<Posting>) -> Transaction {
    Transaction {
        flag: None,
        payee: None,
        narration: None,
        tags: Vec::new(),
        links: Vec::new(),
        postings,
        balanced: false,
    }
}

#[test]
fn booking_a_balanced_transaction_changes_no_amount() {
    let mut t = tx(vec![
        posting("Assets:Bank", Some(amount(5, "CHF"))),
        posting("Expenses:Food", Some(amount(-5, "CHF"))),
    ]);
    let before = t.postings.clone();
    assert_eq!(t.book(), Ok(()));
    assert!(t.balanced);
    assert_eq!(t.postings, before);
}

#[test]
fn booking_infers_the_single_elided_amount() {
    let mut t = tx(vec![
        posting("Assets:Bank", Some(amount(10, "USD"))),
        posting("Expenses:Food", None),
    ]);
    assert_eq!(t.book(), Ok(()));
    assert!(t.balanced);
    let p = &t.postings[1];
    assert!(p.autocomputed);
    let inferred = p.amount.as_ref().unwrap();
    assert_eq!(inferred.currency.0, "USD");
    assert!(inferred.value.eq_value(&Decimal::from_int(-10)));
    // the other posting is untouched
    assert!(!t.postings[0].autocomputed);
}

#[test]
fn booking_rejects_two_elided_postings_and_mutates_nothing() {
    let mut t = tx(vec![
        posting("Assets:Bank", Some(amount(10, "USD"))),
        posting("Expenses:Food", None),
        posting("Expenses:Rent", None),
    ]);
    let before = t.clone();
    let r = t.book();
    assert_eq!(r, Err(BookingError::TooManyElidedPostings));
    assert!(r.unwrap_err().is_structural());
    assert_eq!(t, before);
}

#[test]
fn booking_reports_nothing_to_infer() {
    let mut t = tx(vec![
        posting("Assets:Bank", Some(amount(5, "CHF"))),
        posting("Expenses:Food", Some(amount(-5, "CHF"))),
        posting("Expenses:Rest", None),
    ]);
    let before = t.clone();
    assert_eq!(t.book(), Err(BookingError::NothingToInfer));
    assert_eq!(t, before);
}

#[test]
fn booking_reports_ambiguous_inference() {
    let mut t = tx(vec![
        posting("Assets:Bank", Some(amount(5, "CHF"))),
        posting("Assets:Other", Some(amount(3, "USD"))),
        posting("Expenses:Rest", None),
    ]);
    let before = t.clone();
    assert_eq!(t.book(), Err(BookingError::AmbiguousInference));
    assert_eq!(t, before);
}

#[test]
fn booking_reports_an_unbalanced_transaction() {
    let mut t = tx(vec![
        posting("Assets:Bank", Some(amount(5, "CHF"))),
        posting("Expenses:Food", Some(amount(-4, "CHF"))),
    ]);
    let before = t.clone();
    assert_eq!(t.book(), Err(BookingError::TransactionDoesNotBalance));
    assert_eq!(t, before);
}

#[test]
fn resolver_applies_unit_and_total_prices() {
    // 10 FOO @ 5 USD resolves to 50 USD
    let mut p = posting("Assets:Broker", Some(amount(10, "FOO")));
    p.price = Some(PostingPrice::Unit(amount(5, "USD")));
    let r = posting_amount_to_balance(&p).unwrap();
    assert_eq!(r.currency.0, "USD");
    assert!(r.value.eq_value(&Decimal::from_int(50)));

    // -10 FOO @@ 50 USD resolves to -50 USD: sign from the posting,
    // magnitude from the stated total.
    let mut q = posting("Assets:Broker", Some(amount(-10, "FOO")));
    q.price = Some(PostingPrice::Total(amount(50, "USD")));
    let r2 = posting_amount_to_balance(&q).unwrap();
    assert_eq!(r2.currency.0, "USD");
    assert!(r2.value.eq_value(&Decimal::from_int(-50)));
}

#[test]
fn resolver_prefers_the_cost_basis() {
    // 10 FOO {3 USD} contributes 30 USD
    let mut p = posting("Assets:Broker", Some(amount(10, "FOO")));
    p.cost = Some(Cost { amount: Some(amount(3, "USD")), date: None });
    p.price = Some(PostingPrice::Unit(amount(5, "USD")));
    let r = posting_amount_to_balance(&p).unwrap();
    assert_eq!(r.currency.0, "USD");
    assert!(r.value.eq_value(&Decimal::from_int(30)));
}

#[test]
fn resolver_returns_none_for_an_elided_posting() {
    let p = posting("Assets:Bank", None);
    assert!(posting_amount_to_balance(&p).is_none());
}

#[test]
fn booking_rejects_oversized_quantities() {
    let big = Amount {
        value: Decimal::new(2_000_000_000_000, 0),
        currency: Currency("CHF".to_string()),
    };
    let mut t = tx(vec![posting("Assets:Bank", Some(big))]);
    let before = t.clone();
    assert_eq!(t.book(), Err(BookingError::CapacityExceeded));
    assert_eq!(t, before);
}
