use beanru::closing::{apply_closing, build_closing_account, parse_closing_id};
use beanru::number::Decimal;
use beanru::types::{
    Account, Amount, BeancountFile, Currency, Date, Directive, DirectiveContent, Posting,
    Transaction,
};

fn amount(v: i64, cur: &str) -> Amount {
    Amount { value: Decimal::from_int(v), currency: Currency(cur.to_string()) }
}

fn posting(acct: &str, am: Option<Amount>) -> Posting {
    Posting {
        flag: None,
        account: Account(acct.to_string()),
        amount: am,
        cost: None,
        price: None,
        metadata: Vec::new(),
        autocomputed: false,
    }
}

fn tx_directive(date: Date, postings: Vec<Posting>) -> Directive {
    Directive {
        date,
        content: DirectiveContent::Transaction(Transaction {
            flag: None,
            payee: None,
            narration: None,
            tags: Vec::new(),
            links: Vec::new(),
            postings,
            balanced: true,
        }),
        metadata: Vec::new(),
    }
}

#[test]
fn test_parse_closing_id() {
    let cases = &[("Assets:Closing:000000", Some(0))];
    for (a, id) in cases {
        assert_eq!(parse_closing_id(&Account(a.to_string())), *id);
    }
    assert_eq!(parse_closing_id(&Account("Assets:Closing".to_string())), None);
    assert_eq!(parse_closing_id(&Account("Assets:Closing:12345".to_string())), None);
    assert_eq!(parse_closing_id(&Account("Assets:Closing:123456".to_string())), Some(123456));
}

#[test]
fn closing_account_names_round_trip() {
    let a = build_closing_account(42);
    assert_eq!(a.0, "Assets:Closing:000042");
    assert_eq!(parse_closing_id(&a), Some(42));
}

#[test]
fn closing_pairs_offsetting_postings_and_appends_declarations() {
    let d = Date::from_ymd(2022, 1, 1).unwrap();
    let mut file = BeancountFile {
        options: Vec::new(),
        includes: Vec::new(),
        directives: vec![
            tx_directive(
                d,
                vec![
                    posting("Assets:Bank1", Some(amount(-5, "CHF"))),
                    posting("Assets:Closing", Some(amount(5, "CHF"))),
                ],
            ),
            tx_directive(
                d,
                vec![
                    posting("Assets:Bank1", Some(amount(5, "CHF"))),
                    posting("Assets:Closing", Some(amount(-5, "CHF"))),
                ],
            ),
        ],
    };
    let rep = apply_closing(&mut file, 15);
    assert_eq!(rep.matched.len(), 1);
    assert_eq!(rep.unmatched.len(), 0);
    let (i, j, acct) = &rep.matched[0];
    assert_eq!(acct.0, "Assets:Closing:000000");
    assert_eq!(file.directives.len(), 4);
    for di in [*i, *j] {
        match &file.directives[di].content {
            DirectiveContent::Transaction(t) => {
                assert_eq!(t.postings[1].account.0, "Assets:Closing:000000");
                assert_eq!(t.postings[1].flag, None);
                assert_eq!(t.postings[0].account.0, "Assets:Bank1");
            }
            _ => panic!("expected a transaction"),
        }
    }
    match &file.directives[2].content {
        DirectiveContent::Open(o) => {
            assert_eq!(o.account.0, "Assets:Closing:000000");
            assert_eq!(o.currencies.len(), 1);
            assert_eq!(o.currencies[0].0, "CHF");
            assert_eq!(file.directives[2].date.ymd(), (2000, 1, 1));
        }
        _ => panic!("expected an open declaration"),
    }
    match &file.directives[3].content {
        DirectiveContent::Balance(b) => {
            assert_eq!(b.account.0, "Assets:Closing:000000");
            assert_eq!(b.amount.currency.0, "CHF");
            assert!(b.amount.value.is_zero());
            assert_eq!(file.directives[3].date.ymd(), (2099, 1, 1));
        }
        _ => panic!("expected a balance assertion"),
    }

    // A second pass over already-matched output finds nothing new.
    let before = file.clone();
    let rep2 = apply_closing(&mut file, 15);
    assert_eq!(rep2.matched.len(), 0);
    assert_eq!(file, before);
}

#[test]
fn closing_skips_ambiguous_candidates() {
    let d = Date::from_ymd(2022, 1, 1).unwrap();
    let mk = |v: i64| {
        tx_directive(
            d,
            vec![
                posting("Assets:Bank1", Some(amount(-v, "CHF"))),
                posting("Assets:Closing", Some(amount(v, "CHF"))),
            ],
        )
    };
    let mut file = BeancountFile {
        options: Vec::new(),
        includes: Vec::new(),
        directives: vec![mk(5), mk(-5), mk(-5)],
    };
    let before = file.clone();
    let rep = apply_closing(&mut file, 15);
    assert_eq!(rep.matched.len(), 0);
    assert_eq!(rep.unmatched.len(), 3);
    assert_eq!(file, before);
}

#[test]
fn closing_respects_the_day_window() {
    let mut file = BeancountFile {
        options: Vec::new(),
        includes: Vec::new(),
        directives: vec![
            tx_directive(
                Date::from_ymd(2022, 1, 1).unwrap(),
                vec![
                    posting("Assets:Bank1", Some(amount(-5, "CHF"))),
                    posting("Assets:Closing", Some(amount(5, "CHF"))),
                ],
            ),
            tx_directive(
                Date::from_ymd(2022, 3, 1).unwrap(),
                vec![
                    posting("Assets:Bank1", Some(amount(5, "CHF"))),
                    posting("Assets:Closing", Some(amount(-5, "CHF"))),
                ],
            ),
        ],
    };
    let rep = apply_closing(&mut file, 15);
    assert_eq!(rep.matched.len(), 0);
    let rep2 = apply_closing(&mut file, 90);
    assert_eq!(rep2.matched.len(), 1);
}

#[test]
fn closing_ids_continue_past_existing_declarations() {
    let d = Date::from_ymd(2022, 1, 1).unwrap();
    let mut file = BeancountFile {
        options: Vec::new(),
        includes: Vec::new(),
        directives: vec![
            Directive {
                date: Date::from_ymd(2000, 1, 1).unwrap(),
                content: DirectiveContent::Open(beanru::types::Open {
                    account: Account("Assets:Closing:000007".to_string()),
                    currencies: vec![Currency("CHF".to_string())],
                }),
                metadata: Vec::new(),
            },
            tx_directive(
                d,
                vec![
                    posting("Assets:Bank1", Some(amount(-5, "CHF"))),
                    posting("Assets:Closing", Some(amount(5, "CHF"))),
                ],
            ),
            tx_directive(
                d,
                vec![
                    posting("Assets:Bank1", Some(amount(5, "CHF"))),
                    posting("Assets:Closing", Some(amount(-5, "CHF"))),
                ],
            ),
        ],
    };
    let rep = apply_closing(&mut file, 15);
    assert_eq!(rep.matched.len(), 1);
    assert_eq!(rep.matched[0].2 .0, "Assets:Closing:000008");
}
