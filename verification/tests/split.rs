use beanru::number::Decimal;
use beanru::split::split_stock;
use beanru::types::{
    Account, Amount, Balance, BeancountFile, Cost, Currency, Date, Directive, DirectiveContent,
    Posting, Transaction,
};

fn amount(v: i64, cur: &str) -> Amount {
    Amount { value: Decimal::from_int(v), currency: Currency(cur.to_string()) }
}

#[test]
fn split_rescales_balances_and_postings_and_keeps_the_balance() {
    let d = Date::from_ymd(2022, 1, 1).unwrap();
    // A balance assertion of 100 FOO, and a transaction buying 10 FOO {50 USD}.
    let mut tx = Transaction {
        flag: None,
        payee: None,
        narration: None,
        tags: Vec::new(),
        links: Vec::new(),
        postings: vec![
            Posting {
                flag: None,
                account: Account("Assets:Broker".to_string()),
                amount: Some(amount(10, "FOO")),
                cost: Some(Cost { amount: Some(amount(50, "USD")), date: None }),
                price: None,
                metadata: Vec::new(),
                autocomputed: false,
            },
            Posting {
                flag: None,
                account: Account("Assets:Bank".to_string()),
                amount: Some(amount(-500, "USD")),
                cost: None,
                price: None,
                metadata: Vec::new(),
                autocomputed: false,
            },
        ],
        balanced: false,
    };
    assert_eq!(tx.book(), Ok(()));
    let mut file = BeancountFile {
        options: Vec::new(),
        includes: Vec::new(),
        directives: vec![
            Directive {
                date: d,
                content: DirectiveContent::Balance(Balance {
                    account: Account("Assets:Broker".to_string()),
                    amount: amount(100, "FOO"),
                }),
                metadata: Vec::new(),
            },
            Directive { date: d, content: DirectiveContent::Transaction(tx), metadata: Vec::new() },
        ],
    };
    let r = split_stock(&mut file, &Currency("FOO".to_string()), Decimal::from_int(2));
    assert_eq!(r, Ok(()));
    match &file.directives[0].content {
        DirectiveContent::Balance(b) => {
            assert!(b.amount.value.eq_value(&Decimal::from_int(200)));
        }
        _ => panic!("expected a balance assertion"),
    }
    match &mut file.directives[1].content {
        DirectiveContent::Transaction(t) => {
            let p = &t.postings[0];
            assert!(p.amount.as_ref().unwrap().value.eq_value(&Decimal::from_int(20)));
            let cost = p.cost.as_ref().unwrap().amount.as_ref().unwrap();
            assert!(cost.value.eq_value(&Decimal::from_int(25)));
            // the transaction still books to zero
            t.balanced = false;
            assert_eq!(t.book(), Ok(()));
            assert!(t.balanced);
        }
        _ => panic!("expected a transaction"),
    }
}

#[test]
fn split_divides_odd_quantities_exactly() {
    // 5 FOO {3 USD} under ratio 2 becomes 10 FOO {1.5 USD}.
    let c = Decimal::from_int(3).checked_div(&Decimal::from_int(2)).unwrap();
    assert_eq!(c.parts(), (15, 1));
    // A repeating expansion is refused rather than rounded.
    assert!(Decimal::from_int(1).checked_div(&Decimal::from_int(3)).is_none());
}

#[test]
fn split_leaves_other_commodities_untouched() {
    let d = Date::from_ymd(2022, 1, 1).unwrap();
    let mut file = BeancountFile {
        options: Vec::new(),
        includes: Vec::new(),
        directives: vec![Directive {
            date: d,
            content: DirectiveContent::Balance(Balance {
                account: Account("Assets:Bank".to_string()),
                amount: amount(100, "CHF"),
            }),
            metadata: Vec::new(),
        }],
    };
    let before = file.clone();
    assert_eq!(split_stock(&mut file, &Currency("FOO".to_string()), Decimal::from_int(2)), Ok(()));
    assert_eq!(file, before);
}
