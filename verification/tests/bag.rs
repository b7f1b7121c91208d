use beanru::bag::Bag;
use beanru::number::Decimal;
use beanru::types::{Amount, Currency};

fn amount(v: i64, cur: &str) -> Amount {
    Amount { value: Decimal::from_int(v), currency: Currency(cur.to_string()) }
}

#[test]
fn bag_is_zero_returns_true_when_empty() {
    let bag = Bag::new();
    assert!(bag.is_zero());
}

#[test]
fn bag_is_zero_returns_false_when_not_empty() {
    let mut bag = Bag::new();
    assert!(bag.add_amount(amount(1, "CHF")));
    assert!(!bag.is_zero());
}

#[test]
fn bag_is_zero_returns_true_when_all_are_zero() {
    let mut bag = Bag::new();
    assert!(bag.add_amount(amount(1, "CHF")));
    assert!(bag.add_amount(amount(-1, "CHF")));
    assert!(bag.add_amount(amount(0, "USD")));
    assert!(bag.is_zero());
}

#[test]
fn bag_supports_add_assign_with_amount() {
    let mut bag = Bag::new();
    assert!(bag.add_amount(amount(1, "CHF")));
    assert!(bag.add_amount(amount(2, "USD")));
    let expected = vec![
        (Currency("CHF".to_string()), Decimal::from_int(1)),
        (Currency("USD".to_string()), Decimal::from_int(2)),
    ];
    assert_eq!(bag.commodities(), &expected);
}

#[test]
fn bag_supports_add_with_bag() {
    let mut bag1 = Bag::new();
    let mut bag2 = Bag::new();
    assert!(bag1.add_amount(amount(1, "CHF")));
    assert!(bag2.add_amount(amount(2, "USD")));
    let mut bag = bag1;
    assert!(bag.add_bag(&bag2));
    let expected = vec![
        (Currency("CHF".to_string()), Decimal::from_int(1)),
        (Currency("USD".to_string()), Decimal::from_int(2)),
    ];
    assert_eq!(bag.commodities(), &expected);
}

#[test]
fn bag_supports_add_assign_with_bag() {
    let mut bag1 = Bag::new();
    let mut bag2 = Bag::new();
    assert!(bag1.add_amount(amount(1, "CHF")));
    assert!(bag2.add_amount(amount(2, "USD")));
    assert!(bag1.add_bag(&bag2));
    let expected = vec![
        (Currency("CHF".to_string()), Decimal::from_int(1)),
        (Currency("USD".to_string()), Decimal::from_int(2)),
    ];
    assert_eq!(bag1.commodities(), &expected);
}

#[test]
fn bag_addition_is_commutative_and_associative() {
    let a0 = || {
        let mut b = Bag::new();
        b.add_amount(amount(1, "CHF"));
        b
    };
    let b0 = || {
        let mut b = Bag::new();
        b.add_amount(amount(2, "USD"));
        b
    };
    let c0 = || {
        let mut b = Bag::new();
        b.add_amount(amount(3, "CHF"));
        b
    };
    // (a + b) + c
    let mut r1 = a0();
    assert!(r1.add_bag(&b0()));
    assert!(r1.add_bag(&c0()));
    // a + (b + c)
    let mut bc = b0();
    assert!(bc.add_bag(&c0()));
    let mut r2 = a0();
    assert!(r2.add_bag(&bc));
    // a + c + b
    let mut r3 = a0();
    assert!(r3.add_bag(&c0()));
    assert!(r3.add_bag(&b0()));
    let lookup = |bag: &Bag, cur: &str| -> Option<Decimal> {
        bag.commodities().iter().find(|e| e.0 .0 == cur).map(|e| e.1)
    };
    for cur in ["CHF", "USD"] {
        let v1 = lookup(&r1, cur).unwrap();
        assert_eq!(Some(v1), lookup(&r2, cur));
        assert_eq!(Some(v1), lookup(&r3, cur));
    }
    assert!(lookup(&r1, "CHF").unwrap().eq_value(&Decimal::from_int(4)));
    assert!(lookup(&r1, "USD").unwrap().eq_value(&Decimal::from_int(2)));
}

#[test]
fn trim_drops_zero_entries_only() {
    let mut bag = Bag::new();
    assert!(bag.add_amount(amount(1, "CHF")));
    assert!(bag.add_amount(amount(-1, "CHF")));
    assert!(bag.add_amount(amount(7, "USD")));
    bag.trim();
    let expected = vec![(Currency("USD".to_string()), Decimal::from_int(7))];
    assert_eq!(bag.commodities(), &expected);
}
