//! The directive data model: currencies, accounts, amounts, postings,
//! transactions, dated directives, files and the whole ledger, together with
//! the calendar arithmetic the closing matcher relies on.

use vstd::prelude::*;
use crate::number::{pneg, Decimal};

verus! {

/// A commodity key; equality is exact text equality.
#[derive(Debug, Hash)]
pub struct Currency(pub String);

impl View for Currency {
    type V = Seq<char>;

    open spec fn view(&self) -> Seq<char> {
        self.0@
    }
}

impl Clone for Currency {
    fn clone(&self) -> (r: Self)
        ensures
            r == *self,
    {
        Currency(self.0.clone())
    }
}

impl PartialEq for Currency {
    fn eq(&self, other: &Currency) -> (r: bool) {
        self.0 == other.0
    }
}

impl vstd::std_specs::cmp::PartialEqSpecImpl for Currency {
    open spec fn obeys_eq_spec() -> bool {
        true
    }

    open spec fn eq_spec(&self, other: &Currency) -> bool {
        self.0@ == other.0@
    }
}

impl Eq for Currency {

}

/// An account key: colon-separated segments; equality is exact text equality.
#[derive(Debug, Hash)]
pub struct Account(pub String);

impl View for Account {
    type V = Seq<char>;

    open spec fn view(&self) -> Seq<char> {
        self.0@
    }
}

impl Clone for Account {
    fn clone(&self) -> (r: Self)
        ensures
            r == *self,
    {
        Account(self.0.clone())
    }
}

impl PartialEq for Account {
    fn eq(&self, other: &Account) -> (r: bool) {
        self.0 == other.0
    }
}

impl vstd::std_specs::cmp::PartialEqSpecImpl for Account {
    open spec fn obeys_eq_spec() -> bool {
        true
    }

    open spec fn eq_spec(&self, other: &Account) -> bool {
        self.0@ == other.0@
    }
}

impl Eq for Account {

}

/// An exact quantity of one commodity.
#[derive(Debug, PartialEq)]
pub struct Amount {
    pub value: Decimal,
    pub currency: Currency,
}

impl Clone for Amount {
    fn clone(&self) -> (r: Self)
        ensures
            r == *self,
    {
        Amount { value: self.value, currency: self.currency.clone() }
    }
}

impl Amount {
    /// The absolute value, in the same currency.
    pub fn abs(self) -> (r: Amount)
        ensures
            r.value.pair() == (if self.value.num() < 0 {
                pneg(self.value.pair())
            } else {
                self.value.pair()
            }),
            r.currency == self.currency,
    {
        Amount { value: self.value.abs_value(), currency: self.currency }
    }

    /// The negation, in the same currency.
    pub fn negated(&self) -> (r: Amount)
        ensures
            r.value.pair() == pneg(self.value.pair()),
            r.currency == self.currency,
    {
        Amount { value: self.value.negated(), currency: self.currency.clone() }
    }
}

/// The acquisition price and date of a lot.
#[derive(Debug, Clone, PartialEq)]
pub struct Cost {
    pub amount: Option<Amount>,
    pub date: Option<Date>,
}

/// A conversion annotation on a posting: a per-unit or a total price.
#[derive(Debug, Clone, PartialEq)]
pub enum PostingPrice {
    Unit(Amount),
    Total(Amount),
}

/// A metadata entry's value.
#[derive(Debug, Clone, PartialEq)]
pub enum MetadataValue {
    Text(String),
    Number(Decimal),
    Currency(Currency),
}

/// One account leg of a transaction.
#[derive(Debug, Clone, PartialEq)]
pub struct Posting {
    pub flag: Option<char>,
    pub account: Account,
    pub amount: Option<Amount>,
    pub cost: Option<Cost>,
    pub price: Option<PostingPrice>,
    pub metadata: Vec<(String, MetadataValue)>,
    /// True when the amount was inferred by booking rather than stated.
    pub autocomputed: bool,
}

/// A transaction: a flagged, described, ordered list of postings.
#[derive(Debug, Clone, PartialEq)]
pub struct Transaction {
    pub flag: Option<char>,
    pub payee: Option<String>,
    pub narration: Option<String>,
    pub tags: Vec<String>,
    pub links: Vec<String>,
    pub postings: Vec<Posting>,
    /// True when booking succeeded for this transaction.
    pub balanced: bool,
}

/// An account-opening declaration, restricted to the given currencies.
#[derive(Debug, Clone, PartialEq)]
pub struct Open {
    pub account: Account,
    pub currencies: Vec<Currency>,
}

/// An account-closing declaration.
#[derive(Debug, Clone, PartialEq)]
pub struct Close {
    pub account: Account,
}

/// A balance assertion: the account must hold exactly this amount.
#[derive(Debug, Clone, PartialEq)]
pub struct Balance {
    pub account: Account,
    pub amount: Amount,
}

/// A price point: one unit of `currency` is worth `amount`.
#[derive(Debug, Clone, PartialEq)]
pub struct Price {
    pub currency: Currency,
    pub amount: Amount,
}

/// A pad directive.
#[derive(Debug, Clone, PartialEq)]
pub struct Pad {
    pub account: Account,
    pub source_account: Account,
}

/// An event directive.
#[derive(Debug, Clone, PartialEq)]
pub struct Event {
    pub name: String,
    pub value: String,
}

/// The dated content of a directive.
#[derive(Debug, Clone, PartialEq)]
pub enum DirectiveContent {
    Balance(Balance),
    Close(Close),
    Commodity(Currency),
    Event(Event),
    Open(Open),
    Pad(Pad),
    Price(Price),
    Transaction(Transaction),
}

impl DirectiveContent {
    /// The transaction inside, if this directive is one.
    pub fn transaction_opt(&self) -> (r: Option<&Transaction>)
        ensures
            r.is_some() == (self is Transaction),
            r matches Some(t) ==> *t == self->Transaction_0,
    {
        match self {
            DirectiveContent::Transaction(t) => Some(t),
            _ => None,
        }
    }

    /// The open declaration inside, if this directive is one.
    pub fn open_opt(&self) -> (r: Option<&Open>)
        ensures
            r.is_some() == (self is Open),
            r matches Some(o) ==> *o == self->Open_0,
    {
        match self {
            DirectiveContent::Open(o) => Some(o),
            _ => None,
        }
    }
}

/// One dated ledger entry.
#[derive(Debug, Clone, PartialEq)]
pub struct Directive {
    pub date: Date,
    pub content: DirectiveContent,
    pub metadata: Vec<(String, MetadataValue)>,
}

/// One source file's decoded content.
#[derive(Debug, Clone, PartialEq)]
pub struct BeancountFile {
    pub options: Vec<(String, String)>,
    pub includes: Vec<String>,
    pub directives: Vec<Directive>,
}

/// A whole ledger: the flattened include tree, one entry per file path.
#[derive(Debug, Clone, PartialEq)]
pub struct Ledger {
    pub files: Vec<(String, BeancountFile)>,
}

/// A year is a leap year in the proleptic Gregorian calendar.
pub open spec fn is_leap_year(y: int) -> bool {
    y % 4 == 0 && (y % 100 != 0 || y % 400 == 0)
}

/// Days in the given month of the given year.
pub open spec fn days_in_month(y: int, m: int) -> int {
    if m == 2 {
        if is_leap_year(y) {
            29
        } else {
            28
        }
    } else if m == 4 || m == 6 || m == 9 || m == 11 {
        30
    } else {
        31
    }
}

/// A well-formed calendar date between years 1 and 9999.
pub open spec fn date_fields_valid(y: int, m: int, d: int) -> bool {
    &&& 1 <= y <= 9999
    &&& 1 <= m <= 12
    &&& 1 <= d <= days_in_month(y, m)
}

/// The date's serial day number (days since 1970-01-01, civil calendar).
pub open spec fn day_number_spec(y: int, m: int, d: int) -> int {
    let yy = if m <= 2 {
        y - 1
    } else {
        y
    };
    let era = yy / 400;
    let yoe = yy - era * 400;
    let mp = if m > 2 {
        m - 3
    } else {
        m + 9
    };
    let doy = (153 * mp + 2) / 5 + d - 1;
    let doe = yoe * 365 + yoe / 4 - yoe / 100 + doy;
    era * 146097 + doe - 719468
}

/// A calendar date; always well formed.
#[derive(Debug, Clone, Copy, PartialEq, Eq, Hash, Structural)]
pub struct Date {
    y: u16,
    m: u8,
    d: u8,
}

impl Date {
    #[verifier::type_invariant]
    spec fn inv(self) -> bool {
        date_fields_valid(self.y as int, self.m as int, self.d as int)
    }

    pub closed spec fn year(self) -> int {
        self.y as int
    }

    pub closed spec fn month(self) -> int {
        self.m as int
    }

    pub closed spec fn day(self) -> int {
        self.d as int
    }

    /// The serial day number of this date.
    pub open spec fn serial(self) -> int {
        day_number_spec(self.year(), self.month(), self.day())
    }

    /// Builds a date; `None` exactly when the fields are not a valid date.
    pub fn from_ymd(y: u16, m: u8, d: u8) -> (r: Option<Date>)
        ensures
            r.is_some() == date_fields_valid(y as int, m as int, d as int),
            r matches Some(v) ==> v.year() == y as int && v.month() == m as int && v.day()
                == d as int,
    {
        if y < 1 || y > 9999 || m < 1 || m > 12 || d < 1 {
            return None;
        }
        let leap: bool = y % 4 == 0 && (y % 100 != 0 || y % 400 == 0);
        let dim: u8 = if m == 2 {
            if leap {
                29
            } else {
                28
            }
        } else if m == 4 || m == 6 || m == 9 || m == 11 {
            30
        } else {
            31
        };
        if d > dim {
            return None;
        }
        Some(Date { y, m, d })
    }

    /// The year, month and day fields.
    pub fn ymd(&self) -> (r: (u16, u8, u8))
        ensures
            r.0 as int == self.year(),
            r.1 as int == self.month(),
            r.2 as int == self.day(),
            date_fields_valid(r.0 as int, r.1 as int, r.2 as int),
    {
        proof {
            use_type_invariant(&*self);
        }
        (self.y, self.m, self.d)
    }

    /// The serial day number, for ordering dates and measuring windows.
    pub fn day_number(&self) -> (r: i64)
        ensures
            r as int == self.serial(),
            -719469 <= r as int <= 3652060,
    {
        proof {
            use_type_invariant(&*self);
        }
        let yy: u32 = if self.m <= 2 {
            (self.y - 1) as u32
        } else {
            self.y as u32
        };
        let era: u32 = yy / 400;
        proof {
            vstd::arithmetic::div_mod::lemma_fundamental_div_mod(yy as int, 400);
            assert(era <= 24);
        }
        let yoe: u32 = yy - era * 400;
        proof {
            assert(yoe <= 399);
            vstd::arithmetic::div_mod::lemma_fundamental_div_mod(yoe as int, 4);
            vstd::arithmetic::div_mod::lemma_fundamental_div_mod(yoe as int, 100);
            assert(yoe / 4 <= 99);
            assert(yoe / 100 <= yoe / 4 + yoe * 365);
        }
        let mp: u32 = if self.m > 2 {
            (self.m - 3) as u32
        } else {
            (self.m + 9) as u32
        };
        proof {
            assert(mp <= 11);
            vstd::arithmetic::div_mod::lemma_fundamental_div_mod(153 * mp as int + 2, 5);
        }
        let doy: u32 = (153 * mp + 2) / 5 + (self.d as u32) - 1;
        let doe: u32 = yoe * 365 + yoe / 4 - yoe / 100 + doy;
        proof {
            assert(doy <= 366);
            assert(doe <= 146467);
        }
        let r: i64 = (era as i64) * 146097 + (doe as i64) - 719468;
        r
    }
}

/// The signed number of days from `b` to `a`.
pub fn days_between(a: &Date, b: &Date) -> (r: i64)
    ensures
        r as int == a.serial() - b.serial(),
{
    a.day_number() - b.day_number()
}

} // verus!
