//! Closing matcher: pairs offsetting postings routed through the clearing
//! account within a day window, rebinds each accepted pair onto a freshly
//! minted sub-account, and appends declarations that make every synthetic
//! sub-account self-verifying.

use vstd::prelude::*;
use vstd::string::StrSliceExecFns;
use vstd::string::StringExecFns;
use crate::number::{pneg, req, Decimal};
use crate::types::{
    Account, Amount, Balance, BeancountFile, Currency, Date, Directive, DirectiveContent, Open,
    Posting, Transaction,
};

verus! {

/// The clearing (suspense) account every candidate posting is routed
/// through.
pub open spec fn clearing_seq() -> Seq<char> {
    "Assets:Closing"@
}

/// The prefix of every synthetic sub-account name.
pub open spec fn sub_prefix_seq() -> Seq<char> {
    "Assets:Closing:"@
}

/// The character for one decimal digit.
pub open spec fn digit_char(d: int) -> char {
    if d == 0 {
        '0'
    } else if d == 1 {
        '1'
    } else if d == 2 {
        '2'
    } else if d == 3 {
        '3'
    } else if d == 4 {
        '4'
    } else if d == 5 {
        '5'
    } else if d == 6 {
        '6'
    } else if d == 7 {
        '7'
    } else if d == 8 {
        '8'
    } else {
        '9'
    }
}

/// The six zero-padded digits of a synthetic sub-account id.
pub open spec fn closing_digits(id: int) -> Seq<char> {
    seq![
        digit_char(id / 100000 % 10),
        digit_char(id / 10000 % 10),
        digit_char(id / 1000 % 10),
        digit_char(id / 100 % 10),
        digit_char(id / 10 % 10),
        digit_char(id % 10),
    ]
}

/// The full name of the synthetic sub-account with the given id.
pub open spec fn closing_account_seq(id: int) -> Seq<char> {
    sub_prefix_seq() + closing_digits(id)
}

/// Whether a character is a decimal digit.
pub open spec fn is_digit(c: char) -> bool {
    48 <= c as u32 <= 57
}

/// The numeric value of a digit character.
pub open spec fn digit_val(c: char) -> int {
    c as u32 - 48
}

/// Whether an account name follows the synthetic sub-account scheme:
/// the fixed prefix and exactly six digits.
pub open spec fn is_closing_sub(s: Seq<char>) -> bool {
    &&& s.len() == 21
    &&& s.subrange(0, 15) == sub_prefix_seq()
    &&& forall|k: int| 15 <= k < 21 ==> is_digit(#[trigger] s[k])
}

/// The id encoded in a synthetic sub-account name.
pub open spec fn sub_id(s: Seq<char>) -> int {
    digit_val(s[15]) * 100000 + digit_val(s[16]) * 10000 + digit_val(s[17]) * 1000 + digit_val(
        s[18],
    ) * 100 + digit_val(s[19]) * 10 + digit_val(s[20])
}

/// Whether the account is exactly the clearing account.
fn is_clearing_account(a: &Account) -> (r: bool)
    ensures
        r == (a@ == clearing_seq()),
{
    let cl = String::from_str("Assets:Closing");
    a.0 == cl
}

/// Parses a synthetic sub-account name back into its id. Relies only on the
/// name's shape: the fixed prefix followed by exactly six digits.
pub fn parse_closing_id(a: &Account) -> (r: Option<u32>)
    ensures
        r.is_some() == is_closing_sub(a@),
        r matches Some(id) ==> id as int == sub_id(a@) && id < 1000000,
{
    proof {
        reveal_strlit("Assets:Closing:");
    }
    let s: &str = a.0.as_str();
    let n = s.unicode_len();
    if n != 21 {
        return None;
    }
    let prefix = "Assets:Closing:";
    let mut k: usize = 0;
    while k < 15
        invariant
            k <= 15,
            s@ =~= a@,
            s@.len() == 21,
            prefix@ == sub_prefix_seq(),
            sub_prefix_seq().len() == 15,
            forall|e: int| 0 <= e < k ==> s@[e] == sub_prefix_seq()[e],
        decreases 15 - k,
    {
        if s.get_char(k) != prefix.get_char(k) {
            proof {
                assert(s@.subrange(0, 15) != sub_prefix_seq()) by {
                    assert(s@.subrange(0, 15)[k as int] == s@[k as int]);
                }
            }
            return None;
        }
        k = k + 1;
    }
    proof {
        assert(s@.subrange(0, 15) =~= sub_prefix_seq());
    }
    let mut id: u32 = 0;
    let mut k2: usize = 15;
    while k2 < 21
        invariant
            15 <= k2 <= 21,
            s@ =~= a@,
            s@.len() == 21,
            forall|e: int| 15 <= e < k2 ==> is_digit(#[trigger] s@[e]),
            k2 == 15 ==> id == 0,
            k2 == 16 ==> id < 10,
            k2 == 17 ==> id < 100,
            k2 == 18 ==> id < 1000,
            k2 == 19 ==> id < 10000,
            k2 == 20 ==> id < 100000,
            k2 == 21 ==> id < 1000000,
            id as int == partial_id(s@, k2 as int),
        decreases 21 - k2,
    {
        let c = s.get_char(k2);
        let v = c as u32;
        if v < 48 || v > 57 {
            return None;
        }
        id = id * 10 + (v - 48);
        k2 = k2 + 1;
    }
    proof {
        lemma_partial_id_full(s@);
    }
    Some(id)
}

/// The id value of the digits read so far (positions 15 to `k`).
pub open spec fn partial_id(s: Seq<char>, k: int) -> int
    decreases k,
{
    if k <= 15 {
        0
    } else {
        partial_id(s, k - 1) * 10 + digit_val(s[k - 1])
    }
}

/// Reading all six digits gives the encoded id.
proof fn lemma_partial_id_full(s: Seq<char>)
    requires
        s.len() == 21,
        forall|e: int| 15 <= e < 21 ==> is_digit(#[trigger] s[e]),
    ensures
        partial_id(s, 21) == sub_id(s),
        0 <= partial_id(s, 21) < 1000000,
{
    reveal_with_fuel(partial_id, 8);
}

/// The character for one digit value.
fn digit_char_ex(d: u32) -> (r: &'static str)
    requires
        d < 10,
    ensures
        r@ =~= seq![digit_char(d as int)],
{
    proof {
        reveal_strlit("0");
        reveal_strlit("1");
        reveal_strlit("2");
        reveal_strlit("3");
        reveal_strlit("4");
        reveal_strlit("5");
        reveal_strlit("6");
        reveal_strlit("7");
        reveal_strlit("8");
        reveal_strlit("9");
    }
    match d {
        0 => "0",
        1 => "1",
        2 => "2",
        3 => "3",
        4 => "4",
        5 => "5",
        6 => "6",
        7 => "7",
        8 => "8",
        _ => "9",
    }
}

/// Builds the synthetic sub-account name for the given id: the fixed prefix
/// and six zero-padded digits.
pub fn build_closing_account(id: u32) -> (r: Account)
    requires
        id < 1000000,
    ensures
        r@ == closing_account_seq(id as int),
{
    let mut s = String::from_str("Assets:Closing:");
    s.append(digit_char_ex(id / 100000 % 10));
    s.append(digit_char_ex(id / 10000 % 10));
    s.append(digit_char_ex(id / 1000 % 10));
    s.append(digit_char_ex(id / 100 % 10));
    s.append(digit_char_ex(id / 10 % 10));
    s.append(digit_char_ex(id % 10));
    proof {
        assert(s@ =~= closing_account_seq(id as int));
    }
    Account(s)
}

/// A synthetic sub-account name carries its id and is never the clearing
/// account itself.
pub proof fn lemma_closing_account_shape(id: int)
    requires
        0 <= id < 1000000,
    ensures
        is_closing_sub(closing_account_seq(id)),
        sub_id(closing_account_seq(id)) == id,
        closing_account_seq(id) != clearing_seq(),
{
    reveal_strlit("Assets:Closing:");
    reveal_strlit("Assets:Closing");
    let s = closing_account_seq(id);
    assert(s.len() == 21);
    assert(s.subrange(0, 15) =~= sub_prefix_seq());
    assert forall|k: int| 15 <= k < 21 implies is_digit(#[trigger] s[k]) by {
        lemma_digit_char_val(digit_of(id, k));
        assert(s[k] == closing_digits(id)[k - 15]);
    }
    assert(sub_id(s) == id) by {
        lemma_digit_char_val(id / 100000 % 10);
        lemma_digit_char_val(id / 10000 % 10);
        lemma_digit_char_val(id / 1000 % 10);
        lemma_digit_char_val(id / 100 % 10);
        lemma_digit_char_val(id / 10 % 10);
        lemma_digit_char_val(id % 10);
        lemma_id_digits(id);
    }
    assert(clearing_seq().len() == 14);
}

/// The digit of `id` shown at position `k` of the full name.
pub open spec fn digit_of(id: int, k: int) -> int {
    if k == 15 {
        id / 100000 % 10
    } else if k == 16 {
        id / 10000 % 10
    } else if k == 17 {
        id / 1000 % 10
    } else if k == 18 {
        id / 100 % 10
    } else if k == 19 {
        id / 10 % 10
    } else {
        id % 10
    }
}

/// Digit characters decode back to their value.
proof fn lemma_digit_char_val(d: int)
    requires
        0 <= d <= 9,
    ensures
        is_digit(digit_char(d)),
        digit_val(digit_char(d)) == d,
{
}

/// The postings of a transaction directive.
pub open spec fn postings_of(d: Directive) -> Seq<Posting> {
    d.content->Transaction_0.postings@
}

/// How many postings are routed through the clearing account.
pub open spec fn clearing_count(ps: Seq<Posting>) -> nat
    decreases ps.len(),
{
    if ps.len() == 0 {
        0
    } else {
        clearing_count(ps.drop_last()) + (if ps.last().account@ == clearing_seq() {
            1nat
        } else {
            0nat
        })
    }
}

/// The index of the clearing posting (meaningful when there is exactly one).
pub open spec fn the_clearing_idx(ps: Seq<Posting>) -> int {
    choose|k: int| 0 <= k < ps.len() && (#[trigger] ps[k]).account@ == clearing_seq()
}

/// A directive the matcher can pair: a transaction with exactly one posting
/// to the clearing account, and that posting has a stated amount.
pub open spec fn qualifies(d: Directive) -> bool {
    &&& d.content is Transaction
    &&& clearing_count(postings_of(d)) == 1
    &&& postings_of(d)[the_clearing_idx(postings_of(d))].amount is Some
}

/// The amount of the clearing posting of a qualifying directive.
pub open spec fn clear_amt(d: Directive) -> Amount {
    postings_of(d)[the_clearing_idx(postings_of(d))].amount->0
}

/// `j` is a matching candidate for `i`: both qualify, their clearing
/// amounts are exact negations in the same currency, and their dates lie
/// within `w` days of each other.
pub open spec fn cand(ds: Seq<Directive>, w: int, i: int, j: int) -> bool {
    &&& 0 <= i < ds.len()
    &&& 0 <= j < ds.len()
    &&& i != j
    &&& qualifies(ds[i])
    &&& qualifies(ds[j])
    &&& clear_amt(ds[j]).currency@ == clear_amt(ds[i]).currency@
    &&& req(clear_amt(ds[j]).value.pair(), pneg(clear_amt(ds[i]).value.pair()))
    &&& -w <= ds[i].date.serial() - ds[j].date.serial() <= w
}

/// `i` and `j` are each other's unique candidates.
#[verifier::opaque]
pub open spec fn mutual_pair(ds: Seq<Directive>, w: int, i: int, j: int) -> bool {
    &&& cand(ds, w, i, j)
    &&& forall|k: int| cand(ds, w, i, k) ==> k == j
    &&& forall|k: int| cand(ds, w, j, k) ==> k == i
}

/// No pair of directives can be matched.
#[verifier::opaque]
pub open spec fn settled(ds: Seq<Directive>, w: int) -> bool {
    forall|i: int, j: int| !mutual_pair(ds, w, i, j)
}

/// The directive can never take part in a match.
#[verifier::opaque]
pub open spec fn no_partner(ds: Seq<Directive>, w: int, di: int) -> bool {
    forall|j: int| !mutual_pair(ds, w, di, j)
}

/// Candidacy is symmetric.
pub proof fn lemma_cand_sym(ds: Seq<Directive>, w: int, i: int, j: int)
    requires
        cand(ds, w, i, j),
    ensures
        cand(ds, w, j, i),
{
    let ai = clear_amt(ds[i]).value.pair();
    let aj = clear_amt(ds[j]).value.pair();
    crate::number::lemma_req_sym(aj, pneg(ai));
    crate::number::lemma_pneg_congruence(pneg(ai), aj);
    assert(pneg(pneg(ai)) == ai);
}

/// A clearing posting makes the count positive.
proof fn lemma_count_ge_one(ps: Seq<Posting>, k: int)
    requires
        0 <= k < ps.len(),
        ps[k].account@ == clearing_seq(),
    ensures
        clearing_count(ps) >= 1,
    decreases ps.len(),
{
    if k == ps.len() - 1 {
    } else {
        assert(ps.drop_last()[k] == ps[k]);
        lemma_count_ge_one(ps.drop_last(), k);
    }
}

/// Two distinct clearing postings make the count at least two.
proof fn lemma_count_ge_two(ps: Seq<Posting>, k1: int, k2: int)
    requires
        0 <= k1 < k2 < ps.len(),
        ps[k1].account@ == clearing_seq(),
        ps[k2].account@ == clearing_seq(),
    ensures
        clearing_count(ps) >= 2,
    decreases ps.len(),
{
    if k2 == ps.len() - 1 {
        lemma_count_ge_one(ps.drop_last(), k1);
    } else {
        assert(ps.drop_last()[k1] == ps[k1]);
        assert(ps.drop_last()[k2] == ps[k2]);
        lemma_count_ge_two(ps.drop_last(), k1, k2);
    }
}

/// Without clearing postings the count is zero.
proof fn lemma_count_zero(ps: Seq<Posting>)
    requires
        forall|k: int| 0 <= k < ps.len() ==> (#[trigger] ps[k]).account@ != clearing_seq(),
    ensures
        clearing_count(ps) == 0,
    decreases ps.len(),
{
    if ps.len() > 0 {
        assert(forall|k: int|
            0 <= k < ps.drop_last().len() ==> (#[trigger] ps.drop_last()[k]) == ps[k]);
        lemma_count_zero(ps.drop_last());
    }
}

/// A positive count yields a clearing posting.
proof fn lemma_clearing_exists(ps: Seq<Posting>)
    requires
        clearing_count(ps) >= 1,
    ensures
        exists|k: int| 0 <= k < ps.len() && (#[trigger] ps[k]).account@ == clearing_seq(),
        0 <= the_clearing_idx(ps) < ps.len(),
        ps[the_clearing_idx(ps)].account@ == clearing_seq(),
    decreases ps.len(),
{
    if ps.last().account@ == clearing_seq() {
        assert(ps[ps.len() - 1].account@ == clearing_seq());
    } else {
        lemma_clearing_exists(ps.drop_last());
        let k = choose|k: int|
            0 <= k < ps.drop_last().len() && (#[trigger] ps.drop_last()[k]).account@
                == clearing_seq();
        assert(ps[k] == ps.drop_last()[k]);
    }
}

/// With exactly one clearing posting, any clearing index is the one.
proof fn lemma_one_clearing(ps: Seq<Posting>, k: int)
    requires
        clearing_count(ps) == 1,
        0 <= k < ps.len(),
        ps[k].account@ == clearing_seq(),
    ensures
        the_clearing_idx(ps) == k,
{
    let k2 = the_clearing_idx(ps);
    assert(0 <= k2 < ps.len() && ps[k2].account@ == clearing_seq());
    if k2 < k {
        lemma_count_ge_two(ps, k2, k);
    } else if k < k2 {
        lemma_count_ge_two(ps, k, k2);
    }
}

/// Counting one more posting.
proof fn lemma_count_step(ps: Seq<Posting>, j: int)
    requires
        0 <= j < ps.len(),
    ensures
        clearing_count(ps.take(j + 1)) == clearing_count(ps.take(j)) + (if ps[j].account@
            == clearing_seq() {
            1nat
        } else {
            0nat
        }),
{
    assert(ps.take(j + 1).drop_last() == ps.take(j));
    assert(ps.take(j + 1).last() == ps[j]);
}

/// The next fresh sub-account id: one past every id already declared by an
/// Open directive following the naming scheme.
pub open spec fn scan_base(ds: Seq<Directive>) -> int
    decreases ds.len(),
{
    if ds.len() == 0 {
        0
    } else {
        let rest = scan_base(ds.drop_last());
        match ds.last().content {
            DirectiveContent::Open(o) => if is_closing_sub(o.account@) && sub_id(o.account@) + 1
                > rest {
                sub_id(o.account@) + 1
            } else {
                rest
            },
            _ => rest,
        }
    }
}

/// Scanning one more directive.
proof fn lemma_scan_step(ds: Seq<Directive>, j: int)
    requires
        0 <= j < ds.len(),
    ensures
        scan_base(ds.take(j + 1)) == (match ds[j].content {
            DirectiveContent::Open(o) => if is_closing_sub(o.account@) && sub_id(o.account@) + 1
                > scan_base(ds.take(j)) {
                sub_id(o.account@) + 1
            } else {
                scan_base(ds.take(j))
            },
            _ => scan_base(ds.take(j)),
        }),
{
    assert(ds.take(j + 1).drop_last() == ds.take(j));
    assert(ds.take(j + 1).last() == ds[j]);
}

/// `d2` is `d` with its single clearing posting rebound to the account
/// `acct` and its manual flag cleared; nothing else differs.
#[verifier::opaque]
pub open spec fn rebound(d: Directive, d2: Directive, acct: Seq<char>) -> bool {
    &&& d2.date == d.date
    &&& d2.metadata == d.metadata
    &&& (d.content matches DirectiveContent::Transaction(t) && (
    d2.content matches DirectiveContent::Transaction(t2) && {
        &&& t2.flag == t.flag
        &&& t2.payee == t.payee
        &&& t2.narration == t.narration
        &&& t2.tags == t.tags
        &&& t2.links == t.links
        &&& t2.balanced == t.balanced
        &&& t2.postings@.len() == t.postings@.len()
        &&& (exists|pi: int|
            {
                &&& 0 <= pi < t.postings@.len()
                &&& (#[trigger] t.postings@[pi]).account@ == clearing_seq()
                &&& t2.postings@[pi].account@ == acct
                &&& t2.postings@[pi].flag is None
                &&& t2.postings@[pi].amount == t.postings@[pi].amount
                &&& t2.postings@[pi].cost == t.postings@[pi].cost
                &&& t2.postings@[pi].price == t.postings@[pi].price
                &&& t2.postings@[pi].metadata == t.postings@[pi].metadata
                &&& t2.postings@[pi].autocomputed == t.postings@[pi].autocomputed
                &&& (forall|k: int|
                    0 <= k < t.postings@.len() && k != pi ==> t2.postings@[k] == t.postings@[k])
            })
    }))
}

/// The appended declaration opening a synthetic sub-account for one
/// currency.
pub open spec fn opens_sub(d: Directive, acct: Seq<char>, cur: Seq<char>) -> bool {
    &&& d.date.year() == 2000 && d.date.month() == 1 && d.date.day() == 1
    &&& (d.content matches DirectiveContent::Open(o) && o.account@ == acct && o.currencies@.len()
        == 1 && o.currencies@[0]@ == cur)
    &&& d.metadata@.len() == 0
}

/// The appended far-future assertion that a synthetic sub-account nets to
/// zero.
pub open spec fn asserts_zero(d: Directive, acct: Seq<char>, cur: Seq<char>) -> bool {
    &&& d.date.year() == 2099 && d.date.month() == 1 && d.date.day() == 1
    &&& (d.content matches DirectiveContent::Balance(b) && b.account@ == acct && b.amount.currency@
        == cur && b.amount.value.num() == 0)
    &&& d.metadata@.len() == 0
}

/// One snapshot entry of the matcher: the directive's serial date, its
/// index, its clearing posting's index, and that posting's amount.
spec fn wk_inv(ds: Seq<Directive>, w: (i64, usize, usize, Amount)) -> bool {
    &&& (w.1 as int) < ds.len()
    &&& qualifies(ds[w.1 as int])
    &&& w.0 as int == ds[w.1 as int].date.serial()
    &&& -719469 <= w.0 <= 3652060
    &&& (w.2 as int) < postings_of(ds[w.1 as int]).len()
    &&& the_clearing_idx(postings_of(ds[w.1 as int])) == w.2 as int
    &&& postings_of(ds[w.1 as int])[w.2 as int].amount == Some(w.3)
    &&& clear_amt(ds[w.1 as int]) == w.3
}

/// Whether `di` belongs to one of the matched pairs.
pub open spec fn matched_idx(ms: Seq<(usize, usize, Account)>, di: int) -> bool {
    exists|mm: int|
        0 <= mm < ms.len() && ((#[trigger] ms[mm]).0 == di || ms[mm].1 == di)
}

/// Whether `e` is one of the recorded pair positions.
pub open spec fn pos_in(mpos: Seq<(int, int)>, e: int) -> bool {
    exists|mm: int|
        0 <= mm < mpos.len() && ((#[trigger] mpos[mm]).0 == e || mpos[mm].1 == e)
}

/// Scans a transaction's postings: how many are routed through the clearing
/// account, where the first of them is, and its amount.
fn scan_postings(t: &Transaction) -> (r: (usize, usize, Option<Amount>))
    ensures
        r.0 as nat == clearing_count(t.postings@),
        r.0 >= 1 ==> ((r.1 as int) < t.postings@.len() && t.postings@[r.1 as int].account@
            == clearing_seq() && r.2 == t.postings@[r.1 as int].amount),
{
    let n = t.postings.len();
    let mut cnt: usize = 0;
    let mut first: usize = 0;
    let mut am: Option<Amount> = None;
    let mut k: usize = 0;
    while k < n
        invariant
            k <= n,
            n == t.postings@.len(),
            cnt <= k,
            cnt as nat == clearing_count(t.postings@.take(k as int)),
            cnt >= 1 ==> ((first as int) < k && t.postings@[first as int].account@
                == clearing_seq() && am == t.postings@[first as int].amount),
        decreases n - k,
    {
        proof {
            lemma_count_step(t.postings@, k as int);
        }
        if is_clearing_account(&t.postings[k].account) {
            if cnt == 0 {
                first = k;
                am = match &t.postings[k].amount {
                    Some(a) => Some(a.clone()),
                    None => None,
                };
            }
            cnt = cnt + 1;
        }
        k = k + 1;
    }
    proof {
        assert(t.postings@.take(n as int) =~= t.postings@);
    }
    (cnt, first, am)
}

/// Counts the matching candidates of the entry at `pos` in the snapshot:
/// returns how many there are (saturated at two) and the position of the
/// first one found.
fn count_cands(
    work: &Vec<(i64, usize, usize, Amount)>,
    days: i64,
    pos: usize,
    Ghost(ds0): Ghost<Seq<Directive>>,
) -> (r: (usize, usize))
    requires
        (pos as int) < work@.len(),
        forall|e: int| 0 <= e < work@.len() ==> wk_inv(ds0, #[trigger] work@[e]),
        forall|e1: int, e2: int|
            0 <= e1 < e2 < work@.len() ==> (#[trigger] work@[e1]).1 < (#[trigger] work@[e2]).1,
    ensures
        ({
            let di = work@[pos as int].1 as int;
            &&& (r.0 == 0 ==> forall|e: int|
                0 <= e < work@.len() ==> !cand(ds0, days as int, di, (#[trigger] work@[e]).1 as int))
            &&& (r.0 == 1 ==> (r.1 as int) < work@.len() && cand(
                ds0,
                days as int,
                di,
                work@[r.1 as int].1 as int,
            ) && (forall|e: int|
                0 <= e < work@.len() && e != r.1 ==> !cand(
                    ds0,
                    days as int,
                    di,
                    (#[trigger] work@[e]).1 as int,
                )))
            &&& (r.0 >= 2 ==> exists|e1: int, e2: int|
                0 <= e1 < e2 < work@.len() && cand(
                    ds0,
                    days as int,
                    di,
                    #[trigger] work@[e1].1 as int,
                ) && cand(ds0, days as int, di, #[trigger] work@[e2].1 as int))
        }),
{
    let m = work.len();
    let ser_p = work[pos].0;
    let ap = work[pos].3.clone();
    let neg = ap.value.negated();
    let ghost di = work@[pos as int].1 as int;
    let mut cnt: usize = 0;
    let mut first: usize = 0;
    let ghost mut second: int = 0;
    let mut u: usize = 0;
    while u < m
        invariant
            u <= m,
            m == work@.len(),
            (pos as int) < work@.len(),
            di == work@[pos as int].1 as int,
            ap == work@[pos as int].3,
            ser_p == work@[pos as int].0,
            neg.pair() == pneg(ap.value.pair()),
            forall|e: int| 0 <= e < work@.len() ==> wk_inv(ds0, #[trigger] work@[e]),
            forall|e1: int, e2: int|
                0 <= e1 < e2 < work@.len() ==> (#[trigger] work@[e1]).1 < (#[trigger] work@[e2]).1,
            cnt <= 2,
            cnt == 0 ==> forall|e: int|
                0 <= e < u ==> !cand(ds0, days as int, di, (#[trigger] work@[e]).1 as int),
            cnt == 1 ==> ((first as int) < u && cand(
                ds0,
                days as int,
                di,
                work@[first as int].1 as int,
            ) && (forall|e: int|
                0 <= e < u && e != first ==> !cand(
                    ds0,
                    days as int,
                    di,
                    (#[trigger] work@[e]).1 as int,
                ))),
            cnt >= 2 ==> ((first as int) < u && second < u && (first as int) < second && cand(
                ds0,
                days as int,
                di,
                work@[first as int].1 as int,
            ) && cand(ds0, days as int, di, work@[second].1 as int)),
        decreases m - u,
    {
        let cond: bool = if u == pos {
            false
        } else {
            let diff = ser_p - work[u].0;
            if diff <= days && -diff <= days {
                work[u].3.currency == ap.currency && work[u].3.value.eq_value(&neg)
            } else {
                false
            }
        };
        proof {
            let du = work@[u as int].1 as int;
            if u != pos {
                if u < pos {
                    assert(work@[u as int].1 < work@[pos as int].1);
                } else {
                    assert(work@[pos as int].1 < work@[u as int].1);
                }
                assert(di != du);
            }
            assert(cond == cand(ds0, days as int, di, du));
        }
        if cond {
            if cnt == 0 {
                cnt = 1;
                first = u;
            } else if cnt == 1 {
                cnt = 2;
                proof {
                    second = u as int;
                }
            }
        }
        u = u + 1;
    }
    (cnt, first)
}

/// Rebinds the clearing posting at `pi` of directive `di` to the given
/// sub-account, clearing any manual flag.
fn rebind_at(ds: &mut Vec<Directive>, di: usize, pi: usize, acct: &Account)
    requires
        (di as int) < old(ds)@.len(),
        old(ds)@[di as int].content is Transaction,
        (pi as int) < postings_of(old(ds)@[di as int]).len(),
        postings_of(old(ds)@[di as int])[pi as int].account@ == clearing_seq(),
    ensures
        final(ds)@.len() == old(ds)@.len(),
        forall|k: int| 0 <= k < old(ds)@.len() && k != di ==> final(ds)@[k] == old(ds)@[k],
        rebound(old(ds)@[di as int], final(ds)@[di as int], acct@),
{
    let ghost d0 = ds@[di as int];
    let dref = &mut ds[di];
    match &mut dref.content {
        DirectiveContent::Transaction(tx) => {
            let pref = &mut tx.postings[pi];
            pref.account = acct.clone();
            pref.flag = None;
        },
        _ => {
            proof {
                assert(false);
            }
        },
    }
    proof {
        let d1 = ds@[di as int];
        let t = d0.content->Transaction_0;
        let t2 = d1.content->Transaction_0;
        assert(rebound(d0, d1, acct@)) by {
            reveal(rebound);
            assert(0 <= (pi as int) && (pi as int) < t.postings@.len());
            assert(t.postings@[pi as int].account@ == clearing_seq());
            assert(t2.postings@[pi as int].account@ == acct@);
        }
    }
}


/// After the matching pass and the appended declarations, no further pair
/// can be matched: matched directives no longer touch the clearing account,
/// appended declarations are not transactions, and every untouched
/// candidate already had no mutual partner.
#[verifier::rlimit(100)]
#[verifier::spinoff_prover]
proof fn lemma_closing_settled(
    ds0: Seq<Directive>,
    ds1: Seq<Directive>,
    pre: Seq<Directive>,
    matched: Seq<(usize, usize, Account)>,
    accounts: Seq<(Account, Currency)>,
    work: Seq<(i64, usize, usize, Amount)>,
    taken: Seq<bool>,
    mpos: Seq<(int, int)>,
    order: Seq<(i64, usize)>,
    invq: Seq<int>,
    base: int,
    w: int,
    n: int,
    m: int,
    next: int,
)
    requires
        n == ds0.len(),
        m == work.len(),
        m == taken.len(),
        m == order.len(),
        invq.len() == m as nat,
        pre.len() == n,
        ds1.len() == n + 2 * matched.len(),
        accounts.len() == matched.len(),
        mpos.len() == matched.len(),
        next == base + matched.len(),
        base >= 0,
        base + matched.len() < 1000000,
        forall|e: int| 0 <= e < m ==> wk_inv(ds0, #[trigger] work[e]),
        forall|di: int|
            0 <= di < n && qualifies(ds0[di]) ==> exists|e: int|
                0 <= e < m && ((#[trigger] work[e]).1 as int) == di,
        forall|q: int| 0 <= q < m ==> ((#[trigger] order[q]).1 as int) < m,
        forall|p: int|
            0 <= p < m ==> 0 <= #[trigger] invq[p] < m && (order[invq[p]].1 as int) == p,
        forall|mm: int|
            0 <= mm < matched.len() ==> 0 <= (#[trigger] mpos[mm]).0 < m && 0 <= mpos[mm].1 < m,
        forall|mm: int|
            0 <= mm < matched.len() ==> (#[trigger] matched[mm]).0 == work[mpos[mm].0].1
                && matched[mm].1 == work[mpos[mm].1].1,
        forall|mm: int|
            0 <= mm < matched.len() ==> ((#[trigger] matched[mm]).0 as int) < n
                && (matched[mm].1 as int) < n && matched[mm].0 != matched[mm].1,
        forall|mm: int|
            0 <= mm < matched.len() ==> mutual_pair(
                ds0,
                w,
                (#[trigger] matched[mm]).0 as int,
                matched[mm].1 as int,
            ),
        forall|mm: int|
            0 <= mm < matched.len() ==> (#[trigger] matched[mm]).2@ == closing_account_seq(
                base + mm,
            ),
        forall|mm: int|
            0 <= mm < matched.len() ==> rebound(
                ds0[(#[trigger] matched[mm]).0 as int],
                pre[matched[mm].0 as int],
                matched[mm].2@,
            ) && rebound(ds0[matched[mm].1 as int], pre[matched[mm].1 as int], matched[mm].2@),
        forall|e: int| 0 <= e < m ==> ((#[trigger] taken[e]) == pos_in(mpos, e)),
        forall|tt: int|
            0 <= tt < m ==> ((#[trigger] taken[(order[tt].1 as int)]) || no_partner(
                ds0,
                w,
                work[order[tt].1 as int].1 as int,
            ) || next == 1000000),
        forall|di: int| 0 <= di < n && !matched_idx(matched, di) ==> #[trigger] pre[di] == ds0[di],
        forall|k: int| 0 <= k < n ==> #[trigger] ds1[k] == pre[k],
        forall|mm: int|
            0 <= mm < matched.len() ==> opens_sub(
                #[trigger] ds1[n + 2 * mm],
                accounts[mm].0@,
                accounts[mm].1@,
            ) && asserts_zero(ds1[n + 2 * mm + 1], accounts[mm].0@, accounts[mm].1@),
    ensures
        settled(ds1, w),
{
            reveal(mutual_pair);
            reveal(no_partner);
            reveal(settled);
            reveal(rebound);
            assert forall|x: int|
                0 <= x < ds1.len() && qualifies(#[trigger] ds1[x]) implies (x < n
                && !matched_idx(matched, x)) by {
                if x >= n {
                    let k = x - n;
                    vstd::arithmetic::div_mod::lemma_fundamental_div_mod(k, 2);
                    let mm = k / 2;
                    assert(k == 2 * mm || k == 2 * mm + 1);
                    assert(0 <= mm < matched.len());
                    if k == 2 * mm {
                        assert(opens_sub(ds1[n + 2 * mm], accounts[mm].0@, accounts[mm].1@));
                        assert(!(ds1[x].content is Transaction));
                    } else {
                        assert(opens_sub(ds1[n + 2 * mm], accounts[mm].0@, accounts[mm].1@));
                        assert(asserts_zero(
                            ds1[n + 2 * mm + 1],
                            accounts[mm].0@,
                            accounts[mm].1@,
                        ));
                        assert(!(ds1[x].content is Transaction));
                    }
                    assert(false);
                } else if matched_idx(matched, x) {
                    let mm = choose|mm: int|
                        0 <= mm < matched.len() && ((#[trigger] matched[mm]).0 == x
                            || matched[mm].1 == x);
                    let tri = matched[mm];
                    let acct = tri.2@;
                    lemma_closing_account_shape(base + mm);
                    assert(rebound(ds0[x], pre[x], acct));
                    assert(ds1[x] == pre[x]);
                    assert(qualifies(ds0[x]));
                    let t0 = ds0[x].content->Transaction_0;
                    let t2 = ds1[x].content->Transaction_0;
                    let pi = choose|pi: int|
                        {
                            &&& 0 <= pi < t0.postings@.len()
                            &&& (#[trigger] t0.postings@[pi]).account@ == clearing_seq()
                            &&& t2.postings@[pi].account@ == acct
                            &&& t2.postings@[pi].flag is None
                            &&& t2.postings@[pi].amount == t0.postings@[pi].amount
                            &&& t2.postings@[pi].cost == t0.postings@[pi].cost
                            &&& t2.postings@[pi].price == t0.postings@[pi].price
                            &&& t2.postings@[pi].metadata == t0.postings@[pi].metadata
                            &&& t2.postings@[pi].autocomputed == t0.postings@[pi].autocomputed
                            &&& (forall|k: int|
                                0 <= k < t0.postings@.len() && k != pi ==> t2.postings@[k]
                                    == t0.postings@[k])
                        };
                    assert forall|k: int|
                        0 <= k < t2.postings@.len() implies (#[trigger] t2.postings@[k]).account@
                        != clearing_seq() by {
                        if k == pi {
                            assert(t2.postings@[k].account@ == acct);
                        } else {
                            assert(t2.postings@[k] == t0.postings@[k]);
                            if t0.postings@[k].account@ == clearing_seq() {
                                if k < pi {
                                    lemma_count_ge_two(t0.postings@, k, pi);
                                } else {
                                    lemma_count_ge_two(t0.postings@, pi, k);
                                }
                                assert(false);
                            }
                        }
                    }
                    lemma_count_zero(t2.postings@);
                    assert(!qualifies(ds1[x]));
                    assert(false);
                }
            }
            assert forall|i: int, j: int| !mutual_pair(ds1, w, i, j) by {
                if mutual_pair(ds1, w, i, j) {
                    assert(cand(ds1, w, i, j));
                    assert(qualifies(ds1[i]) && qualifies(ds1[j]));
                    assert(i < n && !matched_idx(matched, i));
                    assert(j < n && !matched_idx(matched, j));
                    assert(ds1[i] == ds0[i]);
                    assert(ds1[j] == ds0[j]);
                    assert(cand(ds0, w, i, j));
                    assert forall|k: int| cand(ds0, w, i, k) implies k == j by {
                        if matched_idx(matched, k) {
                            let mm = choose|mm: int|
                                0 <= mm < matched.len() && ((#[trigger] matched[mm]).0 == k
                                    || matched[mm].1 == k);
                            let tri = matched[mm];
                            lemma_cand_sym(ds0, w, i, k);
                            if tri.0 == k {
                                assert(cand(ds0, w, tri.0 as int, i));
                                assert(i == tri.1);
                                assert(matched_idx(matched, i));
                            } else {
                                assert(cand(ds0, w, tri.1 as int, i));
                                assert(i == tri.0);
                                assert(matched_idx(matched, i));
                            }
                            assert(false);
                        } else {
                            assert(qualifies(ds0[k]));
                            assert(0 <= k < n);
                            assert(ds1[k] == ds0[k]);
                            assert(cand(ds1, w, i, k));
                        }
                    }
                    assert forall|k: int| cand(ds0, w, j, k) implies k == i by {
                        if matched_idx(matched, k) {
                            let mm = choose|mm: int|
                                0 <= mm < matched.len() && ((#[trigger] matched[mm]).0 == k
                                    || matched[mm].1 == k);
                            let tri = matched[mm];
                            lemma_cand_sym(ds0, w, j, k);
                            if tri.0 == k {
                                assert(cand(ds0, w, tri.0 as int, j));
                                assert(j == tri.1);
                                assert(matched_idx(matched, j));
                            } else {
                                assert(cand(ds0, w, tri.1 as int, j));
                                assert(j == tri.0);
                                assert(matched_idx(matched, j));
                            }
                            assert(false);
                        } else {
                            assert(qualifies(ds0[k]));
                            assert(0 <= k < n);
                            assert(ds1[k] == ds0[k]);
                            assert(cand(ds1, w, j, k));
                        }
                    }
                    assert(mutual_pair(ds0, w, i, j));
                    assert(qualifies(ds0[i]));
                    assert(exists|e: int|
                        0 <= e < work.len() && ((#[trigger] work[e]).1 as int) == i);
                    let e = choose|e: int|
                        0 <= e < work.len() && ((#[trigger] work[e]).1 as int) == i;
                    let tt = invq[e];
                    assert(order[tt].1 as int == e);
                    assert(taken[e] || no_partner(ds0, w, work[e].1 as int) || next == 1000000);
                    assert(next < 1000000);
                    if taken[e] {
                        let mm = choose|mm: int|
                            0 <= mm < mpos.len() && ((#[trigger] mpos[mm]).0 == e || mpos[mm].1
                                == e);
                        assert(matched[mm].0 == work[e].1 || matched[mm].1 == work[e].1);
                        assert(matched_idx(matched, i));
                        assert(false);
                    }
                    assert(no_partner(ds0, w, i));
                    assert(!mutual_pair(ds0, w, i, j));
                    assert(false);
                }
            }
            assert(settled(ds1, w));
    assert(settled(ds1, w));
}

/// The matcher's outcome: the pairs that were bound to fresh sub-accounts,
/// and the directives with clearing postings that could not be matched.
#[derive(Debug)]
pub struct ClosingReport {
    pub matched: Vec<(usize, usize, Account)>,
    pub unmatched: Vec<usize>,
}


/// Runs the mutual-uniqueness matching pass over the snapshot, rebinding
/// each accepted pair to a fresh sequential sub-account. Returns the matched
/// pairs, the new accounts with their currencies, the next free id, and
/// (for the settledness argument) the taken flags and pair positions.
#[verifier::rlimit(100)]
#[verifier::spinoff_prover]
fn match_pairs(
    file: &mut BeancountFile,
    work: &Vec<(i64, usize, usize, Amount)>,
    order: &Vec<(i64, usize)>,
    days: i64,
    start: u32,
    unmatched: &mut Vec<usize>,
    Ghost(ds0): Ghost<Seq<Directive>>,
    Ghost(base): Ghost<int>,
    Ghost(invq): Ghost<Seq<int>>,
) -> (r: (Vec<(usize, usize, Account)>, Vec<(Account, Currency)>, u32, Ghost<Seq<(int, int)>>, Ghost<Seq<bool>>))
    requires
        old(file).directives@ == ds0,
        start as int == base,
        base >= 0,
        start <= 1000000,
        work@.len() == order@.len(),
        invq.len() == work@.len() as nat,
        forall|e: int| 0 <= e < work@.len() ==> wk_inv(ds0, #[trigger] work@[e]),
        forall|e1: int, e2: int|
            0 <= e1 < e2 < work@.len() ==> (#[trigger] work@[e1]).1 < (#[trigger] work@[e2]).1,
        forall|di: int|
            0 <= di < ds0.len() && qualifies(ds0[di]) ==> exists|e: int|
                0 <= e < work@.len() && ((#[trigger] work@[e]).1 as int) == di,
        forall|q: int| 0 <= q < work@.len() ==> ((#[trigger] order@[q]).1 as int) < work@.len(),
        forall|p: int|
            0 <= p < work@.len() ==> 0 <= #[trigger] invq[p] < work@.len() && (
            order@[invq[p]].1 as int) == p,
        forall|e: int|
            0 <= e < old(unmatched)@.len() ==> ((#[trigger] old(unmatched)@[e]) as int)
                < ds0.len(),
    ensures
        ({
            let (matched, accounts, next, gm, gt) = r;
            let mpos = gm@;
            let taken = gt@;
            let m = work@.len() as int;
            let n = ds0.len() as int;
            final(file).directives@.len() == n
        }),
        ({
            let (matched, accounts, next, gm, gt) = r;
            let mpos = gm@;
            let taken = gt@;
            let m = work@.len() as int;
            let n = ds0.len() as int;
            final(file).options == old(file).options
        }),
        ({
            let (matched, accounts, next, gm, gt) = r;
            let mpos = gm@;
            let taken = gt@;
            let m = work@.len() as int;
            let n = ds0.len() as int;
            final(file).includes == old(file).includes
        }),
        ({
            let (matched, accounts, next, gm, gt) = r;
            let mpos = gm@;
            let taken = gt@;
            let m = work@.len() as int;
            let n = ds0.len() as int;
            next as int == base + matched@.len()
        }),
        ({
            let (matched, accounts, next, gm, gt) = r;
            let mpos = gm@;
            let taken = gt@;
            let m = work@.len() as int;
            let n = ds0.len() as int;
            next <= 1000000
        }),
        ({
            let (matched, accounts, next, gm, gt) = r;
            let mpos = gm@;
            let taken = gt@;
            let m = work@.len() as int;
            let n = ds0.len() as int;
            mpos.len() == matched@.len()
        }),
        ({
            let (matched, accounts, next, gm, gt) = r;
            let mpos = gm@;
            let taken = gt@;
            let m = work@.len() as int;
            let n = ds0.len() as int;
            accounts@.len() == matched@.len()
        }),
        ({
            let (matched, accounts, next, gm, gt) = r;
            let mpos = gm@;
            let taken = gt@;
            let m = work@.len() as int;
            let n = ds0.len() as int;
            taken.len() == m
        }),
        ({
            let (matched, accounts, next, gm, gt) = r;
            let mpos = gm@;
            let taken = gt@;
            let m = work@.len() as int;
            let n = ds0.len() as int;
            (forall|mm: int|
                0 <= mm < matched@.len() ==> 0 <= (#[trigger] mpos[mm]).0 < m && 0 <= mpos[mm].1
                    < m)
        }),
        ({
            let (matched, accounts, next, gm, gt) = r;
            let mpos = gm@;
            let taken = gt@;
            let m = work@.len() as int;
            let n = ds0.len() as int;
            (forall|mm: int|
                0 <= mm < matched@.len() ==> (#[trigger] matched@[mm]).0 == work@[mpos[mm].0].1
                    && matched@[mm].1 == work@[mpos[mm].1].1)
        }),
        ({
            let (matched, accounts, next, gm, gt) = r;
            let mpos = gm@;
            let taken = gt@;
            let m = work@.len() as int;
            let n = ds0.len() as int;
            (forall|mm: int|
                0 <= mm < matched@.len() ==> ((#[trigger] matched@[mm]).0 as int) < n && (
                matched@[mm].1 as int) < n && matched@[mm].0 != matched@[mm].1)
        }),
        ({
            let (matched, accounts, next, gm, gt) = r;
            let mpos = gm@;
            let taken = gt@;
            let m = work@.len() as int;
            let n = ds0.len() as int;
            (forall|mm: int|
                0 <= mm < matched@.len() ==> mutual_pair(
                    ds0,
                    days as int,
                    (#[trigger] matched@[mm]).0 as int,
                    matched@[mm].1 as int,
                ))
        }),
        ({
            let (matched, accounts, next, gm, gt) = r;
            let mpos = gm@;
            let taken = gt@;
            let m = work@.len() as int;
            let n = ds0.len() as int;
            (forall|mm: int|
                0 <= mm < matched@.len() ==> (#[trigger] matched@[mm]).2@ == closing_account_seq(
                    base + mm,
                ))
        }),
        ({
            let (matched, accounts, next, gm, gt) = r;
            let mpos = gm@;
            let taken = gt@;
            let m = work@.len() as int;
            let n = ds0.len() as int;
            (forall|mm: int|
                0 <= mm < matched@.len() ==> (#[trigger] accounts@[mm]).0@ == matched@[mm].2@
                    && accounts@[mm].1@ == clear_amt(ds0[matched@[mm].1 as int]).currency@)
        }),
        ({
            let (matched, accounts, next, gm, gt) = r;
            let mpos = gm@;
            let taken = gt@;
            let m = work@.len() as int;
            let n = ds0.len() as int;
            (forall|mm: int|
                0 <= mm < matched@.len() ==> rebound(
                    ds0[(#[trigger] matched@[mm]).0 as int],
                    final(file).directives@[matched@[mm].0 as int],
                    matched@[mm].2@,
                ) && rebound(
                    ds0[matched@[mm].1 as int],
                    final(file).directives@[matched@[mm].1 as int],
                    matched@[mm].2@,
                ))
        }),
        ({
            let (matched, accounts, next, gm, gt) = r;
            let mpos = gm@;
            let taken = gt@;
            let m = work@.len() as int;
            let n = ds0.len() as int;
            (forall|e: int| 0 <= e < m ==> ((#[trigger] taken[e]) == pos_in(mpos, e)))
        }),
        ({
            let (matched, accounts, next, gm, gt) = r;
            let mpos = gm@;
            let taken = gt@;
            let m = work@.len() as int;
            let n = ds0.len() as int;
            (forall|tt: int|
                0 <= tt < m ==> ((#[trigger] taken[(order@[tt].1 as int)]) || no_partner(
                    ds0,
                    days as int,
                    work@[order@[tt].1 as int].1 as int,
                ) || next == 1000000))
        }),
        ({
            let (matched, accounts, next, gm, gt) = r;
            let mpos = gm@;
            let taken = gt@;
            let m = work@.len() as int;
            let n = ds0.len() as int;
            (forall|di: int|
                0 <= di < n && !matched_idx(matched@, di)
                    ==> #[trigger] final(file).directives@[di] == ds0[di])
        }),
        ({
            let (matched, accounts, next, gm, gt) = r;
            let mpos = gm@;
            let taken = gt@;
            let m = work@.len() as int;
            let n = ds0.len() as int;
            (forall|e: int|
                0 <= e < final(unmatched)@.len() ==> ((#[trigger] final(unmatched)@[e]) as int)
                    < n)
        }),
{
    let n = file.directives.len();
    let m = work.len();
    let mut next: u32 = start;
    let mut taken: Vec<bool> = Vec::new();
    let mut ti: usize = 0;
    while ti < m
        invariant
            ti <= m,
            taken@.len() == ti,
            forall|e: int| 0 <= e < ti ==> !(#[trigger] taken@[e]),
        decreases m - ti,
    {
        taken.push(false);
        ti = ti + 1;
    }
    let mut matched: Vec<(usize, usize, Account)> = Vec::new();
    let mut accounts: Vec<(Account, Currency)> = Vec::new();
    let ghost mut mpos: Seq<(int, int)> = Seq::empty();
    let mut t: usize = 0;
    while t < m
        invariant
            t <= m,
            m == work@.len(),
            m == order@.len(),
            m == taken@.len(),
            n == ds0.len(),
            file.directives@.len() == n,
            old(file).directives@ == ds0,
            file.options == old(file).options,
            file.includes == old(file).includes,
            forall|e: int| 0 <= e < work@.len() ==> wk_inv(ds0, #[trigger] work@[e]),
            forall|e1: int, e2: int|
                0 <= e1 < e2 < work@.len() ==> (#[trigger] work@[e1]).1 < (#[trigger] work@[e2]).1,
            forall|di: int|
                0 <= di < n && qualifies(ds0[di]) ==> exists|e: int|
                    0 <= e < work@.len() && ((#[trigger] work@[e]).1 as int) == di,
            forall|q: int| 0 <= q < m ==> ((#[trigger] order@[q]).1 as int) < m,
            next as int == base + matched@.len(),
            next <= 1000000,
            base >= 0,
            mpos.len() == matched@.len(),
            accounts@.len() == matched@.len(),
            forall|mm: int|
                0 <= mm < matched@.len() ==> 0 <= (#[trigger] mpos[mm]).0 < m && 0 <= mpos[mm].1
                    < m && mpos[mm].0 != mpos[mm].1,
            forall|mm: int|
                0 <= mm < matched@.len() ==> (#[trigger] matched@[mm]).0 == work@[mpos[mm].0].1
                    && matched@[mm].1 == work@[mpos[mm].1].1,
            forall|mm: int|
                0 <= mm < matched@.len() ==> {
                    let tri = #[trigger] matched@[mm];
                    &&& (tri.0 as int) < n
                    &&& (tri.1 as int) < n
                    &&& tri.0 != tri.1
                },
            forall|mm: int|
                0 <= mm < matched@.len() ==> mutual_pair(
                    ds0,
                    days as int,
                    (#[trigger] matched@[mm]).0 as int,
                    matched@[mm].1 as int,
                ),
            forall|mm: int|
                0 <= mm < matched@.len() ==> (#[trigger] matched@[mm]).2@ == closing_account_seq(
                    base + mm,
                ),
            forall|mm: int|
                0 <= mm < matched@.len() ==> (#[trigger] accounts@[mm]).0@ == matched@[mm].2@
                    && accounts@[mm].1@ == clear_amt(ds0[matched@[mm].1 as int]).currency@,
            forall|mm: int|
                0 <= mm < matched@.len() ==> rebound(
                    ds0[(#[trigger] matched@[mm]).0 as int],
                    file.directives@[matched@[mm].0 as int],
                    matched@[mm].2@,
                ) && rebound(
                    ds0[matched@[mm].1 as int],
                    file.directives@[matched@[mm].1 as int],
                    matched@[mm].2@,
                ),
            forall|e: int| 0 <= e < m ==> ((#[trigger] taken@[e]) == pos_in(mpos, e)),
            forall|di: int|
                0 <= di < n && !matched_idx(matched@, di) ==> #[trigger] file.directives@[di]
                    == ds0[di],
            forall|e: int| 0 <= e < unmatched@.len() ==> ((#[trigger] unmatched@[e]) as int) < n,
            invq.len() == m as nat,
            forall|p: int|
                0 <= p < m ==> 0 <= #[trigger] invq[p] < m && (order@[invq[p]].1 as int) == p,
            forall|tt: int|
                0 <= tt < t ==> ((#[trigger] taken@[(order@[tt].1 as int)]) || no_partner(
                    ds0,
                    days as int,
                    work@[order@[tt].1 as int].1 as int,
                ) || next == 1000000),
        decreases m - t,
    {
        let pos = order[t].1;
        if !taken[pos] && next < 1000000 {
            let (cnt, cu) = count_cands(&work, days, pos, Ghost(ds0));
            if cnt == 1 {
                let (cnt2, _cv) = count_cands(&work, days, cu, Ghost(ds0));
                if cnt2 == 1 {
                    let di_a = work[pos].1;
                    let pi_a = work[pos].2;
                    let di_b = work[cu].1;
                    let pi_b = work[cu].2;
                    let ghost dia = di_a as int;
                    let ghost dib = di_b as int;
                    proof {
                        reveal(mutual_pair);
                        lemma_cand_sym(ds0, days as int, dia, dib);
                        assert(mutual_pair(ds0, days as int, dia, dib)) by {
                            assert forall|k: int| cand(ds0, days as int, dia, k) implies k
                                == dib by {
                                let e = choose|e: int|
                                    0 <= e < work@.len() && ((#[trigger] work@[e]).1 as int) == k;
                                assert(cand(ds0, days as int, dia, work@[e].1 as int));
                                assert(e == cu as int);
                            }
                            assert forall|k: int| cand(ds0, days as int, dib, k) implies k
                                == dia by {
                                let e = choose|e: int|
                                    0 <= e < work@.len() && ((#[trigger] work@[e]).1 as int) == k;
                                assert(cand(ds0, days as int, dib, work@[e].1 as int));
                                assert(cand(ds0, days as int, dib, work@[pos as int].1 as int));
                                assert(e == pos as int);
                            }
                        }
                        assert(!taken@[cu as int]) by {
                            if taken@[cu as int] {
                                let mm = choose|mm: int|
                                    0 <= mm < mpos.len() && ((#[trigger] mpos[mm]).0 == cu as int
                                        || mpos[mm].1 == cu as int);
                                let tri = matched@[mm];
                                if mpos[mm].0 == cu as int {
                                    assert(cand(ds0, days as int, dib, tri.1 as int));
                                    assert(tri.1 as int == dia);
                                    let eo = mpos[mm].1;
                                    assert(work@[eo].1 as int == dia);
                                    assert(eo == pos as int);
                                    assert(taken@[pos as int]);
                                } else {
                                    assert(cand(ds0, days as int, dib, tri.0 as int));
                                    assert(tri.0 as int == dia);
                                    let eo = mpos[mm].0;
                                    assert(work@[eo].1 as int == dia);
                                    assert(eo == pos as int);
                                    assert(taken@[pos as int]);
                                }
                            }
                        }
                        assert(!matched_idx(matched@, dia)) by {
                            if matched_idx(matched@, dia) {
                                let mm = choose|mm: int|
                                    0 <= mm < matched@.len() && ((#[trigger] matched@[mm]).0
                                        == dia || matched@[mm].1 == dia);
                                if matched@[mm].0 == dia {
                                    assert(work@[mpos[mm].0].1 as int == dia);
                                    assert(mpos[mm].0 == pos as int);
                                    assert(taken@[pos as int]);
                                } else {
                                    assert(work@[mpos[mm].1].1 as int == dia);
                                    assert(mpos[mm].1 == pos as int);
                                    assert(taken@[pos as int]);
                                }
                            }
                        }
                        assert(!matched_idx(matched@, dib)) by {
                            if matched_idx(matched@, dib) {
                                let mm = choose|mm: int|
                                    0 <= mm < matched@.len() && ((#[trigger] matched@[mm]).0
                                        == dib || matched@[mm].1 == dib);
                                if matched@[mm].0 == dib {
                                    assert(work@[mpos[mm].0].1 as int == dib);
                                    assert(mpos[mm].0 == cu as int);
                                    assert(taken@[cu as int]);
                                } else {
                                    assert(work@[mpos[mm].1].1 as int == dib);
                                    assert(mpos[mm].1 == cu as int);
                                    assert(taken@[cu as int]);
                                }
                            }
                        }
                        assert(file.directives@[dia] == ds0[dia]);
                        assert(file.directives@[dib] == ds0[dib]);
                    }
                    let acct = build_closing_account(next);
                    proof {
                        lemma_closing_account_shape(next as int);
                        lemma_clearing_exists(postings_of(ds0[dia]));
                        lemma_clearing_exists(postings_of(ds0[dib]));
                        assert(postings_of(ds0[dia])[pi_a as int].account@ == clearing_seq());
                        assert(postings_of(ds0[dib])[pi_b as int].account@ == clearing_seq());
                    }
                    let ghost pre_ds = file.directives@;
                    let ghost m_old = matched@;
                    let ghost a_old = accounts@;
                    let ghost t_old = taken@;
                    let ghost mpos_old = mpos;
                    let ghost acct_g = acct;
                    rebind_at(&mut file.directives, di_a, pi_a, &acct);
                    proof {
                        assert(file.directives@[dib] == ds0[dib]);
                    }
                    rebind_at(&mut file.directives, di_b, pi_b, &acct);
                    accounts.push((acct.clone(), work[cu].3.currency.clone()));
                    matched.push((di_a, di_b, acct));
                    taken[pos] = true;
                    taken[cu] = true;
                    proof {
                        mpos = mpos.push((pos as int, cu as int));
                    }
                    next = next + 1;
                    proof {
                        let lm = m_old.len() as int;
                        assert(matched@ == m_old.push((di_a, di_b, acct_g)));
                        assert(matched@[lm] == (di_a, di_b, acct_g));
                        assert forall|mm: int|
                            0 <= mm < matched@.len() implies {
                            let tri = #[trigger] matched@[mm];
                            &&& 0 <= mpos[mm].0 < m
                            &&& 0 <= mpos[mm].1 < m
                            &&& mpos[mm].0 != mpos[mm].1
                            &&& tri.0 == work@[mpos[mm].0].1
                            &&& tri.1 == work@[mpos[mm].1].1
                            &&& (tri.0 as int) < n
                            &&& (tri.1 as int) < n
                            &&& tri.0 != tri.1
                            &&& mutual_pair(ds0, days as int, tri.0 as int, tri.1 as int)
                            &&& tri.2@ == closing_account_seq(base + mm)
                            &&& accounts@[mm].0@ == tri.2@
                            &&& accounts@[mm].1@ == clear_amt(ds0[tri.1 as int]).currency@
                            &&& rebound(ds0[tri.0 as int], file.directives@[tri.0 as int], tri.2@)
                            &&& rebound(ds0[tri.1 as int], file.directives@[tri.1 as int], tri.2@)
                        } by {
                            if mm < lm {
                                let tri = matched@[mm];
                                assert(tri == m_old[mm]);
                                assert(mpos[mm] == mpos_old[mm]);
                                assert(accounts@[mm] == a_old[mm]);
                                assert(tri.0 as int != dia && tri.1 as int != dia) by {
                                    if tri.0 as int == dia || tri.1 as int == dia {
                                        assert(matched_idx(m_old, dia));
                                    }
                                }
                                assert(tri.0 as int != dib && tri.1 as int != dib) by {
                                    if tri.0 as int == dib || tri.1 as int == dib {
                                        assert(matched_idx(m_old, dib));
                                    }
                                }
                                assert(file.directives@[tri.0 as int] == pre_ds[tri.0 as int]);
                                assert(file.directives@[tri.1 as int] == pre_ds[tri.1 as int]);
                            } else {
                                assert(mpos[lm] == (pos as int, cu as int));
                                assert(work@[pos as int].1 == di_a);
                                assert(work@[cu as int].1 == di_b);
                                assert(di_a != di_b);
                                assert(pos != cu);
                                assert((pos as int) < m && (cu as int) < m);
                                assert(acct_g@ == closing_account_seq(base + lm));
                                assert(pre_ds[dia] == ds0[dia]);
                                assert(rebound(ds0[dia], file.directives@[dia], acct_g@));
                                assert(rebound(ds0[dib], file.directives@[dib], acct_g@));
                                assert(accounts@[lm].1@ == clear_amt(ds0[dib]).currency@);
                            }
                        }
                        assert forall|e: int|
                            0 <= e < m implies ((#[trigger] taken@[e]) == exists|mm: int|
                            0 <= mm < mpos.len() && ((#[trigger] mpos[mm]).0 == e || mpos[mm].1
                                == e)) by {
                            if e == pos as int || e == cu as int {
                                assert(taken@[e]);
                                assert(mpos[lm].0 == e || mpos[lm].1 == e);
                            } else {
                                assert(taken@[e] == t_old[e]);
                                if taken@[e] {
                                    let mm = choose|mm: int|
                                        0 <= mm < mpos_old.len() && ((#[trigger] mpos_old[mm]).0
                                            == e || mpos_old[mm].1 == e);
                                    assert(mpos[mm] == mpos_old[mm]);
                                }
                                if exists|mm: int|
                                    0 <= mm < mpos.len() && ((#[trigger] mpos[mm]).0 == e
                                        || mpos[mm].1 == e) {
                                    let mm = choose|mm: int|
                                        0 <= mm < mpos.len() && ((#[trigger] mpos[mm]).0 == e
                                            || mpos[mm].1 == e);
                                    if mm < lm {
                                        assert(mpos_old[mm] == mpos[mm]);
                                        assert(t_old[e]);
                                    }
                                }
                            }
                        }
                        assert forall|di: int|
                            0 <= di < n && !matched_idx(matched@, di) implies #[trigger] file.directives@[di]
                            == ds0[di] by {
                            assert(di != dia && di != dib) by {
                                if di == dia || di == dib {
                                    assert(matched@[lm].0 == di || matched@[lm].1 == di);
                                    assert(matched_idx(matched@, di));
                                }
                            }
                            assert(!matched_idx(m_old, di)) by {
                                if matched_idx(m_old, di) {
                                    let mm = choose|mm: int|
                                        0 <= mm < m_old.len() && ((#[trigger] m_old[mm]).0 == di
                                            || m_old[mm].1 == di);
                                    assert(matched@[mm] == m_old[mm]);
                                    assert(matched_idx(matched@, di));
                                }
                            }
                            assert(pre_ds[di] == ds0[di]);
                            assert(file.directives@[di] == pre_ds[di]);
                        }
                    }
                } else {
                    proof {
                        reveal(mutual_pair);
                        let dia = work@[pos as int].1 as int;
                        let dcu = work@[cu as int].1 as int;
                        assert(cand(ds0, days as int, dia, dcu));
                        lemma_cand_sym(ds0, days as int, dia, dcu);
                        assert forall|j: int| !mutual_pair(ds0, days as int, dia, j) by {
                            if mutual_pair(ds0, days as int, dia, j) {
                                assert(j == dcu);
                                if cnt2 == 0 {
                                    assert(!cand(
                                        ds0,
                                        days as int,
                                        dcu,
                                        work@[pos as int].1 as int,
                                    ));
                                    assert(false);
                                } else {
                                    let (e1, e2) = choose|e1: int, e2: int|
                                        0 <= e1 < e2 < work@.len() && cand(
                                            ds0,
                                            days as int,
                                            dcu,
                                            #[trigger] work@[e1].1 as int,
                                        ) && cand(ds0, days as int, dcu, #[trigger] work@[e2].1 as int);
                                    assert(work@[e1].1 as int == dia);
                                    assert(work@[e2].1 as int == dia);
                                    assert(work@[e1].1 < work@[e2].1);
                                    assert(false);
                                }
                            }
                        }
                        assert(no_partner(ds0, days as int, work@[pos as int].1 as int)) by {
                            reveal(no_partner);
                        }
                    }
                    unmatched.push(work[pos].1);
                }
            } else {
                proof {
                    reveal(mutual_pair);
                    let dia = work@[pos as int].1 as int;
                    assert forall|j: int| !mutual_pair(ds0, days as int, dia, j) by {
                        if mutual_pair(ds0, days as int, dia, j) {
                            assert(cand(ds0, days as int, dia, j));
                            assert(qualifies(ds0[j]));
                            assert(exists|e: int|
                                0 <= e < work@.len() && ((#[trigger] work@[e]).1 as int) == j);
                            let e = choose|e: int|
                                0 <= e < work@.len() && ((#[trigger] work@[e]).1 as int) == j;
                            if cnt == 0 {
                                assert(!cand(ds0, days as int, dia, work@[e].1 as int));
                                assert(false);
                            } else {
                                let (e1, e2) = choose|e1: int, e2: int|
                                    0 <= e1 < e2 < work@.len() && cand(
                                        ds0,
                                        days as int,
                                        dia,
                                        #[trigger] work@[e1].1 as int,
                                    ) && cand(ds0, days as int, dia, #[trigger] work@[e2].1 as int);
                                assert(work@[e1].1 as int == j);
                                assert(work@[e2].1 as int == j);
                                assert(work@[e1].1 < work@[e2].1);
                                assert(false);
                            }
                        }
                    }
                    assert(no_partner(ds0, days as int, work@[pos as int].1 as int)) by {
                        reveal(no_partner);
                    }
                }
                unmatched.push(work[pos].1);
            }
        }
        t = t + 1;
    }

    (matched, accounts, next, Ghost(mpos), Ghost(taken@))
}


/// Finds the next fresh sub-account id declared nowhere in the file.
#[verifier::spinoff_prover]
fn scan_next_id(file: &BeancountFile) -> (next: u32)
    ensures
        next as int == scan_base(file.directives@),
        next <= 1000000,
{
    let ghost ds0 = file.directives@;
    let n = file.directives.len();
    let mut next: u32 = 0;
    let mut si: usize = 0;
    while si < n
        invariant
            si <= n,
            n == ds0.len(),
            file.directives@ == ds0,
            next as int == scan_base(ds0.take(si as int)),
            next <= 1000000,
        decreases n - si,
    {
        proof {
            lemma_scan_step(ds0, si as int);
        }
        match &file.directives[si].content {
            DirectiveContent::Open(o) => {
                match parse_closing_id(&o.account) {
                    Some(id) => {
                        if id + 1 > next {
                            next = id + 1;
                        }
                    },
                    None => {
                    },
                }
            },
            _ => {
            },
        }
        si = si + 1;
    }
    proof {
        assert(ds0.take(n as int) =~= ds0);
    }
    next
}

/// Collects the matchable directives: for each, its serial date, index,
/// clearing posting position and amount. Directives with clearing postings
/// that cannot be matched are reported.
#[verifier::spinoff_prover]
fn collect_work(file: &BeancountFile, unmatched: &mut Vec<usize>) -> (work: Vec<
    (i64, usize, usize, Amount),
>)
    requires
        forall|e: int|
            0 <= e < old(unmatched)@.len() ==> ((#[trigger] old(unmatched)@[e]) as int)
                < file.directives@.len(),
    ensures
        ({
            let ds0 = file.directives@;
            &&& (forall|e: int| 0 <= e < work@.len() ==> wk_inv(ds0, #[trigger] work@[e]))
            &&& (forall|e1: int, e2: int|
                0 <= e1 < e2 < work@.len() ==> (#[trigger] work@[e1]).1 < (
                #[trigger] work@[e2]).1)
            &&& (forall|di: int|
                0 <= di < ds0.len() && qualifies(ds0[di]) ==> exists|e: int|
                    0 <= e < work@.len() && ((#[trigger] work@[e]).1 as int) == di)
            &&& (forall|e: int|
                0 <= e < final(unmatched)@.len() ==> ((#[trigger] final(unmatched)@[e]) as int)
                    < ds0.len())
        }),
{
    let ghost ds0 = file.directives@;
    let n = file.directives.len();
    let mut work: Vec<(i64, usize, usize, Amount)> = Vec::new();
    let mut ci: usize = 0;
    while ci < n
        invariant
            ci <= n,
            n == ds0.len(),
            file.directives@ == ds0,
            forall|e: int| 0 <= e < work@.len() ==> wk_inv(ds0, #[trigger] work@[e]),
            forall|e1: int, e2: int|
                0 <= e1 < e2 < work@.len() ==> (#[trigger] work@[e1]).1 < (#[trigger] work@[e2]).1,
            forall|e: int| 0 <= e < work@.len() ==> ((#[trigger] work@[e]).1 as int) < ci,
            forall|di: int|
                0 <= di < ci && qualifies(ds0[di]) ==> exists|e: int|
                    0 <= e < work@.len() && ((#[trigger] work@[e]).1 as int) == di,
            forall|e: int| 0 <= e < unmatched@.len() ==> ((#[trigger] unmatched@[e]) as int) < n,
        decreases n - ci,
    {
        let ghost pre_work = work@;
        match &file.directives[ci].content {
            DirectiveContent::Transaction(t) => {
                let (cnt, first, am) = scan_postings(t);
                if cnt == 1 {
                    match am {
                        Some(a) => {
                            proof {
                                lemma_one_clearing(t.postings@, first as int);
                                assert(qualifies(ds0[ci as int]));
                            }
                            let d = file.directives[ci].date;
                            let ser = d.day_number();
                            work.push((ser, ci, first, a));
                            proof {
                                assert(wk_inv(ds0, work@[pre_work.len() as int]));
                                assert forall|di: int|
                                    0 <= di < ci + 1 && qualifies(ds0[di]) implies exists|e: int|
                                    0 <= e < work@.len() && ((#[trigger] work@[e]).1 as int)
                                        == di by {
                                    if di == ci as int {
                                        assert(work@[pre_work.len() as int].1 as int == di);
                                    } else {
                                        let e = choose|e: int|
                                            0 <= e < pre_work.len() && ((#[trigger] pre_work[e]).1
                                                as int) == di;
                                        assert(work@[e] == pre_work[e]);
                                    }
                                }
                            }
                        },
                        None => {
                            proof {
                                lemma_one_clearing(t.postings@, first as int);
                                assert(!qualifies(ds0[ci as int]));
                            }
                            unmatched.push(ci);
                        },
                    }
                } else {
                    proof {
                        assert(!qualifies(ds0[ci as int]));
                    }
                    if cnt >= 1 {
                        unmatched.push(ci);
                    }
                }
            },
            _ => {
                proof {
                    assert(!qualifies(ds0[ci as int]));
                }
            },
        }
        ci = ci + 1;
    }
    work
}

/// Orders the snapshot by date (stable on the original position), returning
/// the ordering and its ghost inverse.
#[verifier::spinoff_prover]
fn sort_work(work: &Vec<(i64, usize, usize, Amount)>) -> (r: (Vec<(i64, usize)>, Ghost<Seq<int>>))
    ensures
        ({
            let (order, gq) = r;
            let invq = gq@;
            let m = work@.len() as int;
            &&& order@.len() == m
            &&& invq.len() == m as nat
            &&& (forall|q: int| 0 <= q < m ==> ((#[trigger] order@[q]).1 as int) < m)
            &&& (forall|p: int|
                0 <= p < m ==> 0 <= #[trigger] invq[p] < m && (order@[invq[p]].1 as int) == p)
        }),
{
    let m = work.len();
    let mut order: Vec<(i64, usize)> = Vec::new();
    let mut oi: usize = 0;
    while oi < m
        invariant
            oi <= m,
            order@.len() == oi,
            m == work@.len(),
            forall|q: int| 0 <= q < oi ==> ((#[trigger] order@[q]).1 as int) == q,
        decreases m - oi,
    {
        order.push((work[oi].0, oi));
        oi = oi + 1;
    }
    let ghost mut invq: Seq<int> = Seq::new(m as nat, |p: int| p);
    let mut sa: usize = 0;
    while sa < m
        invariant
            sa <= m,
            m == order@.len(),
            m == work@.len(),
            forall|q: int| 0 <= q < m ==> ((#[trigger] order@[q]).1 as int) < m,
            invq.len() == m as nat,
            forall|p: int|
                0 <= p < m ==> 0 <= #[trigger] invq[p] < m && (order@[invq[p]].1 as int) == p,
        decreases m - sa,
    {
        let mut mb: usize = sa;
        let mut sb: usize = sa + 1;
        while sb < m
            invariant
                sa <= mb < m,
                sa < sb <= m,
                m == order@.len(),
            decreases m - sb,
        {
            if order[sb].0 < order[mb].0 || (order[sb].0 == order[mb].0 && order[sb].1
                < order[mb].1) {
                mb = sb;
            }
            sb = sb + 1;
        }
        let ghost before = order@;
        let x = order[sa];
        let y = order[mb];
        order[sa] = y;
        order[mb] = x;
        proof {
            let prev = invq;
            invq = Seq::new(
                m as nat,
                |p: int|
                    if prev[p] == sa as int {
                        mb as int
                    } else if prev[p] == mb as int {
                        sa as int
                    } else {
                        prev[p]
                    },
            );
            assert forall|p: int| 0 <= p < m implies 0 <= #[trigger] invq[p] < m && (
            order@[invq[p]].1 as int) == p by {
                assert(0 <= prev[p] < m && (before[prev[p]].1 as int) == p);
                if prev[p] == sa as int {
                    assert(order@[mb as int] == before[sa as int]);
                } else if prev[p] == mb as int {
                    assert(order@[sa as int] == before[mb as int]);
                } else {
                    assert(order@[prev[p]] == before[prev[p]]);
                }
            }
        }
        sa = sa + 1;
    }
    (order, Ghost(invq))
}


/// Appends, for every new sub-account, an Open declaration restricted to
/// its one currency and a far-future zero Balance assertion.
#[verifier::rlimit(100)]
#[verifier::spinoff_prover]
fn append_declarations(file: &mut BeancountFile, accounts: &Vec<(Account, Currency)>)
    ensures
        final(file).directives@.len() == old(file).directives@.len() + 2 * accounts@.len(),
        final(file).options == old(file).options,
        final(file).includes == old(file).includes,
        forall|k: int|
            0 <= k < old(file).directives@.len() ==> #[trigger] final(file).directives@[k] == old(
                file,
            ).directives@[k],
        forall|mm: int|
            0 <= mm < accounts@.len() ==> opens_sub(
                #[trigger] final(file).directives@[old(file).directives@.len() + 2 * mm],
                accounts@[mm].0@,
                accounts@[mm].1@,
            ) && asserts_zero(
                final(file).directives@[old(file).directives@.len() + 2 * mm + 1],
                accounts@[mm].0@,
                accounts@[mm].1@,
            ),
{
    let n = file.directives.len();
    let ghost pre = file.directives@;
    let d2000 = match Date::from_ymd(2000, 1, 1) {
        Some(d) => d,
        None => {
            proof {
                assert(false);
            }
            return ;
        },
    };
    let d2099 = match Date::from_ymd(2099, 1, 1) {
        Some(d) => d,
        None => {
            proof {
                assert(false);
            }
            return ;
        },
    };
    let nacc = accounts.len();
    let mut ai: usize = 0;
    while ai < nacc
        invariant
            ai <= nacc,
            nacc == accounts@.len(),
            pre.len() == n,
            file.directives@.len() == n + 2 * ai,
            file.options == old(file).options,
            file.includes == old(file).includes,
            d2000.year() == 2000 && d2000.month() == 1 && d2000.day() == 1,
            d2099.year() == 2099 && d2099.month() == 1 && d2099.day() == 1,
            forall|k: int| 0 <= k < n ==> #[trigger] file.directives@[k] == pre[k],
            forall|mm: int|
                0 <= mm < ai ==> opens_sub(
                    #[trigger] file.directives@[n + 2 * mm],
                    accounts@[mm].0@,
                    accounts@[mm].1@,
                ) && asserts_zero(
                    file.directives@[n + 2 * mm + 1],
                    accounts@[mm].0@,
                    accounts@[mm].1@,
                ),
        decreases nacc - ai,
    {
        let acct_o = accounts[ai].0.clone();
        let cur_o = accounts[ai].1.clone();
        let mut cs: Vec<Currency> = Vec::new();
        cs.push(cur_o);
        file.directives.push(
            Directive {
                date: d2000,
                content: DirectiveContent::Open(Open { account: acct_o, currencies: cs }),
                metadata: Vec::new(),
            },
        );
        let acct_b = accounts[ai].0.clone();
        let cur_b = accounts[ai].1.clone();
        file.directives.push(
            Directive {
                date: d2099,
                content: DirectiveContent::Balance(
                    Balance {
                        account: acct_b,
                        amount: Amount { value: Decimal::zero(), currency: cur_b },
                    },
                ),
                metadata: Vec::new(),
            },
        );
        ai = ai + 1;
    }
}


/// Rephrases the appended-declaration shapes from the account list onto the
/// matched pairs themselves.
#[verifier::spinoff_prover]
proof fn lemma_shape_bridge(
    ds0: Seq<Directive>,
    ds1: Seq<Directive>,
    matched: Seq<(usize, usize, Account)>,
    accounts: Seq<(Account, Currency)>,
    n: int,
)
    requires
        n == ds0.len(),
        accounts.len() == matched.len(),
        forall|mm: int|
            0 <= mm < matched.len() ==> opens_sub(
                #[trigger] ds1[n + 2 * mm],
                accounts[mm].0@,
                accounts[mm].1@,
            ) && asserts_zero(ds1[n + 2 * mm + 1], accounts[mm].0@, accounts[mm].1@),
        forall|mm: int|
            0 <= mm < matched.len() ==> (#[trigger] accounts[mm]).0@ == matched[mm].2@
                && accounts[mm].1@ == clear_amt(ds0[matched[mm].1 as int]).currency@,
    ensures
        forall|mm: int|
            0 <= mm < matched.len() ==> opens_sub(
                #[trigger] ds1[ds0.len() + 2 * mm],
                matched[mm].2@,
                clear_amt(ds0[matched[mm].1 as int]).currency@,
            ),
        forall|mm: int|
            0 <= mm < matched.len() ==> asserts_zero(
                #[trigger] ds1[ds0.len() + 2 * mm + 1],
                matched[mm].2@,
                clear_amt(ds0[matched[mm].1 as int]).currency@,
            ),
{
    assert forall|mm: int| 0 <= mm < matched.len() implies opens_sub(
        #[trigger] ds1[ds0.len() + 2 * mm],
        matched[mm].2@,
        clear_amt(ds0[matched[mm].1 as int]).currency@,
    ) by {
        assert(opens_sub(ds1[n + 2 * mm], accounts[mm].0@, accounts[mm].1@));
    }
    assert forall|mm: int| 0 <= mm < matched.len() implies asserts_zero(
        #[trigger] ds1[ds0.len() + 2 * mm + 1],
        matched[mm].2@,
        clear_amt(ds0[matched[mm].1 as int]).currency@,
    ) by {
        assert(opens_sub(ds1[n + 2 * mm], accounts[mm].0@, accounts[mm].1@));
        assert(asserts_zero(ds1[n + 2 * mm + 1], accounts[mm].0@, accounts[mm].1@));
    }
}

/// Pairs offsetting clearing postings across the file. A pair is accepted
/// only when each directive is the unique candidate of the other (same
/// magnitude, opposite sign, same currency, dates within `days` of each
/// other). Accepted pairs are rebound onto freshly minted sequential
/// sub-accounts, and for every new sub-account an Open and a zero Balance
/// declaration are appended. Directives that cannot be paired are reported
/// and left untouched; a file with no matchable pair is returned unchanged.
#[verifier::rlimit(100)]
#[verifier::spinoff_prover]
pub fn apply_closing(file: &mut BeancountFile, days: i64) -> (rep: ClosingReport)
    ensures
        ({
            let ds0 = old(file).directives@;
            let ds1 = final(file).directives@;
            let base = scan_base(ds0);
            let nm = rep.matched@.len() as int;
            final(file).options == old(file).options
        }),
        ({
            let ds0 = old(file).directives@;
            let ds1 = final(file).directives@;
            let base = scan_base(ds0);
            let nm = rep.matched@.len() as int;
            final(file).includes == old(file).includes
        }),
        ({
            let ds0 = old(file).directives@;
            let ds1 = final(file).directives@;
            let base = scan_base(ds0);
            let nm = rep.matched@.len() as int;
            ds1.len() == ds0.len() + 2 * nm
        }),
        ({
            let ds0 = old(file).directives@;
            let ds1 = final(file).directives@;
            let base = scan_base(ds0);
            let nm = rep.matched@.len() as int;
            base + nm <= 1000000
        }),
        ({
            let ds0 = old(file).directives@;
            let ds1 = final(file).directives@;
            let base = scan_base(ds0);
            let nm = rep.matched@.len() as int;
            (forall|mm: int|
                0 <= mm < nm ==> ((#[trigger] rep.matched@[mm]).0 as int) < ds0.len()
                    && (rep.matched@[mm].1 as int) < ds0.len() && rep.matched@[mm].0
                    != rep.matched@[mm].1)
        }),
        ({
            let ds0 = old(file).directives@;
            let ds1 = final(file).directives@;
            let base = scan_base(ds0);
            let nm = rep.matched@.len() as int;
            (forall|mm: int|
                0 <= mm < nm ==> mutual_pair(
                    ds0,
                    days as int,
                    (#[trigger] rep.matched@[mm]).0 as int,
                    rep.matched@[mm].1 as int,
                ))
        }),
        ({
            let ds0 = old(file).directives@;
            let ds1 = final(file).directives@;
            let base = scan_base(ds0);
            let nm = rep.matched@.len() as int;
            (forall|mm: int|
                0 <= mm < nm ==> (#[trigger] rep.matched@[mm]).2@ == closing_account_seq(
                    base + mm,
                ))
        }),
        ({
            let ds0 = old(file).directives@;
            let ds1 = final(file).directives@;
            let base = scan_base(ds0);
            let nm = rep.matched@.len() as int;
            (forall|mm: int|
                0 <= mm < nm ==> rebound(
                    ds0[(#[trigger] rep.matched@[mm]).0 as int],
                    ds1[rep.matched@[mm].0 as int],
                    rep.matched@[mm].2@,
                ))
        }),
        ({
            let ds0 = old(file).directives@;
            let ds1 = final(file).directives@;
            let base = scan_base(ds0);
            let nm = rep.matched@.len() as int;
            (forall|mm: int|
                0 <= mm < nm ==> rebound(
                    ds0[(#[trigger] rep.matched@[mm]).1 as int],
                    ds1[rep.matched@[mm].1 as int],
                    rep.matched@[mm].2@,
                ))
        }),
        ({
            let ds0 = old(file).directives@;
            let ds1 = final(file).directives@;
            let base = scan_base(ds0);
            let nm = rep.matched@.len() as int;
            (forall|mm: int|
                0 <= mm < nm ==> opens_sub(
                    #[trigger] ds1[ds0.len() + 2 * mm],
                    rep.matched@[mm].2@,
                    clear_amt(ds0[rep.matched@[mm].1 as int]).currency@,
                ))
        }),
        ({
            let ds0 = old(file).directives@;
            let ds1 = final(file).directives@;
            let base = scan_base(ds0);
            let nm = rep.matched@.len() as int;
            (forall|mm: int|
                0 <= mm < nm ==> asserts_zero(
                    #[trigger] ds1[ds0.len() + 2 * mm + 1],
                    rep.matched@[mm].2@,
                    clear_amt(ds0[rep.matched@[mm].1 as int]).currency@,
                ))
        }),
        ({
            let ds0 = old(file).directives@;
            let ds1 = final(file).directives@;
            let base = scan_base(ds0);
            let nm = rep.matched@.len() as int;
            (forall|di: int|
                0 <= di < ds0.len() && !matched_idx(rep.matched@, di) ==> ds1[di] == ds0[di])
        }),
        ({
            let ds0 = old(file).directives@;
            let ds1 = final(file).directives@;
            let base = scan_base(ds0);
            let nm = rep.matched@.len() as int;
            (settled(ds0, days as int) ==> nm == 0)
        }),
        ({
            let ds0 = old(file).directives@;
            let ds1 = final(file).directives@;
            let base = scan_base(ds0);
            let nm = rep.matched@.len() as int;
            (base + nm < 1000000 ==> settled(ds1, days as int))
        }),
        ({
            let ds0 = old(file).directives@;
            let ds1 = final(file).directives@;
            let base = scan_base(ds0);
            let nm = rep.matched@.len() as int;
            (nm == 0 ==> ds1 == ds0)
        }),
        ({
            let ds0 = old(file).directives@;
            let ds1 = final(file).directives@;
            let base = scan_base(ds0);
            let nm = rep.matched@.len() as int;
            (forall|e: int|
                0 <= e < rep.unmatched@.len() ==> (#[trigger] rep.unmatched@[e] as int)
                    < ds0.len())
        }),
{
    let ghost ds0 = file.directives@;
    let n = file.directives.len();
    let next = scan_next_id(file);
    let ghost base = scan_base(ds0);
    let mut unmatched: Vec<usize> = Vec::new();
    let work = collect_work(file, &mut unmatched);
    let (order, Ghost(invq)) = sort_work(&work);
    let (matched, accounts, next2, Ghost(mpos), Ghost(taken_view)) = match_pairs(
        file,
        &work,
        &order,
        days,
        next,
        &mut unmatched,
        Ghost(ds0),
        Ghost(base),
        Ghost(invq),
    );
    proof {
        assert(next2 as int == base + matched@.len());
        assert(next2 <= 1000000);
        assert(base + matched@.len() <= 1000000);
        reveal(settled);
        if settled(ds0, days as int) && matched@.len() > 0 {
            assert(mutual_pair(ds0, days as int, matched@[0].0 as int, matched@[0].1 as int));
            assert(false);
        }
    }
    let ghost pre = file.directives@;
    append_declarations(file, &accounts);
    proof {
        if matched@.len() == 0 {
            assert(file.directives@ =~= ds0);
        }
        let ds1 = file.directives@;
        let w = days as int;
        let nm = matched@.len() as int;
        assert(accounts@.len() == matched@.len());
        assert(pre.len() == n as int);
        assert forall|mm: int| 0 <= mm < matched@.len() implies opens_sub(
            #[trigger] ds1[n + 2 * mm],
            accounts@[mm].0@,
            accounts@[mm].1@,
        ) && asserts_zero(ds1[n + 2 * mm + 1], accounts@[mm].0@, accounts@[mm].1@) by {
            assert(opens_sub(
                file.directives@[pre.len() + 2 * mm],
                accounts@[mm].0@,
                accounts@[mm].1@,
            ));
            assert(asserts_zero(
                file.directives@[pre.len() + 2 * mm + 1],
                accounts@[mm].0@,
                accounts@[mm].1@,
            ));
        }
        lemma_shape_bridge(ds0, ds1, matched@, accounts@, n as int);
        if base + nm < 1000000 {
            lemma_closing_settled(
                ds0,
                ds1,
                pre,
                matched@,
                accounts@,
                work@,
                taken_view,
                mpos,
                order@,
                invq,
                base,
                w,
                n as int,
                work@.len() as int,
                next2 as int,
            );
        }
    }
    ClosingReport { matched, unmatched }
}


/// Base-ten decomposition of a six-digit id.
proof fn lemma_id_digits(id: int)
    requires
        0 <= id < 1000000,
    ensures
        (id / 100000 % 10) * 100000 + (id / 10000 % 10) * 10000 + (id / 1000 % 10) * 1000 + (id
            / 100 % 10) * 100 + (id / 10 % 10) * 10 + (id % 10) == id,
{
    assert((id / 100000 % 10) * 100000 + (id / 10000 % 10) * 10000 + (id / 1000 % 10) * 1000 + (id
        / 100 % 10) * 100 + (id / 10 % 10) * 10 + (id % 10) == id) by (nonlinear_arith)
        requires
            0 <= id < 1000000,
    ;
}

} // verus!
