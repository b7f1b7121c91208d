//! Booking: resolving each posting's balancing weight, accumulating the
//! transaction's currency bag, and inferring the single elided amount when
//! exactly one currency fails to balance.

use vstd::prelude::*;
use vstd::math::abs;
use crate::bag::Bag;
use crate::number::{
    lemma_padd_abs_bound, lemma_padd_congruence, lemma_pfits_bounded, lemma_pneg_congruence,
    lemma_pow10_pos, lemma_req_abs_bound, lemma_req_trans, lemma_req_zero_iff, padd, pmul, pneg,
    pow10, req, Decimal,
};
use crate::types::{Amount, Currency, Posting, PostingPrice, Transaction};

verus! {

/// Why a transaction could not be booked.
#[derive(Debug, Clone, Copy, PartialEq, Eq, Structural)]
pub enum BookingError {
    /// More than one posting has no amount: a structural error; nothing can
    /// be inferred for any of them.
    TooManyElidedPostings,
    /// One posting is elided but every currency already balances.
    NothingToInfer,
    /// One posting is elided but more than one currency is unbalanced; a
    /// single posting can only absorb one currency's imbalance.
    AmbiguousInference,
    /// No posting is elided and some currency does not sum to zero.
    TransactionDoesNotBalance,
    /// A quantity is too large for the engine's exact arithmetic capacity.
    CapacityExceeded,
}

impl BookingError {
    /// Whether this failure is structural (the transaction's shape is
    /// wrong), as opposed to an imbalance of its quantities.
    pub fn is_structural(&self) -> (r: bool)
        ensures
            r == (*self is TooManyElidedPostings),
    {
        match self {
            BookingError::TooManyElidedPostings => true,
            _ => false,
        }
    }
}

/// The sign factor applied for total prices: the direction of the posting's
/// stated amount (a zero amount counts as negative direction).
pub open spec fn sign_of(v: int) -> int {
    if v > 0 {
        1int
    } else {
        -1int
    }
}

/// The resolver's result when a conversion price applies.
pub open spec fn priced_pair(p: Posting, am: Amount) -> ((int, nat), Seq<char>) {
    match p.price {
        Some(PostingPrice::Unit(pa)) => (pmul(am.value.pair(), pa.value.pair()), pa.currency@),
        Some(PostingPrice::Total(pa)) => (
            (sign_of(am.value.num()) * pa.value.num(), pa.value.scale()),
            pa.currency@,
        ),
        None => (am.value.pair(), am.currency@),
    }
}

/// The resolver's result for a posting with a stated amount: the rational
/// pair it contributes to its transaction's balance, and in which currency.
pub open spec fn weight_pair(p: Posting, am: Amount) -> ((int, nat), Seq<char>) {
    match p.cost {
        Some(c) => match c.amount {
            Some(ca) => (pmul(am.value.pair(), ca.value.pair()), ca.currency@),
            None => priced_pair(p, am),
        },
        None => priced_pair(p, am),
    }
}

/// The resolver's exact result: `None` for an elided posting.
pub open spec fn weight_of(p: Posting) -> Option<((int, nat), Seq<char>)> {
    match p.amount {
        Some(am) => Some(weight_pair(p, am)),
        None => None,
    }
}

/// How many postings have no stated amount.
pub open spec fn elided_count(ps: Seq<Posting>) -> nat
    decreases ps.len(),
{
    if ps.len() == 0 {
        0
    } else {
        elided_count(ps.drop_last()) + (if ps.last().amount is None {
            1nat
        } else {
            0nat
        })
    }
}

/// The exact total contributed to currency `c` by the given postings.
pub open spec fn total_in(ps: Seq<Posting>, c: Seq<char>) -> (int, nat)
    decreases ps.len(),
{
    if ps.len() == 0 {
        (0int, 0nat)
    } else {
        let rest = total_in(ps.drop_last(), c);
        match weight_of(ps.last()) {
            Some(vc) => if vc.1 == c {
                padd(rest, vc.0)
            } else {
                rest
            },
            None => rest,
        }
    }
}

/// Every currency's total is zero.
pub open spec fn all_balanced(ps: Seq<Posting>) -> bool {
    forall|c: Seq<char>| (#[trigger] total_in(ps, c)).0 == 0
}

/// At least two distinct currencies have a non-zero total.
pub open spec fn multi_unbalanced(ps: Seq<Posting>) -> bool {
    exists|c1: Seq<char>, c2: Seq<char>|
        c1 != c2 && (#[trigger] total_in(ps, c1)).0 != 0 && (#[trigger] total_in(ps, c2)).0 != 0
}

/// Exactly one currency, `c`, has a non-zero total.
pub open spec fn unbalanced_exactly(ps: Seq<Posting>, c: Seq<char>) -> bool {
    &&& total_in(ps, c).0 != 0
    &&& forall|c2: Seq<char>| c2 != c ==> (#[trigger] total_in(ps, c2)).0 == 0
}

/// `qs` is `ps` with the single elided posting at `i` filled in: its amount
/// set to the exact negation of the one unbalanced currency's total and
/// marked autocomputed; everything else is untouched.
pub open spec fn booked_elided(ps: Seq<Posting>, qs: Seq<Posting>, i: int, c: Seq<char>) -> bool {
    &&& 0 <= i < ps.len()
    &&& ps[i].amount is None
    &&& unbalanced_exactly(ps, c)
    &&& qs.len() == ps.len()
    &&& (forall|j: int| 0 <= j < ps.len() && j != i ==> qs[j] == ps[j])
    &&& (qs[i].amount matches Some(na) && na.currency@ == c && req(
        na.value.pair(),
        pneg(total_in(ps, c)),
    ))
    &&& qs[i].autocomputed == true
    &&& qs[i].flag == ps[i].flag
    &&& qs[i].account == ps[i].account
    &&& qs[i].cost == ps[i].cost
    &&& qs[i].price == ps[i].price
    &&& qs[i].metadata == ps[i].metadata
}

/// A quantity the booking engine accepts: at most twelve integer digits of
/// mantissa and four decimal places.
pub open spec fn dec_small(d: Decimal) -> bool {
    &&& -1000000000000 <= d.num() <= 1000000000000
    &&& d.scale() <= 4
}

/// Every quantity the resolver reads from this posting is accepted.
pub open spec fn posting_fits(p: Posting) -> bool {
    &&& (p.amount matches Some(a) ==> dec_small(a.value))
    &&& (p.cost matches Some(c) ==> (c.amount matches Some(ca) ==> dec_small(ca.value)))
    &&& (p.price matches Some(PostingPrice::Unit(pa)) ==> dec_small(pa.value))
    &&& (p.price matches Some(PostingPrice::Total(pa)) ==> dec_small(pa.value))
}

/// The whole transaction is within the engine's exact-arithmetic capacity.
pub open spec fn tx_fits(ps: Seq<Posting>) -> bool {
    &&& ps.len() <= 1000
    &&& forall|i: int| 0 <= i < ps.len() ==> posting_fits(#[trigger] ps[i])
}

/// Taking one more posting adds its contribution to the running total.
proof fn lemma_total_step(ps: Seq<Posting>, j: int, c: Seq<char>)
    requires
        0 <= j < ps.len(),
    ensures
        total_in(ps.take(j + 1), c) == (match weight_of(ps[j]) {
            Some(vc) => if vc.1 == c {
                padd(total_in(ps.take(j), c), vc.0)
            } else {
                total_in(ps.take(j), c)
            },
            None => total_in(ps.take(j), c),
        }),
{
    assert(ps.take(j + 1).drop_last() == ps.take(j));
    assert(ps.take(j + 1).last() == ps[j]);
}

/// Taking one more posting counts its elision.
proof fn lemma_elided_step(ps: Seq<Posting>, j: int)
    requires
        0 <= j < ps.len(),
    ensures
        elided_count(ps.take(j + 1)) == elided_count(ps.take(j)) + (if ps[j].amount is None {
            1nat
        } else {
            0nat
        }),
{
    assert(ps.take(j + 1).drop_last() == ps.take(j));
    assert(ps.take(j + 1).last() == ps[j]);
}

/// Whether a quantity is within the capacity the booking engine accepts.
fn dec_small_ex(d: &Decimal) -> (r: bool)
    ensures
        r == dec_small(*d),
{
    let (m, s) = d.parts();
    -1000000000000i128 <= m && m <= 1000000000000i128 && s <= 4
}

/// Whether every quantity the resolver reads from this posting is accepted.
fn posting_fits_ex(p: &Posting) -> (r: bool)
    ensures
        r == posting_fits(*p),
{
    let ok_amount = match &p.amount {
        Some(a) => dec_small_ex(&a.value),
        None => true,
    };
    let ok_cost = match &p.cost {
        Some(c) => match &c.amount {
            Some(ca) => dec_small_ex(&ca.value),
            None => true,
        },
        None => true,
    };
    let ok_price = match &p.price {
        Some(PostingPrice::Unit(pa)) => dec_small_ex(&pa.value),
        Some(PostingPrice::Total(pa)) => dec_small_ex(&pa.value),
        None => true,
    };
    ok_amount && ok_cost && ok_price
}

/// Resolves one posting into the amount it contributes to its transaction's
/// balance: the cost re-expresses a lot in its acquisition currency, a unit
/// price converts per unit, a total price gives the magnitude with the
/// posting's own sign, and otherwise the stated amount stands as is.
/// Returns `None` exactly for an elided posting.
pub fn posting_amount_to_balance(p: &Posting) -> (r: Option<Amount>)
    requires
        posting_fits(*p),
    ensures
        r.is_some() == (p.amount is Some),
        r matches Some(a) ==> (weight_of(*p) matches Some(vc) && req(a.value.pair(), vc.0)
            && a.currency@ == vc.1 && a.value.scale() <= 8 && abs(a.value.num())
            <= 1000000000000000000000000 * pow10(a.value.scale())),
{
    let am = match &p.amount {
        Some(a) => a,
        None => {
            return None;
        },
    };
    proof {
        lemma_pow10_pos(am.value.scale());
    }
    match &p.cost {
        Some(c) => match &c.amount {
            Some(ca) => {
                proof {
                    lemma_mul_small(am.value, ca.value);
                }
                let d = am.value.checked_mul(&ca.value).unwrap();
                proof {
                    lemma_small_product_bound(am.value, ca.value, d);
                }
                return Some(Amount { value: d, currency: ca.currency.clone() });
            },
            None => {
            },
        },
        None => {
        },
    }
    match &p.price {
        Some(PostingPrice::Unit(pa)) => {
            proof {
                lemma_mul_small(am.value, pa.value);
            }
            let d = am.value.checked_mul(&pa.value).unwrap();
            proof {
                lemma_small_product_bound(am.value, pa.value, d);
            }
            Some(Amount { value: d, currency: pa.currency.clone() })
        },
        Some(PostingPrice::Total(pa)) => {
            let d: Decimal = if am.value.is_positive() {
                proof {
                    assert(1int * pa.value.num() == pa.value.num());
                }
                pa.value
            } else {
                proof {
                    assert((-1int) * pa.value.num() == -pa.value.num());
                }
                pa.value.negated()
            };
            proof {
                lemma_pow10_pos(d.scale());
                assert(abs(d.num()) <= 1000000000000000000000000 * pow10(d.scale()))
                    by (nonlinear_arith)
                    requires
                        abs(d.num()) <= 1000000000000,
                        pow10(d.scale()) > 0,
                ;
            }
            Some(Amount { value: d, currency: pa.currency.clone() })
        },
        None => {
            proof {
                assert(abs(am.value.num()) <= 1000000000000000000000000 * pow10(am.value.scale()))
                    by (nonlinear_arith)
                    requires
                        abs(am.value.num()) <= 1000000000000,
                        pow10(am.value.scale()) > 0,
                ;
            }
            Some(am.clone())
        },
    }
}

impl Transaction {
    /// Books the transaction: resolves every posting, accumulates the
    /// currency bag, and either confirms the transaction balances, infers
    /// the single elided posting's amount from the one unbalanced currency,
    /// or reports exactly why neither is possible. A failed booking changes
    /// nothing; a successful one touches only the elided posting (if any)
    /// and the `balanced` mark.
    pub fn book(&mut self) -> (r: Result<(), BookingError>)
        ensures
            ({
                let ps = old(self).postings@;
                &&& (r is Err ==> *final(self) == *old(self))
                &&& (r == Ok::<(), BookingError>(()) ==> {
                    &&& final(self).balanced == true
                    &&& final(self).flag == old(self).flag
                    &&& final(self).payee == old(self).payee
                    &&& final(self).narration == old(self).narration
                    &&& final(self).tags == old(self).tags
                    &&& final(self).links == old(self).links
                })
                &&& ((elided_count(ps) >= 2) <==> r == Err::<(), BookingError>(
                    BookingError::TooManyElidedPostings,
                ))
                &&& ((elided_count(ps) <= 1 && !tx_fits(ps)) <==> r == Err::<(), BookingError>(
                    BookingError::CapacityExceeded,
                ))
                &&& ((elided_count(ps) == 1 && tx_fits(ps) && all_balanced(ps)) <==> r == Err::<
                    (),
                    BookingError,
                >(BookingError::NothingToInfer))
                &&& ((elided_count(ps) == 1 && tx_fits(ps) && multi_unbalanced(ps)) <==> r
                    == Err::<(), BookingError>(BookingError::AmbiguousInference))
                &&& ((elided_count(ps) == 0 && tx_fits(ps) && !all_balanced(ps)) <==> r == Err::<
                    (),
                    BookingError,
                >(BookingError::TransactionDoesNotBalance))
                &&& ((elided_count(ps) == 0 && tx_fits(ps) && all_balanced(ps)) ==> (r == Ok::<
                    (),
                    BookingError,
                >(()) && final(self).postings@ == ps))
                &&& ((elided_count(ps) == 1 && tx_fits(ps) && !all_balanced(ps)
                    && !multi_unbalanced(ps)) ==> (r == Ok::<(), BookingError>(()) && exists|
                    i: int,
                    c: Seq<char>,
                |
                    booked_elided(ps, final(self).postings@, i, c)))
            }),
    {
        let ghost ps = self.postings@;
        let n = self.postings.len();
        let mut i: usize = 0;
        let mut elided_cnt: usize = 0;
        let mut elided_idx: usize = 0;
        while i < n
            invariant
                i <= n,
                n == ps.len(),
                self.postings@ == ps,
                *self == *old(self),
                elided_cnt as nat == elided_count(ps.take(i as int)),
                elided_cnt <= i,
                elided_cnt == 0 ==> forall|j: int|
                    0 <= j < i ==> !((#[trigger] ps[j]).amount is None),
                elided_cnt >= 1 ==> (elided_idx < i && ps[elided_idx as int].amount is None),
                elided_cnt == 1 ==> forall|j: int|
                    0 <= j < i && j != elided_idx ==> !((#[trigger] ps[j]).amount is None),
            decreases n - i,
        {
            proof {
                lemma_elided_step(ps, i as int);
            }
            if self.postings[i].amount.is_none() {
                if elided_cnt == 0 {
                    elided_idx = i;
                }
                elided_cnt = elided_cnt + 1;
            }
            i = i + 1;
        }
        proof {
            assert(ps.take(n as int) =~= ps);
        }
        if elided_cnt >= 2 {
            return Err(BookingError::TooManyElidedPostings);
        }
        if n > 1000 {
            return Err(BookingError::CapacityExceeded);
        }
        let mut i2: usize = 0;
        while i2 < n
            invariant
                i2 <= n,
                n == ps.len(),
                self.postings@ == ps,
                *self == *old(self),
                elided_cnt as nat == elided_count(ps),
                elided_cnt <= 1,
                forall|j: int| 0 <= j < i2 ==> posting_fits(#[trigger] ps[j]),
            decreases n - i2,
        {
            if !posting_fits_ex(&self.postings[i2]) {
                return Err(BookingError::CapacityExceeded);
            }
            i2 = i2 + 1;
        }
        let mut bag = Bag::new();
        let mut j: usize = 0;
        proof {
            assert forall|c: Seq<char>|
                abs((#[trigger] bag.val_pair(c)).0) <= (0int) * 1000000000000000000000000 * pow10(
                    bag.val_pair(c).1,
                ) by {
                assert(bag.val_pair(c) == (0int, 0nat));
                assert((0int) * 1000000000000000000000000 * pow10(0nat) == 0) by (nonlinear_arith);
                assert(abs(0int) == 0);
            }
        }
        while j < n
            invariant
                j <= n,
                n == ps.len(),
                self.postings@ == ps,
                *self == *old(self),
                tx_fits(ps),
                bag.wf(),
                forall|c: Seq<char>|
                    req(#[trigger] bag.val_pair(c), total_in(ps.take(j as int), c)),
                forall|c: Seq<char>|
                    !bag.contains_currency(c) ==> #[trigger] total_in(ps.take(j as int), c) == (
                    0int,
                    0nat,
                ),
                forall|c: Seq<char>| (#[trigger] bag.val_pair(c)).1 <= 8,
                forall|c: Seq<char>|
                    abs((#[trigger] bag.val_pair(c)).0) <= (j as int) * 1000000000000000000000000
                        * pow10(bag.val_pair(c).1),
            decreases n - j,
        {
            let ghost bag0 = bag;
            let ghost t_j = j as int;
            match posting_amount_to_balance(&self.postings[j]) {
                Some(a) => {
                    proof {
                        let cc = a.currency@;
                        if bag.contains_currency(cc) {
                            assert((t_j) * 1000000000000000000000000 + 1000000000000000000000000
                                <= 1000000000000000000000000000000);
                            lemma_pfits_bounded(
                                bag.val_pair(cc),
                                a.value.pair(),
                                t_j * 1000000000000000000000000,
                                1000000000000000000000000,
                            );
                        }
                    }
                    let ok = bag.add_amount(a);
                    proof {
                        assert(ok);
                        let cc = a.currency@;
                        let vc = weight_of(ps[t_j])->0;
                        assert forall|c: Seq<char>|
                            req(#[trigger] bag.val_pair(c), total_in(ps.take(t_j + 1), c)) by {
                            lemma_total_step(ps, t_j, c);
                            if c == cc {
                                lemma_padd_congruence(
                                    bag0.val_pair(c),
                                    total_in(ps.take(t_j), c),
                                    a.value.pair(),
                                    vc.0,
                                );
                                lemma_req_trans(
                                    bag.val_pair(c),
                                    padd(bag0.val_pair(c), a.value.pair()),
                                    padd(total_in(ps.take(t_j), c), vc.0),
                                );
                            } else {
                                assert(bag.val_pair(c) == bag0.val_pair(c));
                            }
                        }
                        assert forall|c: Seq<char>|
                            !bag.contains_currency(c) implies #[trigger] total_in(
                            ps.take(t_j + 1),
                            c,
                        ) == (0int, 0nat) by {
                            lemma_total_step(ps, t_j, c);
                            assert(!bag0.contains_currency(c) && c != cc);
                        }
                        assert forall|c: Seq<char>| (#[trigger] bag.val_pair(c)).1 <= 8 by {
                            if c != cc {
                                assert(bag.val_pair(c) == bag0.val_pair(c));
                            }
                        }
                        assert forall|c: Seq<char>|
                            abs((#[trigger] bag.val_pair(c)).0) <= (t_j + 1)
                                * 1000000000000000000000000 * pow10(bag.val_pair(c).1) by {
                            lemma_pow10_pos(bag.val_pair(c).1);
                            if c == cc {
                                lemma_padd_abs_bound(
                                    bag0.val_pair(c),
                                    a.value.pair(),
                                    bag.val_pair(c),
                                    t_j * 1000000000000000000000000,
                                    1000000000000000000000000,
                                );
                                assert(t_j * 1000000000000000000000000
                                    + 1000000000000000000000000 == (t_j + 1)
                                    * 1000000000000000000000000) by (nonlinear_arith);
                            } else {
                                assert(bag.val_pair(c) == bag0.val_pair(c));
                                assert(t_j * 1000000000000000000000000 * pow10(bag.val_pair(c).1)
                                    <= (t_j + 1) * 1000000000000000000000000 * pow10(
                                    bag.val_pair(c).1,
                                )) by (nonlinear_arith)
                                    requires
                                        pow10(bag.val_pair(c).1) > 0,
                                        t_j >= 0,
                                ;
                            }
                        }
                    }
                },
                None => {
                    proof {
                        assert(weight_of(ps[t_j]) is None);
                        assert forall|c: Seq<char>|
                            req(#[trigger] bag.val_pair(c), total_in(ps.take(t_j + 1), c)) by {
                            lemma_total_step(ps, t_j, c);
                        }
                        assert forall|c: Seq<char>|
                            !bag.contains_currency(c) implies #[trigger] total_in(
                            ps.take(t_j + 1),
                            c,
                        ) == (0int, 0nat) by {
                            lemma_total_step(ps, t_j, c);
                        }
                        assert forall|c: Seq<char>|
                            abs((#[trigger] bag.val_pair(c)).0) <= (t_j + 1)
                                * 1000000000000000000000000 * pow10(bag.val_pair(c).1) by {
                            lemma_pow10_pos(bag.val_pair(c).1);
                            assert(t_j * 1000000000000000000000000 * pow10(bag.val_pair(c).1) <= (
                            t_j + 1) * 1000000000000000000000000 * pow10(bag.val_pair(c).1))
                                by (nonlinear_arith)
                                requires
                                    pow10(bag.val_pair(c).1) > 0,
                                    t_j >= 0,
                            ;
                        }
                    }
                },
            }
            j = j + 1;
        }
        proof {
            assert(ps.take(n as int) =~= ps);
        }
        let coms = bag.commodities();
        let m = coms.len();
        let mut k: usize = 0;
        let mut nz_cnt: usize = 0;
        let mut nz_cur: Option<Currency> = None;
        let mut nz_val: Decimal = Decimal::zero();
        let ghost mut g1: int = 0;
        let ghost mut g2: int = 0;
        while k < m
            invariant
                k <= m,
                m == coms@.len(),
                coms@ == bag.entries(),
                bag.wf(),
                nz_cnt <= k,
                forall|e: int|
                    0 <= e < coms@.len() ==> bag.val_pair((#[trigger] coms@[e]).0@)
                        == coms@[e].1.pair() && bag.contains_currency(coms@[e].0@),
                nz_cnt == 0 ==> forall|e: int|
                    0 <= e < k ==> (#[trigger] coms@[e]).1.num() == 0,
                nz_cnt >= 1 ==> (0 <= g1 < k && coms@[g1].1.num() != 0 && (
                nz_cur matches Some(cu) && cu@ == coms@[g1].0@) && nz_val == coms@[g1].1),
                nz_cnt == 1 ==> forall|e: int|
                    0 <= e < k && e != g1 ==> (#[trigger] coms@[e]).1.num() == 0,
                nz_cnt >= 2 ==> (0 <= g2 < k && g2 != g1 && coms@[g2].1.num() != 0),
            decreases m - k,
        {
            if !coms[k].1.is_zero() {
                if nz_cnt == 0 {
                    nz_cur = Some(coms[k].0.clone());
                    nz_val = coms[k].1;
                    proof {
                        g1 = k as int;
                    }
                } else if nz_cnt == 1 {
                    proof {
                        g2 = k as int;
                    }
                }
                nz_cnt = nz_cnt + 1;
            }
            k = k + 1;
        }
        proof {
            if nz_cnt == 0 {
                assert forall|c: Seq<char>| (#[trigger] total_in(ps, c)).0 == 0 by {
                    lemma_req_zero_iff(bag.val_pair(c), total_in(ps, c));
                    if bag.contains_currency(c) {
                        let e = choose|e: int|
                            0 <= e < bag.entries().len() && (#[trigger] bag.entries()[e]).0@ == c;
                        crate::bag::lemma_entry_val(bag.entries(), e);
                    }
                }
            }
            if nz_cnt >= 1 {
                assert(total_in(ps, coms@[g1].0@).0 != 0) by {
                    lemma_req_zero_iff(bag.val_pair(coms@[g1].0@), total_in(ps, coms@[g1].0@));
                }
                assert(!all_balanced(ps));
            }
            if nz_cnt == 1 {
                let c1 = coms@[g1].0@;
                assert forall|c2: Seq<char>| c2 != c1 implies (#[trigger] total_in(ps, c2)).0
                    == 0 by {
                    lemma_req_zero_iff(bag.val_pair(c2), total_in(ps, c2));
                    if bag.contains_currency(c2) {
                        let e = choose|e: int|
                            0 <= e < bag.entries().len() && (#[trigger] bag.entries()[e]).0@ == c2;
                        crate::bag::lemma_entry_val(bag.entries(), e);
                        assert(e != g1);
                    }
                }
                assert(unbalanced_exactly(ps, c1));
                assert(!multi_unbalanced(ps)) by {
                    if multi_unbalanced(ps) {
                        let (ca, cb) = choose|ca: Seq<char>, cb: Seq<char>|
                            ca != cb && (#[trigger] total_in(ps, ca)).0 != 0 && (#[trigger] total_in(
                                ps,
                                cb,
                            )).0 != 0;
                        assert(ca == c1 || cb == c1);
                        assert(false);
                    }
                }
            }
            if nz_cnt >= 2 {
                let ca = coms@[g1].0@;
                let cb = coms@[g2].0@;
                assert(ca != cb);
                assert(total_in(ps, ca).0 != 0) by {
                    lemma_req_zero_iff(bag.val_pair(ca), total_in(ps, ca));
                }
                assert(total_in(ps, cb).0 != 0) by {
                    lemma_req_zero_iff(bag.val_pair(cb), total_in(ps, cb));
                }
                assert(multi_unbalanced(ps));
            }
        }
        if elided_cnt == 0 {
            if nz_cnt == 0 {
                self.balanced = true;
                Ok(())
            } else {
                Err(BookingError::TransactionDoesNotBalance)
            }
        } else {
            if nz_cnt == 0 {
                Err(BookingError::NothingToInfer)
            } else if nz_cnt >= 2 {
                Err(BookingError::AmbiguousInference)
            } else {
                let ghost c1 = coms@[g1].0@;
                let cu = nz_cur.unwrap();
                let inferred = Amount { value: nz_val.negated(), currency: cu };
                proof {
                    lemma_pneg_congruence(bag.val_pair(c1), total_in(ps, c1));
                }
                let elem = &mut self.postings[elided_idx];
                elem.amount = Some(inferred);
                elem.autocomputed = true;
                self.balanced = true;
                proof {
                    assert(booked_elided(ps, self.postings@, elided_idx as int, c1));
                }
                Ok(())
            }
        }
    }
}

/// Two accepted quantities multiply without exceeding capacity.
proof fn lemma_mul_small(a: Decimal, b: Decimal)
    requires
        dec_small(a),
        dec_small(b),
    ensures
        crate::number::mul_fits(a, b),
{
    assert(-(i128::MAX as int) <= a.num() * b.num() <= i128::MAX as int) by (nonlinear_arith)
        requires
            -1000000000000 <= a.num() <= 1000000000000,
            -1000000000000 <= b.num() <= 1000000000000,
    ;
}

/// The product of two accepted quantities is bounded per unit.
proof fn lemma_small_product_bound(a: Decimal, b: Decimal, d: Decimal)
    requires
        dec_small(a),
        dec_small(b),
        req(d.pair(), pmul(a.pair(), b.pair())),
        d.scale() <= a.scale() + b.scale(),
    ensures
        d.scale() <= 8,
        abs(d.num()) <= 1000000000000000000000000 * pow10(d.scale()),
{
    lemma_pow10_pos(a.scale() + b.scale());
    assert(abs(a.num() * b.num()) <= 1000000000000000000000000) by (nonlinear_arith)
        requires
            -1000000000000 <= a.num() <= 1000000000000,
            -1000000000000 <= b.num() <= 1000000000000,
    ;
    assert(abs(a.num() * b.num()) <= 1000000000000000000000000 * pow10(a.scale() + b.scale()))
        by (nonlinear_arith)
        requires
            abs(a.num() * b.num()) <= 1000000000000000000000000,
            pow10(a.scale() + b.scale()) > 0,
    ;
    lemma_req_abs_bound(d.pair(), pmul(a.pair(), b.pair()), 1000000000000000000000000);
}

} // verus!
