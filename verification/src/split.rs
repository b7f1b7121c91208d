//! Stock-split restatement: rescales every historical reference to one
//! commodity by an exact ratio, co-scaling costs and unit prices inversely
//! so that previously balanced transactions stay balanced.

use vstd::prelude::*;
use crate::number::{is_multiple_within, mul_fits, pmul, req, Decimal};
use crate::types::{BeancountFile, Currency, Directive, DirectiveContent, Posting, PostingPrice};

verus! {

/// Why a split could not be applied.
#[derive(Debug, Clone, Copy, PartialEq, Eq, Structural)]
pub enum SplitError {
    /// Some rescaled quantity has no exact representation in capacity.
    CapacityExceeded,
}

/// `v2 == v * r` exactly.
pub open spec fn scaled_mul(v: Decimal, v2: Decimal, r: (int, nat)) -> bool {
    req(v2.pair(), pmul(v.pair(), r))
}

/// `v2 * r == v` exactly: `v2` is `v` divided by the ratio.
pub open spec fn scaled_div(v: Decimal, v2: Decimal, r: (int, nat)) -> bool {
    req(pmul(v2.pair(), r), v.pair())
}

/// The ratio divides this quantity exactly within capacity.
pub open spec fn div_clean(v: Decimal, r: Decimal) -> bool {
    r.scale() <= v.scale() && is_multiple_within(v.num(), r.num())
}

/// How one posting is rescaled: a posting not denominated in the commodity
/// is untouched; otherwise its amount is multiplied by the ratio while its
/// cost and unit price are divided by it (a total price stays as stated).
pub open spec fn split_posting_rel(p: Posting, q: Posting, c: Seq<char>, r: (int, nat)) -> bool {
    if !(p.amount matches Some(am0) && am0.currency@ == c) {
        q == p
    } else {
        &&& q.flag == p.flag
        &&& q.account == p.account
        &&& q.metadata == p.metadata
        &&& q.autocomputed == p.autocomputed
        &&& (p.amount matches Some(am) && (q.amount matches Some(am2) && am2.currency
            == am.currency && scaled_mul(am.value, am2.value, r)))
        &&& match (p.cost, q.cost) {
            (Some(c1), Some(c2)) => c2.date == c1.date && match (c1.amount, c2.amount) {
                (Some(a1), Some(a2)) => a2.currency == a1.currency && scaled_div(
                    a1.value,
                    a2.value,
                    r,
                ),
                (None, None) => true,
                _ => false,
            },
            (None, None) => true,
            _ => false,
        }
        &&& match (p.price, q.price) {
            (Some(PostingPrice::Unit(a1)), Some(PostingPrice::Unit(a2))) => a2.currency
                == a1.currency && scaled_div(a1.value, a2.value, r),
            (Some(PostingPrice::Total(a1)), Some(PostingPrice::Total(a2))) => a2 == a1,
            (None, None) => true,
            _ => false,
        }
    }
}

/// How one directive is rescaled: balance assertions on the commodity are
/// multiplied, price points quoting it are divided, transactions are
/// rescaled posting by posting, and everything else is untouched.
pub open spec fn split_dir_rel(d: Directive, d2: Directive, c: Seq<char>, r: (int, nat)) -> bool {
    &&& d2.date == d.date
    &&& d2.metadata == d.metadata
    &&& match (d.content, d2.content) {
        (DirectiveContent::Balance(b1), DirectiveContent::Balance(b2)) => b2.account == b1.account
            && (if b1.amount.currency@ == c {
            b2.amount.currency == b1.amount.currency && scaled_mul(
                b1.amount.value,
                b2.amount.value,
                r,
            )
        } else {
            b2.amount == b1.amount
        }),
        (DirectiveContent::Price(p1), DirectiveContent::Price(p2)) => if p1.currency@ == c {
            p2.currency == p1.currency && p2.amount.currency == p1.amount.currency && scaled_div(
                p1.amount.value,
                p2.amount.value,
                r,
            )
        } else {
            p2 == p1
        },
        (DirectiveContent::Transaction(t1), DirectiveContent::Transaction(t2)) => {
            &&& t2.flag == t1.flag
            &&& t2.payee == t1.payee
            &&& t2.narration == t1.narration
            &&& t2.tags == t1.tags
            &&& t2.links == t1.links
            &&& t2.balanced == t1.balanced
            &&& t2.postings@.len() == t1.postings@.len()
            &&& (forall|k: int|
                0 <= k < t1.postings@.len() ==> split_posting_rel(
                    #[trigger] t1.postings@[k],
                    t2.postings@[k],
                    c,
                    r,
                ))
        },
        _ => d2.content == d.content,
    }
}

/// Every rescaling this posting needs stays within capacity.
pub open spec fn posting_clean(p: Posting, c: Seq<char>, r: Decimal) -> bool {
    p.amount matches Some(am) ==> (am.currency@ == c ==> {
        &&& mul_fits(am.value, r)
        &&& (p.cost matches Some(co) ==> (co.amount matches Some(ca) ==> div_clean(ca.value, r)))
        &&& (p.price matches Some(PostingPrice::Unit(pa)) ==> div_clean(pa.value, r))
    })
}

/// Every rescaling this directive needs stays within capacity.
pub open spec fn dir_clean(d: Directive, c: Seq<char>, r: Decimal) -> bool {
    match d.content {
        DirectiveContent::Balance(b) => b.amount.currency@ == c ==> mul_fits(b.amount.value, r),
        DirectiveContent::Price(p) => p.currency@ == c ==> div_clean(p.amount.value, r),
        DirectiveContent::Transaction(t) => forall|k: int|
            0 <= k < t.postings@.len() ==> posting_clean(#[trigger] t.postings@[k], c, r),
        _ => true,
    }
}

/// Rescales one posting in place. A posting whose amount is not denominated
/// in the commodity is untouched; otherwise nothing is changed on failure.
pub fn split_stock_posting(posting: &mut Posting, commodity: &Currency, ratio: Decimal) -> (r:
    Result<(), SplitError>)
    requires
        ratio.num() != 0,
    ensures
        r is Ok ==> split_posting_rel(*old(posting), *final(posting), commodity@, ratio.pair()),
        r is Err ==> *final(posting) == *old(posting),
        posting_clean(*old(posting), commodity@, ratio) ==> r is Ok,
{
    let applies: bool = match &posting.amount {
        Some(am) => am.currency == *commodity,
        None => false,
    };
    if !applies {
        return Ok(());
    }
    let am_value: Decimal = match &posting.amount {
        Some(am) => am.value,
        None => {
            return Ok(());
        },
    };
    let new_amount: Decimal = match am_value.checked_mul(&ratio) {
        Some(v) => v,
        None => {
            return Err(SplitError::CapacityExceeded);
        },
    };
    let new_cost: Option<Decimal> = match &posting.cost {
        Some(co) => match &co.amount {
            Some(ca) => match ca.value.checked_div(&ratio) {
                Some(v) => Some(v),
                None => {
                    return Err(SplitError::CapacityExceeded);
                },
            },
            None => None,
        },
        None => None,
    };
    let new_price: Option<Decimal> = match &posting.price {
        Some(PostingPrice::Unit(pa)) => match pa.value.checked_div(&ratio) {
            Some(v) => Some(v),
            None => {
                return Err(SplitError::CapacityExceeded);
            },
        },
        _ => None,
    };
    match &mut posting.amount {
        Some(am) => {
            am.value = new_amount;
        },
        None => {
        },
    }
    match new_cost {
        Some(v) => {
            match &mut posting.cost {
                Some(co) => {
                    match &mut co.amount {
                        Some(ca) => {
                            ca.value = v;
                        },
                        None => {
                        },
                    }
                },
                None => {
                },
            }
        },
        None => {
        },
    }
    match new_price {
        Some(v) => {
            match &mut posting.price {
                Some(PostingPrice::Unit(pa)) => {
                    pa.value = v;
                },
                _ => {
                },
            }
        },
        None => {
        },
    }
    Ok(())
}

/// Rescales every reference to the commodity across the file by the exact
/// ratio. On success every directive is rescaled as `split_dir_rel` states;
/// on a capacity failure an error is reported and directives after the
/// failing one are untouched, so the caller can discard the file instead of
/// writing it back.
pub fn split_stock(file: &mut BeancountFile, commodity: &Currency, ratio: Decimal) -> (r: Result<
    (),
    SplitError,
>)
    requires
        ratio.num() != 0,
    ensures
        final(file).options == old(file).options,
        final(file).includes == old(file).includes,
        final(file).directives@.len() == old(file).directives@.len(),
        r is Ok ==> forall|i: int|
            0 <= i < old(file).directives@.len() ==> split_dir_rel(
                #[trigger] old(file).directives@[i],
                final(file).directives@[i],
                commodity@,
                ratio.pair(),
            ),
        (forall|i: int|
            0 <= i < old(file).directives@.len() ==> dir_clean(
                #[trigger] old(file).directives@[i],
                commodity@,
                ratio,
            )) ==> r is Ok,
{
    let ghost ds0 = file.directives@;
    let ghost c = commodity@;
    let n = file.directives.len();
    let mut i: usize = 0;
    while i < n
        invariant
            i <= n,
            n == ds0.len(),
            ratio.num() != 0,
            c == commodity@,
            old(file).directives@ == ds0,
            file.options == old(file).options,
            file.includes == old(file).includes,
            file.directives@.len() == n,
            forall|k: int|
                0 <= k < i ==> split_dir_rel(
                    ds0[k],
                    #[trigger] file.directives@[k],
                    c,
                    ratio.pair(),
                ),
            forall|k: int| i <= k < n ==> #[trigger] file.directives@[k] == ds0[k],
        decreases n - i,
    {
        let dref = &mut file.directives[i];
        match &mut dref.content {
            DirectiveContent::Balance(b) => {
                if b.amount.currency == *commodity {
                    match b.amount.value.checked_mul(&ratio) {
                        Some(v) => {
                            b.amount.value = v;
                        },
                        None => {
                            return Err(SplitError::CapacityExceeded);
                        },
                    }
                }
            },
            DirectiveContent::Price(p) => {
                if p.currency == *commodity {
                    match p.amount.value.checked_div(&ratio) {
                        Some(v) => {
                            p.amount.value = v;
                        },
                        None => {
                            return Err(SplitError::CapacityExceeded);
                        },
                    }
                }
            },
            DirectiveContent::Transaction(t) => {
                let np = t.postings.len();
                let ghost ps0 = t.postings@;
                let ghost t_orig = *t;
                let mut j: usize = 0;
                let mut failed: bool = false;
                while !failed && j < np
                    invariant
                        j <= np,
                        np == ps0.len(),
                        t.flag == t_orig.flag,
                        t.payee == t_orig.payee,
                        t.narration == t_orig.narration,
                        t.tags == t_orig.tags,
                        t.links == t_orig.links,
                        t.balanced == t_orig.balanced,
                        ratio.num() != 0,
                        c == commodity@,
                        t.postings@.len() == np,
                        forall|k: int|
                            0 <= k < j ==> split_posting_rel(
                                ps0[k],
                                #[trigger] t.postings@[k],
                                c,
                                ratio.pair(),
                            ),
                        forall|k: int| j <= k < np ==> #[trigger] t.postings@[k] == ps0[k],
                        failed ==> exists|k: int|
                            0 <= k < np && !posting_clean(#[trigger] ps0[k], c, ratio),
                    decreases np - j + (if failed {
                        0int
                    } else {
                        1int
                    }),
                {
                    let pr = &mut t.postings[j];
                    match split_stock_posting(pr, commodity, ratio) {
                        Ok(()) => {
                            j = j + 1;
                        },
                        Err(_) => {
                            failed = true;
                        },
                    }
                }
                if failed {
                    proof {
                        assert(!dir_clean(ds0[i as int], c, ratio));
                    }
                    return Err(SplitError::CapacityExceeded);
                }
            },
            _ => {
            },
        }
        proof {
            let dd = ds0[i as int];
            let d2 = file.directives@[i as int];
            assert(d2.date == dd.date);
            assert(d2.metadata == dd.metadata);
            if dd.content is Transaction {
                assert(d2.content is Transaction);
                let t1 = dd.content->Transaction_0;
                let t2 = d2.content->Transaction_0;
                assert(t2.flag == t1.flag && t2.payee == t1.payee && t2.narration == t1.narration);
                assert(t2.tags == t1.tags && t2.links == t1.links && t2.balanced == t1.balanced);
                assert(t2.postings@.len() == t1.postings@.len());
                assert(forall|k: int|
                    0 <= k < t1.postings@.len() ==> split_posting_rel(
                        #[trigger] t1.postings@[k],
                        t2.postings@[k],
                        c,
                        ratio.pair(),
                    ));
            }
            assert(split_dir_rel(dd, d2, c, ratio.pair()));
        }
        i = i + 1;
    }
    Ok(())
}

} // verus!
