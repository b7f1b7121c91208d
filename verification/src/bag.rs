//! Bag of currencies: accumulates signed exact quantities keyed by currency.
//! The bag is the substrate every balancing check is phrased over; its model
//! is the map from a currency's text to the rational pair stored for it.

use vstd::prelude::*;
use crate::number::{padd, pfits, pow10, req, Decimal};
use crate::types::{Amount, Currency};

verus! {

/// No two entries carry the same currency.
pub open spec fn keys_unique(s: Seq<(Currency, Decimal)>) -> bool {
    forall|i: int, j: int|
        0 <= i < j < s.len() ==> (#[trigger] s[i]).0@ != (#[trigger] s[j]).0@
}

/// Whether some entry carries currency `c`.
pub open spec fn seq_has(s: Seq<(Currency, Decimal)>, c: Seq<char>) -> bool {
    exists|i: int| 0 <= i < s.len() && (#[trigger] s[i]).0@ == c
}

/// The rational pair stored for currency `c`: the entry's value, or zero
/// when no entry carries `c`.
pub open spec fn seq_val(s: Seq<(Currency, Decimal)>, c: Seq<char>) -> (int, nat) {
    if seq_has(s, c) {
        let i = choose|i: int| 0 <= i < s.len() && (#[trigger] s[i]).0@ == c;
        s[i].1.pair()
    } else {
        (0int, 0nat)
    }
}

/// The unique entry holding currency `c` determines the stored value.
pub proof fn lemma_entry_val(s: Seq<(Currency, Decimal)>, i: int)
    requires
        keys_unique(s),
        0 <= i < s.len(),
    ensures
        seq_has(s, s[i].0@),
        seq_val(s, s[i].0@) == s[i].1.pair(),
{
    assert(seq_has(s, s[i].0@));
    let j = choose|j: int| 0 <= j < s.len() && (#[trigger] s[j]).0@ == s[i].0@;
    if j != i {
        assert(false);
    }
}

/// Appending an entry with a fresh key changes only that key's value.
pub proof fn lemma_seq_val_push(s: Seq<(Currency, Decimal)>, e: (Currency, Decimal))
    requires
        keys_unique(s),
        !seq_has(s, e.0@),
    ensures
        keys_unique(s.push(e)),
        forall|c: Seq<char>|
            #[trigger] seq_val(s.push(e), c) == (if c == e.0@ {
                e.1.pair()
            } else {
                seq_val(s, c)
            }),
        forall|c: Seq<char>|
            #[trigger] seq_has(s.push(e), c) == (seq_has(s, c) || c == e.0@),
{
    let s2 = s.push(e);
    assert forall|i: int, j: int| 0 <= i < j < s2.len() implies (#[trigger] s2[i]).0@ != (
    #[trigger] s2[j]).0@ by {
        if j == s.len() {
            assert(s2[i] == s[i]);
            assert(!seq_has(s, e.0@));
            if s[i].0@ == e.0@ {
                assert(seq_has(s, e.0@));
            }
        }
    }
    assert forall|c: Seq<char>| #[trigger] seq_has(s2, c) == (seq_has(s, c) || c == e.0@) by {
        if seq_has(s, c) {
            let i = choose|i: int| 0 <= i < s.len() && (#[trigger] s[i]).0@ == c;
            assert(s2[i] == s[i]);
            assert(seq_has(s2, c));
        }
        if c == e.0@ {
            assert(s2[s.len() as int] == e);
            assert(seq_has(s2, c));
        }
        if seq_has(s2, c) && c != e.0@ {
            let i = choose|i: int| 0 <= i < s2.len() && (#[trigger] s2[i]).0@ == c;
            assert(i < s.len());
            assert(s2[i] == s[i]);
            assert(seq_has(s, c));
        }
    }
    assert forall|c: Seq<char>|
        #[trigger] seq_val(s2, c) == (if c == e.0@ {
            e.1.pair()
        } else {
            seq_val(s, c)
        }) by {
        if c == e.0@ {
            assert(seq_has(s2, c));
            let i = choose|i: int| 0 <= i < s2.len() && (#[trigger] s2[i]).0@ == c;
            if i < s.len() {
                assert(s2[i] == s[i]);
                assert(seq_has(s, c));
            }
            assert(s2[i] == e);
        } else {
            if seq_has(s2, c) {
                let i = choose|i: int| 0 <= i < s2.len() && (#[trigger] s2[i]).0@ == c;
                assert(i < s.len());
                assert(s2[i] == s[i]);
                let j = choose|j: int| 0 <= j < s.len() && (#[trigger] s[j]).0@ == c;
                if i != j {
                    assert(false);
                }
            }
        }
    }
}

/// Replacing the value stored at one entry changes only that key's value.
pub proof fn lemma_seq_val_update(s: Seq<(Currency, Decimal)>, i: int, d: Decimal)
    requires
        keys_unique(s),
        0 <= i < s.len(),
    ensures
        keys_unique(s.update(i, (s[i].0, d))),
        forall|c: Seq<char>|
            #[trigger] seq_val(s.update(i, (s[i].0, d)), c) == (if c == s[i].0@ {
                d.pair()
            } else {
                seq_val(s, c)
            }),
        forall|c: Seq<char>|
            #[trigger] seq_has(s.update(i, (s[i].0, d)), c) == seq_has(s, c),
{
    let s2 = s.update(i, (s[i].0, d));
    assert(s2.len() == s.len());
    assert(forall|k: int| 0 <= k < s.len() ==> (#[trigger] s2[k]).0@ == s[k].0@);
    assert forall|c: Seq<char>| #[trigger] seq_has(s2, c) == seq_has(s, c) by {
        if seq_has(s, c) {
            let k = choose|k: int| 0 <= k < s.len() && (#[trigger] s[k]).0@ == c;
            assert(s2[k].0@ == c);
        }
        if seq_has(s2, c) {
            let k = choose|k: int| 0 <= k < s2.len() && (#[trigger] s2[k]).0@ == c;
            assert(s[k].0@ == c);
        }
    }
    assert forall|c: Seq<char>|
        #[trigger] seq_val(s2, c) == (if c == s[i].0@ {
            d.pair()
        } else {
            seq_val(s, c)
        }) by {
        if seq_has(s2, c) {
            let k = choose|k: int| 0 <= k < s2.len() && (#[trigger] s2[k]).0@ == c;
            if c == s[i].0@ {
                if k != i {
                    assert(s[k].0@ == s[i].0@);
                    assert(false);
                }
                assert(s2[k] == (s[i].0, d));
            } else {
                assert(k != i);
                assert(s2[k] == s[k]);
                let j = choose|j: int| 0 <= j < s.len() && (#[trigger] s[j]).0@ == c;
                if j != k {
                    assert(false);
                }
            }
        } else {
            assert(!seq_has(s, c));
            if c == s[i].0@ {
                assert(s2[i].0@ == c);
                assert(seq_has(s2, c));
            }
        }
    }
}

/// Finds the entry carrying the given currency, if any.
fn find_idx(v: &Vec<(Currency, Decimal)>, c: &Currency) -> (r: Option<usize>)
    ensures
        r matches Some(i) ==> i < v@.len() && v@[i as int].0@ == c@,
        r.is_none() ==> !seq_has(v@, c@),
{
    let n = v.len();
    let mut i: usize = 0;
    while i < n
        invariant
            i <= n,
            n == v@.len(),
            forall|j: int| 0 <= j < i ==> (#[trigger] v@[j]).0@ != c@,
        decreases n - i,
    {
        if v[i].0 == *c {
            return Some(i);
        }
        i = i + 1;
    }
    None
}

/// Accumulates signed exact quantities keyed by currency; each currency has
/// at most one entry.
#[derive(Debug, Clone)]
pub struct Bag {
    currencies: Vec<(Currency, Decimal)>,
}

impl Bag {
    /// The entry list, in insertion order.
    pub closed spec fn entries(self) -> Seq<(Currency, Decimal)> {
        self.currencies@
    }

    /// Well-formedness: currencies are unique keys.
    pub open spec fn wf(self) -> bool {
        keys_unique(self.entries())
    }

    /// Whether the bag holds an entry for currency `c`.
    pub open spec fn contains_currency(self, c: Seq<char>) -> bool {
        seq_has(self.entries(), c)
    }

    /// The rational pair accumulated for currency `c` (zero when absent).
    pub open spec fn val_pair(self, c: Seq<char>) -> (int, nat) {
        seq_val(self.entries(), c)
    }

    /// Returns a new empty bag of currencies.
    pub fn new() -> (r: Bag)
        ensures
            r.wf(),
            r.entries().len() == 0,
            forall|c: Seq<char>| !r.contains_currency(c),
            forall|c: Seq<char>| #[trigger] r.val_pair(c) == (0int, 0nat),
    {
        Bag { currencies: Vec::new() }
    }

    /// Returns true if the bag is empty or every stored quantity is zero.
    pub fn is_zero(&self) -> (r: bool)
        requires
            self.wf(),
        ensures
            r == forall|c: Seq<char>| (#[trigger] self.val_pair(c)).0 == 0,
    {
        let n = self.currencies.len();
        let mut i: usize = 0;
        while i < n
            invariant
                i <= n,
                n == self.entries().len(),
                self.wf(),
                forall|j: int| 0 <= j < i ==> (#[trigger] self.entries()[j]).1.num() == 0,
            decreases n - i,
        {
            if !self.currencies[i].1.is_zero() {
                proof {
                    lemma_entry_val(self.entries(), i as int);
                    assert(self.val_pair(self.entries()[i as int].0@).0 != 0);
                }
                return false;
            }
            i = i + 1;
        }
        proof {
            assert forall|c: Seq<char>| (#[trigger] self.val_pair(c)).0 == 0 by {
                if seq_has(self.entries(), c) {
                    let j = choose|j: int|
                        0 <= j < self.entries().len() && (#[trigger] self.entries()[j]).0@ == c;
                    assert(self.entries()[j].1.num() == 0);
                }
            }
        }
        true
    }

    /// Removes entries whose quantity is zero; every currency's value is
    /// unchanged.
    pub fn trim(&mut self)
        requires
            old(self).wf(),
        ensures
            final(self).wf(),
            forall|c: Seq<char>| #[trigger] final(self).val_pair(c) == old(self).val_pair(c),
            forall|i: int|
                0 <= i < final(self).entries().len() ==> (#[trigger] final(self).entries()[i]).1.num()
                    != 0,
    {
        let ghost s0 = self.entries();
        let n = self.currencies.len();
        let mut out: Vec<(Currency, Decimal)> = Vec::new();
        let mut i: usize = 0;
        while i < n
            invariant
                i <= n,
                n == s0.len(),
                self.entries() == s0,
                keys_unique(s0),
                keys_unique(out@),
                forall|c: Seq<char>| #[trigger] seq_has(out@, c) ==> seq_has(s0, c),
                forall|c: Seq<char>| #[trigger] seq_val(out@, c) == seq_val(s0.take(i as int), c),
                forall|k: int| 0 <= k < out@.len() ==> (#[trigger] out@[k]).1.num() != 0,
            decreases n - i,
        {
            let ghost pre = out@;
            proof {
                assert(s0.take(i as int + 1) == s0.take(i as int).push(s0[i as int]));
                assert(keys_unique(s0.take(i as int))) by {
                    assert(forall|k: int|
                        0 <= k < i ==> (#[trigger] s0.take(i as int)[k]) == s0[k]);
                }
                assert(!seq_has(s0.take(i as int), s0[i as int].0@)) by {
                    if seq_has(s0.take(i as int), s0[i as int].0@) {
                        let k = choose|k: int|
                            0 <= k < i && (#[trigger] s0.take(i as int)[k]).0@ == s0[i as int].0@;
                        assert(s0[k].0@ == s0[i as int].0@);
                        assert(false);
                    }
                }
                lemma_seq_val_push(s0.take(i as int), s0[i as int]);
            }
            let quantity: Decimal = self.currencies[i].1;
            let quantity_is_zero = quantity.is_zero();
            if !quantity_is_zero {
                out.push((self.currencies[i].0.clone(), quantity));
                proof {
                    assert(!seq_has(pre, s0[i as int].0@)) by {
                        if seq_has(pre, s0[i as int].0@) {
                            assert(seq_val(pre, s0[i as int].0@) == seq_val(
                                s0.take(i as int),
                                s0[i as int].0@,
                            ));
                            let k = choose|k: int|
                                0 <= k < pre.len() && (#[trigger] pre[k]).0@ == s0[i as int].0@;
                            lemma_entry_val(pre, k);
                            assert(pre[k].1.num() != 0);
                            assert(seq_val(s0.take(i as int), s0[i as int].0@) == (0int, 0nat));
                        }
                    }
                    lemma_seq_val_push(pre, (s0[i as int].0, s0[i as int].1));
                    assert(out@ == pre.push((s0[i as int].0, s0[i as int].1)));
                }
            } else {
                proof {
                    assert(s0[i as int].1.pair() == (0int, 0nat));
                }
            }
            i = i + 1;
        }
        proof {
            assert(s0.take(n as int) == s0);
        }
        self.currencies = out;
    }

    /// The list of commodities and quantities currently stored in the bag.
    pub fn commodities(&self) -> (r: &Vec<(Currency, Decimal)>)
        requires
            self.wf(),
        ensures
            r@ == self.entries(),
            forall|i: int|
                0 <= i < r@.len() ==> self.val_pair((#[trigger] r@[i]).0@) == r@[i].1.pair()
                    && self.contains_currency(r@[i].0@),
    {
        proof {
            assert forall|i: int|
                0 <= i < self.entries().len() implies self.val_pair(
                (#[trigger] self.entries()[i]).0@,
            ) == self.entries()[i].1.pair() && self.contains_currency(self.entries()[i].0@) by {
                lemma_entry_val(self.entries(), i);
            }
        }
        &self.currencies
    }

    /// Merges one amount into the entry for its currency, creating the entry
    /// at zero first when missing. Fails (without changing anything) exactly
    /// when the exact sum would exceed the mantissa capacity.
    pub fn add_amount(&mut self, a: Amount) -> (ok: bool)
        requires
            old(self).wf(),
        ensures
            final(self).wf(),
            ok == (old(self).contains_currency(a.currency@) ==> pfits(
                old(self).val_pair(a.currency@),
                a.value.pair(),
            )),
            ok ==> req(
                final(self).val_pair(a.currency@),
                padd(old(self).val_pair(a.currency@), a.value.pair()),
            ),
            ok ==> (final(self).val_pair(a.currency@)).1 <= (if old(self).val_pair(
                a.currency@,
            ).1 >= a.value.scale() {
                old(self).val_pair(a.currency@).1
            } else {
                a.value.scale()
            }),
            ok ==> forall|c: Seq<char>|
                c != a.currency@ ==> #[trigger] final(self).val_pair(c) == old(self).val_pair(c),
            ok ==> forall|c: Seq<char>|
                #[trigger] final(self).contains_currency(c) == (old(self).contains_currency(c)
                    || c == a.currency@),
            !ok ==> final(self).entries() == old(self).entries(),
    {
        let ghost s0 = self.entries();
        match find_idx(&self.currencies, &a.currency) {
            Some(i) => {
                proof {
                    lemma_entry_val(s0, i as int);
                }
                let cur: Decimal = self.currencies[i].1;
                match cur.checked_add(&a.value) {
                    Some(d) => {
                        let key = self.currencies[i].0.clone();
                        self.currencies[i] = (key, d);
                        proof {
                            assert(self.entries() == s0.update(i as int, (s0[i as int].0, d)));
                            lemma_seq_val_update(s0, i as int, d);
                        }
                        true
                    },
                    None => false,
                }
            },
            None => {
                proof {
                    lemma_seq_val_push(s0, (a.currency, a.value));
                    crate::number::lemma_pow10_zero();
                }
                self.currencies.push((a.currency, a.value));
                true
            },
        }
    }

    /// Pairwise merge of another bag into this one. Fails (without changing
    /// anything) exactly when some shared currency's exact sum would exceed
    /// the mantissa capacity.
    pub fn add_bag(&mut self, other: &Bag) -> (ok: bool)
        requires
            old(self).wf(),
            other.wf(),
        ensures
            final(self).wf(),
            ok == (forall|c: Seq<char>|
                other.contains_currency(c) && old(self).contains_currency(c) ==> pfits(
                    old(self).val_pair(c),
                    #[trigger] other.val_pair(c),
                )),
            ok ==> forall|c: Seq<char>|
                req(
                    #[trigger] final(self).val_pair(c),
                    padd(old(self).val_pair(c), other.val_pair(c)),
                ),
            ok ==> forall|c: Seq<char>|
                #[trigger] final(self).contains_currency(c) == (old(self).contains_currency(c)
                    || other.contains_currency(c)),
            !ok ==> final(self).entries() == old(self).entries(),
    {
        let ghost s0 = self.entries();
        let ghost so = other.entries();
        let n = other.currencies.len();
        let mut i: usize = 0;
        while i < n
            invariant
                i <= n,
                n == so.len(),
                so == other.entries(),
                self.entries() == s0,
                keys_unique(s0),
                keys_unique(so),
                forall|j: int|
                    0 <= j < i ==> (seq_has(s0, (#[trigger] so[j]).0@) ==> pfits(
                        seq_val(s0, so[j].0@),
                        so[j].1.pair(),
                    )),
            decreases n - i,
        {
            match find_idx(&self.currencies, &other.currencies[i].0) {
                Some(k) => {
                    proof {
                        lemma_entry_val(s0, k as int);
                        lemma_entry_val(so, i as int);
                    }
                    let cur: Decimal = self.currencies[k].1;
                    let can = cur.checked_add(&other.currencies[i].1);
                    if can.is_none() {
                        proof {
                            assert(other.contains_currency(so[i as int].0@));
                            assert(old(self).contains_currency(so[i as int].0@));
                            assert(!pfits(
                                old(self).val_pair(so[i as int].0@),
                                other.val_pair(so[i as int].0@),
                            ));
                        }
                        return false;
                    }
                },
                None => {
                },
            }
            i = i + 1;
        }
        proof {
            assert forall|c: Seq<char>|
                other.contains_currency(c) && old(self).contains_currency(c) implies pfits(
                old(self).val_pair(c),
                #[trigger] other.val_pair(c),
            ) by {
                let j = choose|j: int| 0 <= j < so.len() && (#[trigger] so[j]).0@ == c;
                lemma_entry_val(so, j);
            }
        }
        let mut k: usize = 0;
        while k < n
            invariant
                k <= n,
                n == so.len(),
                so == other.entries(),
                old(self).entries() == s0,
                self.wf(),
                keys_unique(s0),
                keys_unique(so),
                forall|c: Seq<char>|
                    seq_has(s0, c) && seq_has(so, c) ==> pfits(
                        seq_val(s0, c),
                        #[trigger] seq_val(so, c),
                    ),
                forall|c: Seq<char>|
                    seq_has(so.take(k as int), c) ==> req(
                        #[trigger] self.val_pair(c),
                        padd(seq_val(s0, c), seq_val(so, c)),
                    ),
                forall|c: Seq<char>|
                    !seq_has(so.take(k as int), c) ==> #[trigger] self.val_pair(c) == seq_val(
                        s0,
                        c,
                    ),
                forall|c: Seq<char>|
                    #[trigger] self.contains_currency(c) == (seq_has(s0, c) || seq_has(
                        so.take(k as int),
                        c,
                    )),
            decreases n - k,
        {
            let ghost c_k = so[k as int].0@;
            let a = Amount {
                value: other.currencies[k].1,
                currency: other.currencies[k].0.clone(),
            };
            proof {
                lemma_entry_val(so, k as int);
                assert(!seq_has(so.take(k as int), c_k)) by {
                    if seq_has(so.take(k as int), c_k) {
                        let j = choose|j: int|
                            0 <= j < k && (#[trigger] so.take(k as int)[j]).0@ == c_k;
                        assert(so[j].0@ == c_k);
                        assert(false);
                    }
                }
            }
            let ok2 = self.add_amount(a);
            proof {
                assert(ok2);
                assert(so.take(k as int + 1) == so.take(k as int).push(so[k as int]));
                assert forall|c: Seq<char>| #[trigger]
                    seq_has(so.take(k as int + 1), c) == (seq_has(so.take(k as int), c) || c
                        == c_k) by {
                    if seq_has(so.take(k as int + 1), c) {
                        let j = choose|j: int|
                            0 <= j <= k && (#[trigger] so.take(k as int + 1)[j]).0@ == c;
                        if j < k {
                            assert(so.take(k as int)[j].0@ == c);
                        }
                    }
                    if seq_has(so.take(k as int), c) {
                        let j = choose|j: int|
                            0 <= j < k && (#[trigger] so.take(k as int)[j]).0@ == c;
                        assert(so.take(k as int + 1)[j].0@ == c);
                    }
                    if c == c_k {
                        assert(so.take(k as int + 1)[k as int].0@ == c);
                    }
                }
            }
            k = k + 1;
        }
        proof {
            assert(so.take(n as int) == so);
            crate::number::lemma_pow10_zero();
            assert forall|c: Seq<char>|
                req(#[trigger] self.val_pair(c), padd(old(self).val_pair(c), other.val_pair(c)))
                by {
                if seq_has(so, c) {
                    assert(seq_has(so.take(n as int), c));
                    assert(req(self.val_pair(c), padd(seq_val(s0, c), seq_val(so, c))));
                } else {
                    assert(!seq_has(so.take(n as int), c));
                    assert(self.val_pair(c) == seq_val(s0, c));
                    assert(seq_val(so, c) == (0int, 0nat));
                    let x = seq_val(s0, c);
                    assert(padd(x, (0int, 0nat)) == (x.0 * 1 + 0 * pow10(x.1), x.1));
                    assert(x.0 * pow10(x.1) == (x.0 * 1 + 0 * pow10(x.1)) * pow10(x.1))
                        by (nonlinear_arith);
                    assert(req(x, padd(x, (0int, 0nat))));
                }
            }
        }
        true
    }
}

/// Two bags hold, for every currency, the same exact value.
pub open spec fn bag_equiv(a: Bag, b: Bag) -> bool {
    forall|c: Seq<char>| req(#[trigger] a.val_pair(c), b.val_pair(c))
}

/// `r` holds, for every currency, the exact sum of `a`'s and `b`'s values.
pub open spec fn bag_sum_holds(r: Bag, a: Bag, b: Bag) -> bool {
    forall|c: Seq<char>| req(#[trigger] r.val_pair(c), padd(a.val_pair(c), b.val_pair(c)))
}

/// Bag addition is commutative: merging two bags in either order yields,
/// for every currency, the same exact value.
pub proof fn lemma_bag_sum_commutes(a: Bag, b: Bag, r1: Bag, r2: Bag)
    requires
        bag_sum_holds(r1, a, b),
        bag_sum_holds(r2, b, a),
    ensures
        bag_equiv(r1, r2),
{
    assert forall|c: Seq<char>| req(#[trigger] r1.val_pair(c), r2.val_pair(c)) by {
        crate::number::lemma_padd_comm(a.val_pair(c), b.val_pair(c));
        crate::number::lemma_req_sym(r2.val_pair(c), padd(b.val_pair(c), a.val_pair(c)));
        crate::number::lemma_req_trans(
            r1.val_pair(c),
            padd(a.val_pair(c), b.val_pair(c)),
            r2.val_pair(c),
        );
    }
}

/// Bag addition is associative: `(a + b) + c` and `a + (b + c)` yield, for
/// every currency, the same exact value.
pub proof fn lemma_bag_sum_associative(
    a: Bag,
    b: Bag,
    c: Bag,
    ab: Bag,
    bc: Bag,
    r1: Bag,
    r2: Bag,
)
    requires
        bag_sum_holds(ab, a, b),
        bag_sum_holds(r1, ab, c),
        bag_sum_holds(bc, b, c),
        bag_sum_holds(r2, a, bc),
    ensures
        bag_equiv(r1, r2),
{
    assert forall|cc: Seq<char>| req(#[trigger] r1.val_pair(cc), r2.val_pair(cc)) by {
        let pa = a.val_pair(cc);
        let pb = b.val_pair(cc);
        let pc = c.val_pair(cc);
        let pab = ab.val_pair(cc);
        let pbc = bc.val_pair(cc);
        crate::number::lemma_req_refl(pc);
        crate::number::lemma_req_refl(pa);
        crate::number::lemma_padd_congruence(pab, padd(pa, pb), pc, pc);
        crate::number::lemma_padd_assoc(pa, pb, pc);
        crate::number::lemma_req_sym(pbc, padd(pb, pc));
        crate::number::lemma_padd_congruence(pa, pa, padd(pb, pc), pbc);
        crate::number::lemma_req_trans(r1.val_pair(cc), padd(pab, pc), padd(padd(pa, pb), pc));
        crate::number::lemma_req_trans(r1.val_pair(cc), padd(pa, padd(pb, pc)), padd(pa, pbc));
        crate::number::lemma_req_sym(r2.val_pair(cc), padd(pa, pbc));
        crate::number::lemma_req_trans(r1.val_pair(cc), padd(pa, pbc), r2.val_pair(cc));
    }
}

/// Adding the same three bags grouped as `(a + b) + c` or as `(a + c) + b`
/// yields, for every currency, the same exact value.
pub proof fn lemma_bag_sum_exchange(
    a: Bag,
    b: Bag,
    c: Bag,
    ab: Bag,
    ac: Bag,
    r1: Bag,
    r2: Bag,
)
    requires
        bag_sum_holds(ab, a, b),
        bag_sum_holds(r1, ab, c),
        bag_sum_holds(ac, a, c),
        bag_sum_holds(r2, ac, b),
    ensures
        bag_equiv(r1, r2),
{
    assert forall|cc: Seq<char>| req(#[trigger] r1.val_pair(cc), r2.val_pair(cc)) by {
        let pa = a.val_pair(cc);
        let pb = b.val_pair(cc);
        let pc = c.val_pair(cc);
        let pab = ab.val_pair(cc);
        let pac = ac.val_pair(cc);
        crate::number::lemma_req_refl(pc);
        crate::number::lemma_req_refl(pb);
        crate::number::lemma_padd_congruence(pab, padd(pa, pb), pc, pc);
        crate::number::lemma_padd_congruence(pac, padd(pa, pc), pb, pb);
        crate::number::lemma_padd_assoc(pa, pb, pc);
        crate::number::lemma_padd_assoc(pa, pc, pb);
        crate::number::lemma_padd_comm(pb, pc);
        crate::number::lemma_req_trans(r1.val_pair(cc), padd(pab, pc), padd(padd(pa, pb), pc));
        crate::number::lemma_req_sym(r2.val_pair(cc), padd(pac, pb));
        crate::number::lemma_req_trans(r2.val_pair(cc), padd(pac, pb), padd(padd(pa, pc), pb));
        crate::number::lemma_req_sym(r2.val_pair(cc), padd(padd(pa, pc), pb));
        crate::number::lemma_req_trans(r1.val_pair(cc), padd(padd(pa, pc), pb), r2.val_pair(cc));
    }
}

} // verus!
