use crate::basis::builders::{find_key, find_term, lemma_find_key};
use crate::basis::product::{get_base, get_base_spec};
use crate::basis::structs::{
    all_wf, lemma_models, lemma_models_push, lemma_with_frac_wf, models, Basis, SpecBasis,
};
use crate::math::fraction::{neg_wrap, Fraction};
use vstd::prelude::*;

verus! {

broadcast use vstd::std_specs::vec::group_vec_axioms;

/// Whether the fraction is the integer `i` (denominator 1).
pub open spec fn frac_is(f: Fraction, i: i32) -> bool {
    f.d == 1 && f.n == i
}

/// Whether some factor of `s` is zero: the number 0, or a coefficient equal to 0.
pub open spec fn has_zero(s: Seq<SpecBasis>) -> bool {
    exists|j: int| 0 <= j < s.len() && ((#[trigger] s[j]).is_num(0) || frac_is(s[j].coef(), 0))
}

/// The entry under which a factor's exponent is counted: none for a number, which only
/// scales the coefficient; the base of a power (coefficient 1) with its exponent; any
/// other factor (coefficient 1) with exponent 1.
pub open spec fn factor_key(b: SpecBasis) -> Option<(SpecBasis, i32, i32)> {
    if b.is_frac(b.coef()) {
        None
    } else {
        match get_base_spec(b) {
            Some(t) => Some((t.0.with_int(1), t.1, t.2)),
            None => Some((b.with_int(1), 1i32, 1i32)),
        }
    }
}

/// Adds `n/d` to the exponent of `key`, which enters at the end with `0/0 + n/d` when
/// it is not yet in the table.
pub open spec fn upsert(
    keys: Seq<SpecBasis>,
    vals: Seq<Fraction>,
    key: SpecBasis,
    n: i32,
    d: i32,
) -> (Seq<SpecBasis>, Seq<Fraction>) {
    let idx = find_key(keys, key);
    if idx < 0 {
        (keys.push(key), vals.push(Fraction { n: 0, d: 0 }.plus_spec(n, d)))
    } else {
        (keys, vals.update(idx, vals[idx].plus_spec(n, d)))
    }
}

/// The running coefficient of a product with the exponent tables of its numerator and
/// denominator: each key beside its exponent.
#[verifier::ext_equal]
pub struct Tally {
    pub coef: Fraction,
    pub nkeys: Seq<SpecBasis>,
    pub nvals: Seq<Fraction>,
    pub dkeys: Seq<SpecBasis>,
    pub dvals: Seq<Fraction>,
}

/// The factors of `num` counted into a table: each factor's coefficient multiplies the
/// running coefficient, and its exponent is added under its key.
pub open spec fn num_tally(c: Fraction, num: Seq<SpecBasis>) -> Tally
    decreases num.len(),
{
    if num.len() == 0 {
        Tally { coef: c, nkeys: Seq::empty(), nvals: Seq::empty(), dkeys: Seq::empty(), dvals: Seq::empty() }
    } else {
        let t = num_tally(c, num.drop_last());
        let f = num.last();
        let coef = t.coef.times_spec(f.coef().n, f.coef().d);
        match factor_key(f) {
            None => Tally { coef, ..t },
            Some(k) => {
                let u = upsert(t.nkeys, t.nvals, k.0, k.1, k.2);
                Tally { coef, nkeys: u.0, nvals: u.1, ..t }
            },
        }
    }
}

/// The divisors of `den` counted into the table `t0`: each divisor's coefficient divides
/// the running coefficient; its exponent is taken off the numerator's entry for its key
/// when there is one, and added to the denominator's otherwise.
pub open spec fn den_tally(t0: Tally, den: Seq<SpecBasis>) -> Tally
    decreases den.len(),
{
    if den.len() == 0 {
        t0
    } else {
        let t = den_tally(t0, den.drop_last());
        let f = den.last();
        let coef = t.coef.times_spec(f.coef().d, f.coef().n);
        match factor_key(f) {
            None => Tally { coef, ..t },
            Some(k) => {
                let idx = find_key(t.nkeys, k.0);
                if idx >= 0 {
                    Tally {
                        coef,
                        nvals: t.nvals.update(idx, t.nvals[idx].plus_spec(neg_wrap(k.1), k.2)),
                        ..t
                    }
                } else {
                    let u = upsert(t.dkeys, t.dvals, k.0, k.1, k.2);
                    Tally { coef, dkeys: u.0, dvals: u.1, ..t }
                }
            },
        }
    }
}

/// Entries of the table `(fk, fv)` whose exponent is negative move to the table
/// `(tk, tv)`, where their exponent is subtracted; the others stay, in order. The result
/// is the remaining first table followed by the updated second one.
pub open spec fn move_negatives(
    fk: Seq<SpecBasis>,
    fv: Seq<Fraction>,
    tk: Seq<SpecBasis>,
    tv: Seq<Fraction>,
) -> (Seq<SpecBasis>, Seq<Fraction>, Seq<SpecBasis>, Seq<Fraction>)
    decreases fk.len(),
{
    if fk.len() == 0 || fv.len() != fk.len() {
        (Seq::empty(), Seq::empty(), tk, tv)
    } else {
        let prev = move_negatives(fk.drop_last(), fv.drop_last(), tk, tv);
        let k = fk.last();
        let v = fv.last();
        if v.compare_spec(Fraction { n: 0, d: 1 }) < 0 {
            let u = upsert(prev.2, prev.3, k, neg_wrap(v.n), v.d);
            (prev.0, prev.1, u.0, u.1)
        } else {
            (prev.0.push(k), prev.1.push(v), prev.2, prev.3)
        }
    }
}

/// The entries that survive: neither the key 0 nor an exponent with a zero numerator
/// or denominator.
pub open spec fn kept(keys: Seq<SpecBasis>, vals: Seq<Fraction>) -> (Seq<SpecBasis>, Seq<Fraction>)
    decreases keys.len(),
{
    if keys.len() == 0 || vals.len() != keys.len() {
        (Seq::empty(), Seq::empty())
    } else {
        let prev = kept(keys.drop_last(), vals.drop_last());
        let k = keys.last();
        let v = vals.last();
        if k.is_num(0) || v.n == 0 || v.d == 0 {
            prev
        } else {
            (prev.0.push(k), prev.1.push(v))
        }
    }
}

/// The tables of a product after all factors and divisors are counted and negative
/// exponents moved across, numerator first: `(nkeys, nvals, dkeys, dvals)`.
pub open spec fn final_tables(c: Fraction, num: Seq<SpecBasis>, den: Seq<SpecBasis>) -> (
    Seq<SpecBasis>,
    Seq<Fraction>,
    Seq<SpecBasis>,
    Seq<Fraction>,
) {
    let t = den_tally(num_tally(c, num), den);
    let m1 = move_negatives(t.nkeys, t.nvals, t.dkeys, t.dvals);
    let m2 = move_negatives(m1.2, m1.3, m1.0, m1.1);
    let n = kept(m2.2, m2.3);
    let d = kept(m2.0, m2.1);
    (n.0, n.1, d.0, d.1)
}

/// The coefficient of a product after all factors and divisors are counted.
pub open spec fn final_coef(c: Fraction, num: Seq<SpecBasis>, den: Seq<SpecBasis>) -> Fraction {
    den_tally(num_tally(c, num), den).coef
}

/// An exponent table held in vectors.
struct Table {
    keys: Vec<Basis>,
    vals: Vec<Fraction>,
}

impl Table {
    spec fn ok(&self) -> bool {
        &&& self.keys@.len() == self.vals@.len()
        &&& all_wf(models(self.keys@))
    }

    spec fn ks(&self) -> Seq<SpecBasis> {
        models(self.keys@)
    }

    fn new() -> (r: Table)
        ensures
            r.ok(),
            r.ks() == Seq::<SpecBasis>::empty(),
            r.vals@ == Seq::<Fraction>::empty(),
    {
        let r = Table { keys: Vec::new(), vals: Vec::new() };
        proof {
            lemma_models(r.keys@);
        }
        r
    }

    /// Adds `n/d` to the exponent of `key` (see `upsert`).
    fn add(&mut self, key: Basis, n: i32, d: i32)
        requires
            old(self).ok(),
            key@.wf(),
        ensures
            final(self).ok(),
            (final(self).ks(), final(self).vals@) == upsert(old(self).ks(), old(self).vals@, key@, n, d),
    {
        proof {
            lemma_models(self.keys@);
            lemma_find_key(models(self.keys@), key@);
        }
        match find_term(&self.keys, &key) {
            Some(j) => {
                let v = self.vals[j].plus(n, d);
                self.vals.set(j, v);
            },
            None => {
                let v = Fraction { n: 0, d: 0 }.plus(n, d);
                proof {
                    lemma_models_push(self.keys@, key);
                    lemma_models(self.keys@.push(key));
                }
                self.keys.push(key);
                self.vals.push(v);
            },
        }
    }

    /// The position of `key`, if it is in the table (see `find_key`).
    fn find(&self, key: &Basis) -> (r: Option<usize>)
        requires
            self.ok(),
        ensures
            r matches Some(j) ==> j as int == find_key(self.ks(), key@) && j < self.keys@.len(),
            r is None ==> find_key(self.ks(), key@) == -1,
    {
        find_term(&self.keys, key)
    }
}

/// The entry under which a factor's exponent is counted (see `factor_key`).
fn key_of(b: &Basis) -> (r: Option<(Basis, i32, i32)>)
    requires
        b@.wf(),
    ensures
        match factor_key(b@) {
            Some(t) => r matches Some(u) && u.0@ == t.0 && u.1 == t.1 && u.2 == t.2 && t.0.wf(),
            None => r is None,
        },
{
    let c = b.coefficient();
    if b.is_frac(c) {
        return None;
    }
    match get_base(b) {
        Some(t) => {
            proof {
                lemma_with_frac_wf(t.0@, Fraction { n: 1, d: 1 });
            }
            Some((t.0.with_coefficient(1), t.1, t.2))
        },
        None => {
            proof {
                lemma_with_frac_wf(b@, Fraction { n: 1, d: 1 });
            }
            Some((b.with_coefficient(1), 1, 1))
        },
    }
}

/// Counts the factors `num`, then the divisors `den` (see `num_tally`, `den_tally`).
fn tally(c: Fraction, num: &Vec<Basis>, den: &Vec<Basis>) -> (r: (Fraction, Table, Table))
    requires
        all_wf(models(num@)),
        all_wf(models(den@)),
    ensures
        r.1.ok(),
        r.2.ok(),
        den_tally(num_tally(c, models(num@)), models(den@)) == (Tally {
            coef: r.0,
            nkeys: r.1.ks(),
            nvals: r.1.vals@,
            dkeys: r.2.ks(),
            dvals: r.2.vals@,
        }),
{
    let ghost ns = models(num@);
    let ghost ds = models(den@);
    proof {
        lemma_models(num@);
        lemma_models(den@);
    }
    let mut coef = c;
    let mut nt = Table::new();
    let mut dt = Table::new();
    let mut i: usize = 0;
    proof {
        assert(num_tally(c, ns.take(0)) =~= (Tally { coef, nkeys: nt.ks(), nvals: nt.vals@, dkeys: dt.ks(), dvals: dt.vals@ }));
    }
    while i < num.len()
        invariant
            ns == models(num@),
            ns.len() == num@.len(),
            forall|t: int| 0 <= t < num@.len() ==> #[trigger] ns[t] == num@[t]@,
            all_wf(ns),
            i <= num.len(),
            nt.ok(),
            dt.ok(),
            num_tally(c, ns.take(i as int)) == (Tally {
                coef,
                nkeys: nt.ks(),
                nvals: nt.vals@,
                dkeys: dt.ks(),
                dvals: dt.vals@,
            }),
        decreases num.len() - i,
    {
        proof {
            assert(ns.take(i + 1).drop_last() =~= ns.take(i as int));
            assert(ns.take(i + 1).last() == ns[i as int]);
            assert(ns[i as int].wf());
        }
        let f = &num[i];
        let fc = f.coefficient();
        coef = coef.times(fc.n, fc.d);
        match key_of(f) {
            Some(k) => {
                nt.add(k.0, k.1, k.2);
            },
            None => {},
        }
        i += 1;
    }
    proof {
        assert(ns.take(num.len() as int) =~= ns);
    }
    let ghost t0 = num_tally(c, ns);
    let mut i: usize = 0;
    proof {
        assert(ds.take(0) =~= Seq::<SpecBasis>::empty());
    }
    while i < den.len()
        invariant
            ds == models(den@),
            ds.len() == den@.len(),
            forall|t: int| 0 <= t < den@.len() ==> #[trigger] ds[t] == den@[t]@,
            all_wf(ds),
            i <= den.len(),
            nt.ok(),
            dt.ok(),
            den_tally(t0, ds.take(i as int)) == (Tally {
                coef,
                nkeys: nt.ks(),
                nvals: nt.vals@,
                dkeys: dt.ks(),
                dvals: dt.vals@,
            }),
        decreases den.len() - i,
    {
        proof {
            assert(ds.take(i + 1).drop_last() =~= ds.take(i as int));
            assert(ds.take(i + 1).last() == ds[i as int]);
            assert(ds[i as int].wf());
        }
        let f = &den[i];
        let fc = f.coefficient();
        coef = coef.times(fc.d, fc.n);
        match key_of(f) {
            Some(k) => {
                match nt.find(&k.0) {
                    Some(j) => {
                        let v = nt.vals[j].plus(Fraction::neg_i32(k.1), k.2);
                        nt.vals.set(j, v);
                    },
                    None => {
                        dt.add(k.0, k.1, k.2);
                    },
                }
            },
            None => {},
        }
        i += 1;
    }
    proof {
        assert(ds.take(den.len() as int) =~= ds);
    }
    (coef, nt, dt)
}

/// Moves the entries of `from` with a negative exponent into `to` (see `move_negatives`).
fn move_negative(from: &Table, to: Table) -> (r: (Table, Table))
    requires
        from.ok(),
        to.ok(),
    ensures
        r.0.ok(),
        r.1.ok(),
        move_negatives(from.ks(), from.vals@, to.ks(), to.vals@) == (r.0.ks(), r.0.vals@, r.1.ks(), r.1.vals@),
{
    let ghost fk = from.ks();
    let ghost fv = from.vals@;
    let ghost tk0 = to.ks();
    let ghost tv0 = to.vals@;
    proof {
        lemma_models(from.keys@);
    }
    let mut stay = Table::new();
    let mut to = to;
    let mut i: usize = 0;
    proof {
        assert(fk.take(0) =~= Seq::<SpecBasis>::empty());
    }
    while i < from.keys.len()
        invariant
            from.ok(),
            fk == from.ks(),
            fv == from.vals@,
            fk.len() == from.keys@.len(),
            forall|t: int| 0 <= t < from.keys@.len() ==> #[trigger] fk[t] == from.keys@[t]@,
            i <= from.keys.len(),
            stay.ok(),
            to.ok(),
            move_negatives(fk.take(i as int), fv.take(i as int), tk0, tv0) == (stay.ks(), stay.vals@, to.ks(), to.vals@),
        decreases from.keys.len() - i,
    {
        proof {
            assert(fk.take(i + 1).drop_last() =~= fk.take(i as int));
            assert(fv.take(i + 1).drop_last() =~= fv.take(i as int));
            assert(fk.take(i + 1).last() == fk[i as int]);
            assert(fv.take(i + 1).last() == fv[i as int]);
            assert(fk[i as int].wf());
            lemma_models(stay.keys@);
        }
        let v = from.vals[i];
        let k = from.keys[i].deep_clone();
        if v.lt_int(0) {
            to.add(k, Fraction::neg_i32(v.n), v.d);
        } else {
            proof {
                lemma_models_push(stay.keys@, k);
                lemma_models(stay.keys@.push(k));
            }
            stay.keys.push(k);
            stay.vals.push(v);
        }
        i += 1;
    }
    proof {
        assert(fk.take(from.keys.len() as int) =~= fk);
        assert(fv.take(from.keys.len() as int) =~= fv);
    }
    (stay, to)
}

/// The entries of the table that survive (see `kept`).
fn keep(t: &Table) -> (r: Table)
    requires
        t.ok(),
    ensures
        r.ok(),
        kept(t.ks(), t.vals@) == (r.ks(), r.vals@),
{
    let ghost tk = t.ks();
    let ghost tv = t.vals@;
    proof {
        lemma_models(t.keys@);
    }
    let mut out = Table::new();
    let mut i: usize = 0;
    proof {
        assert(tk.take(0) =~= Seq::<SpecBasis>::empty());
    }
    while i < t.keys.len()
        invariant
            t.ok(),
            tk == t.ks(),
            tv == t.vals@,
            tk.len() == t.keys@.len(),
            forall|j: int| 0 <= j < t.keys@.len() ==> #[trigger] tk[j] == t.keys@[j]@,
            i <= t.keys.len(),
            out.ok(),
            kept(tk.take(i as int), tv.take(i as int)) == (out.ks(), out.vals@),
        decreases t.keys.len() - i,
    {
        proof {
            assert(tk.take(i + 1).drop_last() =~= tk.take(i as int));
            assert(tv.take(i + 1).drop_last() =~= tv.take(i as int));
            assert(tk.take(i + 1).last() == tk[i as int]);
            assert(tv.take(i + 1).last() == tv[i as int]);
            assert(tk[i as int].wf());
            lemma_models(out.keys@);
        }
        let v = t.vals[i];
        if !(t.keys[i].is_num(0) || v.n == 0 || v.d == 0) {
            let k = t.keys[i].deep_clone();
            proof {
                lemma_models_push(out.keys@, k);
                lemma_models(out.keys@.push(k));
            }
            out.keys.push(k);
            out.vals.push(v);
        }
        i += 1;
    }
    proof {
        assert(tk.take(t.keys.len() as int) =~= tk);
        assert(tv.take(t.keys.len() as int) =~= tv);
    }
    out
}

/// Coefficient and final exponent tables of a product (see `final_tables`).
pub(crate) fn final_exponents(c: Fraction, num: &Vec<Basis>, den: &Vec<Basis>) -> (r: (
    Fraction,
    Vec<Basis>,
    Vec<Fraction>,
    Vec<Basis>,
    Vec<Fraction>,
))
    requires
        all_wf(models(num@)),
        all_wf(models(den@)),
    ensures
        r.0 == final_coef(c, models(num@), models(den@)),
        (models(r.1@), r.2@, models(r.3@), r.4@) == final_tables(c, models(num@), models(den@)),
        r.1@.len() == r.2@.len(),
        r.3@.len() == r.4@.len(),
        all_wf(models(r.1@)),
        all_wf(models(r.3@)),
{
    let (coef, nt, dt) = tally(c, num, den);
    let (n1, d1) = move_negative(&nt, dt);
    let (d2, n2) = move_negative(&d1, n1);
    let n3 = keep(&n2);
    let d3 = keep(&d2);
    (coef, n3.keys, n3.vals, d3.keys, d3.vals)
}

} // verus!
