//! Monomials: products of powers of variables, kept in a normal form.

use crate::field::{vals, Fp};
use vstd::arithmetic::div_mod::*;
use vstd::arithmetic::power::*;
use vstd::prelude::*;

verus! {

/// A monomial as a list of `(variable, power)` factors.
pub type TermModel = Seq<(usize, usize)>;

/// Every variable of the monomial is below `num_vars`.
pub open spec fn term_in_range(t: TermModel, num_vars: nat) -> bool {
    forall|k: int| 0 <= k < t.len() ==> (#[trigger] t[k]).0 < num_vars
}

/// Sum of the powers of a monomial.
pub open spec fn term_degree(t: TermModel) -> nat
    decreases t.len(),
{
    if t.len() == 0 {
        0
    } else {
        term_degree(t.drop_last()) + t.last().1 as nat
    }
}

/// The power to which the monomial raises the variable `var`: the sum of the
/// powers of its factors of that variable.
pub open spec fn term_power(t: TermModel, var: int) -> nat
    decreases t.len(),
{
    if t.len() == 0 {
        0
    } else {
        term_power(t.drop_last(), var) + if t.last().0 == var {
            t.last().1 as nat
        } else {
            0
        }
    }
}

/// Value of a monomial at `point`, as an integer (not reduced).
pub open spec fn term_eval(t: TermModel, point: Seq<int>) -> int
    decreases t.len(),
{
    if t.len() == 0 {
        1
    } else {
        term_eval(t.drop_last(), point) * pow(point[t.last().0 as int], t.last().1 as nat)
    }
}

/// The normal form of a monomial: the variables of its factors are strictly
/// increasing and every power is positive.
pub open spec fn term_normal(t: TermModel) -> bool {
    &&& forall|a: int, b: int| 0 <= a < b < t.len() ==> (#[trigger] t[a]).0 < (#[trigger] t[b]).0
    &&& forall|k: int| 0 <= k < t.len() ==> (#[trigger] t[k]).1 > 0
}

/// The order in which a polynomial keeps its monomials: by the first factor
/// in which they differ (variable first, then power), a proper prefix first.
pub open spec fn term_precedes(a: TermModel, b: TermModel) -> bool
    decreases a.len(),
{
    if b.len() == 0 {
        false
    } else if a.len() == 0 {
        true
    } else if a[0] == b[0] {
        term_precedes(a.skip(1), b.skip(1))
    } else {
        a[0].0 < b[0].0 || (a[0].0 == b[0].0 && a[0].1 < b[0].1)
    }
}

/// No monomial precedes itself.
pub proof fn lemma_precedes_irreflexive(a: TermModel)
    ensures
        !term_precedes(a, a),
    decreases a.len(),
{
    if a.len() > 0 {
        lemma_precedes_irreflexive(a.skip(1));
    }
}

/// Of two different monomials, one precedes the other.
pub proof fn lemma_precedes_total(a: TermModel, b: TermModel)
    requires
        a != b,
    ensures
        term_precedes(a, b) || term_precedes(b, a),
    decreases a.len(),
{
    if a.len() > 0 && b.len() > 0 && a[0] == b[0] {
        if a.skip(1) == b.skip(1) {
            assert(a =~= seq![a[0]] + a.skip(1));
            assert(b =~= seq![b[0]] + b.skip(1));
        }
        lemma_precedes_total(a.skip(1), b.skip(1));
    } else if a.len() == 0 && b.len() == 0 {
        assert(a =~= b);
    }
}

/// What precedes a monomial precedes whatever that monomial precedes.
pub proof fn lemma_precedes_transitive(a: TermModel, b: TermModel, c: TermModel)
    requires
        term_precedes(a, b),
        term_precedes(b, c),
    ensures
        term_precedes(a, c),
    decreases a.len(),
{
    if a.len() > 0 && a[0] == b[0] && b[0] == c[0] {
        lemma_precedes_transitive(a.skip(1), b.skip(1), c.skip(1));
    }
}

/// Multiplying one more factor into a monomial multiplies its value by that
/// factor's value, wherever the factor is put.
pub proof fn lemma_term_eval_insert(t: TermModel, at: int, factor: (usize, usize), point: Seq<int>)
    requires
        0 <= at <= t.len(),
    ensures
        term_eval(t.insert(at, factor), point) == term_eval(t, point) * pow(
            point[factor.0 as int],
            factor.1 as nat,
        ),
    decreases t.len() - at,
{
    let grown = t.insert(at, factor);
    let fv = pow(point[factor.0 as int], factor.1 as nat);
    if at == t.len() {
        assert(grown.drop_last() =~= t);
    } else {
        assert(grown.drop_last() =~= t.drop_last().insert(at, factor));
        assert(grown.last() == t.last());
        lemma_term_eval_insert(t.drop_last(), at, factor, point);
        let head = term_eval(t.drop_last(), point);
        let lv = pow(point[t.last().0 as int], t.last().1 as nat);
        assert((head * fv) * lv == (head * lv) * fv) by (nonlinear_arith);
    }
}

/// One more factor adds its power to the degree and to the power of its
/// variable, wherever the factor is put.
pub proof fn lemma_term_power_insert(t: TermModel, at: int, factor: (usize, usize))
    requires
        0 <= at <= t.len(),
    ensures
        term_degree(t.insert(at, factor)) == term_degree(t) + factor.1,
        forall|var: int| #[trigger]
            term_power(t.insert(at, factor), var) == term_power(t, var) + if factor.0 == var {
                factor.1 as nat
            } else {
                0
            },
    decreases t.len() - at,
{
    let grown = t.insert(at, factor);
    if at == t.len() {
        assert(grown.drop_last() =~= t);
    } else {
        assert(grown.drop_last() =~= t.drop_last().insert(at, factor));
        assert(grown.last() == t.last());
        lemma_term_power_insert(t.drop_last(), at, factor);
    }
    assert forall|var: int| #[trigger]
        term_power(grown, var) == term_power(t, var) + if factor.0 == var {
            factor.1 as nat
        } else {
            0
        } by {
        if at < t.len() {
            assert(term_power(grown.drop_last(), var) == term_power(t.drop_last(), var)
                + if factor.0 == var {
                factor.1 as nat
            } else {
                0
            });
        }
    }
}

/// No single power exceeds the degree of the monomial.
pub proof fn lemma_power_below_degree(t: TermModel, k: int)
    requires
        0 <= k < t.len(),
    ensures
        t[k].1 <= term_degree(t),
    decreases t.len(),
{
    if k < t.len() - 1 {
        lemma_power_below_degree(t.drop_last(), k);
    }
}

/// The degree of a prefix is at most the degree of the whole.
pub proof fn lemma_degree_prefix(t: TermModel, k: int)
    requires
        0 <= k <= t.len(),
    ensures
        term_degree(t.take(k)) <= term_degree(t),
    decreases t.len(),
{
    if k == t.len() {
        assert(t.take(k) =~= t);
    } else {
        assert(t.drop_last().take(k) =~= t.take(k));
        lemma_degree_prefix(t.drop_last(), k);
    }
}

/// In a monomial in normal form, the power of a variable is the power of
/// its one factor, and 0 where it has none.
pub proof fn lemma_normal_term_power(t: TermModel, var: int)
    requires
        term_normal(t),
    ensures
        forall|k: int| 0 <= k < t.len() && (#[trigger] t[k]).0 == var ==> term_power(t, var) == t[k].1,
        (forall|k: int| 0 <= k < t.len() ==> (#[trigger] t[k]).0 != var) ==> term_power(t, var) == 0,
    decreases t.len(),
{
    if t.len() > 0 {
        let head = t.drop_last();
        assert(term_normal(head)) by {
            assert forall|a: int, b: int| 0 <= a < b < head.len() implies (#[trigger] head[a]).0 < (
            #[trigger] head[b]).0 by {
                assert(t[a].0 < t[b].0);
            }
            assert forall|k: int| 0 <= k < head.len() implies (#[trigger] head[k]).1 > 0 by {
                assert(t[k].1 > 0);
            }
        }
        lemma_normal_term_power(head, var);
        if t.last().0 == var {
            assert forall|k: int| 0 <= k < head.len() implies (#[trigger] head[k]).0 != var by {
                assert(t[k].0 < t[t.len() - 1].0);
            }
        }
        assert forall|k: int| 0 <= k < t.len() && (#[trigger] t[k]).0 == var implies term_power(
            t,
            var,
        ) == t[k].1 by {
            if k < head.len() {
                assert(head[k] == t[k]);
                assert(t[k].0 < t[t.len() - 1].0);
            }
        }
        if forall|k: int| 0 <= k < t.len() ==> (#[trigger] t[k]).0 != var {
            assert forall|k: int| 0 <= k < head.len() implies (#[trigger] head[k]).0 != var by {
                assert(head[k] == t[k]);
            }
            assert(t[t.len() - 1].0 != var);
        }
    }
}

/// Two monomials in normal form that raise every variable to the same power
/// are the same list of factors.
pub proof fn lemma_normal_term_unique(a: TermModel, b: TermModel)
    requires
        term_normal(a),
        term_normal(b),
        forall|var: int| term_power(a, var) == term_power(b, var),
    ensures
        a == b,
    decreases a.len() + b.len(),
{
    if a.len() == 0 && b.len() == 0 {
        assert(a =~= b);
    } else if a.len() == 0 {
        lemma_normal_term_power(a, b.last().0 as int);
        lemma_normal_term_power(b, b.last().0 as int);
        assert(b[b.len() - 1].1 > 0);
    } else if b.len() == 0 {
        lemma_normal_term_power(a, a.last().0 as int);
        lemma_normal_term_power(b, a.last().0 as int);
        assert(a[a.len() - 1].1 > 0);
    } else {
        let la = a.last();
        let lb = b.last();
        let va = la.0 as int;
        let vb = lb.0 as int;
        lemma_normal_term_power(a, va);
        lemma_normal_term_power(b, va);
        lemma_normal_term_power(a, vb);
        lemma_normal_term_power(b, vb);
        assert(a[a.len() - 1].1 > 0 && b[b.len() - 1].1 > 0);
        // each of the two last variables occurs in the other monomial, and
        // nowhere but last
        assert(term_power(b, va) > 0);
        assert(term_power(a, vb) > 0);
        let ka = choose|k: int| 0 <= k < b.len() && (#[trigger] b[k]).0 == va;
        let kb = choose|k: int| 0 <= k < a.len() && (#[trigger] a[k]).0 == vb;
        assert(b[ka].0 <= b[b.len() - 1].0) by {
            if ka < b.len() - 1 {
                assert(b[ka].0 < b[b.len() - 1].0);
            }
        }
        assert(a[kb].0 <= a[a.len() - 1].0) by {
            if kb < a.len() - 1 {
                assert(a[kb].0 < a[a.len() - 1].0);
            }
        }
        assert(va == vb);
        assert(la == lb);
        let ha = a.drop_last();
        let hb = b.drop_last();
        assert(term_normal(ha)) by {
            assert forall|x: int, y: int| 0 <= x < y < ha.len() implies (#[trigger] ha[x]).0 < (
            #[trigger] ha[y]).0 by {
                assert(a[x].0 < a[y].0);
            }
            assert forall|k: int| 0 <= k < ha.len() implies (#[trigger] ha[k]).1 > 0 by {
                assert(a[k].1 > 0);
            }
        }
        assert(term_normal(hb)) by {
            assert forall|x: int, y: int| 0 <= x < y < hb.len() implies (#[trigger] hb[x]).0 < (
            #[trigger] hb[y]).0 by {
                assert(b[x].0 < b[y].0);
            }
            assert forall|k: int| 0 <= k < hb.len() implies (#[trigger] hb[k]).1 > 0 by {
                assert(b[k].1 > 0);
            }
        }
        assert forall|var: int| term_power(ha, var) == term_power(hb, var) by {
            assert(term_power(a, var) == term_power(b, var));
        }
        lemma_normal_term_unique(ha, hb);
        assert(a =~= ha.push(la));
        assert(b =~= hb.push(lb));
    }
}

/// How many of the first `k` slots of a partial point are free.
pub open spec fn free_before(point: Seq<Option<int>>, k: int) -> nat
    decreases k,
{
    if k <= 0 {
        0
    } else {
        free_before(point, k - 1) + if point[k - 1] is None {
            1nat
        } else {
            0nat
        }
    }
}

/// The full point that a partial point becomes when its free slots are
/// filled, in order, with the coordinates of `rest`.
pub open spec fn fill(point: Seq<Option<int>>, rest: Seq<int>) -> Seq<int> {
    Seq::new(
        point.len(),
        |k: int|
            match point[k] {
                Some(v) => v,
                None => rest[free_before(point, k) as int],
            },
    )
}

/// The residues of a partial point.
pub open spec fn partial_vals<const P: u64>(s: Seq<Option<Fp<P>>>) -> Seq<Option<int>> {
    Seq::new(
        s.len(),
        |k: int|
            match s[k] {
                Some(v) => Some(v.val()),
                None => None,
            },
    )
}

/// The value of the factors of a monomial whose variables a partial point
/// binds, as an integer (not reduced).
pub open spec fn bound_value(t: TermModel, point: Seq<Option<int>>) -> int
    decreases t.len(),
{
    if t.len() == 0 {
        1
    } else {
        bound_value(t.drop_last(), point) * match point[t.last().0 as int] {
            Some(v) => pow(v, t.last().1 as nat),
            None => 1,
        }
    }
}

/// The factors of a monomial whose variables a partial point leaves free,
/// each variable under the number that it has among the free ones.
pub open spec fn free_part(t: TermModel, point: Seq<Option<int>>) -> TermModel
    decreases t.len(),
{
    if t.len() == 0 {
        Seq::empty()
    } else {
        match point[t.last().0 as int] {
            Some(_) => free_part(t.drop_last(), point),
            None => free_part(t.drop_last(), point).push(
                (free_before(point, t.last().0 as int) as usize, t.last().1),
            ),
        }
    }
}

/// The count of free slots grows with the length of the prefix, and strictly
/// across a free slot.
pub proof fn lemma_free_before_grows(point: Seq<Option<int>>, a: int, b: int)
    requires
        0 <= a <= b,
    ensures
        free_before(point, a) <= free_before(point, b),
        a < b && point[a] is None ==> free_before(point, a) < free_before(point, b),
    decreases b - a,
{
    if a < b {
        lemma_free_before_grows(point, a, b - 1);
    }
}

/// There are no more free slots than slots.
pub proof fn lemma_free_before_bound(point: Seq<Option<int>>, k: int)
    requires
        0 <= k,
    ensures
        free_before(point, k) <= k,
    decreases k,
{
    if k > 0 {
        lemma_free_before_bound(point, k - 1);
    }
}

/// At the full point made of a partial point and values for its free slots,
/// a monomial is worth the value of its bound factors times the value of its
/// free factors at those values.
pub proof fn lemma_bound_and_free(t: TermModel, point: Seq<Option<int>>, rest: Seq<int>)
    requires
        term_in_range(t, point.len()),
        point.len() <= usize::MAX,
    ensures
        term_eval(t, fill(point, rest)) == bound_value(t, point) * term_eval(
            free_part(t, point),
            rest,
        ),
    decreases t.len(),
{
    if t.len() > 0 {
        let head = t.drop_last();
        let f = t.last();
        assert(term_in_range(head, point.len())) by {
            assert forall|k: int| 0 <= k < head.len() implies (#[trigger] head[k]).0
                < point.len() by {
                assert(head[k] == t[k]);
            }
        }
        lemma_bound_and_free(head, point, rest);
        assert(t[t.len() - 1].0 < point.len());
        let full = fill(point, rest);
        let bv = bound_value(head, point);
        let fv = term_eval(free_part(head, point), rest);
        match point[f.0 as int] {
            Some(v) => {
                let pw = pow(v, f.1 as nat);
                assert(full[f.0 as int] == v);
                assert((bv * fv) * pw == (bv * pw) * fv) by (nonlinear_arith);
            },
            None => {
                let rank = free_before(point, f.0 as int);
                lemma_free_before_bound(point, f.0 as int);
                let pw = pow(rest[rank as int], f.1 as nat);
                assert(full[f.0 as int] == rest[rank as int]);
                let kept = free_part(head, point).push((rank as usize, f.1));
                assert(kept.drop_last() =~= free_part(head, point));
                assert(kept.last() == (rank as usize, f.1));
                assert((bv * fv) * pw == (bv * 1) * (fv * pw)) by (nonlinear_arith);
            },
        }
    }
}

/// A monomial: a product of powers of variables.
#[derive(Debug, PartialEq, Eq)]
pub struct SparseTerm {
    factors: Vec<(usize, usize)>,
}

impl View for SparseTerm {
    type V = TermModel;

    closed spec fn view(&self) -> TermModel {
        self.factors@
    }
}

impl Clone for SparseTerm {
    fn clone(&self) -> (r: Self)
        ensures
            r@ == self@,
    {
        proof {
            use_type_invariant(self);
        }
        let mut factors: Vec<(usize, usize)> = Vec::new();
        let mut k: usize = 0;
        while k < self.factors.len()
            invariant
                k <= self.factors.len(),
                factors@ == self.factors@.take(k as int),
            decreases self.factors.len() - k,
        {
            factors.push(self.factors[k]);
            assert(self.factors@.take(k as int).push(self.factors@[k as int])
                =~= self.factors@.take(k + 1));
            k = k + 1;
        }
        assert(self.factors@.take(k as int) =~= self.factors@);
        SparseTerm { factors }
    }
}

impl SparseTerm {
    /// The factors are in normal form and the degree is a machine integer.
    #[verifier::type_invariant]
    pub open spec fn wf(self) -> bool {
        term_normal(self@) && term_degree(self@) <= usize::MAX
    }

    /// Builds a monomial from `(variable, power)` factors: factors of power
    /// zero are dropped, the rest are put in order of their variables, and
    /// factors of one variable are merged.
    pub fn new(factors: Vec<(usize, usize)>) -> (r: Self)
        requires
            term_degree(factors@) <= usize::MAX,
        ensures
            term_normal(r@),
            term_degree(r@) == term_degree(factors@),
            forall|var: int| #[trigger] term_power(r@, var) == term_power(factors@, var),
            forall|point: Seq<int>| #[trigger]
                term_eval(r@, point) == term_eval(factors@, point),
            forall|n: nat| term_in_range(factors@, n) ==> #[trigger] term_in_range(r@, n),
    {
        let mut out: Vec<(usize, usize)> = Vec::new();
        let mut k: usize = 0;
        assert(factors@.take(0) =~= Seq::<(usize, usize)>::empty());
        while k < factors.len()
            invariant
                k <= factors.len(),
                term_degree(factors@) <= usize::MAX,
                term_normal(out@),
                term_degree(out@) == term_degree(factors@.take(k as int)),
                forall|var: int| #[trigger]
                    term_power(out@, var) == term_power(factors@.take(k as int), var),
                forall|point: Seq<int>| #[trigger]
                    term_eval(out@, point) == term_eval(factors@.take(k as int), point),
                forall|n: nat|
                    term_in_range(factors@.take(k as int), n) ==> #[trigger] term_in_range(out@, n),
            decreases factors.len() - k,
        {
            let factor: (usize, usize) = factors[k];
            let ghost before = factors@.take(k as int);
            let ghost after = factors@.take(k + 1);
            let ghost prev = out@;
            proof {
                assert(after.drop_last() =~= before);
                assert(after.last() == factor);
                lemma_degree_prefix(factors@, k + 1);
            }
            if factor.1 != 0 {
                merge_factor(&mut out, factor.0, factor.1);
            }
            proof {
                assert forall|var: int| #[trigger]
                    term_power(out@, var) == term_power(after, var) by {
                    assert(term_power(prev, var) == term_power(before, var));
                }
                assert forall|point: Seq<int>| #[trigger]
                    term_eval(out@, point) == term_eval(after, point) by {
                    assert(term_eval(prev, point) == term_eval(before, point));
                    if factor.1 == 0 {
                        lemma_pow0(point[factor.0 as int]);
                    }
                }
                assert forall|n: nat| term_in_range(after, n) implies #[trigger] term_in_range(
                    out@,
                    n,
                ) by {
                    assert forall|j: int| 0 <= j < before.len() implies (#[trigger] before[j]).0
                        < n by {
                        assert(before[j] == after[j]);
                    }
                    assert(term_in_range(before, n));
                    assert(term_in_range(prev, n));
                    assert(after[k as int] == factor);
                }
            }
            k = k + 1;
        }
        assert(factors@.take(k as int) =~= factors@);
        SparseTerm { factors: out }
    }

    /// The sum of the powers of this monomial.
    pub fn degree(&self) -> (r: usize)
        ensures
            r == term_degree(self@),
    {
        proof {
            use_type_invariant(self);
        }
        let mut total: usize = 0;
        let mut k: usize = 0;
        assert(self.factors@.take(0) =~= Seq::<(usize, usize)>::empty());
        while k < self.factors.len()
            invariant
                k <= self.factors.len(),
                term_degree(self.factors@) <= usize::MAX,
                total == term_degree(self.factors@.take(k as int)),
            decreases self.factors.len() - k,
        {
            proof {
                assert(self.factors@.take(k + 1).drop_last() =~= self.factors@.take(k as int));
                lemma_degree_prefix(self.factors@, k + 1);
            }
            total = total + self.factors[k].1;
            k = k + 1;
        }
        assert(self.factors@.take(k as int) =~= self.factors@);
        total
    }

    /// The `(variable, power)` factors of this monomial.
    pub fn factors(&self) -> (r: &Vec<(usize, usize)>)
        ensures
            r@ == self@,
    {
        &self.factors
    }

    /// Whether this monomial has no factor.
    pub fn is_constant(&self) -> (r: bool)
        ensures
            r == (self@.len() == 0),
    {
        self.factors.len() == 0
    }

    /// Whether both monomials have the same factors.
    pub fn same(&self, other: &Self) -> (r: bool)
        ensures
            r == (self@ == other@),
    {
        if self.factors.len() != other.factors.len() {
            return false;
        }
        let mut k: usize = 0;
        while k < self.factors.len()
            invariant
                k <= self.factors.len(),
                self.factors.len() == other.factors.len(),
                self.factors@.take(k as int) == other.factors@.take(k as int),
            decreases self.factors.len() - k,
        {
            let a: (usize, usize) = self.factors[k];
            let b: (usize, usize) = other.factors[k];
            if a.0 != b.0 || a.1 != b.1 {
                return false;
            }
            assert(self.factors@.take(k + 1) =~= self.factors@.take(k as int).push(a));
            assert(other.factors@.take(k + 1) =~= other.factors@.take(k as int).push(b));
            k = k + 1;
        }
        assert(self.factors@.take(k as int) =~= self.factors@);
        assert(other.factors@.take(k as int) =~= other.factors@);
        true
    }

    /// Whether this monomial comes strictly before `other` in the order in
    /// which a polynomial keeps its terms.
    pub fn precedes(&self, other: &Self) -> (r: bool)
        ensures
            r == term_precedes(self@, other@),
    {
        let mut k: usize = 0;
        assert(self.factors@.skip(0) =~= self.factors@);
        assert(other.factors@.skip(0) =~= other.factors@);
        while k < self.factors.len() && k < other.factors.len()
            invariant
                k <= self.factors.len(),
                k <= other.factors.len(),
                term_precedes(self@, other@) == term_precedes(
                    self.factors@.skip(k as int),
                    other.factors@.skip(k as int),
                ),
            decreases self.factors.len() - k,
        {
            let a: (usize, usize) = self.factors[k];
            let b: (usize, usize) = other.factors[k];
            let ghost sa = self.factors@.skip(k as int);
            let ghost sb = other.factors@.skip(k as int);
            assert(sa[0] == a && sb[0] == b);
            if a.0 != b.0 {
                return a.0 < b.0;
            }
            if a.1 != b.1 {
                return a.1 < b.1;
            }
            assert(sa.skip(1) =~= self.factors@.skip(k + 1));
            assert(sb.skip(1) =~= other.factors@.skip(k + 1));
            k = k + 1;
        }
        k < other.factors.len()
    }

    /// The value of this monomial at `point`.
    pub fn evaluate<const P: u64>(&self, point: &Vec<Fp<P>>) -> (r: Fp<P>)
        requires
            P >= 1,
            term_in_range(self@, point@.len()),
        ensures
            r.val() == term_eval(self@, vals(point@)) % (P as int),
            0 <= r.val() < P,
    {
        let ghost pt = vals(point@);
        let mut acc: Fp<P> = Fp::one();
        let mut k: usize = 0;
        assert(self.factors@.take(0) =~= Seq::<(usize, usize)>::empty());
        while k < self.factors.len()
            invariant
                k <= self.factors.len(),
                P >= 1,
                pt == vals(point@),
                term_in_range(self@, point@.len()),
                acc.val() == term_eval(self.factors@.take(k as int), pt) % (P as int),
                0 <= acc.val() < P,
            decreases self.factors.len() - k,
        {
            let factor: (usize, usize) = self.factors[k];
            assert(self@[k as int] == factor);
            let base: Fp<P> = point[factor.0];
            let power: Fp<P> = base.pow(factor.1);
            proof {
                let before = self.factors@.take(k as int);
                let after = self.factors@.take(k + 1);
                assert(after.drop_last() =~= before);
                assert(after.last() == factor);
                assert(pt[factor.0 as int] == base.val());
                lemma_mul_mod_noop_general(
                    term_eval(before, pt),
                    pow(base.val(), factor.1 as nat),
                    P as int,
                );
            }
            acc = acc.mul(power);
            k = k + 1;
        }
        assert(self.factors@.take(k as int) =~= self.factors@);
        acc
    }

    /// This monomial with the variables that `point` binds put in: the value
    /// of the bound factors times `coeff`, and the monomial of the free
    /// factors, numbered anew. `ranks[k]` is the number of free slots before
    /// slot `k`.
    pub(crate) fn bind<const P: u64>(
        &self,
        coeff: Fp<P>,
        point: &Vec<Option<Fp<P>>>,
        ranks: &Vec<usize>,
    ) -> (r: (Fp<P>, SparseTerm))
        requires
            term_in_range(self@, point@.len()),
            ranks@.len() == point@.len() + 1,
            forall|j: int|
                0 <= j <= point@.len() ==> #[trigger] ranks@[j] == free_before(
                    partial_vals(point@),
                    j,
                ),
        ensures
            r.1@ == free_part(self@, partial_vals(point@)),
            r.0.val() == (coeff.val() * bound_value(self@, partial_vals(point@))) % (P as int),
            term_in_range(r.1@, free_before(partial_vals(point@), point@.len() as int)),
    {
        let ghost pv = partial_vals(point@);
        let ghost free = free_before(pv, point@.len() as int);
        let mut kept: Vec<(usize, usize)> = Vec::new();
        let mut acc: Fp<P> = coeff;
        let mut j: usize = 0;
        let ghost mut reach: int = 0;
        proof {
            use_type_invariant(self);
            use_type_invariant(&coeff);
            lemma_small_mod(coeff.val() as nat, P as nat);
            assert(coeff.val() * 1 == coeff.val());
        }
        assert(self.factors@.take(0) =~= Seq::<(usize, usize)>::empty());
        while j < self.factors.len()
            invariant
                j <= self.factors.len(),
                P >= 1,
                pv == partial_vals(point@),
                free == free_before(pv, point@.len() as int),
                term_in_range(self@, point@.len()),
                ranks@.len() == point@.len() + 1,
                forall|i: int| 0 <= i <= point@.len() ==> #[trigger] ranks@[i] == free_before(pv, i),
                term_in_range(kept@, free),
                term_normal(self@),
                term_normal(kept@),
                term_degree(self@) <= usize::MAX,
                term_degree(kept@) <= term_degree(self.factors@.take(j as int)),
                0 <= reach <= point@.len(),
                j < self.factors@.len() ==> reach <= self@[j as int].0,
                forall|a: int|
                    0 <= a < kept@.len() ==> (#[trigger] kept@[a]).0 < free_before(pv, reach),
                kept@ == free_part(self.factors@.take(j as int), pv),
                acc.val() == (coeff.val() * bound_value(self.factors@.take(j as int), pv)) % (
                P as int),
            decreases self.factors.len() - j,
        {
            let factor: (usize, usize) = self.factors[j];
            let ghost seen = self.factors@.take(j as int);
            let ghost next = self.factors@.take(j + 1);
            let ghost old_acc = acc.val();
            let ghost old_kept = kept@;
            assert(self@[j as int] == factor);
            assert(next.drop_last() =~= seen);
            assert(next.last() == factor);
            assert((pv[factor.0 as int] is None) == (point@[factor.0 as int] is None));
            proof {
                if j + 1 < self.factors@.len() {
                    assert(self@[j as int].0 < self@[j + 1].0);
                }
                assert(self@[j as int].1 > 0);
            }
            match point[factor.0] {
                Some(v) => {
                    let scaled: Fp<P> = v.pow(factor.1);
                    acc = acc.mul(scaled);
                    proof {
                        assert(pv[factor.0 as int] == Some(v.val()));
                        let pw = pow(v.val(), factor.1 as nat);
                        let bv = bound_value(seen, pv);
                        lemma_mul_mod_noop_general(coeff.val() * bv, pw, P as int);
                        assert((coeff.val() * bv) * pw == coeff.val() * (bv * pw))
                            by (nonlinear_arith);
                    }
                },
                None => {
                    let rank: usize = ranks[factor.0];
                    kept.push((rank, factor.1));
                    proof {
                        assert(pv[factor.0 as int] is None);
                        lemma_free_before_grows(pv, factor.0 as int, point@.len() as int);
                        lemma_free_before_grows(pv, reach, factor.0 as int);
                        assert(kept@.drop_last() =~= old_kept);
                        assert(bound_value(next, pv) == bound_value(seen, pv) * 1);
                        assert forall|a: int, b: int| 0 <= a < b < kept@.len() implies (
                        #[trigger] kept@[a]).0 < (#[trigger] kept@[b]).0 by {
                            if b < old_kept.len() {
                                assert(old_kept[a].0 < old_kept[b].0);
                            } else {
                                assert(old_kept[a].0 < free_before(pv, reach));
                            }
                        }
                        assert forall|a: int| 0 <= a < kept@.len() implies (#[trigger] kept@[a]).1
                            > 0 by {
                            if a < old_kept.len() {
                                assert(old_kept[a].1 > 0);
                            }
                        }
                        reach = factor.0 as int + 1;
                        assert forall|a: int| 0 <= a < kept@.len() implies (#[trigger] kept@[a]).0
                            < free_before(pv, reach) by {
                            if a < old_kept.len() {
                                assert(old_kept[a].0 < rank);
                            }
                        }
                    }
                },
            }
            j = j + 1;
        }
        proof {
            assert(self.factors@.take(j as int) =~= self@);
        }
        (acc, SparseTerm { factors: kept })
    }
}

/// Multiplies the factor `var^power` into a monomial kept in normal form.
fn merge_factor(out: &mut Vec<(usize, usize)>, var: usize, power: usize)
    requires
        power > 0,
        term_normal(old(out)@),
        term_degree(old(out)@) + power <= usize::MAX,
    ensures
        term_normal(final(out)@),
        term_degree(final(out)@) == term_degree(old(out)@) + power,
        forall|v: int| #[trigger]
            term_power(final(out)@, v) == term_power(old(out)@, v) + if var == v {
                power as nat
            } else {
                0
            },
        forall|point: Seq<int>| #[trigger]
            term_eval(final(out)@, point) == term_eval(old(out)@, point) * pow(
                point[var as int],
                power as nat,
            ),
        forall|n: nat|
            term_in_range(old(out)@, n) && var < n ==> #[trigger] term_in_range(final(out)@, n),
{
    let ghost prev = out@;
    let mut j: usize = 0;
    while j < out.len() && out[j].0 < var
        invariant
            j <= out.len(),
            out@ == prev,
            forall|a: int| 0 <= a < j ==> (#[trigger] prev[a]).0 < var,
        decreases out.len() - j,
    {
        j = j + 1;
    }
    if j < out.len() && out[j].0 == var {
        let held: usize = out[j].1;
        proof {
            lemma_power_below_degree(prev, j as int);
        }
        out.set(j, (var, held + power));
        proof {
            let rest = prev.remove(j as int);
            assert(rest.insert(j as int, prev[j as int]) =~= prev);
            assert(rest.insert(j as int, (var, (held + power) as usize)) =~= out@);
            lemma_term_power_insert(rest, j as int, prev[j as int]);
            lemma_term_power_insert(rest, j as int, (var, (held + power) as usize));
            assert forall|point: Seq<int>| #[trigger]
                term_eval(out@, point) == term_eval(prev, point) * pow(
                    point[var as int],
                    power as nat,
                ) by {
                let x = point[var as int];
                lemma_term_eval_insert(rest, j as int, prev[j as int], point);
                lemma_term_eval_insert(rest, j as int, (var, (held + power) as usize), point);
                lemma_pow_adds(x, held as nat, power as nat);
                let base = term_eval(rest, point);
                let pa = pow(x, held as nat);
                let pb = pow(x, power as nat);
                assert(base * (pa * pb) == (base * pa) * pb) by (nonlinear_arith);
            }
            assert forall|n: nat| term_in_range(prev, n) && var < n implies #[trigger] term_in_range(
                out@,
                n,
            ) by {
                assert forall|k: int| 0 <= k < out@.len() implies (#[trigger] out@[k]).0 < n by {
                    assert(prev[k].0 < n);
                }
            }
            assert forall|a: int, b: int| 0 <= a < b < out@.len() implies (#[trigger] out@[a]).0 < (
            #[trigger] out@[b]).0 by {
                assert(prev[a].0 < prev[b].0);
            }
            assert forall|k: int| 0 <= k < out@.len() implies (#[trigger] out@[k]).1 > 0 by {
                assert(prev[k].1 > 0);
            }
        }
    } else {
        out.insert(j, (var, power));
        proof {
            lemma_term_power_insert(prev, j as int, (var, power));
            assert forall|point: Seq<int>| #[trigger]
                term_eval(out@, point) == term_eval(prev, point) * pow(
                    point[var as int],
                    power as nat,
                ) by {
                lemma_term_eval_insert(prev, j as int, (var, power), point);
            }
            assert forall|n: nat| term_in_range(prev, n) && var < n implies #[trigger] term_in_range(
                out@,
                n,
            ) by {
                assert forall|k: int| 0 <= k < out@.len() implies (#[trigger] out@[k]).0 < n by {
                    if k < j {
                        assert(prev[k].0 < n);
                    } else if k > j {
                        assert(prev[k - 1].0 < n);
                    }
                }
            }
            assert forall|a: int, b: int| 0 <= a < b < out@.len() implies (#[trigger] out@[a]).0 < (
            #[trigger] out@[b]).0 by {
                if b < j {
                    assert(prev[a].0 < prev[b].0);
                } else if b == j {
                    assert(prev[a].0 < var);
                } else if a < j {
                    assert(prev[a].0 < prev[b - 1].0);
                } else if a == j {
                    if j < b - 1 {
                        assert(prev[j as int].0 < prev[b - 1].0);
                    }
                } else {
                    assert(prev[a - 1].0 < prev[b - 1].0);
                }
            }
            assert forall|k: int| 0 <= k < out@.len() implies (#[trigger] out@[k]).1 > 0 by {
                if k < j {
                    assert(prev[k].1 > 0);
                } else if k > j {
                    assert(prev[k - 1].1 > 0);
                }
            }
        }
    }
}

} // verus!
