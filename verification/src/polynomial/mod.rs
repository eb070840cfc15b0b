//! Sparse multivariate polynomials over `Fp<P>`, in coefficient form and
//! kept in a normal form.

pub mod normal;
pub mod term;

use crate::field::{fadd, vals, Fp};
use crate::polynomial::term::{
    bound_value, fill, free_before, free_part, lemma_bound_and_free, lemma_precedes_total,
    lemma_precedes_transitive, partial_vals, term_degree, term_eval, term_in_range, term_normal,
    term_precedes, SparseTerm, TermModel,
};
use vstd::arithmetic::div_mod::*;
use vstd::prelude::*;

verus! {

/// A polynomial as its declared number of variables and its list of
/// `(coefficient, monomial)` terms.
pub struct PolyModel {
    pub num_vars: nat,
    pub terms: Seq<(int, TermModel)>,
}

/// Sum of `coefficient * weight(monomial)` over a list of terms, as an
/// integer (not reduced).
pub open spec fn weighted_sum(terms: Seq<(int, TermModel)>, weight: spec_fn(TermModel) -> int) -> int
    decreases terms.len(),
{
    if terms.len() == 0 {
        0
    } else {
        weighted_sum(terms.drop_last(), weight) + terms.last().0 * weight(terms.last().1)
    }
}

/// The weight that gives each monomial its value at `point`.
pub open spec fn value_at(point: Seq<int>) -> spec_fn(TermModel) -> int {
    |t: TermModel| term_eval(t, point)
}

/// The weight that is 1 for the monomial `m` and 0 for every other.
pub open spec fn only(m: TermModel) -> spec_fn(TermModel) -> int {
    |t: TermModel|
        if t == m {
            1int
        } else {
            0int
        }
}

/// Sum of `coefficient * monomial(point)` over a list of terms, as an integer
/// (not reduced).
pub open spec fn terms_sum(terms: Seq<(int, TermModel)>, point: Seq<int>) -> int {
    weighted_sum(terms, value_at(point))
}

/// Sum of the coefficients that a list of terms has for the monomial `m`, as
/// an integer (not reduced).
pub open spec fn coefficient(terms: Seq<(int, TermModel)>, m: TermModel) -> int {
    weighted_sum(terms, only(m))
}

/// Value of the polynomial at `point` in the integers modulo `p`.
pub open spec fn poly_eval(m: PolyModel, point: Seq<int>, p: int) -> int {
    terms_sum(m.terms, point) % p
}

/// Two lists of terms are the same linear combination of monomials modulo
/// `p`: whatever integer weight each monomial is given, their weighted sums
/// agree modulo `p`. With the weight `only(m)` this says that they have the
/// same coefficient for `m`, with the weight `value_at(point)` that they have
/// the same value at `point`.
pub open spec fn same_combination(a: Seq<(int, TermModel)>, b: Seq<(int, TermModel)>, p: int) -> bool {
    forall|weight: spec_fn(TermModel) -> int| #[trigger]
        weighted_sum(a, weight) % p == weighted_sum(b, weight) % p
}

/// The largest degree of a monomial of the list, 0 for the empty list.
pub open spec fn terms_degree(terms: Seq<(int, TermModel)>) -> nat
    decreases terms.len(),
{
    if terms.len() == 0 {
        0
    } else if terms_degree(terms.drop_last()) >= term_degree(terms.last().1) {
        terms_degree(terms.drop_last())
    } else {
        term_degree(terms.last().1)
    }
}

/// Every term of the list only mentions variables below `num_vars`.
pub open spec fn terms_in_range(terms: Seq<(int, TermModel)>, num_vars: nat) -> bool {
    forall|k: int| 0 <= k < terms.len() ==> term_in_range((#[trigger] terms[k]).1, num_vars)
}

/// Every term of the polynomial only mentions variables below its `num_vars`.
pub open spec fn poly_in_range(m: PolyModel) -> bool {
    terms_in_range(m.terms, m.num_vars)
}

/// The normal form of a list of terms over the integers modulo `p`: every
/// coefficient is a reduced residue other than 0, every monomial is in normal
/// form, and the monomials are in strictly increasing order, so that none
/// comes twice.
pub open spec fn terms_normal(terms: Seq<(int, TermModel)>, p: int) -> bool {
    &&& forall|k: int| 0 <= k < terms.len() ==> 0 < (#[trigger] terms[k]).0 < p && term_normal(terms[k].1)
    &&& forall|a: int, b: int|
        0 <= a < b < terms.len() ==> term_precedes((#[trigger] terms[a]).1, (#[trigger] terms[b]).1)
}

/// The polynomial is in normal form and mentions no variable that it does
/// not have.
pub open spec fn poly_normal(m: PolyModel, p: int) -> bool {
    terms_normal(m.terms, p) && poly_in_range(m)
}

/// The terms of a polynomial as they are stored, taken as integers and factor
/// lists.
pub open spec fn term_models<const P: u64>(s: Seq<(Fp<P>, SparseTerm)>) -> Seq<(int, TermModel)> {
    Seq::new(s.len(), |k: int| (s[k].0.val(), s[k].1@))
}

/// The terms of a polynomial with the variables that a partial point binds
/// put in: each coefficient times the value of the bound factors of its
/// monomial (not reduced), and the monomial of the free factors.
pub open spec fn bind_terms(terms: Seq<(int, TermModel)>, point: Seq<Option<int>>) -> Seq<
    (int, TermModel),
> {
    Seq::new(
        terms.len(),
        |k: int| (terms[k].0 * bound_value(terms[k].1, point), free_part(terms[k].1, point)),
    )
}

/// Adding one more term to a list adds its coefficient times its weight to
/// the weighted sum, wherever the term is put.
pub proof fn lemma_weighted_sum_insert(
    terms: Seq<(int, TermModel)>,
    at: int,
    term: (int, TermModel),
    weight: spec_fn(TermModel) -> int,
)
    requires
        0 <= at <= terms.len(),
    ensures
        weighted_sum(terms.insert(at, term), weight) == weighted_sum(terms, weight) + term.0
            * weight(term.1),
    decreases terms.len() - at,
{
    let grown = terms.insert(at, term);
    if at == terms.len() {
        assert(grown.drop_last() =~= terms);
    } else {
        assert(grown.drop_last() =~= terms.drop_last().insert(at, term));
        assert(grown.last() == terms.last());
        lemma_weighted_sum_insert(terms.drop_last(), at, term, weight);
    }
}

/// Taking a term out of a list takes its coefficient times its weight out of
/// the weighted sum.
pub proof fn lemma_weighted_sum_remove(
    terms: Seq<(int, TermModel)>,
    at: int,
    weight: spec_fn(TermModel) -> int,
)
    requires
        0 <= at < terms.len(),
    ensures
        weighted_sum(terms.remove(at), weight) == weighted_sum(terms, weight) - terms[at].0
            * weight(terms[at].1),
{
    assert(terms.remove(at).insert(at, terms[at]) =~= terms);
    lemma_weighted_sum_insert(terms.remove(at), at, terms[at], weight);
}

/// The weighted sum of two lists put together is the sum of their weighted
/// sums.
pub proof fn lemma_weighted_sum_concat(
    a: Seq<(int, TermModel)>,
    b: Seq<(int, TermModel)>,
    weight: spec_fn(TermModel) -> int,
)
    ensures
        weighted_sum(a + b, weight) == weighted_sum(a, weight) + weighted_sum(b, weight),
    decreases b.len(),
{
    if b.len() == 0 {
        assert(a + b =~= a);
    } else {
        assert((a + b).drop_last() =~= a + b.drop_last());
        assert((a + b).last() == b.last());
        lemma_weighted_sum_concat(a, b.drop_last(), weight);
    }
}

/// Replacing a coefficient `c` by the reduced sum of `c` and `extra` changes
/// a weighted sum, modulo `p`, as adding a term with coefficient `extra` and
/// the same monomial does.
pub proof fn lemma_combine_coefficients(total: int, c: int, extra: int, w: int, p: int)
    requires
        p >= 1,
    ensures
        (total - c * w + ((c + extra) % p) * w) % p == (total + extra * w) % p,
{
    let q = (c + extra) / p;
    let r = (c + extra) % p;
    lemma_fundamental_div_mod(c + extra, p);
    assert(total - c * w + r * w == (total + extra * w) + p * (-(q * w))) by (nonlinear_arith)
        requires
            c + extra == p * q + r,
    ;
    lemma_mod_multiples_vanish(-(q * w), total + extra * w, p);
}

/// Adding the same integer to two integers that agree modulo `p` gives two
/// integers that agree modulo `p`.
pub proof fn lemma_congruence_add(a: int, b: int, x: int, p: int)
    requires
        p >= 1,
        a % p == b % p,
    ensures
        (a + x) % p == (b + x) % p,
{
    lemma_add_mod_noop(a, x, p);
    lemma_add_mod_noop(b, x, p);
}

/// Being the same linear combination is passed on: from `a` to `c` by way of
/// `b`.
pub proof fn lemma_same_combination_transitive(
    a: Seq<(int, TermModel)>,
    b: Seq<(int, TermModel)>,
    c: Seq<(int, TermModel)>,
    p: int,
)
    requires
        same_combination(a, b, p),
        same_combination(b, c, p),
    ensures
        same_combination(a, c, p),
{
    assert forall|weight: spec_fn(TermModel) -> int| #[trigger]
        weighted_sum(a, weight) % p == weighted_sum(c, weight) % p by {
        assert(weighted_sum(a, weight) % p == weighted_sum(b, weight) % p);
        assert(weighted_sum(b, weight) % p == weighted_sum(c, weight) % p);
    }
}

/// Lists that are the same linear combinations, put together, are the same
/// linear combination.
pub proof fn lemma_same_combination_concat(
    a: Seq<(int, TermModel)>,
    a2: Seq<(int, TermModel)>,
    b: Seq<(int, TermModel)>,
    b2: Seq<(int, TermModel)>,
    p: int,
)
    requires
        p >= 1,
        same_combination(a, a2, p),
        same_combination(b, b2, p),
    ensures
        same_combination(a + b, a2 + b2, p),
{
    assert forall|weight: spec_fn(TermModel) -> int| #[trigger]
        weighted_sum(a + b, weight) % p == weighted_sum(a2 + b2, weight) % p by {
        lemma_weighted_sum_concat(a, b, weight);
        lemma_weighted_sum_concat(a2, b2, weight);
        assert(weighted_sum(a, weight) % p == weighted_sum(a2, weight) % p);
        assert(weighted_sum(b, weight) % p == weighted_sum(b2, weight) % p);
        lemma_add_mod_noop(weighted_sum(a, weight), weighted_sum(b, weight), p);
        lemma_add_mod_noop(weighted_sum(a2, weight), weighted_sum(b2, weight), p);
    }
}

/// The terms of a polynomial with the bound variables put in have, at values
/// for the free variables, the value that the polynomial has at the full
/// point.
pub proof fn lemma_bind_terms_value(
    terms: Seq<(int, TermModel)>,
    point: Seq<Option<int>>,
    rest: Seq<int>,
)
    requires
        terms_in_range(terms, point.len()),
        point.len() <= usize::MAX,
    ensures
        terms_sum(bind_terms(terms, point), rest) == terms_sum(terms, fill(point, rest)),
    decreases terms.len(),
{
    let bound = bind_terms(terms, point);
    if terms.len() > 0 {
        let head = terms.drop_last();
        assert(bound.drop_last() =~= bind_terms(head, point));
        assert(terms_in_range(head, point.len())) by {
            assert forall|k: int| 0 <= k < head.len() implies term_in_range(
                (#[trigger] head[k]).1,
                point.len(),
            ) by {
                assert(head[k] == terms[k]);
            }
        }
        lemma_bind_terms_value(head, point, rest);
        let c = terms.last().0;
        let t = terms.last().1;
        assert(terms[terms.len() - 1] == terms.last());
        lemma_bound_and_free(t, point, rest);
        let bv = bound_value(t, point);
        let fv = term_eval(free_part(t, point), rest);
        assert(bound.last() == (c * bv, free_part(t, point)));
        assert((c * bv) * fv == c * (bv * fv)) by (nonlinear_arith);
    }
}

/// Adds `coeff * term` to a list of terms in normal form: a term of
/// coefficient zero changes nothing, a monomial that the list already holds
/// has its coefficient changed (and leaves the list when that becomes zero),
/// and a new monomial is put at its place in the order.
fn insert_term<const P: u64>(out: &mut Vec<(Fp<P>, SparseTerm)>, coeff: Fp<P>, term: SparseTerm)
    requires
        terms_normal(term_models(old(out)@), P as int),
    ensures
        terms_normal(term_models(final(out)@), P as int),
        same_combination(
            term_models(final(out)@),
            term_models(old(out)@).push((coeff.val(), term@)),
            P as int,
        ),
        forall|n: nat|
            terms_in_range(term_models(old(out)@), n) && term_in_range(term@, n)
                ==> #[trigger] terms_in_range(term_models(final(out)@), n),
{
    let ghost prev = term_models(out@);
    let ghost added = (coeff.val(), term@);
    proof {
        use_type_invariant(&coeff);
        use_type_invariant(&term);
        assert(prev.push(added).drop_last() =~= prev);
    }
    if coeff.is_zero() {
        assert forall|weight: spec_fn(TermModel) -> int| #[trigger]
            weighted_sum(prev, weight) % (P as int) == weighted_sum(prev.push(added), weight) % (
            P as int) by {
            assert(0 * weight(added.1) == 0);
        }
        return ;
    }
    let mut j: usize = 0;
    while j < out.len() && out[j].1.precedes(&term)
        invariant
            j <= out.len(),
            term_models(out@) == prev,
            forall|a: int| 0 <= a < j ==> term_precedes((#[trigger] prev[a]).1, term@),
        decreases out.len() - j,
    {
        j = j + 1;
    }
    if j < out.len() && out[j].1.same(&term) {
        let held: Fp<P> = out[j].0;
        let merged: Fp<P> = held.add(coeff);
        let ghost rest = prev.remove(j as int);
        assert(prev[j as int] == (held.val(), term@));
        if merged.is_zero() {
            let _ = out.remove(j);
            proof {
                assert(term_models(out@) =~= rest);
                assert forall|weight: spec_fn(TermModel) -> int| #[trigger]
                    weighted_sum(rest, weight) % (P as int) == weighted_sum(
                        prev.push(added),
                        weight,
                    ) % (P as int) by {
                    let w = weight(added.1);
                    assert(merged.val() * w == 0) by (nonlinear_arith)
                        requires
                            merged.val() == 0,
                    ;
                    lemma_weighted_sum_remove(prev, j as int, weight);
                    lemma_combine_coefficients(
                        weighted_sum(prev, weight),
                        held.val(),
                        coeff.val(),
                        w,
                        P as int,
                    );
                }
                assert forall|k: int| 0 <= k < rest.len() implies 0 < (#[trigger] rest[k]).0 < P
                    && term_normal(rest[k].1) by {
                    if k < j {
                        assert(rest[k] == prev[k]);
                    } else {
                        assert(rest[k] == prev[k + 1]);
                    }
                }
                assert forall|a: int, b: int| 0 <= a < b < rest.len() implies term_precedes(
                    (#[trigger] rest[a]).1,
                    (#[trigger] rest[b]).1,
                ) by {
                    let ia = if a < j {
                        a
                    } else {
                        a + 1
                    };
                    let ib = if b < j {
                        b
                    } else {
                        b + 1
                    };
                    assert(rest[a] == prev[ia] && rest[b] == prev[ib]);
                    assert(term_precedes(prev[ia].1, prev[ib].1));
                }
                assert forall|n: nat|
                    terms_in_range(prev, n) && term_in_range(term@, n) implies #[trigger] terms_in_range(
                    term_models(out@),
                    n,
                ) by {
                    assert forall|k: int| 0 <= k < rest.len() implies term_in_range(
                        (#[trigger] rest[k]).1,
                        n,
                    ) by {
                        if k < j {
                            assert(rest[k] == prev[k]);
                        } else {
                            assert(rest[k] == prev[k + 1]);
                        }
                    }
                }
            }
        } else {
            out.set(j, (merged, term));
            proof {
                let placed = (merged.val(), added.1);
                let now = term_models(out@);
                assert(now =~= rest.insert(j as int, placed));
                assert forall|weight: spec_fn(TermModel) -> int| #[trigger]
                    weighted_sum(now, weight) % (P as int) == weighted_sum(
                        prev.push(added),
                        weight,
                    ) % (P as int) by {
                    lemma_weighted_sum_remove(prev, j as int, weight);
                    lemma_weighted_sum_insert(rest, j as int, placed, weight);
                    lemma_combine_coefficients(
                        weighted_sum(prev, weight),
                        held.val(),
                        coeff.val(),
                        weight(added.1),
                        P as int,
                    );
                }
                assert forall|k: int| 0 <= k < now.len() implies 0 < (#[trigger] now[k]).0 < P
                    && term_normal(now[k].1) by {
                    if k != j {
                        assert(now[k] == prev[k]);
                    }
                }
                assert forall|a: int, b: int| 0 <= a < b < now.len() implies term_precedes(
                    (#[trigger] now[a]).1,
                    (#[trigger] now[b]).1,
                ) by {
                    assert(now[a].1 == prev[a].1 && now[b].1 == prev[b].1);
                    assert(term_precedes(prev[a].1, prev[b].1));
                }
                assert forall|n: nat|
                    terms_in_range(prev, n) && term_in_range(added.1, n) implies #[trigger] terms_in_range(
                    now,
                    n,
                ) by {
                    assert forall|k: int| 0 <= k < now.len() implies term_in_range(
                        (#[trigger] now[k]).1,
                        n,
                    ) by {
                        if k != j {
                            assert(now[k] == prev[k]);
                        }
                    }
                }
            }
        }
    } else {
        out.insert(j, (coeff, term));
        proof {
            let now = term_models(out@);
            assert(now =~= prev.insert(j as int, added));
            assert forall|weight: spec_fn(TermModel) -> int| #[trigger]
                weighted_sum(now, weight) % (P as int) == weighted_sum(prev.push(added), weight) % (
                P as int) by {
                lemma_weighted_sum_insert(prev, j as int, added, weight);
            }
            assert forall|k: int| 0 <= k < now.len() implies 0 < (#[trigger] now[k]).0 < P
                && term_normal(now[k].1) by {
                if k < j {
                    assert(now[k] == prev[k]);
                } else if k > j {
                    assert(now[k] == prev[k - 1]);
                }
            }
            if j < prev.len() {
                lemma_precedes_total(added.1, prev[j as int].1);
            }
            assert forall|a: int, b: int| 0 <= a < b < now.len() implies term_precedes(
                (#[trigger] now[a]).1,
                (#[trigger] now[b]).1,
            ) by {
                if b < j {
                    assert(now[a] == prev[a] && now[b] == prev[b]);
                } else if b == j {
                    assert(now[a] == prev[a]);
                } else if a < j {
                    assert(now[a] == prev[a] && now[b] == prev[b - 1]);
                    assert(term_precedes(prev[a].1, prev[b - 1].1));
                } else if a == j {
                    assert(now[b] == prev[b - 1]);
                    if j < b - 1 {
                        assert(term_precedes(prev[j as int].1, prev[b - 1].1));
                        lemma_precedes_transitive(added.1, prev[j as int].1, prev[b - 1].1);
                    }
                } else {
                    assert(now[a] == prev[a - 1] && now[b] == prev[b - 1]);
                    assert(term_precedes(prev[a - 1].1, prev[b - 1].1));
                }
            }
            assert forall|n: nat|
                terms_in_range(prev, n) && term_in_range(added.1, n) implies #[trigger] terms_in_range(
                now,
                n,
            ) by {
                assert forall|k: int| 0 <= k < now.len() implies term_in_range(
                    (#[trigger] now[k]).1,
                    n,
                ) by {
                    if k < j {
                        assert(now[k] == prev[k]);
                    } else if k > j {
                        assert(now[k] == prev[k - 1]);
                    }
                }
            }
        }
    }
}

/// Adds every term of `src` to the list `out`.
fn absorb<const P: u64>(out: &mut Vec<(Fp<P>, SparseTerm)>, src: &[(Fp<P>, SparseTerm)])
    requires
        P >= 1,
        terms_normal(term_models(old(out)@), P as int),
    ensures
        terms_normal(term_models(final(out)@), P as int),
        same_combination(
            term_models(final(out)@),
            term_models(old(out)@) + term_models(src@),
            P as int,
        ),
        forall|n: nat|
            terms_in_range(term_models(old(out)@), n) && terms_in_range(term_models(src@), n)
                ==> #[trigger] terms_in_range(term_models(final(out)@), n),
{
    let ghost start = term_models(out@);
    let ghost all = term_models(src@);
    let mut k: usize = 0;
    assert(start + all.take(0) =~= start);
    while k < src.len()
        invariant
            k <= src.len(),
            P >= 1,
            all == term_models(src@),
            terms_normal(term_models(out@), P as int),
            same_combination(term_models(out@), start + all.take(k as int), P as int),
            forall|n: nat|
                terms_in_range(start, n) && terms_in_range(all, n) ==> #[trigger] terms_in_range(
                    term_models(out@),
                    n,
                ),
        decreases src.len() - k,
    {
        let ghost before = term_models(out@);
        let coeff: Fp<P> = src[k].0;
        let term: SparseTerm = src[k].1.clone();
        insert_term(out, coeff, term);
        proof {
            let added = (coeff.val(), term@);
            let sofar = start + all.take(k as int);
            assert(all[k as int] == added);
            assert(start + all.take(k + 1) =~= sofar.push(added));
            assert(sofar.push(added).drop_last() =~= sofar);
            assert(before.push(added).drop_last() =~= before);
            assert forall|weight: spec_fn(TermModel) -> int| #[trigger]
                weighted_sum(term_models(out@), weight) % (P as int) == weighted_sum(
                    sofar.push(added),
                    weight,
                ) % (P as int) by {
                assert(weighted_sum(term_models(out@), weight) % (P as int) == weighted_sum(
                    before.push(added),
                    weight,
                ) % (P as int));
                assert(weighted_sum(before, weight) % (P as int) == weighted_sum(sofar, weight) % (
                P as int));
                lemma_congruence_add(
                    weighted_sum(before, weight),
                    weighted_sum(sofar, weight),
                    added.0 * weight(added.1),
                    P as int,
                );
            }
            assert forall|n: nat|
                terms_in_range(start, n) && terms_in_range(all, n) implies #[trigger] terms_in_range(
                term_models(out@),
                n,
            ) by {
                assert(terms_in_range(before, n));
                assert(term_in_range(all[k as int].1, n));
            }
        }
        k = k + 1;
    }
    assert(all.take(k as int) =~= all);
}

/// For every prefix of a partial point, the number of its free slots.
fn free_ranks<const P: u64>(point: &Vec<Option<Fp<P>>>) -> (ranks: Vec<usize>)
    ensures
        ranks@.len() == point@.len() + 1,
        forall|j: int|
            0 <= j <= point@.len() ==> #[trigger] ranks@[j] == free_before(partial_vals(point@), j),
{
    let ghost pv = partial_vals(point@);
    let mut ranks: Vec<usize> = Vec::new();
    let mut count: usize = 0;
    let mut k: usize = 0;
    ranks.push(0);
    while k < point.len()
        invariant
            k <= point.len(),
            pv == partial_vals(point@),
            ranks@.len() == k + 1,
            count == free_before(pv, k as int),
            count <= k,
            forall|j: int| 0 <= j <= k ==> #[trigger] ranks@[j] == free_before(pv, j),
        decreases point.len() - k,
    {
        assert((pv[k as int] is None) == (point@[k as int] is None));
        if point[k].is_none() {
            count = count + 1;
        }
        ranks.push(count);
        k = k + 1;
    }
    ranks
}

/// A polynomial in several variables over `Fp<P>`, as a list of terms.
#[derive(Debug, PartialEq, Eq)]
pub struct SparsePolynomial<const P: u64> {
    num_vars: usize,
    terms: Vec<(Fp<P>, SparseTerm)>,
}

impl<const P: u64> View for SparsePolynomial<P> {
    type V = PolyModel;

    closed spec fn view(&self) -> PolyModel {
        PolyModel { num_vars: self.num_vars as nat, terms: term_models(self.terms@) }
    }
}

impl<const P: u64> Clone for SparsePolynomial<P> {
    fn clone(&self) -> (r: Self)
        ensures
            r@ == self@,
    {
        proof {
            use_type_invariant(self);
        }
        let mut terms: Vec<(Fp<P>, SparseTerm)> = Vec::new();
        let mut k: usize = 0;
        while k < self.terms.len()
            invariant
                k <= self.terms.len(),
                terms@.len() == k,
                forall|j: int|
                    0 <= j < k ==> (#[trigger] terms@[j]).0 == self.terms@[j].0 && terms@[j].1@
                        == self.terms@[j].1@,
            decreases self.terms.len() - k,
        {
            terms.push((self.terms[k].0, self.terms[k].1.clone()));
            k = k + 1;
        }
        assert(term_models(terms@) =~= term_models(self.terms@));
        SparsePolynomial { num_vars: self.num_vars, terms }
    }
}

impl<const P: u64> SparsePolynomial<P> {
    /// The modulus is positive and the polynomial is in normal form.
    #[verifier::type_invariant]
    pub open spec fn wf(self) -> bool {
        P >= 1 && poly_normal(self@, P as int)
    }

    /// The polynomial in `num_vars` variables that is the sum of the given
    /// terms.
    pub fn from_coefficients_slice(num_vars: usize, terms: &[(Fp<P>, SparseTerm)]) -> (r: Self)
        requires
            P >= 1,
            terms_in_range(term_models(terms@), num_vars as nat),
        ensures
            r@.num_vars == num_vars,
            poly_normal(r@, P as int),
            same_combination(r@.terms, term_models(terms@), P as int),
            forall|point: Seq<int>| #[trigger]
                poly_eval(r@, point, P as int) == terms_sum(term_models(terms@), point) % (
                P as int),
    {
        let mut out: Vec<(Fp<P>, SparseTerm)> = Vec::new();
        let ghost none = term_models(out@);
        assert(none =~= Seq::<(int, TermModel)>::empty());
        absorb(&mut out, terms);
        assert(none + term_models(terms@) =~= term_models(terms@));
        let r = SparsePolynomial { num_vars, terms: out };
        assert forall|point: Seq<int>| #[trigger]
            poly_eval(r@, point, P as int) == terms_sum(term_models(terms@), point) % (
            P as int) by {
            assert(weighted_sum(r@.terms, value_at(point)) % (P as int) == weighted_sum(
                term_models(terms@),
                value_at(point),
            ) % (P as int));
        }
        r
    }

    /// The polynomial in `num_vars` variables that is the sum of the given
    /// terms.
    pub fn from_coefficients_vec(num_vars: usize, terms: Vec<(Fp<P>, SparseTerm)>) -> (r: Self)
        requires
            P >= 1,
            terms_in_range(term_models(terms@), num_vars as nat),
        ensures
            r@.num_vars == num_vars,
            poly_normal(r@, P as int),
            same_combination(r@.terms, term_models(terms@), P as int),
            forall|point: Seq<int>| #[trigger]
                poly_eval(r@, point, P as int) == terms_sum(term_models(terms@), point) % (
                P as int),
    {
        Self::from_coefficients_slice(num_vars, terms.as_slice())
    }

    /// The polynomial in `num_vars` variables that has no term.
    pub fn zero(num_vars: usize) -> (r: Self)
        requires
            P >= 1,
        ensures
            r@.num_vars == num_vars,
            r@.terms.len() == 0,
            poly_normal(r@, P as int),
            forall|point: Seq<int>| #[trigger] poly_eval(r@, point, P as int) == 0,
    {
        let terms: Vec<(Fp<P>, SparseTerm)> = Vec::new();
        assert(term_models(terms@) =~= Seq::<(int, TermModel)>::empty());
        assert forall|point: Seq<int>| #[trigger]
            terms_sum(term_models(terms@), point) % (P as int) == 0 by {
            lemma_small_mod(0, P as nat);
        }
        SparsePolynomial { num_vars, terms }
    }

    /// The total degree: the largest degree of a term, 0 where there is
    /// none.
    pub fn degree(&self) -> (r: usize)
        ensures
            r == terms_degree(self@.terms),
    {
        let ghost all = term_models(self.terms@);
        let mut best: usize = 0;
        let mut k: usize = 0;
        assert(all.take(0) =~= Seq::<(int, TermModel)>::empty());
        while k < self.terms.len()
            invariant
                k <= self.terms.len(),
                all == term_models(self.terms@),
                best == terms_degree(all.take(k as int)),
            decreases self.terms.len() - k,
        {
            let here: usize = self.terms[k].1.degree();
            proof {
                assert(all.take(k + 1).drop_last() =~= all.take(k as int));
                assert(all.take(k + 1).last() == all[k as int]);
            }
            if here > best {
                best = here;
            }
            k = k + 1;
        }
        assert(all.take(k as int) =~= all);
        best
    }

    /// The terms of this polynomial, each a coefficient and a monomial.
    pub fn terms(&self) -> (r: &Vec<(Fp<P>, SparseTerm)>)
        ensures
            term_models(r@) == self@.terms,
    {
        &self.terms
    }

    /// The number of variables of this polynomial.
    pub fn num_vars(&self) -> (r: usize)
        ensures
            r == self@.num_vars,
    {
        self.num_vars
    }

    /// The value of this polynomial at `point`, whose first `num_vars`
    /// coordinates are the values of the variables.
    pub fn evaluate(&self, point: &Vec<Fp<P>>) -> (r: Fp<P>)
        requires
            point@.len() >= self@.num_vars,
        ensures
            r.val() == poly_eval(self@, vals(point@), P as int),
            0 <= r.val() < P,
    {
        proof {
            use_type_invariant(self);
        }
        let ghost pt = vals(point@);
        let ghost all = self@.terms;
        let mut acc: Fp<P> = Fp::zero();
        let mut k: usize = 0;
        assert(all.take(0) =~= Seq::<(int, TermModel)>::empty());
        proof {
            lemma_small_mod(0, P as nat);
        }
        while k < self.terms.len()
            invariant
                k <= self.terms.len(),
                P >= 1,
                pt == vals(point@),
                all == term_models(self.terms@),
                terms_in_range(all, self.num_vars as nat),
                point@.len() >= self.num_vars,
                acc.val() == terms_sum(all.take(k as int), pt) % (P as int),
                0 <= acc.val() < P,
            decreases self.terms.len() - k,
        {
            let coeff: Fp<P> = self.terms[k].0;
            assert(all[k as int] == (coeff.val(), self.terms@[k as int].1@));
            assert(term_in_range(all[k as int].1, self.num_vars as nat));
            let at: Fp<P> = self.terms[k].1.evaluate(point);
            proof {
                let te = term_eval(all[k as int].1, pt);
                let before = terms_sum(all.take(k as int), pt);
                assert(all.take(k + 1).drop_last() =~= all.take(k as int));
                assert(all.take(k + 1).last() == all[k as int]);
                lemma_mul_mod_noop_right(coeff.val(), te, P as int);
                lemma_add_mod_noop(before, coeff.val() * te, P as int);
            }
            acc = acc.add(coeff.mul(at));
            k = k + 1;
        }
        assert(all.take(k as int) =~= all);
        acc
    }

    /// The sum of two polynomials.
    pub fn add(&self, other: &Self) -> (r: Self)
        ensures
            r@.num_vars == if self@.num_vars >= other@.num_vars {
                self@.num_vars
            } else {
                other@.num_vars
            },
            poly_normal(r@, P as int),
            same_combination(r@.terms, self@.terms + other@.terms, P as int),
            forall|point: Seq<int>| #[trigger]
                poly_eval(r@, point, P as int) == fadd(
                    poly_eval(self@, point, P as int),
                    poly_eval(other@, point, P as int),
                    P as int,
                ),
    {
        proof {
            use_type_invariant(self);
            use_type_invariant(other);
        }
        let num_vars: usize = if self.num_vars >= other.num_vars {
            self.num_vars
        } else {
            other.num_vars
        };
        let ghost a = term_models(self.terms@);
        let ghost b = term_models(other.terms@);
        let mut out: Vec<(Fp<P>, SparseTerm)> = Vec::new();
        let ghost none = term_models(out@);
        assert(none =~= Seq::<(int, TermModel)>::empty());
        absorb(&mut out, self.terms.as_slice());
        let ghost half = term_models(out@);
        assert(none + a =~= a);
        proof {
            assert(terms_in_range(a, num_vars as nat)) by {
                assert forall|k: int| 0 <= k < a.len() implies term_in_range(
                    (#[trigger] a[k]).1,
                    num_vars as nat,
                ) by {
                    assert(term_in_range(a[k].1, self.num_vars as nat));
                }
            }
            assert(terms_in_range(b, num_vars as nat)) by {
                assert forall|k: int| 0 <= k < b.len() implies term_in_range(
                    (#[trigger] b[k]).1,
                    num_vars as nat,
                ) by {
                    assert(term_in_range(b[k].1, other.num_vars as nat));
                }
            }
            assert(terms_in_range(half, num_vars as nat));
        }
        absorb(&mut out, other.terms.as_slice());
        proof {
            let now = term_models(out@);
            assert forall|weight: spec_fn(TermModel) -> int| #[trigger]
                weighted_sum(now, weight) % (P as int) == weighted_sum(a + b, weight) % (
                P as int) by {
                lemma_weighted_sum_concat(half, b, weight);
                lemma_weighted_sum_concat(a, b, weight);
                assert(weighted_sum(now, weight) % (P as int) == weighted_sum(half + b, weight) % (
                P as int));
                assert(weighted_sum(half, weight) % (P as int) == weighted_sum(a, weight) % (
                P as int));
                lemma_congruence_add(
                    weighted_sum(half, weight),
                    weighted_sum(a, weight),
                    weighted_sum(b, weight),
                    P as int,
                );
            }
            assert forall|point: Seq<int>| #[trigger]
                terms_sum(now, point) % (P as int) == fadd(
                    terms_sum(a, point) % (P as int),
                    terms_sum(b, point) % (P as int),
                    P as int,
                ) by {
                assert(weighted_sum(now, value_at(point)) % (P as int) == weighted_sum(
                    a + b,
                    value_at(point),
                ) % (P as int));
                lemma_weighted_sum_concat(a, b, value_at(point));
                lemma_add_mod_noop(terms_sum(a, point), terms_sum(b, point), P as int);
            }
        }
        SparsePolynomial { num_vars, terms: out }
    }

    /// Binds the variables whose slot in `point` holds a value and keeps the
    /// others, which are numbered anew from 0 in their old order: the result
    /// is a polynomial in the free variables alone.
    pub fn partial_evaluate(&self, point: &Vec<Option<Fp<P>>>) -> (r: Self)
        requires
            point@.len() == self@.num_vars,
        ensures
            r@.num_vars == free_before(partial_vals(point@), point@.len() as int),
            poly_normal(r@, P as int),
            same_combination(
                r@.terms,
                bind_terms(self@.terms, partial_vals(point@)),
                P as int,
            ),
            forall|rest: Seq<int>| #[trigger]
                poly_eval(r@, rest, P as int) == poly_eval(
                    self@,
                    fill(partial_vals(point@), rest),
                    P as int,
                ),
    {
        proof {
            use_type_invariant(self);
        }
        let ghost pv = partial_vals(point@);
        let ghost all = term_models(self.terms@);
        let ghost bound = bind_terms(all, pv);
        let ranks: Vec<usize> = free_ranks(point);
        let free: usize = ranks[point.len()];
        let mut out: Vec<(Fp<P>, SparseTerm)> = Vec::new();
        let mut k: usize = 0;
        assert(term_models(out@) =~= Seq::<(int, TermModel)>::empty());
        assert(bound.take(0) =~= Seq::<(int, TermModel)>::empty());
        while k < self.terms.len()
            invariant
                k <= self.terms.len(),
                P >= 1,
                pv == partial_vals(point@),
                all == term_models(self.terms@),
                bound == bind_terms(all, pv),
                terms_in_range(all, self.num_vars as nat),
                point@.len() == self.num_vars,
                ranks@.len() == point@.len() + 1,
                forall|j: int| 0 <= j <= point@.len() ==> #[trigger] ranks@[j] == free_before(pv, j),
                free == free_before(pv, point@.len() as int),
                terms_in_range(term_models(out@), free as nat),
                terms_normal(term_models(out@), P as int),
                same_combination(term_models(out@), bound.take(k as int), P as int),
            decreases self.terms.len() - k,
        {
            let ghost before = term_models(out@);
            let ghost c = all[k as int].0;
            let ghost t = all[k as int].1;
            assert(all[k as int] == (self.terms@[k as int].0.val(), self.terms@[k as int].1@));
            assert(term_in_range(t, self.num_vars as nat));
            let put: (Fp<P>, SparseTerm) = self.terms[k].1.bind(self.terms[k].0, point, &ranks);
            let ghost placed = (put.0.val(), put.1@);
            insert_term(&mut out, put.0, put.1);
            proof {
                let sofar = bound.take(k as int);
                let exact = bound[k as int];
                assert(bound.take(k + 1) =~= sofar.push(exact));
                assert(sofar.push(exact).drop_last() =~= sofar);
                assert(before.push(placed).drop_last() =~= before);
                assert(exact.1 == placed.1);
                assert(placed.0 == exact.0 % (P as int));
                assert forall|weight: spec_fn(TermModel) -> int| #[trigger]
                    weighted_sum(term_models(out@), weight) % (P as int) == weighted_sum(
                        sofar.push(exact),
                        weight,
                    ) % (P as int) by {
                    let w = weight(exact.1);
                    assert(weighted_sum(term_models(out@), weight) % (P as int) == weighted_sum(
                        before.push(placed),
                        weight,
                    ) % (P as int));
                    assert(weighted_sum(before, weight) % (P as int) == weighted_sum(
                        sofar,
                        weight,
                    ) % (P as int));
                    lemma_mul_mod_noop_left(exact.0, w, P as int);
                    lemma_congruence_add(
                        weighted_sum(before, weight),
                        weighted_sum(sofar, weight),
                        placed.0 * w,
                        P as int,
                    );
                    lemma_congruence_add(
                        placed.0 * w,
                        exact.0 * w,
                        weighted_sum(sofar, weight),
                        P as int,
                    );
                }
            }
            k = k + 1;
        }
        assert(bound.take(k as int) =~= bound);
        let r = SparsePolynomial { num_vars: free, terms: out };
        proof {
            assert forall|rest: Seq<int>| #[trigger]
                poly_eval(r@, rest, P as int) == poly_eval(self@, fill(pv, rest), P as int) by {
                assert(weighted_sum(r@.terms, value_at(rest)) % (P as int) == weighted_sum(
                    bound,
                    value_at(rest),
                ) % (P as int));
                lemma_bind_terms_value(all, pv, rest);
            }
        }
        r
    }
}

} // verus!
