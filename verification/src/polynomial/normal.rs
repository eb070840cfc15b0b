//! The normal form of a polynomial is unique: two lists of terms in normal
//! form that are the same linear combination of monomials are the same list.

use crate::polynomial::term::{
    lemma_precedes_irreflexive, lemma_precedes_transitive, term_precedes, TermModel,
};
use crate::polynomial::{
    coefficient, lemma_congruence_add, only, same_combination, terms_normal, weighted_sum,
};
use vstd::arithmetic::div_mod::*;
use vstd::prelude::*;

verus! {

/// The monomial `m` is one of the monomials of the list.
pub open spec fn has_monomial(terms: Seq<(int, TermModel)>, m: TermModel) -> bool {
    exists|k: int| 0 <= k < terms.len() && (#[trigger] terms[k]).1 == m
}

/// A list in normal form without its last term is in normal form.
pub proof fn lemma_normal_prefix(terms: Seq<(int, TermModel)>, p: int)
    requires
        terms_normal(terms, p),
        terms.len() > 0,
    ensures
        terms_normal(terms.drop_last(), p),
{
    let head = terms.drop_last();
    assert forall|k: int| 0 <= k < head.len() implies 0 < (#[trigger] head[k]).0 < p
        && crate::polynomial::term::term_normal(head[k].1) by {
        assert(head[k] == terms[k]);
    }
    assert forall|a: int, b: int| 0 <= a < b < head.len() implies term_precedes(
        (#[trigger] head[a]).1,
        (#[trigger] head[b]).1,
    ) by {
        assert(head[a] == terms[a] && head[b] == terms[b]);
    }
}

/// In a list in normal form, the coefficient of a monomial is the
/// coefficient of the one term that has it, and 0 where no term has it.
pub proof fn lemma_coefficient_of_normal(terms: Seq<(int, TermModel)>, m: TermModel, p: int)
    requires
        terms_normal(terms, p),
    ensures
        forall|k: int|
            0 <= k < terms.len() && (#[trigger] terms[k]).1 == m ==> coefficient(terms, m)
                == terms[k].0,
        !has_monomial(terms, m) ==> coefficient(terms, m) == 0,
    decreases terms.len(),
{
    if terms.len() > 0 {
        let head = terms.drop_last();
        let last = terms.len() - 1;
        lemma_normal_prefix(terms, p);
        lemma_coefficient_of_normal(head, m, p);
        assert(terms.last() == terms[last]);
        if terms[last].1 == m {
            // no earlier term has the monomial
            assert(!has_monomial(head, m)) by {
                if has_monomial(head, m) {
                    let k = choose|k: int| 0 <= k < head.len() && (#[trigger] head[k]).1 == m;
                    assert(head[k] == terms[k]);
                    assert(term_precedes(terms[k].1, terms[last].1));
                    lemma_precedes_irreflexive(m);
                }
            }
            assert(terms[last].0 * 1 == terms[last].0);
        } else {
            assert(terms[last].0 * 0 == 0);
        }
        assert forall|k: int| 0 <= k < terms.len() && (#[trigger] terms[k]).1 == m implies coefficient(
            terms,
            m,
        ) == terms[k].0 by {
            if k < last {
                assert(head[k] == terms[k]);
                assert(term_precedes(terms[k].1, terms[last].1));
                lemma_precedes_irreflexive(m);
            }
        }
        if !has_monomial(terms, m) {
            assert(!has_monomial(head, m)) by {
                if has_monomial(head, m) {
                    let k = choose|k: int| 0 <= k < head.len() && (#[trigger] head[k]).1 == m;
                    assert(terms[k] == head[k]);
                }
            }
            assert(terms[last].1 != m);
        }
    }
}

/// A list in normal form whose combination has, modulo `p`, a coefficient
/// other than 0 for a monomial holds that monomial.
pub proof fn lemma_nonzero_coefficient_is_held(
    terms: Seq<(int, TermModel)>,
    m: TermModel,
    p: int,
)
    requires
        p >= 1,
        terms_normal(terms, p),
        coefficient(terms, m) % p != 0,
    ensures
        has_monomial(terms, m),
{
    lemma_coefficient_of_normal(terms, m, p);
    lemma_small_mod(0, p as nat);
}

/// Two lists of terms in normal form that are the same linear combination of
/// monomials modulo `p` are the same list.
pub proof fn lemma_normal_form_unique(a: Seq<(int, TermModel)>, b: Seq<(int, TermModel)>, p: int)
    requires
        p >= 1,
        terms_normal(a, p),
        terms_normal(b, p),
        same_combination(a, b, p),
    ensures
        a == b,
    decreases a.len() + b.len(),
{
    if a.len() == 0 && b.len() == 0 {
        assert(a =~= b);
    } else if a.len() == 0 || b.len() == 0 {
        // the last monomial of the list that is not empty has a coefficient
        // in it, and none in the empty list
        let full = if a.len() == 0 {
            b
        } else {
            a
        };
        let none = if a.len() == 0 {
            a
        } else {
            b
        };
        let last = full[full.len() - 1];
        lemma_coefficient_of_normal(full, last.1, p);
        lemma_small_mod(last.0 as nat, p as nat);
        lemma_small_mod(0, p as nat);
        assert(weighted_sum(a, only(last.1)) % p == weighted_sum(b, only(last.1)) % p);
        assert(coefficient(none, last.1) == 0);
    } else {
        let la = a[a.len() - 1];
        let lb = b[b.len() - 1];
        assert(a.last() == la && b.last() == lb);
        lemma_coefficient_of_normal(a, la.1, p);
        lemma_coefficient_of_normal(b, lb.1, p);
        lemma_small_mod(la.0 as nat, p as nat);
        lemma_small_mod(lb.0 as nat, p as nat);
        assert(weighted_sum(a, only(la.1)) % p == weighted_sum(b, only(la.1)) % p);
        assert(weighted_sum(a, only(lb.1)) % p == weighted_sum(b, only(lb.1)) % p);
        lemma_nonzero_coefficient_is_held(b, la.1, p);
        lemma_nonzero_coefficient_is_held(a, lb.1, p);
        let kb = choose|k: int| 0 <= k < b.len() && (#[trigger] b[k]).1 == la.1;
        let ka = choose|k: int| 0 <= k < a.len() && (#[trigger] a[k]).1 == lb.1;
        if kb < b.len() - 1 && ka < a.len() - 1 {
            assert(term_precedes(b[kb].1, b[b.len() - 1].1));
            assert(term_precedes(a[ka].1, a[a.len() - 1].1));
            lemma_precedes_transitive(la.1, lb.1, la.1);
            lemma_precedes_irreflexive(la.1);
        }
        assert(la.1 == lb.1);
        lemma_coefficient_of_normal(b, la.1, p);
        assert(la.0 == lb.0);
        assert(la == lb);
        let ha = a.drop_last();
        let hb = b.drop_last();
        lemma_normal_prefix(a, p);
        lemma_normal_prefix(b, p);
        assert forall|weight: spec_fn(TermModel) -> int| #[trigger]
            weighted_sum(ha, weight) % p == weighted_sum(hb, weight) % p by {
            let x = la.0 * weight(la.1);
            assert(weighted_sum(a, weight) % p == weighted_sum(b, weight) % p);
            lemma_congruence_add(weighted_sum(a, weight), weighted_sum(b, weight), -x, p);
        }
        lemma_normal_form_unique(ha, hb, p);
        assert(a =~= ha.push(la));
        assert(b =~= hb.push(lb));
    }
}

} // verus!
