//! The text of a polynomial: its terms as `c*x{i}^e`, joined by `+` and `-`,
//! `0` for the polynomial without terms, and the text of the ring at the end.
use crate::poly::polynomial::MultivariatePolynomial;
use crate::poly::Exponent;
use crate::rings::text::{decimal, decimal_string, push_char, push_text};
use crate::rings::Ring;
use vstd::prelude::*;

verus! {

/// The text of the power of variable `i` with the exponent `e`, after the sign
/// `*` unless it is the first factor of its term: nothing for the exponent
/// zero, no exponent for the exponent one.
pub open spec fn factor_text(i: int, e: u32, first: bool) -> Seq<char> {
    if e == 0 {
        Seq::<char>::empty()
    } else {
        (if first {
            Seq::<char>::empty()
        } else {
            seq!['*']
        }) + seq!['x'] + decimal(i as u64) + (if e != 1 {
            seq!['^'] + decimal(e as u64)
        } else {
            Seq::<char>::empty()
        })
    }
}

/// The text of the powers of the first `n` variables of an exponent vector.
/// `first` says whether the term has no text yet for its coefficient.
pub open spec fn factors_text<E: Exponent>(row: Seq<E>, n: int, first: bool) -> Seq<char>
    decreases n,
{
    if n <= 0 {
        Seq::<char>::empty()
    } else {
        factors_text(row, n - 1, first) + factor_text(
            n - 1,
            row[n - 1].to_u32_spec(),
            first && no_factor(row, n - 1),
        )
    }
}

/// None of the first `n` variables has a non-zero exponent.
pub open spec fn no_factor<E: Exponent>(row: Seq<E>, n: int) -> bool {
    forall|v: int| 0 <= v < n ==> (#[trigger] row[v]).to_u32_spec() == 0
}

impl<F: Ring, E: Exponent> MultivariatePolynomial<F, E> {
    /// Whether the coefficient of term `k` is written out: it is neither one
    /// nor minus one.
    pub open spec fn coefficient_shown(&self, k: int) -> bool {
        let c = self.coefficients@[k];
        c != self.field.one_spec() && c != self.field.neg_spec(self.field.one_spec())
    }

    /// The text of the coefficient of term `k`: a sign alone for one and minus
    /// one, where one has no sign at the start of the polynomial.
    pub open spec fn coefficient_text(&self, k: int) -> Seq<char> {
        let c = self.coefficients@[k];
        if c == self.field.one_spec() {
            if k == 0 {
                Seq::<char>::empty()
            } else {
                seq!['+']
            }
        } else if c == self.field.neg_spec(self.field.one_spec()) {
            seq!['-']
        } else {
            self.field.element_text(c, k != 0)
        }
    }

    /// The text of term `k`.
    pub open spec fn term_text(&self, k: int) -> Seq<char> {
        let row = self.rows()[k];
        let bare = !self.coefficient_shown(k);
        self.coefficient_text(k) + factors_text(row, self.nvars as int, bare) + (if bare
            && no_factor(row, self.nvars as int) {
            seq!['1']
        } else {
            Seq::<char>::empty()
        })
    }

    /// The text of the first `n` terms.
    pub open spec fn terms_text(&self, n: int) -> Seq<char>
        decreases n,
    {
        if n <= 0 {
            Seq::<char>::empty()
        } else {
            self.terms_text(n - 1) + self.term_text(n - 1)
        }
    }

    /// The text of the polynomial.
    pub open spec fn text(&self) -> Seq<char> {
        self.terms_text(self.nterms as int) + (if self.nterms == 0 {
            seq!['0']
        } else {
            Seq::<char>::empty()
        }) + self.field.ring_text()
    }

    /// The text of the polynomial: its terms as `c*x{i}^e`, joined by `+` and
    /// `-`, `0` for the polynomial without terms, and the text of the ring at
    /// the end.
    #[verifier::rlimit(50)]
    pub fn to_string(&self) -> (s: String)
        requires
            self.wf(),
        ensures
            s@ == self.text(),
    {
        let mut s = String::new();
        let mut k: usize = 0;
        proof {
            self.lemma_rows();
        }
        while k < self.nterms
            invariant
                self.wf(),
                k <= self.nterms,
                s@ == self.terms_text(k as int),
            decreases self.nterms - k,
        {
            proof {
                self.lemma_rows();
                self.field.lemma_constants();
            }
            let c = &self.coefficients[k];
            let row = self.exponents(k);
            let ghost start = s@;
            let mut is_first_factor = true;
            if self.field.is_one(c) {
                if k != 0 {
                    push_char(&mut s, '+');
                }
            } else if self.field.eq_element(c, &self.field.neg(&self.field.one())) {
                push_char(&mut s, '-');
            } else {
                let t = self.field.format_element(c, k != 0);
                push_text(&mut s, &t);
                is_first_factor = false;
            }
            proof {
                assert(s@ =~= start + self.coefficient_text(k as int));
                assert(is_first_factor == !self.coefficient_shown(k as int));
            }
            let ghost bare = is_first_factor;
            let ghost after_coefficient = s@;
            let mut i: usize = 0;
            while i < self.nvars
                invariant
                    row@ == self.rows()[k as int],
                    row@.len() == self.nvars,
                    i <= self.nvars,
                    s@ == after_coefficient + factors_text(row@, i as int, bare),
                    is_first_factor == (bare && no_factor(row@, i as int)),
                decreases self.nvars - i,
            {
                let e = row[i].to_u32();
                let ghost before = s@;
                if e != 0 {
                    if is_first_factor {
                        is_first_factor = false;
                    } else {
                        push_char(&mut s, '*');
                    }
                    push_char(&mut s, 'x');
                    let name = decimal_string(i as u64);
                    push_text(&mut s, &name);
                    if e != 1 {
                        push_char(&mut s, '^');
                        let power = decimal_string(e as u64);
                        push_text(&mut s, &power);
                    }
                }
                proof {
                    assert(s@ =~= before + factor_text(
                        i as int,
                        e,
                        bare && no_factor(row@, i as int),
                    ));
                    if no_factor(row@, i + 1) {
                        assert(row@[i as int].to_u32_spec() == 0);
                    }
                }
                i += 1;
            }
            if is_first_factor {
                push_char(&mut s, '1');
            }
            proof {
                assert(s@ =~= start + self.term_text(k as int));
            }
            k += 1;
        }
        if self.nterms == 0 {
            push_char(&mut s, '0');
        }
        let ring = self.field.format_ring();
        push_text(&mut s, &ring);
        proof {
            assert(s@ =~= self.text());
        }
        s
    }
}

} // verus!
