//! Exponent vectors and their lexicographic order.
use crate::poly::Exponent;
use vstd::prelude::*;

verus! {

/// How one exponent vector stands to another in the monomial order.
#[derive(Clone, Copy, Debug, PartialEq, Eq, Structural)]
pub enum Relation {
    Less,
    Equal,
    Greater,
}

/// The two vectors agree in the first `k` places.
pub open spec fn agree_before<E: Exponent>(a: Seq<E>, b: Seq<E>, k: int) -> bool {
    forall|i: int| 0 <= i < k ==> a[i] == b[i]
}

/// `a` is smaller than `b` at place `k`, and they agree before it.
pub open spec fn lt_at<E: Exponent>(a: Seq<E>, b: Seq<E>, k: int) -> bool {
    &&& 0 <= k < a.len()
    &&& agree_before(a, b, k)
    &&& a[k].to_u32_spec() < b[k].to_u32_spec()
}

/// `a` comes before `b` in the lexicographic order: they have the same length
/// and `a` is smaller at the first place where they differ.
pub open spec fn lex_lt<E: Exponent>(a: Seq<E>, b: Seq<E>) -> bool {
    &&& a.len() == b.len()
    &&& exists|k: int| lt_at(a, b, k)
}

/// `a` comes before `b` or is `b`.
pub open spec fn lex_le<E: Exponent>(a: Seq<E>, b: Seq<E>) -> bool {
    lex_lt(a, b) || a == b
}

/// The numbers that the exponents of a vector stand for.
pub open spec fn key_of<E: Exponent>(a: Seq<E>) -> Seq<u32> {
    Seq::new(a.len(), |v: int| a[v].to_u32_spec())
}

/// The exponent vector that a vector of numbers stands for.
pub open spec fn row_of<E: Exponent>(k: Seq<u32>) -> Seq<E> {
    Seq::new(k.len(), |v: int| E::from_u32_spec(k[v]))
}

/// Every sum of two exponents at the same place is within range.
pub open spec fn sum_fits<E: Exponent>(a: Seq<E>, b: Seq<E>) -> bool {
    &&& a.len() == b.len()
    &&& forall|v: int|
        0 <= v < a.len() ==> #[trigger] a[v].to_u32_spec() + b[v].to_u32_spec() <= E::max_spec()
}

/// The exponent vector of the product of two monomials.
pub open spec fn row_add<E: Exponent>(a: Seq<E>, b: Seq<E>) -> Seq<E> {
    Seq::new(a.len(), |v: int| E::from_u32_spec((a[v].to_u32_spec() + b[v].to_u32_spec()) as u32))
}

/// `b` is at most `a` at every place, so that the monomial of `b` divides
/// that of `a`.
pub open spec fn dominates<E: Exponent>(a: Seq<E>, b: Seq<E>) -> bool {
    &&& a.len() == b.len()
    &&& forall|v: int| 0 <= v < a.len() ==> #[trigger] b[v].to_u32_spec() <= a[v].to_u32_spec()
}

/// The exponent vector of the quotient of two monomials.
pub open spec fn row_sub<E: Exponent>(a: Seq<E>, b: Seq<E>) -> Seq<E> {
    Seq::new(a.len(), |v: int| E::from_u32_spec((a[v].to_u32_spec() - b[v].to_u32_spec()) as u32))
}

/// The vector of `n` zero exponents.
pub open spec fn zero_row<E: Exponent>(n: nat) -> Seq<E> {
    Seq::new(n, |v: int| E::from_u32_spec(0))
}

/// No vector comes before itself.
pub proof fn lemma_lex_irreflexive<E: Exponent>(a: Seq<E>)
    ensures
        !lex_lt(a, a),
{
}

/// The order is transitive.
pub proof fn lemma_lex_transitive<E: Exponent>(a: Seq<E>, b: Seq<E>, c: Seq<E>)
    requires
        lex_lt(a, b),
        lex_lt(b, c),
    ensures
        lex_lt(a, c),
{
    let k1 = choose|k: int| lt_at(a, b, k);
    let k2 = choose|k: int| lt_at(b, c, k);
    if k1 <= k2 {
        assert(lt_at(a, c, k1));
    } else {
        assert(lt_at(a, c, k2));
    }
}

/// Of two vectors, not both come before the other.
pub proof fn lemma_lex_asymmetric<E: Exponent>(a: Seq<E>, b: Seq<E>)
    requires
        lex_lt(a, b),
    ensures
        !lex_lt(b, a),
        a != b,
{
    if lex_lt(b, a) {
        lemma_lex_transitive(a, b, a);
    }
}

/// Two vectors that agree in the first `k` places are equal from there on, or
/// one comes before the other.
proof fn lemma_lex_total_from<E: Exponent>(a: Seq<E>, b: Seq<E>, k: int)
    requires
        a.len() == b.len(),
        0 <= k <= a.len(),
        agree_before(a, b, k),
    ensures
        lex_lt(a, b) || a == b || lex_lt(b, a),
    decreases a.len() - k,
{
    if k == a.len() {
        assert(a =~= b);
    } else if a[k].to_u32_spec() < b[k].to_u32_spec() {
        assert(lt_at(a, b, k));
    } else if b[k].to_u32_spec() < a[k].to_u32_spec() {
        assert(lt_at(b, a, k));
    } else {
        E::lemma_exponent(a[k], 0);
        E::lemma_exponent(b[k], 0);
        lemma_lex_total_from(a, b, k + 1);
    }
}

/// The order is total on vectors of one length.
pub proof fn lemma_lex_total<E: Exponent>(a: Seq<E>, b: Seq<E>)
    requires
        a.len() == b.len(),
    ensures
        lex_lt(a, b) || a == b || lex_lt(b, a),
{
    lemma_lex_total_from(a, b, 0);
}

/// `lex_le` and `lex_lt` chain.
pub proof fn lemma_lex_le_lt<E: Exponent>(a: Seq<E>, b: Seq<E>, c: Seq<E>)
    requires
        lex_le(a, b),
        lex_lt(b, c),
    ensures
        lex_lt(a, c),
{
    if a != b {
        lemma_lex_transitive(a, b, c);
    }
}

/// `lex_lt` and `lex_le` chain.
pub proof fn lemma_lex_lt_le<E: Exponent>(a: Seq<E>, b: Seq<E>, c: Seq<E>)
    requires
        lex_lt(a, b),
        lex_le(b, c),
    ensures
        lex_lt(a, c),
{
    if b != c {
        lemma_lex_transitive(a, b, c);
    }
}

/// A sum within range has the exponents' sums as its numbers.
pub proof fn lemma_row_add_values<E: Exponent>(a: Seq<E>, b: Seq<E>)
    requires
        sum_fits(a, b),
    ensures
        row_add(a, b).len() == a.len(),
        forall|v: int|
            0 <= v < a.len() ==> (#[trigger] row_add(a, b)[v]).to_u32_spec() == a[v].to_u32_spec()
                + b[v].to_u32_spec(),
{
    assert forall|v: int| 0 <= v < a.len() implies (#[trigger] row_add(a, b)[v]).to_u32_spec()
        == a[v].to_u32_spec() + b[v].to_u32_spec() by {
        assert(a[v].to_u32_spec() + b[v].to_u32_spec() <= E::max_spec());
        E::lemma_exponent(a[v], (a[v].to_u32_spec() + b[v].to_u32_spec()) as u32);
    }
}

/// The sum of two exponent vectors does not depend on their order.
pub proof fn lemma_row_add_commutative<E: Exponent>(a: Seq<E>, b: Seq<E>)
    requires
        a.len() == b.len(),
    ensures
        row_add(a, b) == row_add(b, a),
{
    assert(row_add(a, b) =~= row_add(b, a));
}

/// Adding the zero vector changes nothing.
pub proof fn lemma_row_add_zero<E: Exponent>(a: Seq<E>)
    ensures
        sum_fits(a, zero_row::<E>(a.len())),
        row_add(a, zero_row::<E>(a.len())) == a,
        row_add(zero_row::<E>(a.len()), a) == a,
{
    let z = zero_row::<E>(a.len());
    assert forall|v: int| 0 <= v < a.len() implies z[v].to_u32_spec() == 0 by {
        E::lemma_exponent(a[v], 0);
    }
    assert forall|v: int| 0 <= v < a.len() implies #[trigger] a[v].to_u32_spec()
        + z[v].to_u32_spec() <= E::max_spec() by {
        E::lemma_exponent(a[v], 0);
    }
    assert forall|v: int| 0 <= v < a.len() implies row_add(a, z)[v] == a[v] by {
        E::lemma_exponent(a[v], 0);
    }
    assert(row_add(a, z) =~= a);
    assert(row_add(z, a) =~= row_add(a, z));
}

/// Adding the same vector on the right keeps the order.
pub proof fn lemma_row_add_monotone<E: Exponent>(a: Seq<E>, b: Seq<E>, c: Seq<E>)
    requires
        lex_lt(a, b),
        sum_fits(a, c),
        sum_fits(b, c),
    ensures
        lex_lt(row_add(a, c), row_add(b, c)),
        lex_lt(row_add(c, a), row_add(c, b)),
{
    let k = choose|k: int| lt_at(a, b, k);
    lemma_row_add_values(a, c);
    lemma_row_add_values(b, c);
    assert(lt_at(row_add(a, c), row_add(b, c), k));
    lemma_row_add_commutative(a, c);
    lemma_row_add_commutative(b, c);
}

/// Adding the same vector can be undone: equal sums come from equal vectors.
pub proof fn lemma_row_add_cancel<E: Exponent>(a: Seq<E>, b: Seq<E>, c: Seq<E>)
    requires
        sum_fits(a, c),
        sum_fits(b, c),
        row_add(a, c) == row_add(b, c),
    ensures
        a == b,
{
    lemma_lex_total(a, b);
    if lex_lt(a, b) {
        lemma_row_add_monotone(a, b, c);
        lemma_lex_asymmetric(row_add(a, c), row_add(b, c));
    } else if lex_lt(b, a) {
        lemma_row_add_monotone(b, a, c);
        lemma_lex_asymmetric(row_add(b, c), row_add(a, c));
    }
}

/// A difference has the exponents' differences as its numbers, and adding the
/// subtrahend gives the vector back.
pub proof fn lemma_row_sub_values<E: Exponent>(a: Seq<E>, b: Seq<E>)
    requires
        dominates(a, b),
    ensures
        row_sub(a, b).len() == a.len(),
        forall|v: int|
            0 <= v < a.len() ==> (#[trigger] row_sub(a, b)[v]).to_u32_spec() == a[v].to_u32_spec()
                - b[v].to_u32_spec(),
        sum_fits(row_sub(a, b), b),
        row_add(row_sub(a, b), b) == a,
{
    let d = row_sub(a, b);
    assert forall|v: int| 0 <= v < a.len() implies (#[trigger] d[v]).to_u32_spec()
        == a[v].to_u32_spec() - b[v].to_u32_spec() by {
        assert(b[v].to_u32_spec() <= a[v].to_u32_spec());
        E::lemma_exponent(a[v], (a[v].to_u32_spec() - b[v].to_u32_spec()) as u32);
    }
    assert forall|v: int| 0 <= v < a.len() implies #[trigger] d[v].to_u32_spec()
        + b[v].to_u32_spec() <= E::max_spec() by {
        assert(d[v].to_u32_spec() == a[v].to_u32_spec() - b[v].to_u32_spec());
        E::lemma_exponent(a[v], 0);
    }
    assert forall|v: int| 0 <= v < a.len() implies row_add(d, b)[v] == a[v] by {
        assert(d[v].to_u32_spec() == a[v].to_u32_spec() - b[v].to_u32_spec());
        E::lemma_exponent(a[v], 0);
    }
    assert(row_add(d, b) =~= a);
}

/// The numbers of a vector determine it, and keep its order.
pub proof fn lemma_key_of<E: Exponent>(a: Seq<E>, b: Seq<E>)
    ensures
        row_of::<E>(key_of(a)) == a,
        key_of(a) == key_of(b) ==> a == b,
        lex_lt(a, b) <==> lex_lt(key_of(a), key_of(b)),
{
    assert forall|v: int| 0 <= v < a.len() implies row_of::<E>(key_of(a))[v] == a[v] by {
        E::lemma_exponent(a[v], 0);
    }
    assert(row_of::<E>(key_of(a)) =~= a);
    if key_of(a) == key_of(b) {
        assert(a.len() == key_of(a).len());
        assert(b.len() == key_of(b).len());
        assert forall|v: int| 0 <= v < a.len() implies a[v] == b[v] by {
            assert(key_of(a)[v] == key_of(b)[v]);
            E::lemma_exponent(a[v], 0);
            E::lemma_exponent(b[v], 0);
        }
        assert(a =~= b);
    }
    if lex_lt(a, b) {
        let k = choose|k: int| lt_at(a, b, k);
        assert(lt_at(key_of(a), key_of(b), k));
    }
    if lex_lt(key_of(a), key_of(b)) {
        let k = choose|k: int| lt_at(key_of(a), key_of(b), k);
        assert(a.len() == key_of(a).len());
        assert(b.len() == key_of(b).len());
        assert forall|i: int| 0 <= i < k implies a[i] == b[i] by {
            assert(key_of(a)[i] == key_of(b)[i]);
            E::lemma_exponent(a[i], 0);
            E::lemma_exponent(b[i], 0);
        }
        assert(key_of(a)[k] == a[k].to_u32_spec());
        assert(key_of(b)[k] == b[k].to_u32_spec());
        assert(lt_at(a, b, k));
    }
}

/// The place of a vector of numbers in the lexicographic order of all vectors
/// of its length: the vector read as a number with the digits `0..2^32`.
pub open spec fn rank(k: Seq<u32>) -> nat
    decreases k.len(),
{
    if k.len() == 0 {
        0
    } else {
        rank(k.drop_last()) * 0x1_0000_0000 + k.last() as nat
    }
}

/// The number of vectors of numbers of the length `n`.
pub open spec fn rank_bound(n: nat) -> nat
    decreases n,
{
    if n == 0 {
        1
    } else {
        rank_bound((n - 1) as nat) * 0x1_0000_0000
    }
}

/// The rank of a vector is below the number of vectors of its length.
pub proof fn lemma_rank_bound(k: Seq<u32>)
    ensures
        rank(k) < rank_bound(k.len()),
    decreases k.len(),
{
    if k.len() > 0 {
        lemma_rank_bound(k.drop_last());
        let r = rank(k.drop_last());
        let b = rank_bound((k.len() - 1) as nat);
        assert(r * 0x1_0000_0000 + k.last() < b * 0x1_0000_0000) by (nonlinear_arith)
            requires
                r < b,
                k.last() < 0x1_0000_0000,
        ;
    }
}

/// A vector that comes before another has the smaller rank.
pub proof fn lemma_rank_monotone(a: Seq<u32>, b: Seq<u32>)
    requires
        lex_lt(a, b),
    ensures
        rank(a) < rank(b),
    decreases a.len(),
{
    let w = choose|w: int| lt_at(a, b, w);
    let a2 = a.drop_last();
    let b2 = b.drop_last();
    if w == a.len() - 1 {
        assert(a2 =~= b2);
    } else {
        assert(lt_at(a2, b2, w));
        lemma_rank_monotone(a2, b2);
        let x = rank(a2);
        let y = rank(b2);
        assert(x * 0x1_0000_0000 + a.last() < y * 0x1_0000_0000 + b.last()) by (nonlinear_arith)
            requires
                x < y,
                a.last() < 0x1_0000_0000,
                0 <= b.last(),
        ;
    }
}

/// Sums of vectors that do not come after keep their order: if `a2` does not
/// come after `a` and `b2` does not come after `b`, then `a2 + b2` does not
/// come after `a + b`, and is equal to it only if `a2 == a` and `b2 == b`.
pub proof fn lemma_row_add_monotone_both<E: Exponent>(a2: Seq<E>, a: Seq<E>, b2: Seq<E>, b: Seq<E>)
    requires
        lex_le(a2, a),
        lex_le(b2, b),
        a.len() == b.len(),
        sum_fits(a, b),
        sum_fits(a2, b2),
    ensures
        lex_le(row_add(a2, b2), row_add(a, b)),
        row_add(a2, b2) == row_add(a, b) ==> a2 == a && b2 == b,
{
    lemma_row_add_values(a, b);
    lemma_row_add_values(a2, b2);
    if a2 == a && b2 == b {
    } else {
        // the first place where one of the two pairs differs
        let ka = if a2 == a {
            a.len() as int
        } else {
            choose|k: int| lt_at(a2, a, k)
        };
        let kb = if b2 == b {
            b.len() as int
        } else {
            choose|k: int| lt_at(b2, b, k)
        };
        let k = if ka <= kb {
            ka
        } else {
            kb
        };
        assert(0 <= k < a.len());
        assert(lt_at(row_add(a2, b2), row_add(a, b), k)) by {
            assert forall|i: int| 0 <= i < k implies row_add(a2, b2)[i] == row_add(a, b)[i] by {
                assert(a2[i] == a[i]);
                assert(b2[i] == b[i]);
            }
            if ka < kb {
                assert(b2[k] == b[k]);
            } else if kb < ka {
                assert(a2[k] == a[k]);
            }
            assert(a2[k].to_u32_spec() <= a[k].to_u32_spec());
            assert(b2[k].to_u32_spec() <= b[k].to_u32_spec());
            assert(row_add(a2, b2)[k].to_u32_spec() == a2[k].to_u32_spec() + b2[k].to_u32_spec());
            assert(row_add(a, b)[k].to_u32_spec() == a[k].to_u32_spec() + b[k].to_u32_spec());
            assert(row_add(a2, b2).len() == row_add(a, b).len());
        }
        lemma_lex_asymmetric(row_add(a2, b2), row_add(a, b));
    }
}

/// Compares two exponent vectors in the monomial order.
pub fn compare_exponents<E: Exponent>(a: &[E], b: &[E]) -> (r: Relation)
    requires
        a@.len() == b@.len(),
    ensures
        r == Relation::Less <==> lex_lt(a@, b@),
        r == Relation::Equal <==> a@ == b@,
        r == Relation::Greater <==> lex_lt(b@, a@),
{
    let n = a.len();
    let mut k: usize = 0;
    while k < n
        invariant
            n == a@.len(),
            n == b@.len(),
            0 <= k <= n,
            agree_before(a@, b@, k as int),
        decreases n - k,
    {
        let x = a[k].to_u32();
        let y = b[k].to_u32();
        if x < y {
            proof {
                assert(lt_at(a@, b@, k as int));
                lemma_lex_asymmetric(a@, b@);
            }
            return Relation::Less;
        }
        if x > y {
            proof {
                assert(lt_at(b@, a@, k as int));
                lemma_lex_asymmetric(b@, a@);
            }
            return Relation::Greater;
        }
        proof {
            E::lemma_exponent(a@[k as int], 0);
            E::lemma_exponent(b@[k as int], 0);
        }
        k += 1;
    }
    proof {
        assert(a@ =~= b@);
        lemma_lex_irreflexive(a@);
    }
    Relation::Equal
}

/// Whether every exponent of `b` is at most the one of `a` at its place.
pub fn exponents_dominate<E: Exponent>(a: &[E], b: &[E]) -> (r: bool)
    requires
        a@.len() == b@.len(),
    ensures
        r == dominates(a@, b@),
{
    let n = a.len();
    let mut k: usize = 0;
    while k < n
        invariant
            n == a@.len(),
            n == b@.len(),
            0 <= k <= n,
            forall|v: int| 0 <= v < k ==> #[trigger] b@[v].to_u32_spec() <= a@[v].to_u32_spec(),
        decreases n - k,
    {
        if a[k].to_u32() < b[k].to_u32() {
            return false;
        }
        k += 1;
    }
    true
}

/// Whether every exponent of the vector is zero.
pub fn exponents_are_zero<E: Exponent>(a: &[E]) -> (r: bool)
    ensures
        r == (forall|v: int| 0 <= v < a@.len() ==> #[trigger] a@[v].to_u32_spec() == 0),
{
    let n = a.len();
    let mut k: usize = 0;
    while k < n
        invariant
            n == a@.len(),
            0 <= k <= n,
            forall|v: int| 0 <= v < k ==> #[trigger] a@[v].to_u32_spec() == 0,
        decreases n - k,
    {
        if !a[k].is_zero() {
            return false;
        }
        k += 1;
    }
    true
}

} // verus!
