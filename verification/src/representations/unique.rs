//! The bytes of an expression determine the expression.
use crate::representations::default::{
    encoding, encodings, fn_body, lemma_encodings_next, term_body, FN_ID, NUM_ID, TERM_ID, VAR_ID,
};
use crate::representations::number::{
    frac_bytes, frac_len, lemma_frac_round_trip, lemma_num_round_trip, num_bytes,
};
use crate::representations::packing::lemma_le_bytes_len;
use crate::representations::tree::{lemma_trees_of, trees_of, Atom, Tree};
use vstd::prelude::*;

verus! {

/// Every list of arguments or factors in the expression has a length that
/// can be written down.
pub open spec fn tree_ok(t: Tree) -> bool
    decreases t,
{
    match t {
        Tree::Var(_, _) => true,
        Tree::Number(_) => true,
        Tree::Fn(_, args) => args.len() <= u64::MAX && forall|i: int|
            0 <= i < args.len() ==> tree_ok(#[trigger] args[i]),
        Tree::Term(args) => args.len() <= u64::MAX && forall|i: int|
            0 <= i < args.len() ==> tree_ok(#[trigger] args[i]),
    }
}

/// The tag of an expression.
pub open spec fn tag_of(t: Tree) -> u8 {
    match t {
        Tree::Var(_, _) => VAR_ID,
        Tree::Number(_) => NUM_ID,
        Tree::Fn(_, _) => FN_ID,
        Tree::Term(_) => TERM_ID,
    }
}

/// The value of an expression in memory has lists of lengths that can be
/// written down.
pub proof fn lemma_atom_ok(a: Atom)
    ensures
        tree_ok(a@),
    decreases a,
{
    match a {
        Atom::Fn(_, args) => {
            lemma_trees_of(args, args.len() as nat);
            let ts = trees_of(args, args.len() as nat);
            assert forall|i: int| 0 <= i < ts.len() implies tree_ok(#[trigger] ts[i]) by {
                lemma_atom_ok(args[i]);
            }
        },
        Atom::Term(args) => {
            lemma_trees_of(args, args.len() as nat);
            let ts = trees_of(args, args.len() as nat);
            assert forall|i: int| 0 <= i < ts.len() implies tree_ok(#[trigger] ts[i]) by {
                lemma_atom_ok(args[i]);
            }
        },
        _ => {},
    }
}

/// The bytes of an expression begin with its tag.
pub proof fn lemma_first_byte(t: Tree)
    ensures
        encoding(t).len() >= 1,
        encoding(t)[0] == tag_of(t),
{
}

/// Two fractions with the same bytes, each followed by any bytes, are the
/// same, and so is what follows them.
pub proof fn lemma_frac_unique(n1: u64, d1: u64, r1: Seq<u8>, n2: u64, d2: u64, r2: Seq<u8>)
    requires
        frac_bytes(n1, d1) + r1 == frac_bytes(n2, d2) + r2,
    ensures
        n1 == n2,
        d1 == d2,
        r1 == r2,
{
    let s = frac_bytes(n1, d1) + r1;
    lemma_frac_round_trip(n1, d1, r1);
    lemma_frac_round_trip(n2, d2, r2);
    assert(r1 =~= s.skip(frac_len(s) as int));
    assert(r2 =~= s.skip(frac_len(s) as int));
}

/// Two numbers on their own with the same bytes, each followed by any bytes,
/// are the same, and so is what follows them.
pub proof fn lemma_num_unique(n1: u64, r1: Seq<u8>, n2: u64, r2: Seq<u8>)
    requires
        num_bytes(n1) + r1 == num_bytes(n2) + r2,
    ensures
        n1 == n2,
        r1 == r2,
{
    let s = num_bytes(n1) + r1;
    lemma_num_round_trip(n1, r1);
    lemma_num_round_trip(n2, r2);
    assert(r1 =~= s.skip(frac_len(s) as int));
    assert(r2 =~= s.skip(frac_len(s) as int));
}

/// Two lists of expressions of one length with the same bytes, each followed
/// by any bytes, agree in their first `k` expressions.
proof fn lemma_lists_unique(a1: Seq<Tree>, r1: Seq<u8>, a2: Seq<Tree>, r2: Seq<u8>, k: nat)
    requires
        a1.len() == a2.len(),
        k <= a1.len(),
        forall|i: int| 0 <= i < a1.len() ==> tree_ok(#[trigger] a1[i]),
        forall|i: int| 0 <= i < a2.len() ==> tree_ok(#[trigger] a2[i]),
        encodings(a1, a1.len()) + r1 == encodings(a2, a2.len()) + r2,
    ensures
        forall|i: int| 0 <= i < k ==> a1[i] == a2[i],
        encodings(a1, k) == encodings(a2, k),
    decreases a1, k,
{
    if k > 0 {
        let j = (k - 1) as nat;
        lemma_lists_unique(a1, r1, a2, r2, j);
        lemma_encodings_next(a1, j);
        lemma_encodings_next(a2, j);
        let all1 = encodings(a1, a1.len());
        let all2 = encodings(a2, a2.len());
        let p = encodings(a1, j).len() as int;
        let rest1 = all1.skip(encodings(a1, k).len() as int) + r1;
        let rest2 = all2.skip(encodings(a2, k).len() as int) + r2;
        assert((all1 + r1).skip(p) =~= encoding(a1[j as int]) + rest1) by {
            assert((all1 + r1).skip(p) =~= all1.skip(p) + r1);
        }
        assert((all2 + r2).skip(p) =~= encoding(a2[j as int]) + rest2) by {
            assert((all2 + r2).skip(p) =~= all2.skip(p) + r2);
        }
        law_encoding_unique(a1[j as int], rest1, a2[j as int], rest2);
    }
}

/// The bytes of an expression determine it: two expressions with the same
/// bytes, each followed by any bytes, are the same expression, and what
/// follows them is the same.
pub proof fn law_encoding_unique(t1: Tree, r1: Seq<u8>, t2: Tree, r2: Seq<u8>)
    requires
        tree_ok(t1),
        tree_ok(t2),
        encoding(t1) + r1 == encoding(t2) + r2,
    ensures
        t1 == t2,
        r1 == r2,
    decreases t1, 0nat,
{
    let s = encoding(t1) + r1;
    lemma_first_byte(t1);
    lemma_first_byte(t2);
    assert(s[0] == tag_of(t1));
    assert((encoding(t2) + r2)[0] == tag_of(t2));
    match (t1, t2) {
        (Tree::Var(n1, p1), Tree::Var(n2, p2)) => {
            let u1 = seq![NUM_ID] + frac_bytes(p1.num, p1.den) + r1;
            let u2 = seq![NUM_ID] + frac_bytes(p2.num, p2.den) + r2;
            assert(s.skip(1) =~= frac_bytes(n1 as u64, 1) + u1);
            assert((encoding(t2) + r2).skip(1) =~= frac_bytes(n2 as u64, 1) + u2);
            lemma_frac_unique(n1 as u64, 1, u1, n2 as u64, 1, u2);
            assert(u1.skip(1) =~= frac_bytes(p1.num, p1.den) + r1);
            assert(u2.skip(1) =~= frac_bytes(p2.num, p2.den) + r2);
            lemma_frac_unique(p1.num, p1.den, r1, p2.num, p2.den, r2);
        },
        (Tree::Number(p1), Tree::Number(p2)) => {
            assert(s.skip(1) =~= frac_bytes(p1.num, p1.den) + r1);
            assert((encoding(t2) + r2).skip(1) =~= frac_bytes(p2.num, p2.den) + r2);
            lemma_frac_unique(p1.num, p1.den, r1, p2.num, p2.den, r2);
        },
        (Tree::Fn(n1, a1), Tree::Fn(n2, a2)) => {
            let e1 = encodings(a1, a1.len()) + r1;
            let e2 = encodings(a2, a2.len()) + r2;
            lemma_le_bytes_len(fn_body(n1, a1).len(), 4);
            lemma_le_bytes_len(fn_body(n2, a2).len(), 4);
            assert(s.skip(5) =~= frac_bytes(n1 as u64, a1.len() as u64) + e1);
            assert((encoding(t2) + r2).skip(5) =~= frac_bytes(n2 as u64, a2.len() as u64) + e2);
            lemma_frac_unique(n1 as u64, a1.len() as u64, e1, n2 as u64, a2.len() as u64, e2);
            lemma_lists_unique(a1, r1, a2, r2, a1.len());
            assert(a1 =~= a2);
            assert(r1 =~= e1.skip(encodings(a1, a1.len()).len() as int));
            assert(r2 =~= e2.skip(encodings(a2, a2.len()).len() as int));
        },
        (Tree::Term(a1), Tree::Term(a2)) => {
            let e1 = encodings(a1, a1.len()) + r1;
            let e2 = encodings(a2, a2.len()) + r2;
            lemma_le_bytes_len(term_body(a1).len(), 4);
            lemma_le_bytes_len(term_body(a2).len(), 4);
            assert(s.skip(5) =~= num_bytes(a1.len() as u64) + e1);
            assert((encoding(t2) + r2).skip(5) =~= num_bytes(a2.len() as u64) + e2);
            lemma_num_unique(a1.len() as u64, e1, a2.len() as u64, e2);
            lemma_lists_unique(a1, r1, a2, r2, a1.len());
            assert(a1 =~= a2);
            assert(r1 =~= e1.skip(encodings(a1, a1.len()).len() as int));
            assert(r2 =~= e2.skip(encodings(a2, a2.len()).len() as int));
        },
        _ => {},
    }
}

} // verus!
