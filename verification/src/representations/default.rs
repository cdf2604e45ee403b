//! The default representation of an expression: a tagged byte stream.
//!
//! Every expression begins with a byte whose low three bits are its tag. A
//! number is the tag and a fraction. A variable is the tag, its name as a
//! fraction over one, the tag of a number and its power as a fraction. A
//! function is the tag, the number of the bytes that follow as four bytes, its
//! name over the number of its arguments as a fraction, and its arguments. A
//! term is the tag, the number of the bytes that follow as four bytes, the
//! number of its factors, and its factors.
use crate::representations::number::{
    code_of, den_code, frac_bytes, frac_den, frac_len, frac_num, get_frac_u64, is_frac,
    lemma_frac_round_trip, lemma_num_round_trip, num_bytes, num_code, skip_rational, width,
    write_frac, write_num, write_num_fixed,
};
use crate::representations::packing::{
    advance, byte_range, get_u32_le, get_u8, le_bytes, le_value, lemma_byte_ranges,
    lemma_le_bytes_len, lemma_le_round_trip, lemma_le_value_bound, put_u32_le, put_u8,
    write_u32_le_at,
};
use crate::rings::finite_field::{gcd_nat, gcd_unsigned, lemma_gcd_divides};
use std::cmp::Ordering;
use vstd::slice::slice_subrange;
use crate::representations::tree::{lemma_trees_of, tree_of, trees_of, Atom, Number, Tree};
use crate::representations::unique::{lemma_first_byte, tag_of, tree_ok};
use crate::representations::Identifier;
use vstd::prelude::*;

verus! {

/// The tag of a number.
pub const NUM_ID: u8 = 1;

/// The tag of a variable.
pub const VAR_ID: u8 = 2;

/// The tag of a function.
pub const FN_ID: u8 = 3;

/// The tag of a term.
pub const TERM_ID: u8 = 4;

/// The bits of the first byte that hold the tag.
pub const TYPE_MASK: u8 = 0b00000111;

/// The bit of the first byte that marks a function as not normalized.
pub const DIRTY_FLAG: u8 = 0b10000000;

/// The bytes of the first `n` expressions of a list, one after the other.
pub open spec fn encodings(ts: Seq<Tree>, n: nat) -> Seq<u8>
    decreases ts, n,
{
    if n == 0 || n > ts.len() {
        Seq::empty()
    } else {
        encodings(ts, (n - 1) as nat) + encoding(ts[n - 1])
    }
}

/// What follows the size of a function: its name over the number of its
/// arguments, and its arguments.
pub open spec fn fn_body(name: u32, args: Seq<Tree>) -> Seq<u8>
    decreases args, args.len() + 1,
{
    frac_bytes(name as u64, args.len() as u64) + encodings(args, args.len())
}

/// What follows the size of a term: the number of its factors, and its
/// factors.
pub open spec fn term_body(args: Seq<Tree>) -> Seq<u8>
    decreases args, args.len() + 1,
{
    num_bytes(args.len() as u64) + encodings(args, args.len())
}

/// The bytes of an expression.
pub open spec fn encoding(t: Tree) -> Seq<u8>
    decreases t,
{
    match t {
        Tree::Var(name, pow) => seq![VAR_ID] + frac_bytes(name as u64, 1) + seq![NUM_ID]
            + frac_bytes(pow.num, pow.den),
        Tree::Fn(name, args) => seq![FN_ID] + le_bytes(fn_body(name, args).len(), 4) + fn_body(
            name,
            args,
        ),
        Tree::Number(n) => seq![NUM_ID] + frac_bytes(n.num, n.den),
        Tree::Term(args) => seq![TERM_ID] + le_bytes(term_body(args).len(), 4) + term_body(args),
    }
}

/// The bytes of the first expressions of a list are the beginning of the
/// bytes of more of them.
pub proof fn lemma_encodings_prefix(ts: Seq<Tree>, i: nat, n: nat)
    requires
        i <= n <= ts.len(),
    ensures
        encodings(ts, i).len() <= encodings(ts, n).len(),
        encodings(ts, n).take(encodings(ts, i).len() as int) == encodings(ts, i),
    decreases n,
{
    if i < n {
        lemma_encodings_prefix(ts, i, (n - 1) as nat);
        let before = encodings(ts, (n - 1) as nat);
        assert(encodings(ts, n).take(encodings(ts, i).len() as int) =~= before.take(
            encodings(ts, i).len() as int,
        ));
    } else {
        assert(encodings(ts, n).take(encodings(ts, i).len() as int) =~= encodings(ts, i));
    }
}

/// What is left of the bytes of a list of expressions after the first `i` of
/// them begins with the bytes of the next one.
pub proof fn lemma_encodings_next(ts: Seq<Tree>, i: nat)
    requires
        i < ts.len(),
    ensures
        encodings(ts, i).len() + encoding(ts[i as int]).len() == encodings(ts, i + 1).len(),
        encodings(ts, i + 1).len() <= encodings(ts, ts.len()).len(),
        encodings(ts, ts.len()).skip(encodings(ts, i).len() as int) == encoding(ts[i as int])
            + encodings(ts, ts.len()).skip(encodings(ts, i + 1).len() as int),
{
    let all = encodings(ts, ts.len());
    let a = encodings(ts, i);
    let b = encodings(ts, i + 1);
    lemma_encodings_prefix(ts, i + 1, ts.len());
    assert(b == a + encoding(ts[i as int]));
    assert(all =~= b + all.skip(b.len() as int)) by {
        assert(all.take(b.len() as int) == b);
    }
    assert(all.skip(a.len() as int) =~= encoding(ts[i as int]) + all.skip(b.len() as int));
}

/// The tags are their own low three bits.
pub proof fn lemma_tags()
    ensures
        NUM_ID & TYPE_MASK == NUM_ID,
        VAR_ID & TYPE_MASK == VAR_ID,
        FN_ID & TYPE_MASK == FN_ID,
        TERM_ID & TYPE_MASK == TERM_ID,
{
    assert(1u8 & 7u8 == 1u8) by (bit_vector);
    assert(2u8 & 7u8 == 2u8) by (bit_vector);
    assert(3u8 & 7u8 == 3u8) by (bit_vector);
    assert(4u8 & 7u8 == 4u8) by (bit_vector);
}

/// The bytes begin with the bytes of an expression.
pub open spec fn begins_with_expression(s: Seq<u8>) -> bool {
    exists|w: (Tree, Seq<u8>)| tree_ok(w.0) && s == encoding(#[trigger] w.0) + w.1
}

/// The representation of expressions as tagged byte streams.
#[derive(Debug, Copy, Clone)]
pub struct DefaultRepresentation {}

/// An expression in its linear form, which owns its bytes.
#[derive(Debug, Clone)]
pub struct OwnedAtom {
    pub data: Vec<u8>,
}

impl OwnedAtom {
    /// An expression without bytes, to be written to.
    pub fn new() -> (r: Self)
        ensures
            r.data@.len() == 0,
    {
        OwnedAtom { data: Vec::new() }
    }

    /// Drops all bytes.
    pub fn reset(&mut self)
        ensures
            final(self).data@.len() == 0,
    {
        self.data.clear();
    }

    /// The number of bytes.
    pub fn len(&self) -> (r: usize)
        ensures
            r == self.data@.len(),
    {
        self.data.len()
    }
}

impl OwnedAtom {
    /// Appends the bytes of an expression.
    pub fn linearize(&mut self, atom: &Atom)
        requires
            encoding(atom@).len() <= u32::MAX,
        ensures
            final(self).data@ == old(self).data@ + encoding(atom@),
        decreases atom,
    {
        let ghost start = self.data@;
        match atom {
            Atom::Var(name, pow) => {
                put_u8(&mut self.data, VAR_ID);
                write_frac(name.to_u32() as u64, 1, &mut self.data);
                put_u8(&mut self.data, NUM_ID);
                write_frac(pow.num, pow.den, &mut self.data);
                proof {
                    assert(self.data@ =~= start + encoding(atom@));
                }
            },
            Atom::Fn(name, args) => {
                put_u8(&mut self.data, FN_ID);
                let size_pos = self.data.len();
                put_u32_le(&mut self.data, 0);  // length of entire fn without flag
                let buf_pos = self.data.len();
                // pack name and args
                write_frac(name.to_u32() as u64, args.len() as u64, &mut self.data);
                let ghost ts = trees_of(*args, args.len() as nat);
                let ghost body = fn_body(name.0, ts);
                proof {
                    lemma_trees_of(*args, args.len() as nat);
                    lemma_le_bytes_len(0, 4);
                    lemma_le_bytes_len(body.len(), 4);
                }
                self.linearize_list(args, Ghost(body), Ghost(frac_bytes(name.0 as u64, ts.len() as u64)));
                let new_buf_pos = self.data.len();
                let size = new_buf_pos - buf_pos;
                proof {
                    assert(self.data@ =~= start + seq![FN_ID] + le_bytes(0, 4) + body);
                    assert(size == body.len());
                }
                write_u32_le_at(&mut self.data, size_pos, size as u32);
                proof {
                    assert(self.data@ =~= start + encoding(atom@));
                }
            },
            Atom::Number(n) => {
                put_u8(&mut self.data, NUM_ID);
                write_frac(n.num, n.den, &mut self.data);
                proof {
                    assert(self.data@ =~= start + encoding(atom@));
                }
            },
            Atom::Term(args) => {
                put_u8(&mut self.data, TERM_ID);
                let size_pos = self.data.len();
                put_u32_le(&mut self.data, 0);  // length of entire term without flag
                let buf_pos = self.data.len();
                write_num(args.len() as u64, &mut self.data);
                let ghost ts = trees_of(*args, args.len() as nat);
                let ghost body = term_body(ts);
                proof {
                    lemma_trees_of(*args, args.len() as nat);
                    lemma_le_bytes_len(0, 4);
                    lemma_le_bytes_len(body.len(), 4);
                }
                self.linearize_list(args, Ghost(body), Ghost(num_bytes(ts.len() as u64)));
                let new_buf_pos = self.data.len();
                let size = new_buf_pos - buf_pos;
                proof {
                    assert(self.data@ =~= start + seq![TERM_ID] + le_bytes(0, 4) + body);
                    assert(size == body.len());
                }
                write_u32_le_at(&mut self.data, size_pos, size as u32);
                proof {
                    assert(self.data@ =~= start + encoding(atom@));
                }
            },
        }
    }

    /// Appends the bytes of the expressions of a list, which are the end of
    /// `body`, after its beginning `head`.
    fn linearize_list(&mut self, args: &Vec<Atom>, Ghost(body): Ghost<Seq<u8>>, Ghost(head): Ghost<Seq<u8>>)
        requires
            body == head + encodings(trees_of(*args, args.len() as nat), args.len() as nat),
            body.len() <= u32::MAX,
        ensures
            final(self).data@ == old(self).data@ + encodings(
                trees_of(*args, args.len() as nat),
                args.len() as nat,
            ),
        decreases args, 0nat,
    {
        let ghost ts = trees_of(*args, args.len() as nat);
        let ghost start = self.data@;
        let mut i: usize = 0;
        proof {
            lemma_trees_of(*args, args.len() as nat);
        }
        while i < args.len()
            invariant
                i <= args.len(),
                ts == trees_of(*args, args.len() as nat),
                ts.len() == args.len(),
                forall|j: int| 0 <= j < args.len() ==> #[trigger] ts[j] == tree_of(args[j]),
                body == head + encodings(ts, ts.len()),
                body.len() <= u32::MAX,
                self.data@ == start + encodings(ts, i as nat),
            decreases args.len() - i,
        {
            proof {
                lemma_encodings_next(ts, i as nat);
            }
            self.linearize(&args[i]);
            proof {
                assert(self.data@ =~= start + encodings(ts, (i + 1) as nat));
            }
            i += 1;
        }
    }
}

impl OwnedAtom {
    /// Reads the expression that the bytes begin with. The result is the
    /// expression and the bytes after it.
    pub fn write_to_tree<'a>(source: &'a [u8]) -> (r: (Atom, &'a [u8]))
        requires
            begins_with_expression(source@),
        ensures
            tree_ok(r.0@),
            source@ == encoding(r.0@) + r.1@,
    {
        let ghost w = choose|w: (Tree, Seq<u8>)|
            tree_ok(w.0) && source@ == encoding(#[trigger] w.0) + w.1;
        Self::read_tree(source, Ghost(w.0), Ghost(w.1))
    }

    /// Reads the expression `t` from bytes that begin with its bytes, which
    /// `rest` follows.
    fn read_tree<'a>(source: &'a [u8], Ghost(t): Ghost<Tree>, Ghost(rest): Ghost<Seq<u8>>) -> (r: (
        Atom,
        &'a [u8],
    ))
        requires
            tree_ok(t),
            source@ == encoding(t) + rest,
        ensures
            r.0@ == t,
            r.1@ == rest,
        decreases t,
    {
        proof {
            lemma_tags();
            lemma_first_byte(t);
        }
        let (tag, source1) = get_u8(source);
        let id = tag & TYPE_MASK;
        if id == VAR_ID {
            let ghost name0 = t->Var_0;
            let ghost pow0 = t->Var_1;
            let ghost after = seq![NUM_ID] + frac_bytes(pow0.num, pow0.den) + rest;
            proof {
                assert(source1@ =~= frac_bytes(name0 as u64, 1) + after);
                lemma_frac_round_trip(name0 as u64, 1, after);
            }
            let (name, _, source2) = get_frac_u64(source1);
            proof {
                assert(source2@ =~= after);
            }
            let (_, source3) = get_u8(source2);  // num tag
            proof {
                assert(source3@ =~= frac_bytes(pow0.num, pow0.den) + rest);
                lemma_frac_round_trip(pow0.num, pow0.den, rest);
            }
            let (num, den, source4) = get_frac_u64(source3);
            proof {
                assert(source4@ =~= rest);
            }
            (Atom::Var(Identifier::from(name as u32), Number::new(num, den)), source4)
        } else if id == FN_ID {
            let ghost name0 = t->Fn_0;
            let ghost args = t->Fn_1;
            proof {
                lemma_le_bytes_len(fn_body(name0, args).len(), 4);
            }
            let (_, source2) = get_u32_le(source1);  // size
            let ghost all = encodings(args, args.len());
            proof {
                assert(source2@ =~= frac_bytes(name0 as u64, args.len() as u64) + (all + rest));
                lemma_frac_round_trip(name0 as u64, args.len() as u64, all + rest);
            }
            let (name, n_args, source3) = get_frac_u64(source2);
            proof {
                assert(source3@ =~= all + rest);
            }
            let (list, source4) = Self::read_list(source3, n_args, Ghost(args), Ghost(rest));
            (Atom::Fn(Identifier::from(name as u32), list), source4)
        } else if id == NUM_ID {
            let ghost n0 = t->Number_0;
            proof {
                assert(source1@ =~= frac_bytes(n0.num, n0.den) + rest);
                lemma_frac_round_trip(n0.num, n0.den, rest);
            }
            let (num, den, source2) = get_frac_u64(source1);
            proof {
                assert(source2@ =~= rest);
            }
            (Atom::Number(Number::new(num, den)), source2)
        } else if id == TERM_ID {
            let ghost args = t->Term_0;
            proof {
                lemma_le_bytes_len(term_body(args).len(), 4);
            }
            let (_, source2) = get_u32_le(source1);  // size
            let ghost all = encodings(args, args.len());
            proof {
                assert(source2@ =~= num_bytes(args.len() as u64) + (all + rest));
                lemma_num_round_trip(args.len() as u64, all + rest);
            }
            let (n_args, _, source3) = get_frac_u64(source2);
            proof {
                assert(source3@ =~= all + rest);
            }
            let (list, source4) = Self::read_list(source3, n_args, Ghost(args), Ghost(rest));
            (Atom::Term(list), source4)
        } else {
            proof {
                assert(false);
            }
            vstd::pervasive::unreached()
        }
    }

    /// Reads the `n` expressions `args` from bytes that begin with their
    /// bytes, which `rest` follows.
    fn read_list<'a>(
        source: &'a [u8],
        n: u64,
        Ghost(args): Ghost<Seq<Tree>>,
        Ghost(rest): Ghost<Seq<u8>>,
    ) -> (r: (Vec<Atom>, &'a [u8]))
        requires
            n == args.len(),
            forall|i: int| 0 <= i < args.len() ==> tree_ok(#[trigger] args[i]),
            source@ == encodings(args, args.len()) + rest,
        ensures
            trees_of(r.0, r.0.len() as nat) == args,
            r.1@ == rest,
        decreases args, 0nat,
    {
        let ghost all = encodings(args, args.len());
        let mut list: Vec<Atom> = Vec::new();
        let mut source = source;
        let mut i: u64 = 0;
        proof {
            assert(all.skip(0) =~= all);
        }
        while i < n
            invariant
                i <= n,
                n == args.len(),
                all == encodings(args, args.len()),
                forall|j: int| 0 <= j < args.len() ==> tree_ok(#[trigger] args[j]),
                list@.len() == i,
                forall|j: int| 0 <= j < i ==> tree_of(#[trigger] list@[j]) == args[j],
                encodings(args, i as nat).len() <= all.len(),
                source@ == all.skip(encodings(args, i as nat).len() as int) + rest,
            decreases n - i,
        {
            let ghost after = all.skip(encodings(args, (i + 1) as nat).len() as int) + rest;
            proof {
                lemma_encodings_next(args, i as nat);
                assert(source@ =~= encoding(args[i as int]) + after);
            }
            let (a, s) = Self::read_tree(source, Ghost(args[i as int]), Ghost(after));
            source = s;
            list.push(a);
            i += 1;
        }
        proof {
            assert(source@ =~= rest);
            lemma_trees_of(list, list.len() as nat);
            assert(trees_of(list, list.len() as nat) =~= args);
        }
        (list, source)
    }

    /// The linear form of an expression.
    pub fn from_tree(a: &Atom) -> (r: Self)
        requires
            encoding(a@).len() <= u32::MAX,
        ensures
            r.data@ == encoding(a@),
    {
        let mut owned_data = OwnedAtom { data: Vec::new() };
        owned_data.linearize(a);
        proof {
            assert(owned_data.data@ =~= encoding(a@));
        }
        owned_data
    }

    /// Appends the bytes of an expression.
    pub fn write_tree(&mut self, source: &Atom)
        requires
            encoding(source@).len() <= u32::MAX,
        ensures
            final(self).data@ == old(self).data@ + encoding(source@),
    {
        self.linearize(source);
    }

    /// The expression that the bytes begin with.
    pub fn to_tree(&self) -> (r: Atom)
        requires
            begins_with_expression(self.data@),
        ensures
            tree_ok(r@),
            exists|rest: Seq<u8>| self.data@ == encoding(r@) + rest,
    {
        OwnedAtom::write_to_tree(self.data.as_slice()).0
    }
}

/// Appends bytes to bytes.
pub fn append_bytes(dest: &mut Vec<u8>, source: &[u8])
    ensures
        final(dest)@ == old(dest)@ + source@,
{
    let mut i: usize = 0;
    while i < source.len()
        invariant
            i <= source@.len(),
            dest@ == old(dest)@ + source@.take(i as int),
        decreases source@.len() - i,
    {
        dest.push(source[i]);
        proof {
            assert(dest@ =~= old(dest)@ + source@.take(i + 1));
        }
        i += 1;
    }
    proof {
        assert(source@.take(source@.len() as int) =~= source@);
    }
}

/// The bytes as a vector of their own.
pub fn copy_bytes(source: &[u8]) -> (r: Vec<u8>)
    ensures
        r@ == source@,
{
    let mut r: Vec<u8> = Vec::new();
    append_bytes(&mut r, source);
    proof {
        assert(r@ =~= source@);
    }
    r
}

/// The bytes of a variable with its power.
#[derive(Debug, Copy, Clone)]
pub struct VarView<'a> {
    pub data: &'a [u8],
}

/// The bytes of a function with its arguments.
#[derive(Debug, Copy, Clone)]
pub struct FunctionView<'a> {
    pub data: &'a [u8],
}

/// The bytes of a number.
#[derive(Debug, Copy, Clone)]
pub struct NumberView<'a> {
    pub data: &'a [u8],
}

/// The bytes of a term with its factors.
#[derive(Debug, Copy, Clone)]
pub struct TermView<'a> {
    pub data: &'a [u8],
}

/// The bytes of an expression, by its kind.
#[derive(Debug, Copy, Clone)]
pub enum AtomView<'a> {
    Number(NumberView<'a>),
    Var(VarView<'a>),
    Function(FunctionView<'a>),
    Term(TermView<'a>),
}

/// The expressions of a list that are still to come, as bytes, and their
/// number.
#[derive(Debug, Copy, Clone)]
pub struct ListIterator<'a> {
    pub data: &'a [u8],
    pub length: u32,
}

/// The bytes hold a fraction from the place `at` on.
pub open spec fn frac_at(s: Seq<u8>, at: int) -> bool {
    at <= s.len() && is_frac(s.skip(at))
}

impl<'a> VarView<'a> {
    /// The bytes hold a variable: after the tag its name as a fraction, the
    /// tag of a number, and its power as a fraction.
    pub open spec fn wf(&self) -> bool {
        &&& frac_at(self.data@, 1)
        &&& frac_num(self.data@.skip(1)) <= u32::MAX
        &&& frac_at(self.data@, 2 + frac_len(self.data@.skip(1)))
    }

    /// The name of the variable.
    pub fn get_name(&self) -> (r: Identifier)
        requires
            self.wf(),
        ensures
            r.0 == frac_num(self.data@.skip(1)),
    {
        let body = slice_subrange(self.data, 1, self.data.len());
        let (name, _, _) = get_frac_u64(body);
        Identifier::from(name as u32)
    }

    /// The power of the variable: the bytes from the tag of the number on.
    pub fn get_pow(&self) -> (r: NumberView<'a>)
        requires
            self.wf(),
        ensures
            r.data@ == self.data@.skip(1 + frac_len(self.data@.skip(1))),
    {
        let body = slice_subrange(self.data, 1, self.data.len());
        let rest = skip_rational(body);
        proof {
            assert(rest@ =~= self.data@.skip(1 + frac_len(self.data@.skip(1))));
        }
        NumberView { data: rest }
    }
}

impl<'a> NumberView<'a> {
    /// The bytes hold a number: after the tag a fraction.
    pub open spec fn wf(&self) -> bool {
        frac_at(self.data@, 1)
    }

    /// The numerator of the number.
    pub open spec fn num(&self) -> nat {
        frac_num(self.data@.skip(1))
    }

    /// The denominator of the number.
    pub open spec fn den(&self) -> nat {
        frac_den(self.data@.skip(1))
    }

    /// The numerator and the denominator.
    #[inline]
    pub fn get_numden(&self) -> (r: (u64, u64))
        requires
            self.wf(),
        ensures
            r.0 == self.num(),
            r.1 == self.den(),
    {
        let (_, c) = get_u8(self.data);
        let (num, den, _) = get_frac_u64(c);
        (num, den)
    }

    /// Whether the number is one over one.
    pub fn is_one(&self) -> (r: bool)
        requires
            self.wf(),
        ensures
            r == (self.num() == 1 && self.den() == 1),
    {
        let (num, den) = self.get_numden();
        num == 1 && den == 1
    }

    /// Appends to `out` the number whose numerator is the product of the two
    /// numerators and whose denominator is the product of the two
    /// denominators, in lowest terms.
    pub fn add(&self, other: &Self, out: &mut OwnedAtom)
        requires
            self.wf(),
            other.wf(),
            self.num() * other.num() <= u64::MAX,
            0 < self.den() * other.den() <= u64::MAX,
        ensures
            final(out).data@ == old(out).data@ + seq![NUM_ID] + product_bytes(
                self.num(),
                self.den(),
                other.num(),
                other.den(),
            ),
    {
        let a = self.get_numden();
        let b = other.get_numden();
        write_product(a, b, &mut out.data);
    }
}

/// The bytes of the fraction of the products of two numerators and of two
/// denominators, in lowest terms.
pub open spec fn product_bytes(n1: nat, d1: nat, n2: nat, d2: nat) -> Seq<u8> {
    let g = gcd_nat(n1 * n2, d1 * d2);
    frac_bytes(((n1 * n2) / g) as u64, ((d1 * d2) / g) as u64)
}

/// Appends the tag of a number and the fraction of the products of the two
/// numerators and of the two denominators, in lowest terms.
fn write_product(a: (u64, u64), b: (u64, u64), dest: &mut Vec<u8>)
    requires
        a.0 * b.0 <= u64::MAX,
        0 < a.1 * b.1 <= u64::MAX,
    ensures
        final(dest)@ == old(dest)@ + seq![NUM_ID] + product_bytes(
            a.0 as nat,
            a.1 as nat,
            b.0 as nat,
            b.1 as nat,
        ),
{
    let c = (a.0 * b.0, a.1 * b.1);
    let gcd = gcd_unsigned(c.0, c.1);
    proof {
        lemma_gcd_divides(c.0 as nat, c.1 as nat);
    }
    put_u8(dest, NUM_ID);
    write_frac(c.0 / gcd, c.1 / gcd, dest);
}

impl<'a> FunctionView<'a> {
    /// The bytes hold a function: the tag, four bytes, and its name over the
    /// number of its arguments as a fraction.
    pub open spec fn wf(&self) -> bool {
        &&& frac_at(self.data@, 5)
        &&& frac_num(self.data@.skip(5)) <= u32::MAX
        &&& frac_den(self.data@.skip(5)) <= u32::MAX
    }

    /// The name of the function.
    pub fn get_name(&self) -> (r: Identifier)
        requires
            self.wf(),
        ensures
            r.0 == frac_num(self.data@.skip(5)),
    {
        let body = slice_subrange(self.data, 5, self.data.len());
        let (name, _, _) = get_frac_u64(body);
        Identifier::from(name as u32)
    }

    /// The number of arguments of the function.
    pub fn get_nargs(&self) -> (r: usize)
        requires
            self.wf(),
        ensures
            r == frac_den(self.data@.skip(5)),
    {
        let body = slice_subrange(self.data, 5, self.data.len());
        let (_, n_args, _) = get_frac_u64(body);
        n_args as usize
    }

    /// Whether the function is marked as not normalized.
    pub fn is_dirty(&self) -> (r: bool)
        requires
            self.data@.len() >= 1,
        ensures
            r == (self.data@[0] & DIRTY_FLAG != 0),
    {
        (self.data[0] & DIRTY_FLAG) != 0
    }

    /// The arguments of the function.
    #[inline]
    pub fn into_iter(&self) -> (r: ListIterator<'a>)
        requires
            self.wf(),
        ensures
            r.data@ == self.data@.skip(5 + frac_len(self.data@.skip(5))),
            r.length == frac_den(self.data@.skip(5)),
    {
        let c = slice_subrange(self.data, 5, self.data.len());
        let (_, n_args, c) = get_frac_u64(c);  // name
        proof {
            assert(c@ =~= self.data@.skip(5 + frac_len(self.data@.skip(5))));
        }
        ListIterator { data: c, length: n_args as u32 }
    }
}

impl<'a> TermView<'a> {
    /// The bytes hold a term: the tag, four bytes, and the number of its
    /// factors.
    pub open spec fn wf(&self) -> bool {
        &&& frac_at(self.data@, 5)
        &&& frac_num(self.data@.skip(5)) <= u32::MAX
    }

    /// The number of factors of the term.
    pub fn get_nargs(&self) -> (r: usize)
        requires
            self.wf(),
        ensures
            r == frac_num(self.data@.skip(5)),
    {
        let body = slice_subrange(self.data, 5, self.data.len());
        let (n_args, _, _) = get_frac_u64(body);
        n_args as usize
    }

    /// The factors of the term.
    #[inline]
    pub fn into_iter(&self) -> (r: ListIterator<'a>)
        requires
            self.wf(),
        ensures
            r.data@ == self.data@.skip(5 + frac_len(self.data@.skip(5))),
            r.length == frac_num(self.data@.skip(5)),
    {
        let c = slice_subrange(self.data, 5, self.data.len());
        let (n_args, _, c) = get_frac_u64(c);
        proof {
            assert(c@ =~= self.data@.skip(5 + frac_len(self.data@.skip(5))));
        }
        ListIterator { data: c, length: n_args as u32 }
    }
}

impl<'a> FunctionView<'a> {
    /// The order of the names of two functions.
    pub fn cmp(&self, other: &Self) -> (r: Ordering)
        requires
            self.wf(),
            other.wf(),
        ensures
            r == Ordering::Less <==> frac_num(self.data@.skip(5)) < frac_num(other.data@.skip(5)),
            r == Ordering::Equal <==> frac_num(self.data@.skip(5)) == frac_num(
                other.data@.skip(5),
            ),
            r == Ordering::Greater <==> frac_num(self.data@.skip(5)) > frac_num(
                other.data@.skip(5),
            ),
    {
        let x = self.get_name().to_u32();
        let y = other.get_name().to_u32();
        if x < y {
            Ordering::Less
        } else if x == y {
            Ordering::Equal
        } else {
            Ordering::Greater
        }
    }
}

impl<'a> AtomView<'a> {
    /// The bytes of the expression.
    pub open spec fn bytes(&self) -> Seq<u8> {
        match *self {
            AtomView::Number(n) => n.data@,
            AtomView::Var(v) => v.data@,
            AtomView::Function(f) => f.data@,
            AtomView::Term(t) => t.data@,
        }
    }

    /// The tag of the kind of the view.
    pub open spec fn kind(&self) -> u8 {
        match *self {
            AtomView::Number(_) => NUM_ID,
            AtomView::Var(_) => VAR_ID,
            AtomView::Function(_) => FN_ID,
            AtomView::Term(_) => TERM_ID,
        }
    }

    /// The view of bytes that begin with one of the four tags.
    pub fn from(source: &'a [u8]) -> (r: AtomView<'a>)
        requires
            source@.len() >= 1,
            source@[0] == VAR_ID || source@[0] == FN_ID || source@[0] == NUM_ID || source@[0]
                == TERM_ID,
        ensures
            r.bytes() == source@,
            r.kind() == source@[0],
    {
        let id = source[0];
        if id == VAR_ID {
            AtomView::Var(VarView { data: source })
        } else if id == FN_ID {
            AtomView::Function(FunctionView { data: source })
        } else if id == NUM_ID {
            AtomView::Number(NumberView { data: source })
        } else {
            AtomView::Term(TermView { data: source })
        }
    }

    /// The expression that the bytes begin with.
    pub fn to_atom(&self) -> (r: Atom)
        requires
            begins_with_expression(self.bytes()),
        ensures
            tree_ok(r@),
            exists|rest: Seq<u8>| self.bytes() == encoding(r@) + rest,
    {
        OwnedAtom::write_to_tree(self.get_data()).0
    }

    /// The bytes of the expression.
    pub fn get_data(&self) -> (r: &'a [u8])
        ensures
            r@ == self.bytes(),
    {
        match self {
            AtomView::Number(n) => n.data,
            AtomView::Var(v) => v.data,
            AtomView::Function(f) => f.data,
            AtomView::Term(t) => t.data,
        }
    }
}

impl OwnedAtom {
    /// The expression that holds the bytes of a number.
    pub fn from_num(source: OwnedNumber) -> (r: Self)
        ensures
            r.data@ == source.data@,
    {
        OwnedAtom { data: source.data }
    }

    /// Appends the bytes of an expression.
    pub fn write(&mut self, source: &AtomView<'_>)
        ensures
            final(self).data@ == old(self).data@ + source.bytes(),
    {
        append_bytes(&mut self.data, source.get_data());
    }

    /// The view of the bytes, by the tag that they begin with.
    pub fn to_view<'a>(&'a self) -> (r: AtomView<'a>)
        requires
            self.data@.len() >= 1,
            1 <= self.data@[0] & TYPE_MASK <= 4,
        ensures
            r.bytes() == self.data@,
            r.kind() == self.data@[0] & TYPE_MASK,
    {
        let id = self.data[0] & TYPE_MASK;
        if id == VAR_ID {
            AtomView::Var(VarView { data: self.data.as_slice() })
        } else if id == FN_ID {
            AtomView::Function(FunctionView { data: self.data.as_slice() })
        } else if id == NUM_ID {
            AtomView::Number(NumberView { data: self.data.as_slice() })
        } else {
            AtomView::Term(TermView { data: self.data.as_slice() })
        }
    }
}

/// A number in its linear form, which owns its bytes.
#[derive(Debug, Clone)]
pub struct OwnedNumber {
    pub data: Vec<u8>,
}

impl OwnedNumber {
    /// The number zero.
    pub fn new() -> (r: Self)
        ensures
            r.data@ == seq![NUM_ID] + num_bytes(0),
    {
        let mut data = Vec::new();
        put_u8(&mut data, NUM_ID);
        write_num(0u64, &mut data);
        proof {
            assert(data@ =~= seq![NUM_ID] + num_bytes(0));
        }
        OwnedNumber { data }
    }

    /// Makes the number zero.
    pub fn reset(&mut self)
        ensures
            final(self).data@ == seq![NUM_ID] + num_bytes(0),
    {
        self.data.clear();
        put_u8(&mut self.data, NUM_ID);
        write_num(0u64, &mut self.data);
        proof {
            assert(self.data@ =~= seq![NUM_ID] + num_bytes(0));
        }
    }

    /// The number with the bytes of a view.
    pub fn from_view(a: NumberView<'_>) -> (r: Self)
        ensures
            r.data@ == a.data@,
    {
        OwnedNumber { data: copy_bytes(a.data) }
    }

    /// Replaces the number by the one whose numerator is the product of the
    /// two numerators and whose denominator is the product of the two
    /// denominators, in lowest terms. The first byte stays.
    pub fn add(&mut self, other: &NumberView<'_>)
        requires
            old(self).data@.len() >= 1,
            old(self).data@[0] & TYPE_MASK == NUM_ID,
            frac_at(old(self).data@, 1),
            other.wf(),
            frac_num(old(self).data@.skip(1)) * other.num() <= u64::MAX,
            0 < frac_den(old(self).data@.skip(1)) * other.den() <= u64::MAX,
        ensures
            final(self).data@ == seq![old(self).data@[0]] + product_bytes(
                frac_num(old(self).data@.skip(1)),
                frac_den(old(self).data@.skip(1)),
                other.num(),
                other.den(),
            ),
    {
        let a = self.to_num_view().get_numden();
        let b = other.get_numden();
        let c = (a.0 * b.0, a.1 * b.1);
        let gcd = gcd_unsigned(c.0, c.1);
        proof {
            lemma_gcd_divides(c.0 as nat, c.1 as nat);
        }
        self.data.truncate(1);
        write_frac(c.0 / gcd, c.1 / gcd, &mut self.data);
        proof {
            assert(old(self).data@.subrange(0, 1) =~= seq![old(self).data@[0]]);
        }
    }

    /// The view of the bytes, which begin with the tag of a number.
    pub fn to_num_view(&self) -> (r: NumberView<'_>)
        requires
            self.data@.len() >= 1,
            self.data@[0] & TYPE_MASK == NUM_ID,
        ensures
            r.data@ == self.data@,
    {
        NumberView { data: self.data.as_slice() }
    }
}

/// A variable with its power in its linear form, which owns its bytes.
#[derive(Debug, Clone)]
pub struct OwnedVar {
    pub data: Vec<u8>,
}

impl OwnedVar {
    /// A variable without bytes, to be written to.
    pub fn new() -> (r: Self)
        ensures
            r.data@.len() == 0,
    {
        OwnedVar { data: Vec::new() }
    }

    /// Drops all bytes.
    pub fn reset(&mut self)
        ensures
            final(self).data@.len() == 0,
    {
        self.data.clear();
    }

    /// Appends the variable `id` with the power `pow`.
    pub fn from_id_pow(&mut self, id: Identifier, pow: OwnedNumber)
        ensures
            final(self).data@ == old(self).data@ + seq![VAR_ID] + frac_bytes(id.0 as u64, 1)
                + pow.data@,
    {
        put_u8(&mut self.data, VAR_ID);
        write_frac(id.to_u32() as u64, 1, &mut self.data);
        append_bytes(&mut self.data, pow.data.as_slice());
    }

    /// The view of the bytes.
    pub fn to_var_view<'a>(&'a self) -> (r: VarView<'a>)
        ensures
            r.data@ == self.data@,
    {
        VarView { data: self.data.as_slice() }
    }

    /// Gives `out` the bytes of the variable.
    pub fn to_atom(&mut self, out: &mut OwnedAtom)
        ensures
            final(out).data@ == old(self).data@,
            final(self).data@ == old(self).data@,
    {
        out.data = copy_bytes(self.data.as_slice());
    }
}

/// A function in its linear form, which owns its bytes.
#[derive(Debug, Clone)]
pub struct OwnedFunction {
    pub data: Vec<u8>,
}

impl OwnedFunction {
    /// A function without bytes, to be written to.
    pub fn new() -> (r: Self)
        ensures
            r.data@.len() == 0,
    {
        OwnedFunction { data: Vec::new() }
    }

    /// Drops all bytes.
    pub fn reset(&mut self)
        ensures
            final(self).data@.len() == 0,
    {
        self.data.clear();
    }

    /// Appends a tag and the name `id` as a number on its own.
    pub fn from_name(&mut self, id: Identifier)
        ensures
            final(self).data@ == old(self).data@ + seq![VAR_ID] + num_bytes(id.0 as u64),
    {
        put_u8(&mut self.data, VAR_ID);
        write_num(id.to_u32() as u64, &mut self.data);
    }

    /// Keeps of the first byte only the mark that the function is not
    /// normalized, if `dirty`; takes the mark away from the first byte else.
    pub fn set_dirty(&mut self, dirty: bool)
        requires
            old(self).data@.len() >= 1,
        ensures
            final(self).data@ == old(self).data@.update(
                0,
                if dirty {
                    old(self).data@[0] & DIRTY_FLAG
                } else {
                    old(self).data@[0] & !DIRTY_FLAG
                },
            ),
    {
        let first = self.data[0];
        if dirty {
            self.data.set(0, first & DIRTY_FLAG);
        } else {
            self.data.set(0, first & !DIRTY_FLAG);
        }
    }

    /// The view of the bytes.
    pub fn to_func_view<'a>(&'a self) -> (r: FunctionView<'a>)
        ensures
            r.data@ == self.data@,
    {
        FunctionView { data: self.data.as_slice() }
    }

    /// Gives `out` the bytes of the function.
    pub fn to_atom(&mut self, out: &mut OwnedAtom)
        ensures
            final(out).data@ == old(self).data@,
            final(self).data@ == old(self).data@,
    {
        out.data = copy_bytes(self.data.as_slice());
    }
}

/// The bytes of a term with one more factor: the tag, the new size, the
/// number of factors plus one in the bytes that the number has, the factors
/// so far, and the bytes of the new factor.
pub open spec fn extended(d: Seq<u8>, factor: Seq<u8>) -> Seq<u8> {
    let w = width(num_code(d.skip(5)));
    seq![d[0]] + le_bytes((d.len() + factor.len() - 5) as nat, 4) + seq![d[5]] + le_bytes(
        frac_num(d.skip(5)) + 1,
        w,
    ) + d.skip(6 + w as int) + factor
}

/// A term in its linear form, which owns its bytes.
pub struct OwnedTerm {
    pub data: Vec<u8>,
}

impl OwnedTerm {
    /// The term without factors.
    pub fn new() -> (r: Self)
        ensures
            r.data@ == seq![TERM_ID] + le_bytes(0, 4) + num_bytes(0),
    {
        let mut data = Vec::new();
        put_u8(&mut data, TERM_ID);
        put_u32_le(&mut data, 0);
        write_num(0u64, &mut data);
        proof {
            assert(data@ =~= seq![TERM_ID] + le_bytes(0, 4) + num_bytes(0));
        }
        OwnedTerm { data }
    }

    /// Makes the term the one without factors.
    pub fn reset(&mut self)
        ensures
            final(self).data@ == seq![TERM_ID] + le_bytes(0, 4) + num_bytes(0),
    {
        self.data.clear();
        put_u8(&mut self.data, TERM_ID);
        put_u32_le(&mut self.data, 0);
        write_num(0u64, &mut self.data);
        proof {
            assert(self.data@ =~= seq![TERM_ID] + le_bytes(0, 4) + num_bytes(0));
        }
    }

    /// The number of the factors of the term can grow by one in place: the
    /// term has the number of its factors on its own, and one more still
    /// fits into the bytes that the number has.
    pub open spec fn can_extend(&self) -> bool {
        &&& frac_at(self.data@, 5)
        &&& den_code(self.data@.skip(5)) == 0
        &&& frac_num(self.data@.skip(5)) + 1 < byte_range(width(num_code(self.data@.skip(5))))
    }

    /// Appends a factor that is no term itself: its bytes are appended, the
    /// number of factors grows by one, and the size becomes the number of
    /// bytes after it.
    pub fn extend(&mut self, other: AtomView<'_>)
        requires
            old(self).can_extend(),
            !(other is Term),
            old(self).data@.len() + other.bytes().len() <= u32::MAX,
        ensures
            final(self).data@ == extended(old(self).data@, other.bytes()),
    {
        let ghost start = self.data@;
        let ghost w = width(num_code(start.skip(5))) as int;
        let len = self.data.len();
        let c = slice_subrange(self.data.as_slice(), 5, len);
        let (n_args, _, _) = get_frac_u64(c);
        proof {
            lemma_le_value_bound(start.skip(5).subrange(1, 1 + w));
            lemma_byte_ranges();
        }
        let n_args = n_args + 1;
        append_bytes(&mut self.data, other.get_data());
        proof {
            assert(self.data@.skip(5) =~= start.skip(5) + other.bytes());
            assert(self.data@.skip(5)[0] == start.skip(5)[0]);
        }
        write_num_fixed(&mut self.data, 5, n_args);
        let new_buf_pos = self.data.len();
        proof {
            lemma_le_bytes_len(n_args as nat, w as nat);
        }
        write_u32_le_at(&mut self.data, 1, (new_buf_pos - 5) as u32);
        proof {
            lemma_le_bytes_len((start.len() + other.bytes().len() - 5) as nat, 4);
            assert(self.data@ =~= extended(start, other.bytes()));
        }
    }

    /// The view of the bytes.
    pub fn to_term_view<'a>(&'a self) -> (r: TermView<'a>)
        ensures
            r.data@ == self.data@,
    {
        TermView { data: self.data.as_slice() }
    }

    /// Gives `out` the bytes of the term.
    pub fn to_atom(&mut self, out: &mut OwnedAtom)
        ensures
            final(out).data@ == old(self).data@,
            final(self).data@ == old(self).data@,
    {
        out.data = copy_bytes(self.data.as_slice());
    }
}

/// The tag that the bytes begin with is one of the four tags.
pub open spec fn known_tag(s: Seq<u8>) -> bool {
    s.len() >= 1 && 1 <= s[0] & TYPE_MASK <= 4
}

/// The bytes begin with an expression that can be passed over: a number with
/// its fraction, a variable with its name, the tag of a number and its power,
/// or a function or a term with its size and as many bytes as the size says.
pub open spec fn can_skip(s: Seq<u8>) -> bool {
    if s.len() == 0 {
        false
    } else if s[0] & TYPE_MASK == NUM_ID {
        frac_at(s, 1)
    } else if s[0] & TYPE_MASK == VAR_ID {
        frac_at(s, 1) && frac_at(s, 2 + frac_len(s.skip(1)))
    } else {
        s.len() >= 5 && 5 + le_value(s.subrange(1, 5)) <= s.len()
    }
}

/// The number of bytes of the expression that the bytes begin with.
pub open spec fn skip_len(s: Seq<u8>) -> int {
    if s[0] & TYPE_MASK == NUM_ID {
        1 + frac_len(s.skip(1))
    } else if s[0] & TYPE_MASK == VAR_ID {
        2 + frac_len(s.skip(1)) + frac_len(s.skip(2 + frac_len(s.skip(1))))
    } else {
        (5 + le_value(s.subrange(1, 5))) as int
    }
}

impl<'a> ListIterator<'a> {
    /// The next expression of the list, if there is one and its tag is one of
    /// the four tags. The expression is passed over.
    #[inline(always)]
    pub fn next(&mut self) -> (r: Option<AtomView<'a>>)
        requires
            old(self).length > 0 ==> old(self).data@.len() >= 1 && (known_tag(old(self).data@)
                ==> can_skip(old(self).data@)),
        ensures
            old(self).length == 0 ==> r is None && *final(self) == *old(self),
            old(self).length > 0 ==> final(self).length == old(self).length - 1,
            old(self).length > 0 && !known_tag(old(self).data@) ==> r is None && final(self).data@
                == old(self).data@.skip(1),
            old(self).length > 0 && known_tag(old(self).data@) ==> r is Some && r->0.bytes()
                == old(self).data@.take(skip_len(old(self).data@)) && r->0.kind() == old(
                self,
            ).data@[0] & TYPE_MASK && final(self).data@ == old(self).data@.skip(
                skip_len(old(self).data@),
            ),
    {
        if self.length == 0 {
            return None;
        }
        self.length -= 1;
        let start = self.data;
        let (tag, rest) = get_u8(self.data);
        self.data = rest;
        let cur_id = tag & TYPE_MASK;
        if cur_id == VAR_ID {
            let after_name = skip_rational(self.data);
            let after_tag = advance(after_name, 1);  // also skip num tag
            proof {
                assert(after_tag@ =~= start@.skip(2 + frac_len(start@.skip(1))));
            }
            self.data = skip_rational(after_tag);
        } else if cur_id == NUM_ID {
            self.data = skip_rational(self.data);
        } else if cur_id == FN_ID || cur_id == TERM_ID {
            proof {
                assert(start@.skip(1).take(4) =~= start@.subrange(1, 5));
                assert(tag & 7 == 3 || tag & 7 == 4 ==> 1 <= tag & 7 <= 4) by (bit_vector);
            }
            let (n_size, after_size) = get_u32_le(self.data);
            self.data = advance(after_size, n_size as usize);
        } else {
            proof {
                assert(!(1 <= tag & 7 <= 4) || tag & 7 == 1 || tag & 7 == 2 || tag & 7 == 3 || tag
                    & 7 == 4) by (bit_vector);
            }
            return None;
        }
        let len = start.len() - self.data.len();
        let data = slice_subrange(start, 0, len);
        proof {
            assert(self.data@ =~= start@.skip(skip_len(start@)));
            assert(data@ =~= start@.take(skip_len(start@)));
        }
        if cur_id == VAR_ID {
            Some(AtomView::Var(VarView { data }))
        } else if cur_id == NUM_ID {
            Some(AtomView::Number(NumberView { data }))
        } else if cur_id == FN_ID {
            Some(AtomView::Function(FunctionView { data }))
        } else {
            Some(AtomView::Term(TermView { data }))
        }
    }
}

/// The bytes of an expression whose size can be written down, followed by
/// any bytes, begin with an expression that can be passed over, and passing
/// over it leaves what follows.
pub proof fn law_skip_encoding(t: Tree, rest: Seq<u8>)
    requires
        encoding(t).len() <= u32::MAX,
    ensures
        known_tag(encoding(t) + rest),
        can_skip(encoding(t) + rest),
        skip_len(encoding(t) + rest) == encoding(t).len(),
        (encoding(t) + rest)[0] & TYPE_MASK == tag_of(t),
{
    let s = encoding(t) + rest;
    lemma_tags();
    lemma_first_byte(t);
    lemma_byte_ranges();
    assert(s[0] == tag_of(t));
    match t {
        Tree::Var(name, pow) => {
            let after = seq![NUM_ID] + frac_bytes(pow.num, pow.den) + rest;
            assert(s.skip(1) =~= frac_bytes(name as u64, 1) + after);
            lemma_frac_round_trip(name as u64, 1, after);
            let l = frac_len(s.skip(1));
            assert(s.skip(2 + l) =~= frac_bytes(pow.num, pow.den) + rest);
            lemma_frac_round_trip(pow.num, pow.den, rest);
        },
        Tree::Number(n) => {
            assert(s.skip(1) =~= frac_bytes(n.num, n.den) + rest);
            lemma_frac_round_trip(n.num, n.den, rest);
        },
        Tree::Fn(name, args) => {
            let body = fn_body(name, args);
            lemma_le_round_trip(body.len(), 4);
            assert(s.subrange(1, 5) =~= le_bytes(body.len(), 4));
        },
        Tree::Term(args) => {
            let body = term_body(args);
            lemma_le_round_trip(body.len(), 4);
            assert(s.subrange(1, 5) =~= le_bytes(body.len(), 4));
        },
    }
}

/// The bytes of the first expressions of a list do not depend on the
/// expressions after them.
pub proof fn lemma_encodings_of_prefix(a: Seq<Tree>, b: Seq<Tree>, n: nat)
    requires
        n <= a.len(),
        n <= b.len(),
        forall|i: int| 0 <= i < n ==> a[i] == b[i],
    ensures
        encodings(a, n) == encodings(b, n),
    decreases n,
{
    if n > 0 {
        lemma_encodings_of_prefix(a, b, (n - 1) as nat);
    }
}

/// A term that is extended by a factor in place has the bytes of the term
/// with that factor as its last one.
pub proof fn law_extended_term(args: Seq<Tree>, t: Tree)
    requires
        args.len() < u64::MAX,
        args.len() + 1 < byte_range(width(code_of(args.len() as u64))),
    ensures
        extended(encoding(Tree::Term(args)), encoding(t)) == encoding(Tree::Term(args.push(t))),
{
    let n = args.len();
    let more = args.push(t);
    let d = encoding(Tree::Term(args));
    let body = term_body(args);
    let w = width(code_of(n as u64));
    lemma_byte_ranges();
    lemma_le_bytes_len(body.len(), 4);
    lemma_le_bytes_len(n as nat, w);
    lemma_le_bytes_len((n + 1) as nat, w);
    lemma_encodings_of_prefix(args, more, n);
    assert(encodings(more, more.len()) == encodings(more, n) + encoding(t));
    assert(code_of((n + 1) as u64) == code_of(n as u64));
    assert(d.skip(5) =~= num_bytes(n as u64) + encodings(args, n));
    lemma_num_round_trip(n as u64, encodings(args, n));
    assert(d[5] == code_of(n as u64));
    assert(d.skip(6 + w as int) =~= encodings(args, n));
    let body2 = term_body(more);
    assert(body2 =~= seq![code_of(n as u64)] + le_bytes((n + 1) as nat, w) + encodings(args, n)
        + encoding(t));
    assert(body2.len() == d.len() + encoding(t).len() - 5);
    assert(extended(d, encoding(t)) =~= encoding(Tree::Term(more)));
}

} // verus!
