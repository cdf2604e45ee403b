//! A binary heap of exponent vectors, which hands out the vector that comes
//! first (or last) in the monomial order.
use crate::poly::monomial::{
    compare_exponents, lemma_lex_asymmetric, lemma_lex_total, lemma_lex_transitive, lex_lt,
    Relation,
};
use vstd::multiset::Multiset;
use vstd::prelude::*;

verus! {

/// `<[T]>::swap`, on a vector of vectors: the vectors at the two places change
/// places. Both places have to be within the vector.
#[verifier::external_body]
fn swap_vectors(v: &mut Vec<Vec<u32>>, a: usize, b: usize)
    requires
        a < old(v)@.len(),
        b < old(v)@.len(),
    ensures
        final(v)@ == old(v)@.update(a as int, old(v)@[b as int]).update(b as int, old(v)@[a as int]),
{
    v.swap(a, b)
}

/// `a` leaves the heap before `b`: it comes first in the monomial order if
/// the smallest is wanted first, last otherwise.
pub open spec fn before(smallest_first: bool, a: Seq<u32>, b: Seq<u32>) -> bool {
    if smallest_first {
        lex_lt(a, b)
    } else {
        lex_lt(b, a)
    }
}

/// The place above `i` in the heap.
pub open spec fn parent(i: int) -> int {
    (i - 1) / 2
}

/// No item but the one at `hole` leaves before the item above it.
pub open spec fn ordered_except(smallest_first: bool, s: Seq<Seq<u32>>, hole: int) -> bool {
    forall|i: int|
        0 < i < s.len() && i != hole ==> !before(smallest_first, #[trigger] s[i], s[parent(i)])
}

/// No item leaves before the item above it, but for the items below `hole`.
pub open spec fn ordered_below(smallest_first: bool, s: Seq<Seq<u32>>, hole: int) -> bool {
    forall|i: int|
        0 < i < s.len() && parent(i) != hole ==> !before(
            smallest_first,
            #[trigger] s[i],
            s[parent(i)],
        )
}

/// All vectors have the length `width`.
pub open spec fn all_width(s: Seq<Seq<u32>>, width: int) -> bool {
    forall|i: int| 0 <= i < s.len() ==> (#[trigger] s[i]).len() == width
}

/// If `c` does not leave before `b` and `b` not before `a`, then `c` does not
/// leave before `a`.
pub proof fn lemma_not_before_chain(smallest_first: bool, a: Seq<u32>, b: Seq<u32>, c: Seq<u32>)
    requires
        a.len() == b.len(),
        b.len() == c.len(),
        !before(smallest_first, b, a),
        !before(smallest_first, c, b),
    ensures
        !before(smallest_first, c, a),
{
    lemma_lex_total(a, b);
    lemma_lex_total(b, c);
    if before(smallest_first, c, a) {
        if smallest_first {
            // c < a, a <= b, b <= c
            if a != b {
                lemma_lex_transitive(c, a, b);
            }
            if b != c {
                lemma_lex_asymmetric(b, c);
            }
        } else {
            if a != b {
                lemma_lex_transitive(b, a, c);
            }
            if b != c {
                lemma_lex_asymmetric(c, b);
            }
        }
    }
}

/// In an ordered heap no item leaves before the one at the top.
pub proof fn lemma_top_first(smallest_first: bool, s: Seq<Seq<u32>>, width: int, i: int)
    requires
        all_width(s, width),
        ordered_except(smallest_first, s, 0),
        0 <= i < s.len(),
    ensures
        !before(smallest_first, s[i], s[0]),
    decreases i,
{
    if i > 0 {
        lemma_top_first(smallest_first, s, width, parent(i));
        lemma_not_before_chain(smallest_first, s[0], s[parent(i)], s[i]);
    } else {
        crate::poly::monomial::lemma_lex_irreflexive(s[0]);
    }
}

/// Two items that change places leave the same items.
pub proof fn lemma_swap_multiset(s: Seq<Seq<u32>>, i: int, j: int)
    requires
        0 <= i < s.len(),
        0 <= j < s.len(),
    ensures
        s.update(i, s[j]).update(j, s[i]).to_multiset() == s.to_multiset(),
{
    broadcast use vstd::multiset::group_multiset_axioms;

    let t = s.update(i, s[j]);
    vstd::seq_lib::to_multiset_update(s, i, s[j]);
    vstd::seq_lib::to_multiset_update(t, j, s[i]);
    vstd::seq_lib::to_multiset_contains(s, s[i]);
    vstd::seq_lib::to_multiset_contains(s, s[j]);
    assert(s.contains(s[i]));
    assert(s.contains(s[j]));
    if i == j {
        assert(s.update(i, s[j]).update(j, s[i]) =~= s);
    } else {
        assert(t[j] == s[j]);
        assert(t.update(j, s[i]).to_multiset() =~= s.to_multiset());
    }
}

/// A priority queue of exponent vectors of one length.
pub struct ExponentHeap {
    data: Vec<Vec<u32>>,
    width: usize,
    smallest_first: bool,
}

impl View for ExponentHeap {
    type V = Multiset<Seq<u32>>;

    /// The vectors in the heap, each as often as it was pushed and not yet
    /// popped.
    closed spec fn view(&self) -> Multiset<Seq<u32>> {
        self.items().to_multiset()
    }
}

impl ExponentHeap {
    /// The vectors in the order in which the heap keeps them.
    pub closed spec fn items(&self) -> Seq<Seq<u32>> {
        self.data@.map_values(|v: Vec<u32>| v@)
    }

    /// The length of the vectors.
    pub closed spec fn width(&self) -> int {
        self.width as int
    }

    /// Whether the smallest vector leaves first.
    pub closed spec fn smallest_first(&self) -> bool {
        self.smallest_first
    }

    pub closed spec fn wf(&self) -> bool {
        &&& all_width(self.items(), self.width as int)
        &&& ordered_except(self.smallest_first, self.items(), 0)
    }

    /// What the heap holds has the length of its vectors.
    pub proof fn lemma_items(&self)
        requires
            self.wf(),
        ensures
            forall|k: Seq<u32>| self@.contains(k) ==> k.len() == self.width(),
            self@.len() == self.items().len(),
    {
        assert forall|k: Seq<u32>| self@.contains(k) implies k.len() == self.width() by {
            vstd::seq_lib::to_multiset_contains(self.items(), k);
            let i = choose|i: int| 0 <= i < self.items().len() && self.items()[i] == k;
            assert(self.items()[i].len() == self.width);
        }
        vstd::seq_lib::to_multiset_len(self.items());
    }

    /// An empty heap for vectors of the length `width`.
    pub fn new(width: usize, smallest_first: bool, cap: usize) -> (r: Self)
        ensures
            r.wf(),
            r@ == Multiset::<Seq<u32>>::empty(),
            r.width() == width,
            r.smallest_first() == smallest_first,
    {
        let r = ExponentHeap { data: Vec::with_capacity(cap), width, smallest_first };
        proof {
            assert(r.items() =~= Seq::<Seq<u32>>::empty());
            assert(r.items().to_multiset() =~= Multiset::<Seq<u32>>::empty()) by {
                broadcast use vstd::multiset::group_multiset_axioms;

                vstd::seq_lib::to_multiset_len(r.items());
            }
        }
        r
    }

    /// The number of vectors in the heap.
    pub fn len(&self) -> (r: usize)
        ensures
            r == self@.len(),
    {
        proof {
            vstd::seq_lib::to_multiset_len(self.items());
        }
        self.data.len()
    }

    /// Whether the heap holds no vector.
    pub fn is_empty(&self) -> (r: bool)
        ensures
            r == (self@.len() == 0),
    {
        self.len() == 0
    }

    /// Whether the item at `i` leaves before the item at `j`.
    fn item_before(&self, i: usize, j: usize) -> (r: bool)
        requires
            all_width(self.items(), self.width as int),
            i < self.items().len(),
            j < self.items().len(),
        ensures
            r == before(self.smallest_first, self.items()[i as int], self.items()[j as int]),
    {
        assert(self.items()[i as int].len() == self.width);
        assert(self.items()[j as int].len() == self.width);
        let rel = compare_exponents(self.data[i].as_slice(), self.data[j].as_slice());
        if self.smallest_first {
            rel == Relation::Less
        } else {
            rel == Relation::Greater
        }
    }

    /// Exchanges the items at `i` and `j`.
    fn swap_items(&mut self, i: usize, j: usize)
        requires
            i < old(self).items().len(),
            j < old(self).items().len(),
        ensures
            final(self).items() == old(self).items().update(
                i as int,
                old(self).items()[j as int],
            ).update(j as int, old(self).items()[i as int]),
            final(self)@ == old(self)@,
            final(self).items().len() == old(self).items().len(),
            final(self).width == old(self).width,
            final(self).smallest_first == old(self).smallest_first,
            all_width(old(self).items(), old(self).width as int) ==> all_width(
                final(self).items(),
                final(self).width as int,
            ),
    {
        let ghost s = self.items();
        swap_vectors(&mut self.data, i, j);
        proof {
            assert(self.items() =~= s.update(i as int, s[j as int]).update(j as int, s[i as int]));
            lemma_swap_multiset(s, i as int, j as int);
        }
    }

    /// Puts a vector into the heap.
    pub fn push(&mut self, item: Vec<u32>)
        requires
            old(self).wf(),
            item@.len() == old(self).width(),
        ensures
            final(self).wf(),
            final(self)@ == old(self)@.insert(item@),
            final(self).width() == old(self).width(),
            final(self).smallest_first() == old(self).smallest_first(),
    {
        let ghost s0 = self.items();
        let ghost x = item@;
        self.data.push(item);
        proof {
            assert(self.items() =~= s0.push(x));
            vstd::seq_lib::to_multiset_build(s0, x);
        }
        let mut k: usize = self.data.len() - 1;
        let ghost sf = self.smallest_first;
        let mut done = false;
        while k > 0 && !done
            invariant
                k < self.items().len(),
                done ==> ordered_except(sf, self.items(), 0),
                sf == self.smallest_first,
                self.width == old(self).width,
                self.smallest_first == old(self).smallest_first,
                self@ == old(self)@.insert(x),
                all_width(self.items(), self.width as int),
                ordered_except(sf, self.items(), k as int),
                forall|c: int|
                    0 < c < self.items().len() && parent(c) == k && k > 0 ==> !before(
                        sf,
                        #[trigger] self.items()[c],
                        self.items()[parent(k as int)],
                    ),
            decreases k, (if done { 0int } else { 1int }),
        {
            let p = (k - 1) / 2;
            if !self.item_before(k, p) {
                proof {
                    let t = self.items();
                    assert forall|i: int| 0 < i < t.len() implies !before(
                        sf,
                        #[trigger] t[i],
                        t[parent(i)],
                    ) by {}
                }
                done = true;
            } else {
                let ghost s = self.items();
                self.swap_items(k, p);
                proof {
                    let t = self.items();
                    assert forall|i: int| 0 < i < t.len() && i != p implies !before(
                        sf,
                        #[trigger] t[i],
                        t[parent(i)],
                    ) by {
                        if i == k {
                            // the former parent, below the item that left before it
                            if sf {
                                lemma_lex_asymmetric(s[k as int], s[p as int]);
                            } else {
                                lemma_lex_asymmetric(s[p as int], s[k as int]);
                            }
                        } else if parent(i) == k {
                            assert(!before(sf, s[i], s[parent(k as int)]));
                        } else if parent(i) == p {
                            // the other item below p
                            assert(!before(sf, s[i], s[p as int]));
                            lemma_not_before_chain(sf, s[k as int], s[p as int], s[i]);
                        } else {
                            assert(!before(sf, s[i], s[parent(i)]));
                        }
                    }
                    assert forall|c: int| 0 < c < t.len() && parent(c) == p && p > 0 implies !before(
                        sf,
                        #[trigger] t[c],
                        t[parent(p as int)],
                    ) by {
                        assert(!before(sf, s[p as int], s[parent(p as int)]));
                        if c != k {
                            assert(!before(sf, s[c], s[p as int]));
                            lemma_not_before_chain(sf, s[parent(p as int)], s[p as int], s[c]);
                        }
                    }
                }
                k = p;
            }
        }
        proof {
            let t = self.items();
            assert forall|i: int| 0 < i < t.len() implies !before(sf, #[trigger] t[i], t[parent(i)]) by {}
        }
    }

    /// The vector that leaves the heap next, if there is one.
    pub fn peek(&self) -> (r: Option<&Vec<u32>>)
        requires
            self.wf(),
        ensures
            match r {
                Some(x) => self@.contains(x@) && forall|y: Seq<u32>|
                    self@.contains(y) ==> !before(self.smallest_first(), y, x@),
                None => self@.len() == 0,
            },
    {
        proof {
            vstd::seq_lib::to_multiset_len(self.items());
        }
        if self.data.len() == 0 {
            return None;
        }
        proof {
            self.lemma_top(0);
        }
        Some(&self.data[0])
    }

    /// The item at the top is in the heap and no item leaves before it.
    proof fn lemma_top(&self, i: int)
        requires
            self.wf(),
            self.items().len() > 0,
        ensures
            self@.contains(self.items()[0]),
            forall|y: Seq<u32>|
                self@.contains(y) ==> !before(self.smallest_first, y, self.items()[0]),
    {
        let s = self.items();
        vstd::seq_lib::to_multiset_contains(s, s[0]);
        assert(s.contains(s[0]));
        assert forall|y: Seq<u32>| self@.contains(y) implies !before(
            self.smallest_first,
            y,
            s[0],
        ) by {
            vstd::seq_lib::to_multiset_contains(s, y);
            let i = choose|i: int| 0 <= i < s.len() && s[i] == y;
            lemma_top_first(self.smallest_first, s, self.width as int, i);
        }
    }

    /// Takes the vector out of the heap that leaves next, if there is one.
    pub fn pop(&mut self) -> (r: Option<Vec<u32>>)
        requires
            old(self).wf(),
        ensures
            final(self).wf(),
            final(self).width() == old(self).width(),
            final(self).smallest_first() == old(self).smallest_first(),
            match r {
                Some(x) => old(self)@.contains(x@) && final(self)@ == old(self)@.remove(x@)
                    && x@.len() == old(self).width() && forall|y: Seq<u32>|
                    old(self)@.contains(y) ==> !before(old(self).smallest_first(), y, x@),
                None => old(self)@.len() == 0 && final(self)@ == old(self)@,
            },
    {
        proof {
            vstd::seq_lib::to_multiset_len(self.items());
        }
        let n = self.data.len();
        if n == 0 {
            return None;
        }
        let ghost s0 = self.items();
        let ghost sf = self.smallest_first;
        proof {
            self.lemma_top(0);
        }
        self.swap_items(0, n - 1);
        let ghost s1 = self.items();
        assert(s1.len() == n);
        assert(s1[n - 1] == s0[0]);
        let top = self.data.pop().unwrap();
        proof {
            assert(top@ == s1[n - 1]);
            assert(self.items() =~= s1.remove(n - 1));
            vstd::seq_lib::to_multiset_remove(s1, n - 1);
            let t = self.items();
            assert forall|i: int| 0 < i < t.len() && parent(i) != 0 implies !before(
                sf,
                #[trigger] t[i],
                t[parent(i)],
            ) by {
                assert(t[i] == s0[i]);
                assert(t[parent(i)] == s0[parent(i)]);
            }
        }
        let m = self.data.len();
        let mut k: usize = 0;
        let mut done = false;
        while k < m / 2 && !done
            invariant
                m == self.items().len(),
                done ==> ordered_except(sf, self.items(), 0),
                m < usize::MAX,
                k <= m,
                sf == self.smallest_first,
                self.width == old(self).width,
                self.smallest_first == old(self).smallest_first,
                self@ == old(self)@.remove(top@),
                all_width(self.items(), self.width as int),
                ordered_below(sf, self.items(), k as int),
                forall|c: int|
                    0 < c < self.items().len() && parent(c) == k && k > 0 ==> !before(
                        sf,
                        #[trigger] self.items()[c],
                        self.items()[parent(k as int)],
                    ),
            decreases m - k, (if done { 0int } else { 1int }),
        {
            let left = 2 * k + 1;
            let mut c = left;
            if left + 1 < m {
                if self.item_before(left + 1, left) {
                    c = left + 1;
                }
            }
            if !self.item_before(c, k) {
                proof {
                    // both items below k do not leave before it
                    let t = self.items();
                    assert forall|i: int| 0 < i < t.len() implies !before(
                        sf,
                        #[trigger] t[i],
                        t[parent(i)],
                    ) by {
                        if parent(i) == k && i != c {
                            assert(i == left || i == left + 1);
                            lemma_lex_total(t[c as int], t[k as int]);
                            lemma_not_before_chain(sf, t[k as int], t[c as int], t[i]);
                        }
                    }
                }
                done = true;
            } else {
                let ghost s = self.items();
                self.swap_items(k, c);
                proof {
                    let t = self.items();
                    assert forall|i: int| 0 < i < t.len() && parent(i) != c implies !before(
                        sf,
                        #[trigger] t[i],
                        t[parent(i)],
                    ) by {
                        if i == c {
                            if sf {
                                lemma_lex_asymmetric(s[c as int], s[k as int]);
                            } else {
                                lemma_lex_asymmetric(s[k as int], s[c as int]);
                            }
                        } else if parent(i) == k {
                            // the other item below k
                            assert(i == left || i == left + 1);
                            assert(!before(sf, s[i], s[c as int]));
                        } else if i == k {
                            assert(!before(sf, s[c as int], s[parent(k as int)]));
                        } else {
                            assert(!before(sf, s[i], s[parent(i)]));
                        }
                    }
                    assert forall|d: int| 0 < d < t.len() && parent(d) == c && c > 0 implies !before(
                        sf,
                        #[trigger] t[d],
                        t[parent(c as int)],
                    ) by {
                        assert(!before(sf, s[d], s[parent(d)]));
                    }
                }
                k = c;
            }
        }
        proof {
            let t = self.items();
            assert forall|i: int| 0 < i < t.len() implies !before(sf, #[trigger] t[i], t[parent(i)]) by {
                if parent(i) == k {
                    assert(i == 2 * k + 1 || i == 2 * k + 2);
                }
            }
        }
        Some(top)
    }
}

} // verus!
