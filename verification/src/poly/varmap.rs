//! The variable map of a polynomial: the external identifiers that the columns
//! of its exponent matrix stand for, in order.
use crate::poly::INLINED_EXPONENTS;
use crate::representations::Identifier;
use smallvec::SmallVec;
use vstd::prelude::*;

verus! {

/// A short vector of identifiers, kept inline while it is short.
#[verifier::external_body]
#[derive(Debug)]
pub struct VarMap {
    ids: SmallVec<[Identifier; INLINED_EXPONENTS]>,
}

/// The identifiers that a variable map holds, in order.
pub uninterp spec fn var_map_ids(m: VarMap) -> Seq<Identifier>;

/// `SmallVec::new`: a vector that holds nothing.
#[verifier::external_body]
fn var_map_new() -> (r: VarMap)
    ensures
        var_map_ids(r) == Seq::<Identifier>::empty(),
{
    VarMap { ids: SmallVec::new() }
}

/// `SmallVec::len`: the number of items.
#[verifier::external_body]
fn var_map_len(m: &VarMap) -> (r: usize)
    ensures
        r == var_map_ids(*m).len(),
{
    m.ids.len()
}

/// Indexing a `SmallVec`: the item at place `i`, for `i` below the length.
#[verifier::external_body]
fn var_map_get(m: &VarMap, i: usize) -> (r: Identifier)
    requires
        i < var_map_ids(*m).len(),
    ensures
        r == var_map_ids(*m)[i as int],
{
    m.ids[i]
}

/// `SmallVec::push`: the item is appended.
#[verifier::external_body]
fn var_map_push(m: &mut VarMap, id: Identifier)
    ensures
        var_map_ids(*final(m)) == var_map_ids(*old(m)).push(id),
{
    m.ids.push(id)
}

/// `SmallVec::clone`: a vector with the same items.
#[verifier::external_body]
fn var_map_clone(m: &VarMap) -> (r: VarMap)
    ensures
        var_map_ids(r) == var_map_ids(*m),
{
    VarMap { ids: m.ids.clone() }
}

impl View for VarMap {
    type V = Seq<Identifier>;

    open spec fn view(&self) -> Seq<Identifier> {
        var_map_ids(*self)
    }
}

impl VarMap {
    /// An empty variable map.
    pub fn new() -> (r: VarMap)
        ensures
            r@ == Seq::<Identifier>::empty(),
    {
        var_map_new()
    }

    /// The variable map that holds the given identifiers, in their order.
    pub fn from_ids(ids: &Vec<Identifier>) -> (r: VarMap)
        ensures
            r@ == ids@,
    {
        let mut r = var_map_new();
        let mut i: usize = 0;
        while i < ids.len()
            invariant
                i <= ids.len(),
                r@ == ids@.take(i as int),
            decreases ids.len() - i,
        {
            var_map_push(&mut r, ids[i]);
            proof {
                assert(ids@.take(i as int).push(ids@[i as int]) =~= ids@.take(i + 1));
            }
            i += 1;
        }
        proof {
            assert(ids@.take(ids.len() as int) =~= ids@);
        }
        r
    }

    /// The identifiers of the map, in their order.
    pub fn to_ids(&self) -> (r: Vec<Identifier>)
        ensures
            r@ == self@,
    {
        let n = var_map_len(self);
        let mut r: Vec<Identifier> = Vec::new();
        let mut i: usize = 0;
        while i < n
            invariant
                n == self@.len(),
                i <= n,
                r@ == self@.take(i as int),
            decreases n - i,
        {
            r.push(var_map_get(self, i));
            proof {
                assert(self@.take(i as int).push(self@[i as int]) =~= self@.take(i + 1));
            }
            i += 1;
        }
        proof {
            assert(self@.take(n as int) =~= self@);
        }
        r
    }

    /// The number of identifiers.
    pub fn len(&self) -> (r: usize)
        ensures
            r == self@.len(),
    {
        var_map_len(self)
    }

    /// The identifier at place `i`.
    pub fn get(&self, i: usize) -> (r: Identifier)
        requires
            i < self@.len(),
        ensures
            r == self@[i as int],
    {
        var_map_get(self, i)
    }

    /// Appends an identifier.
    pub fn push(&mut self, id: Identifier)
        ensures
            final(self)@ == old(self)@.push(id),
    {
        var_map_push(self, id)
    }

    /// A copy of the map.
    pub fn duplicate(&self) -> (r: VarMap)
        ensures
            r@ == self@,
    {
        var_map_clone(self)
    }

    /// The first place at which the map holds `id`, if it holds it.
    pub fn position(&self, id: Identifier) -> (r: Option<usize>)
        ensures
            match r {
                Some(p) => p < self@.len() && self@[p as int] == id && forall|i: int|
                    0 <= i < p ==> self@[i] != id,
                None => !self@.contains(id),
            },
    {
        let n = var_map_len(self);
        let mut i: usize = 0;
        while i < n
            invariant
                n == self@.len(),
                i <= n,
                forall|k: int| 0 <= k < i ==> self@[k] != id,
            decreases n - i,
        {
            if var_map_get(self, i).0 == id.0 {
                return Some(i);
            }
            i += 1;
        }
        None
    }

    /// Whether two maps hold the same identifiers in the same order.
    pub fn same(&self, other: &VarMap) -> (r: bool)
        ensures
            r == (self@ == other@),
    {
        let n = var_map_len(self);
        if n != var_map_len(other) {
            return false;
        }
        let mut i: usize = 0;
        while i < n
            invariant
                n == self@.len(),
                n == other@.len(),
                i <= n,
                forall|k: int| 0 <= k < i ==> self@[k] == other@[k],
            decreases n - i,
        {
            if var_map_get(self, i).0 != var_map_get(other, i).0 {
                return false;
            }
            i += 1;
        }
        proof {
            assert(self@ =~= other@);
        }
        true
    }
}

} // verus!
