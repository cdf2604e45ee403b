//! The products that wait in the heap, by their exponent vector.
//!
//! Multiplication and division keep every exponent vector only once in the
//! heap. The pairs of terms whose product has that exponent vector are
//! collected here, in a hash map from the vector to the list of the pairs.
use crate::poly::INLINED_EXPONENTS;
use ahash::{HashMap, HashMapExt};
use smallvec::SmallVec;
use vstd::prelude::*;

verus! {

/// A pair of terms whose product waits: the place of a term in the first
/// list, the place of a term in the second list, and a mark that the division
/// uses to tell how the pair goes on.
pub type Pending = (usize, usize, bool);

/// A hash map from exponent vectors to lists of pending pairs.
#[verifier::external_body]
pub struct MonomialCache {
    map: HashMap<SmallVec<[u32; INLINED_EXPONENTS]>, SmallVec<[Pending; 5]>>,
}

/// What a cache holds: the list of pairs of each exponent vector that it has
/// an entry for.
pub uninterp spec fn cache_entries(c: MonomialCache) -> Map<Seq<u32>, Seq<Pending>>;

/// No entries.
pub open spec fn no_entries() -> Map<Seq<u32>, Seq<Pending>> {
    Map::empty()
}

/// `HashMapExt::with_capacity`: a map without entries.
#[verifier::external_body]
fn cache_with_capacity(cap: usize) -> (r: MonomialCache)
    ensures
        cache_entries(r) == no_entries(),
{
    MonomialCache { map: HashMap::with_capacity(cap) }
}

/// `HashMap::contains_key`: whether the map has an entry for the vector.
#[verifier::external_body]
fn cache_contains_key(c: &MonomialCache, key: &Vec<u32>) -> (r: bool)
    ensures
        r == cache_entries(*c).dom().contains(key@),
{
    c.map.contains_key(key.as_slice())
}

/// `HashMap::remove`: the entry for the vector leaves the map, and its list is
/// handed out, if there was one.
#[verifier::external_body]
fn cache_remove(c: &mut MonomialCache, key: &Vec<u32>) -> (r: Option<Vec<Pending>>)
    ensures
        cache_entries(*final(c)) == cache_entries(*old(c)).remove(key@),
        match r {
            Some(v) => cache_entries(*old(c)).dom().contains(key@) && v@ == cache_entries(
                *old(c),
            )[key@],
            None => !cache_entries(*old(c)).dom().contains(key@),
        },
{
    c.map.remove(key.as_slice()).map(|v| v.into_vec())
}

/// `HashMap::insert`: the map has the list as its entry for the vector,
/// whether it had one before or not.
#[verifier::external_body]
fn cache_insert(c: &mut MonomialCache, key: &Vec<u32>, value: Vec<Pending>)
    ensures
        cache_entries(*final(c)) == cache_entries(*old(c)).insert(key@, value@),
{
    c.map.insert(SmallVec::from_slice(key), SmallVec::from_vec(value));
}

impl View for MonomialCache {
    type V = Map<Seq<u32>, Seq<Pending>>;

    open spec fn view(&self) -> Map<Seq<u32>, Seq<Pending>> {
        cache_entries(*self)
    }
}

impl MonomialCache {
    /// A cache without entries.
    pub fn with_capacity(cap: usize) -> (r: MonomialCache)
        ensures
            r@ == no_entries(),
    {
        cache_with_capacity(cap)
    }

    /// Whether the cache has an entry for the vector.
    pub fn contains_key(&self, key: &Vec<u32>) -> (r: bool)
        ensures
            r == self@.dom().contains(key@),
    {
        cache_contains_key(self, key)
    }

    /// Takes the list of a vector out of the cache.
    pub fn remove(&mut self, key: &Vec<u32>) -> (r: Option<Vec<Pending>>)
        ensures
            final(self)@ == old(self)@.remove(key@),
            match r {
                Some(v) => old(self)@.dom().contains(key@) && v@ == old(self)@[key@],
                None => !old(self)@.dom().contains(key@),
            },
    {
        cache_remove(self, key)
    }

    /// Appends a pair to the list of a vector, which is started if the cache
    /// has none for it. Tells whether the list was started.
    pub fn add(&mut self, key: &Vec<u32>, item: Pending) -> (fresh: bool)
        ensures
            fresh == !old(self)@.dom().contains(key@),
            final(self)@ == old(self)@.insert(
                key@,
                (if old(self)@.dom().contains(key@) {
                    old(self)@[key@]
                } else {
                    Seq::<Pending>::empty()
                }).push(item),
            ),
    {
        match cache_remove(self, key) {
            Some(mut list) => {
                list.push(item);
                cache_insert(self, key, list);
                proof {
                    assert(old(self)@.remove(key@).insert(key@, old(self)@[key@].push(item))
                        =~= old(self)@.insert(key@, old(self)@[key@].push(item)));
                }
                false
            },
            None => {
                let mut list: Vec<Pending> = Vec::new();
                list.push(item);
                cache_insert(self, key, list);
                proof {
                    assert(old(self)@.remove(key@) =~= old(self)@);
                }
                true
            },
        }
    }
}

/// A hash map from exponent vectors to places in a list.
#[verifier::external_body]
pub struct ExponentIndex {
    map: HashMap<SmallVec<[u32; INLINED_EXPONENTS]>, usize>,
}

/// What an index holds: the place of each exponent vector that it has an
/// entry for.
pub uninterp spec fn index_entries(c: ExponentIndex) -> Map<Seq<u32>, usize>;

/// No places.
pub open spec fn no_places() -> Map<Seq<u32>, usize> {
    Map::empty()
}

/// `HashMapExt::new`: a map without entries.
#[verifier::external_body]
fn index_new() -> (r: ExponentIndex)
    ensures
        index_entries(r) == no_places(),
{
    ExponentIndex { map: HashMap::new() }
}

/// `HashMap::get`: the place of the vector, if the map has an entry for it.
#[verifier::external_body]
fn index_get(c: &ExponentIndex, key: &Vec<u32>) -> (r: Option<usize>)
    ensures
        match r {
            Some(i) => index_entries(*c).dom().contains(key@) && index_entries(*c)[key@] == i,
            None => !index_entries(*c).dom().contains(key@),
        },
{
    c.map.get(key.as_slice()).copied()
}

/// `HashMap::insert`: the map has the place as its entry for the vector,
/// whether it had one before or not.
#[verifier::external_body]
fn index_insert(c: &mut ExponentIndex, key: &Vec<u32>, place: usize)
    ensures
        index_entries(*final(c)) == index_entries(*old(c)).insert(key@, place),
{
    c.map.insert(SmallVec::from_slice(key), place);
}

impl View for ExponentIndex {
    type V = Map<Seq<u32>, usize>;

    open spec fn view(&self) -> Map<Seq<u32>, usize> {
        index_entries(*self)
    }
}

impl ExponentIndex {
    /// An index without entries.
    pub fn new() -> (r: ExponentIndex)
        ensures
            r@ == no_places(),
    {
        index_new()
    }

    /// The place of an exponent vector, if the index has one for it.
    pub fn get(&self, key: &Vec<u32>) -> (r: Option<usize>)
        ensures
            match r {
                Some(i) => self@.dom().contains(key@) && self@[key@] == i,
                None => !self@.dom().contains(key@),
            },
    {
        index_get(self, key)
    }

    /// Enters the place of an exponent vector.
    pub fn insert(&mut self, key: &Vec<u32>, place: usize)
        ensures
            final(self)@ == old(self)@.insert(key@, place),
    {
        index_insert(self, key, place)
    }
}

} // verus!
