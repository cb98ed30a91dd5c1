use vstd::prelude::*;
use intmap::IntMap;
use crate::regex::pderiv::bitseq::Bits;

verus! {

#[verifier::external_type_specification]
#[verifier::external_body]
#[verifier::reject_recursive_types(K)]
#[verifier::reject_recursive_types(V)]
pub struct ExIntMap<K, V>(IntMap<K, V>);

/// The transitions out of one state: for each letter code, the states that the
/// partial derivatives lead to, each with its bits.
pub type TransRow = IntMap<u64, Vec<(u64, Bits)>>;

/// The bit code of the empty word for each final state.
pub type Finals = IntMap<u64, Bits>;

/// The entries of a transition, with the bits taken by their view.
pub open spec fn entries_view(v: Seq<(u64, Bits)>) -> Seq<(u64, Seq<bool>)> {
    v.map_values(|p: (u64, Bits)| (p.0, p.1@))
}

/// What a transition row holds.
pub uninterp spec fn row_map(m: TransRow) -> Map<u64, Seq<(u64, Seq<bool>)>>;

/// What the table of final states holds.
pub uninterp spec fn finals_map(m: Finals) -> Map<u64, Seq<bool>>;

/// `IntMap::new` for a transition row: an empty map.
#[verifier::external_body]
pub(crate) fn row_new() -> (res: TransRow)
    ensures
        row_map(res).dom() == Set::<u64>::empty(),
{
    IntMap::new()
}

/// `IntMap::insert` for a transition row: maps `key` to `v`, replacing any
/// earlier value of `key`.
#[verifier::external_body]
pub(crate) fn row_insert(m: &mut TransRow, key: u64, v: Vec<(u64, Bits)>)
    ensures
        row_map(*final(m)) == row_map(*old(m)).insert(key, entries_view(v@)),
{
    m.insert(key, v);
}

/// `IntMap::get` for a transition row: the value of `key`, if any.
#[verifier::external_body]
pub(crate) fn row_get(m: &TransRow, key: u64) -> (res: Option<&Vec<(u64, Bits)>>)
    ensures
        res is Some == row_map(*m).contains_key(key),
        res is Some ==> entries_view(res->0@) == row_map(*m)[key],
{
    m.get(key)
}

/// `IntMap::len` for a transition row: the number of keys.
#[verifier::external_body]
pub(crate) fn row_len(m: &TransRow) -> (res: usize)
    requires
        row_map(*m).dom().finite(),
    ensures
        res == row_map(*m).dom().len(),
{
    m.len()
}

/// `IntMap::new` for the final states: an empty map.
#[verifier::external_body]
pub(crate) fn finals_new() -> (res: Finals)
    ensures
        finals_map(res).dom() == Set::<u64>::empty(),
{
    IntMap::new()
}

/// `IntMap::insert` for the final states: maps `key` to `v`, replacing any
/// earlier value of `key`.
#[verifier::external_body]
pub(crate) fn finals_insert(m: &mut Finals, key: u64, v: Bits)
    ensures
        finals_map(*final(m)) == finals_map(*old(m)).insert(key, v@),
{
    m.insert(key, v);
}

/// `IntMap::get` for the final states: the value of `key`, if any.
#[verifier::external_body]
pub(crate) fn finals_get(m: &Finals, key: u64) -> (res: Option<&Bits>)
    ensures
        res is Some == finals_map(*m).contains_key(key),
        res is Some ==> res->0@ == finals_map(*m)[key],
{
    m.get(key)
}

} // verus!
