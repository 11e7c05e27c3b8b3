use vstd::prelude::*;

verus! {

#[verifier::external_type_specification]
#[verifier::external_body]
#[verifier::reject_recursive_types(K)]
#[verifier::reject_recursive_types(V)]
pub struct ExVecMap<K, V>(map_vec::Map<K, V>);

#[verifier::external_type_specification]
#[verifier::external_body]
#[verifier::reject_recursive_types(T)]
pub struct ExVecSet<T>(map_vec::Set<T>);

/// What an id-keyed map of ids holds.
pub uninterp spec fn id_map_model(m: map_vec::Map<usize, usize>) -> Map<usize, usize>;

/// What a set of ids holds.
pub uninterp spec fn id_set_model(s: map_vec::Set<usize>) -> Set<usize>;

/// What a set of ordered id pairs holds.
pub uninterp spec fn pair_set_model(s: map_vec::Set<(usize, usize)>) -> Set<(usize, usize)>;

/// Relies on map_vec::Map::new: the new map holds no entry.
#[verifier::external_body]
pub(crate) fn id_map_new() -> (r: map_vec::Map<usize, usize>)
    ensures
        forall|k: usize| !(#[trigger] id_map_model(r).contains_key(k)),
{
    map_vec::Map::new()
}

/// Relies on map_vec::Map::insert: the new entry replaces any entry stored
/// under the same key and leaves every other key untouched.
#[verifier::external_body]
pub(crate) fn id_map_insert(m: &mut map_vec::Map<usize, usize>, k: usize, v: usize)
    ensures
        id_map_model(*final(m)) == id_map_model(*old(m)).insert(k, v),
{
    m.insert(k, v);
}

/// Relies on map_vec::Map::get: the value stored under the key, if any.
#[verifier::external_body]
pub(crate) fn id_map_get(m: &map_vec::Map<usize, usize>, k: usize) -> (r: Option<usize>)
    ensures
        (match r {
            Some(v) => id_map_model(*m).contains_key(k) && id_map_model(*m)[k] == v,
            None => !id_map_model(*m).contains_key(k),
        }),
{
    m.get(&k).copied()
}

/// Relies on map_vec::Set::new: the new set holds nothing.
#[verifier::external_body]
pub(crate) fn id_set_new() -> (r: map_vec::Set<usize>)
    ensures
        id_set_model(r) == Set::<usize>::empty(),
{
    map_vec::Set::new()
}

/// Relies on map_vec::Set::insert: the value joins the set, which reports
/// whether it was newly inserted.
#[verifier::external_body]
pub(crate) fn id_set_insert(s: &mut map_vec::Set<usize>, x: usize) -> (r: bool)
    ensures
        id_set_model(*final(s)) == id_set_model(*old(s)).insert(x),
        r == !id_set_model(*old(s)).contains(x),
{
    s.insert(x)
}

/// Relies on map_vec::Set::contains: membership of the value.
#[verifier::external_body]
pub(crate) fn id_set_contains(s: &map_vec::Set<usize>, x: usize) -> (r: bool)
    ensures
        r == id_set_model(*s).contains(x),
{
    s.contains(&x)
}

/// Relies on map_vec::Set::new: the new set holds nothing.
#[verifier::external_body]
pub(crate) fn pair_set_new() -> (r: map_vec::Set<(usize, usize)>)
    ensures
        forall|p: (usize, usize)| !(#[trigger] pair_set_model(r).contains(p)),
{
    map_vec::Set::new()
}

/// Relies on map_vec::Set::insert: the pair joins the set, which reports
/// whether it was newly inserted.
#[verifier::external_body]
pub(crate) fn pair_set_insert(s: &mut map_vec::Set<(usize, usize)>, x: (usize, usize)) -> (r: bool)
    ensures
        pair_set_model(*final(s)) == pair_set_model(*old(s)).insert(x),
        r == !pair_set_model(*old(s)).contains(x),
{
    s.insert(x)
}

/// Relies on map_vec::Set::contains: membership of the pair.
#[verifier::external_body]
pub(crate) fn pair_set_contains(s: &map_vec::Set<(usize, usize)>, x: (usize, usize)) -> (r: bool)
    ensures
        r == pair_set_model(*s).contains(x),
{
    s.contains(&x)
}

} // verus!
