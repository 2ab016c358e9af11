//! The in-memory positional index: a concurrent map from key to the
//! position of its value on disk, held behind trusted contracts.

use vstd::prelude::*;

verus! {

/// A single value position in the log storage: the index of the segment file
/// and the absolute byte offset, inside that segment, at which the value's
/// length prefix begins.
#[derive(Clone, Copy, PartialEq, Eq, Structural, Debug)]
pub struct KvStorePosition {
    pub file_idx: usize,
    pub file_offset: u64,
}

/// Declares dashmap's map type to the verifier. The index holds it through
/// exclusive references, so its contents can be tracked as a map value.
#[verifier::external_type_specification]
#[verifier::external_body]
#[verifier::reject_recursive_types(K)]
#[verifier::reject_recursive_types(V)]
#[verifier::reject_recursive_types(S)]
pub struct ExDashMap<K, V, S>(dashmap::DashMap<K, V, S>);

/// The entries held by the index map, keyed by the characters of each key.
pub uninterp spec fn index_entries(m: dashmap::DashMap<String, KvStorePosition>) -> Map<
    Seq<char>,
    KvStorePosition,
>;

/// The empty index contents.
pub open spec fn empty_index() -> Map<Seq<char>, KvStorePosition> {
    Map::empty()
}

/// Relies on dashmap::DashMap::new: the fresh map holds no entries.
#[verifier::external_body]
pub fn index_new() -> (r: dashmap::DashMap<String, KvStorePosition>)
    ensures
        index_entries(r) == empty_index(),
{
    dashmap::DashMap::new()
}

/// Relies on dashmap::DashMap::get: it returns the value stored at the key,
/// or nothing when the key is absent.
#[verifier::external_body]
pub fn index_get(m: &dashmap::DashMap<String, KvStorePosition>, key: &String) -> (r: Option<
    KvStorePosition,
>)
    ensures
        r == if index_entries(*m).dom().contains(key@) {
            Some(index_entries(*m)[key@])
        } else {
            None::<KvStorePosition>
        },
{
    m.get(key).map(|p| *p)
}

/// Relies on dashmap::DashMap::insert: it stores the value at the key,
/// replacing any previous value, and changes no other entry.
#[verifier::external_body]
pub fn index_insert(
    m: &mut dashmap::DashMap<String, KvStorePosition>,
    key: String,
    pos: KvStorePosition,
)
    ensures
        index_entries(*final(m)) == index_entries(*old(m)).insert(key@, pos),
{
    m.insert(key, pos);
}

/// Relies on dashmap::DashMap::remove: it deletes the entry at the key and
/// returns its value, or returns nothing when the key is absent.
#[verifier::external_body]
pub fn index_remove(m: &mut dashmap::DashMap<String, KvStorePosition>, key: &String) -> (r: Option<
    KvStorePosition,
>)
    ensures
        index_entries(*final(m)) == index_entries(*old(m)).remove(key@),
        r == if index_entries(*old(m)).dom().contains(key@) {
            Some(index_entries(*old(m))[key@])
        } else {
            None::<KvStorePosition>
        },
{
    m.remove(key).map(|kv| kv.1)
}

/// Relies on dashmap::DashMap::clear: it removes every entry.
#[verifier::external_body]
pub fn index_clear(m: &mut dashmap::DashMap<String, KvStorePosition>)
    ensures
        index_entries(*final(m)) == empty_index(),
{
    m.clear();
}

/// `r` counts the entries of `m`: the domain is finite and of size `r`.
pub open spec fn counts_entries(r: usize, m: Map<Seq<char>, KvStorePosition>) -> bool {
    m.dom().finite() && r as nat == m.dom().len()
}

/// Relies on dashmap::DashMap::len: it counts the key-value pairs held, and
/// a real map holds finitely many.
#[verifier::external_body]
pub fn index_len(m: &dashmap::DashMap<String, KvStorePosition>) -> (r: usize)
    ensures
        counts_entries(r, index_entries(*m)),
{
    m.len()
}

/// Replaces the position stored for `key` with `new_pos`, but only when the
/// index still holds an entry for `key` that points into segment
/// `expected_file_idx`. Used by the compactor's patch step: a key whose entry
/// already points into a newer segment is left alone.
pub fn replace_if_position_matches(
    m: &mut dashmap::DashMap<String, KvStorePosition>,
    key: &String,
    expected_file_idx: usize,
    new_pos: KvStorePosition,
)
    ensures
        index_entries(*final(m)) == if index_entries(*old(m)).dom().contains(key@)
            && index_entries(*old(m))[key@].file_idx == expected_file_idx {
            index_entries(*old(m)).insert(key@, new_pos)
        } else {
            index_entries(*old(m))
        },
{
    match index_get(m, key) {
        Some(existing) => {
            if existing.file_idx == expected_file_idx {
                index_insert(m, key.clone(), new_pos);
            } else {
                proof {
                    assert(index_entries(*m) =~= index_entries(*old(m)));
                }
            }
        },
        None => {
            proof {
                assert(index_entries(*m) =~= index_entries(*old(m)));
            }
        },
    }
}

} // verus!
