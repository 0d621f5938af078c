//! The directory interner: a small integer for each directory.

use vstd::prelude::*;
use dashmap::DashMap;
use rustc_hash::FxBuildHasher;
use crate::maps::{id_entries, ids_get, ids_insert, ids_new};

verus! {

/// Hands out identifiers for directories, counting from zero. A directory
/// keeps the identifier it got first.
///
/// A directory is its path as it is spelled: `/p/./q` and `/p/q` get two
/// identifiers, though they name one directory. An identifier serves only
/// as part of the key under which a resolution is remembered, so a second
/// spelling costs a second look-up and changes no result.
pub struct DirInterner {
    ids: DashMap<String, u32, FxBuildHasher>,
    next: u32,
}

/// What an interner holds: the identifier of each directory seen so far, and
/// the identifier that the next new directory gets.
pub struct InternerModel {
    pub ids: Map<Seq<char>, u32>,
    pub next: u32,
}

impl InternerModel {
    /// The identifiers handed out are those below `next`, each to one
    /// directory.
    pub open spec fn dense(self) -> bool {
        &&& forall|d: Seq<char>| self.ids.contains_key(d) ==> #[trigger] self.ids[d] < self.next
        &&& forall|d: Seq<char>, e: Seq<char>|
            self.ids.contains_key(d) && self.ids.contains_key(e) && d != e ==> #[trigger] self.ids[d]
                != #[trigger] self.ids[e]
    }

    /// The interner after a look-up of `dir`.
    pub open spec fn after(self, dir: Seq<char>) -> InternerModel {
        if self.ids.contains_key(dir) {
            self
        } else {
            InternerModel {
                ids: self.ids.insert(dir, self.next),
                next: if self.next == u32::MAX {
                    0
                } else {
                    (self.next + 1) as u32
                },
            }
        }
    }

    /// The identifier that a look-up of `dir` returns.
    pub open spec fn id_of(self, dir: Seq<char>) -> u32 {
        if self.ids.contains_key(dir) {
            self.ids[dir]
        } else {
            self.next
        }
    }
}

impl View for DirInterner {
    type V = InternerModel;

    closed spec fn view(&self) -> InternerModel {
        InternerModel { ids: id_entries(self.ids), next: self.next }
    }
}

impl DirInterner {
    /// An interner that has seen no directory.
    pub fn new() -> (interner: DirInterner)
        ensures
            interner@.ids == Map::<Seq<char>, u32>::empty(),
            interner@.next == 0,
            interner@.dense(),
    {
        DirInterner { ids: ids_new(), next: 0 }
    }
}

/// The identifier of the directory `path`: the one it has, or else the next
/// free one, which it keeps from now on. The counter wraps at the end of
/// `u32`.
pub fn get_dir_id(interner: &mut DirInterner, path: &str) -> (id: u32)
    ensures
        id == old(interner)@.id_of(path@),
        final(interner)@ == old(interner)@.after(path@),
{
    match ids_get(&interner.ids, path) {
        Some(id) => id,
        None => {
            let id = interner.next;
            ids_insert(&mut interner.ids, path.to_owned(), id);
            interner.next = id.wrapping_add(1);
            id
        },
    }
}

/// A look-up keeps the identifiers dense as long as the counter has not
/// reached the end of `u32`; and once a directory has an identifier, every
/// later look-up returns it.
pub proof fn lemma_lookup_keeps_dense(m: InternerModel, dir: Seq<char>)
    requires
        m.dense(),
        m.next < u32::MAX,
    ensures
        m.after(dir).dense(),
        m.after(dir).id_of(dir) == m.id_of(dir),
        forall|d: Seq<char>| m.ids.contains_key(d) ==> m.after(dir).id_of(d) == m.id_of(d),
{
}

/// Under a dense interner two directories have the same identifier only if
/// they are the same directory.
pub proof fn lemma_ids_distinct(m: InternerModel, d: Seq<char>, e: Seq<char>)
    requires
        m.dense(),
        m.ids.contains_key(d),
        m.ids.contains_key(e),
        m.ids[d] == m.ids[e],
    ensures
        d == e,
{
}

} // verus!
