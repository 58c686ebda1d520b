use vstd::prelude::*;

use slab::Slab;

verus! {

#[verifier::external_type_specification]
#[verifier::external_body]
#[verifier::reject_recursive_types(T)]
pub struct ExSlab<T>(Slab<T>);

/// The keys of the occupied entries of a slab of unit values.
pub uninterp spec fn slab_keys(s: Slab<()>) -> Set<usize>;

/// The number of entries, occupied or vacant, that a slab of unit values holds.
pub uninterp spec fn slab_slots(s: Slab<()>) -> nat;

/// The most entries a handle slab is asked to grow to: below the point where
/// its storage would exceed `isize::MAX` bytes, on 32-bit targets too.
pub const MAX_SLOTS: usize = 0x1000_0000;

/// Relies on slab::Slab::new: a new slab holds no entries.
#[verifier::external_body]
pub fn new_handles() -> (s: Slab<()>)
    ensures
        slab_keys(s) == Set::<usize>::empty(),
        slab_slots(s) == 0,
{
    Slab::new()
}

/// Relies on slab::Slab::insert: the key returned is one that was vacant,
/// either a vacant entry that is reused or a new entry appended at the end.
#[verifier::external_body]
pub fn allocate_handle(s: &mut Slab<()>) -> (k: usize)
    requires
        slab_slots(*old(s)) < MAX_SLOTS,
    ensures
        !slab_keys(*old(s)).contains(k),
        slab_keys(*final(s)) == slab_keys(*old(s)).insert(k),
        k <= slab_slots(*old(s)),
        slab_slots(*final(s)) == if k == slab_slots(*old(s)) { slab_slots(*old(s)) + 1 } else { slab_slots(*old(s)) },
{
    s.insert(())
}

/// Relies on slab::Slab::remove: the key's entry becomes vacant, and the
/// number of entries stays.
#[verifier::external_body]
pub fn release_handle(s: &mut Slab<()>, k: usize)
    requires
        slab_keys(*old(s)).contains(k),
    ensures
        slab_keys(*final(s)) == slab_keys(*old(s)).remove(k),
        slab_slots(*final(s)) == slab_slots(*old(s)),
{
    s.remove(k);
}

} // verus!
