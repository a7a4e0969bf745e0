//! What the global allocator refuses: a record that only the call asking it
//! for room can add to.
use vstd::prelude::*;

verus! {

/// The global allocator refused room for `additional` more items in a
/// vector that held `len`. Only [`try_reserve_exact`] makes one.
pub struct Refusal {
    len: Ghost<nat>,
    additional: Ghost<nat>,
}

impl View for Refusal {
    type V = (nat, nat);

    closed spec fn view(&self) -> (nat, nat) {
        (self.len@, self.additional@)
    }
}

/// The refusals an owner has been answered with: how many, and the last,
/// as (items held, items asked for).
pub struct Refusals {
    count: Ghost<nat>,
    last: Ghost<Option<(nat, nat)>>,
}

impl View for Refusals {
    type V = (nat, Option<(nat, nat)>);

    closed spec fn view(&self) -> (nat, Option<(nat, nat)>) {
        (self.count@, self.last@)
    }
}

impl Refusals {
    /// No refusals yet.
    pub fn new() -> (r: Self)
        ensures
            r@ == (0nat, None::<(nat, nat)>),
    {
        Refusals { count: Ghost(0), last: Ghost(None) }
    }

    /// Put a refusal on record.
    pub fn record(&mut self, refusal: Refusal)
        ensures
            final(self)@ == (old(self)@.0 + 1, Some(refusal@)),
    {
        proof {
            self.count@ = self.count@ + 1;
            self.last@ = Some(refusal@);
        }
    }
}

/// `Vec::try_reserve_exact`: asks the global allocator for room for exactly
/// `additional` more items. Whether the allocator finds it is its own answer,
/// so nothing is claimed of which comes back; the items held are the same
/// either way, and a refusal names what was held and what was asked for.
#[verifier::external_body]
pub(crate) fn try_reserve_exact<T>(items: &mut Vec<T>, additional: usize) -> (r: Result<(), Refusal>)
    ensures
        final(items)@ == old(items)@,
        r matches Err(t) ==> t@ == (old(items)@.len(), additional as nat),
{
    match items.try_reserve_exact(additional) {
        Ok(()) => Ok(()),
        Err(_) => Err(Refusal { len: Ghost(items@.len()), additional: Ghost(additional as nat) }),
    }
}

} // verus!
