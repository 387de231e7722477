//! The user registry: one application-defined record per connected peer.

use std::collections::HashMap;
use vstd::prelude::*;

verus! {

broadcast use vstd::std_specs::hash::group_hash_axioms;

/// Identifier of a peer on the transport.  Opaque to the engine: only
/// compared for equality, never ordered.
pub type PeerId = u64;

/// A per-peer record constructed by the application whenever a peer
/// connects.  The engine builds one on connect and discards it on
/// disconnect; what it holds is the application's business.
pub trait TUser: Sized {
    fn new(peer_id: PeerId) -> Self;
}

/// Maps a peer identifier to the application's per-peer record.
pub struct UserList<T: TUser> {
    pub users: HashMap<PeerId, T>,
}

/// A registry is modelled as the map from peer id to record.
impl<T: TUser> View for UserList<T> {
    type V = Map<PeerId, T>;

    open spec fn view(&self) -> Map<PeerId, T> {
        self.users@
    }
}

impl<T: TUser> UserList<T> {
    /// An empty registry.
    pub fn new() -> (r: Self)
        ensures
            r.users@ == Map::<PeerId, T>::empty(),
    {
        Self { users: HashMap::new() }
    }

    /// Insert or replace the record for a peer.
    pub(crate) fn insert(&mut self, peer_id: PeerId, user: T)
        ensures
            final(self).users@ == old(self).users@.insert(peer_id, user),
    {
        self.users.insert(peer_id, user);
    }

    /// Remove the record for a peer, returning it if the peer was known.
    pub(crate) fn remove(&mut self, peer_id: &PeerId) -> (r: Option<T>)
        ensures
            final(self).users@ == old(self).users@.remove(*peer_id),
            match r {
                Some(user) => old(self).users@.contains_key(*peer_id) && user == old(
                    self,
                ).users@[*peer_id],
                None => !old(self).users@.contains_key(*peer_id),
            },
    {
        self.users.remove(peer_id)
    }

    /// The record for a peer, if the peer is known.
    pub fn get(&self, peer_id: &PeerId) -> (r: Option<&T>)
        ensures
            match r {
                Some(user) => self.users@.contains_key(*peer_id) && *user == self.users@[*peer_id],
                None => !self.users@.contains_key(*peer_id),
            },
    {
        self.users.get(peer_id)
    }

    /// Mutable access to the record for a peer, if the peer is known.
    pub fn get_mut(&mut self, peer_id: &PeerId) -> (r: Option<&mut T>)
        ensures
            match r {
                Some(user) => {
                    &&& old(self).users@.contains_key(*peer_id)
                    &&& *user == old(self).users@[*peer_id]
                    &&& final(self).users@ == old(self).users@.insert(*peer_id, *final(user))
                },
                None => {
                    &&& !old(self).users@.contains_key(*peer_id)
                    &&& final(self).users@ == old(self).users@
                },
            },
    {
        match self.users.entry(*peer_id) {
            std::collections::hash_map::Entry::Occupied(occupied) => Some(occupied.into_mut()),
            std::collections::hash_map::Entry::Vacant(_) => None,
        }
    }

}

} // verus!
