use crate::client::Client;
use crate::crdt::{hash_of_id, hash_of_range, id_key_hash, range_key_hash};
use crate::id::{order_ticks, range_order, tick_order, Id, IdRange};
use std::cmp::Ordering;
use vstd::prelude::*;

verus! {

/// Spec-level three-way comparison of two hashes.
pub open spec fn hash_order(a: u64, b: u64) -> Ordering {
    if a < b {
        Ordering::Less
    } else if a == b {
        Ordering::Equal
    } else {
        Ordering::Greater
    }
}

/// Compares two hashes.
fn order_hashes(a: u64, b: u64) -> (r: Ordering)
    ensures
        r == hash_order(a, b),
{
    if a < b {
        Ordering::Less
    } else if a == b {
        Ordering::Equal
    } else {
        Ordering::Greater
    }
}

impl Id {
    /// Orders two ids: by clock within one client, and across clients by the hashes of
    /// their texts, each client taken from `clients`, which gives the client of each client id.
    pub fn compare(&self, other: &Id, clients: &Vec<Client>) -> (r: Ordering)
        requires
            self.client != other.client ==> self.client < clients@.len() && other.client
                < clients@.len(),
        ensures
            r == if self.client != other.client {
                hash_order(id_key_hash(clients@, *self), id_key_hash(clients@, *other))
            } else {
                tick_order(self.clock, other.clock)
            },
    {
        if self.client != other.client {
            let a = hash_of_id(self, clients);
            let b = hash_of_id(other, clients);
            order_hashes(a, b)
        } else {
            order_ticks(self.clock, other.clock)
        }
    }
}

impl IdRange {
    /// Orders two ranges: within one client as `compare_without_client` does, and across
    /// clients by the hashes of their `(client, start)` texts.
    pub fn compare(&self, other: &IdRange, clients: &Vec<Client>) -> (r: Ordering)
        requires
            self.client != other.client ==> self.client < clients@.len() && other.client
                < clients@.len(),
        ensures
            r == if self.client != other.client {
                hash_order(
                    range_key_hash(clients@, self.client, self.start),
                    range_key_hash(clients@, other.client, other.start),
                )
            } else {
                range_order(*self, *other)
            },
    {
        if self.client != other.client {
            let a = hash_of_range(self.client, self.start, clients);
            let b = hash_of_range(other.client, other.start, clients);
            order_hashes(a, b)
        } else {
            self.compare_without_client(other)
        }
    }
}

} // verus!
