//! A named, replayable query sent to relays.
use crate::outside::{is_alphanumeric, random_alphanumeric};
use vstd::prelude::*;

verus! {

/// Length of the identifiers that [`Subscription::default`] draws.
pub const SUBSCRIPTION_ID_LEN: usize = 7;

/// A query that relays answer under `id`.
#[derive(Debug, PartialEq, Eq, Clone)]
pub struct Subscription {
    pub id: String,
    pub filters: Vec<nostr::Filter>,
}

impl Subscription {
    pub fn new(id: String, filters: Vec<nostr::Filter>) -> (r: Self)
        ensures
            r.id@ == id@,
            r.filters@ == filters@,
    {
        Self { id, filters }
    }

    /// Appends a filter.
    pub fn filter(&mut self, filter: nostr::Filter)
        ensures
            final(self).id@ == old(self).id@,
            final(self).filters@ == old(self).filters@.push(filter),
    {
        self.filters.push(filter);
    }
}

impl Default for Subscription {
    /// A subscription without filters, under a fresh random identifier.
    fn default() -> (r: Self)
        ensures
            r.id@.len() == SUBSCRIPTION_ID_LEN,
            forall|i: int| 0 <= i < r.id@.len() ==> is_alphanumeric(#[trigger] r.id@[i]),
            r.filters@.len() == 0,
    {
        let s = random_alphanumeric(SUBSCRIPTION_ID_LEN);
        Self::new(s, Vec::new())
    }
}

} // verus!
