//! Identities of connected clients.

use crate::text;
use vstd::prelude::*;

verus! {

/// Server-assigned identity of a connected client.
///
/// Allocated by the server and never reused while it runs, unlike a process
/// id, which the kernel can recycle.
#[derive(Debug, Clone, Copy, PartialEq, Eq, Hash, Structural)]
pub struct ClientId(pub u64);

impl ClientId {
    pub fn new(id: u64) -> (client: Self)
        ensures
            client.0 == id,
    {
        ClientId(id)
    }

    /// The identity in decimal.
    pub fn to_text(&self) -> (written: String)
        ensures
            written@ == text::decimal(self.0 as nat),
    {
        text::decimal_text(self.0)
    }
}

/// The server's counter of client identities. It starts at 1, so that 0
/// stays free to mean "no client".
pub struct ClientIds {
    next: u64,
}

impl ClientIds {
    /// The identity that the next client gets.
    pub closed spec fn upcoming(&self) -> u64 {
        self.next
    }

    pub fn new() -> (ids: Self)
        ensures
            ids.upcoming() == 1,
    {
        ClientIds { next: 1 }
    }

    /// Hands out the next identity. The counter wraps around past the
    /// largest identity.
    pub fn allocate(&mut self) -> (client: ClientId)
        ensures
            client == ClientId(old(self).upcoming()),
            final(self).upcoming() == counted(old(self).upcoming()),
    {
        let client = ClientId::new(self.next);
        self.next = self.next.wrapping_add(1);
        client
    }
}

/// The counter once the identity `c` has been handed out.
pub open spec fn counted(c: u64) -> u64 {
    if c == u64::MAX {
        0
    } else {
        (c + 1) as u64
    }
}

/// The identity handed out after `n` others, from a counter at `c`.
pub open spec fn nth_identity(c: u64, n: nat) -> u64
    decreases n,
{
    if n == 0 {
        c
    } else {
        counted(nth_identity(c, (n - 1) as nat))
    }
}

proof fn nth_identity_is_a_sum(c: u64, n: nat)
    ensures
        nth_identity(c, n) == (c + n) % 0x1_0000_0000_0000_0000,
    decreases n,
{
    if n > 0 {
        nth_identity_is_a_sum(c, (n - 1) as nat);
    }
}

/// No identity is handed out twice before the counter has gone all the way
/// round.
pub proof fn identities_are_never_reused(c: u64, earlier: nat, later: nat)
    requires
        earlier < later,
        later - earlier < 0x1_0000_0000_0000_0000,
    ensures
        ClientId(nth_identity(c, earlier)) != ClientId(nth_identity(c, later)),
{
    nth_identity_is_a_sum(c, earlier);
    nth_identity_is_a_sum(c, later);
}

/// A new counter hands out the identity 0 to none of its first clients, as
/// many as there are other identities.
pub proof fn zero_means_no_client(n: nat)
    requires
        n < u64::MAX,
    ensures
        nth_identity(1, n) != 0,
{
    nth_identity_is_a_sum(1, n);
}

/// Clients are counted from one: the first gets 1, and each the number after
/// the one before it.
pub proof fn clients_are_counted_from_one(n: nat)
    requires
        n < u64::MAX,
    ensures
        nth_identity(1, n) == n + 1,
{
    nth_identity_is_a_sum(1, n);
}

} // verus!
