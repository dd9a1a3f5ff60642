//! Connection registry: issues unique tokens from a monotonically increasing
//! counter and tracks the live session for each. Token 0 is the reserved
//! sentinel that identifies the listening socket itself; it is never issued
//! to a peer. The registry's invariant — every live token is below the
//! counter, none is the sentinel, and no two entries share a token — makes
//! token collisions impossible by construction, for every sequence of
//! accepts and disconnects.

use vstd::prelude::*;
use crate::session::ConnectedPeer;

verus! {

/// The reserved token of the listening socket; never issued to a peer.
pub const LISTENER_TOKEN: u64 = 0;

/// The live connections, keyed by token, and the allocation counter.
pub struct Registry {
    pub entries: Vec<(u64, ConnectedPeer)>,
    pub next_token: u64,
}

impl Registry {
    /// The tokens of the live entries, in registration order.
    pub open spec fn tokens(self) -> Seq<u64> {
        self.entries@.map(|i: int, e: (u64, ConnectedPeer)| e.0)
    }

    /// Whether `token` is live.
    pub open spec fn spec_has_token(self, token: u64) -> bool {
        exists|i: int| 0 <= i < self.entries@.len() && #[trigger] self.entries@[i].0 == token
    }

    /// The registry invariant: the counter is past the sentinel, every live
    /// token was drawn below the counter and is not the sentinel, and no two
    /// live entries share a token.
    pub open spec fn wf(self) -> bool {
        &&& self.next_token >= 1
        &&& forall|i: int| 0 <= i < self.entries@.len()
            ==> #[trigger] self.entries@[i].0 != LISTENER_TOKEN
                && self.entries@[i].0 < self.next_token
        &&& forall|i: int, j: int|
            #![trigger self.entries@[i], self.entries@[j]]
            0 <= i < self.entries@.len() && 0 <= j < self.entries@.len() && i != j
            ==> self.entries@[i].0 != self.entries@[j].0
    }

    /// The registry invariant named at one pair of entries: distinct live
    /// entries carry distinct tokens.
    pub proof fn lemma_distinct(self, i: int, j: int)
        requires
            self.wf(),
            0 <= i < self.entries@.len(),
            0 <= j < self.entries@.len(),
            i != j,
        ensures
            self.entries@[i].0 != self.entries@[j].0,
    {
    }

    /// An empty registry; the first token to be issued is 1.
    pub fn new() -> (reg: Registry)
        ensures
            reg.wf(),
            reg.entries@.len() == 0,
            reg.next_token == 1,
    {
        Registry { entries: Vec::new(), next_token: 1 }
    }

    /// Draws a fresh token: never the sentinel, never one already live, and
    /// never one issued before (the counter only grows).
    pub fn allocate_token(&mut self) -> (token: u64)
        requires
            old(self).wf(),
            old(self).next_token < u64::MAX,
        ensures
            final(self).wf(),
            token == old(self).next_token,
            token != LISTENER_TOKEN,
            final(self).next_token == token + 1,
            final(self).entries == old(self).entries,
            !old(self).spec_has_token(token),
    {
        let token = self.next_token;
        self.next_token = self.next_token + 1;
        token
    }

    /// Registers a peer under a freshly allocated token. The requirements —
    /// a non-sentinel token below the counter that is not already live — are
    /// exactly what `allocate_token` hands out, so registering anything else
    /// is a programming defect and is ruled out rather than handled.
    pub fn register(&mut self, token: u64, peer: ConnectedPeer)
        requires
            old(self).wf(),
            token != LISTENER_TOKEN,
            token < old(self).next_token,
            !old(self).spec_has_token(token),
        ensures
            final(self).wf(),
            final(self).entries@ == old(self).entries@.push((token, peer)),
            final(self).next_token == old(self).next_token,
            final(self).spec_has_token(token),
    {
        self.entries.push((token, peer));
        proof {
            assert forall|i: int, j: int|
                #![trigger self.entries@[i], self.entries@[j]]
                0 <= i < self.entries@.len() && 0 <= j < self.entries@.len() && i != j
                implies self.entries@[i].0 != self.entries@[j].0 by {
                if i < self.entries@.len() - 1 && j < self.entries@.len() - 1 {
                } else if i == self.entries@.len() - 1 {
                    assert(old(self).entries@[j].0 == self.entries@[j].0);
                } else {
                    assert(old(self).entries@[i].0 == self.entries@[i].0);
                }
            };
            assert(self.entries@[self.entries@.len() - 1].0 == token);
        }
    }

    /// The index of `token` among the entries, if it is live.
    pub open spec fn spec_index_of(self, token: u64) -> int {
        choose|i: int| 0 <= i < self.entries@.len() && #[trigger] self.entries@[i].0 == token
    }

    /// Whether `token` is live.
    pub fn has_token(&self, token: u64) -> (b: bool)
        ensures
            b == self.spec_has_token(token),
    {
        let mut k: usize = 0;
        let len = self.entries.len();
        while k < len
            invariant
                k <= len,
                len == self.entries@.len(),
                forall|i: int| 0 <= i < k ==> #[trigger] self.entries@[i].0 != token,
            decreases len - k,
        {
            if self.entries[k].0 == token {
                return true;
            }
            k = k + 1;
        }
        false
    }

    /// Removes the peer registered under `token`. Removing an absent token
    /// is a no-op, not a fault: a disconnect may be detected from more than
    /// one code path.
    pub fn remove(&mut self, token: u64)
        requires
            old(self).wf(),
        ensures
            final(self).wf(),
            final(self).next_token == old(self).next_token,
            !old(self).spec_has_token(token) ==> final(self).entries == old(self).entries,
            old(self).spec_has_token(token) ==> final(self).entries@ == old(
                self,
            ).entries@.remove(old(self).spec_index_of(token)),
            !final(self).spec_has_token(token),
    {
        let _ = self.take(token);
    }

    /// Removes the peer registered under `token` and hands it out, so that
    /// the caller can drive its session and register it back afterwards.
    pub fn take(&mut self, token: u64) -> (res: Result<ConnectedPeer, ()>)
        requires
            old(self).wf(),
        ensures
            final(self).wf(),
            final(self).next_token == old(self).next_token,
            !final(self).spec_has_token(token),
            !old(self).spec_has_token(token) ==> (res matches Err(e) && final(self).entries
                == old(self).entries),
            old(self).spec_has_token(token) ==> (res matches Ok(peer)
                && peer == old(self).entries@[old(self).spec_index_of(token)].1
                && final(self).entries@ == old(self).entries@.remove(
                    old(self).spec_index_of(token),
                )
                && token != LISTENER_TOKEN
                && token < old(self).next_token),
    {
        let len = self.entries.len();
        let mut k: usize = 0;
        while k < len
            invariant
                old(self).wf(),
                k <= len,
                len == self.entries@.len(),
                *self == *old(self),
                forall|i: int| 0 <= i < k ==> #[trigger] self.entries@[i].0 != token,
            decreases len - k,
        {
            if self.entries[k].0 == token {
                let entry = self.entries.remove(k);
                proof {
                    let oe = old(self).entries@;
                    assert(oe[k as int].0 == token);
                    assert(old(self).spec_has_token(token));
                    let ci = old(self).spec_index_of(token);
                    assert(0 <= ci < oe.len() && oe[ci].0 == token);
                    assert(ci == k as int) by {
                        if ci != k as int {
                            old(self).lemma_distinct(ci, k as int);
                        }
                    };
                    assert forall|i: int| 0 <= i < self.entries@.len()
                        implies #[trigger] self.entries@[i].0 != token by {
                        if i < k as int {
                            assert(self.entries@[i] == oe[i]);
                            old(self).lemma_distinct(i, k as int);
                        } else {
                            assert(self.entries@[i] == oe[i + 1]);
                            old(self).lemma_distinct(i + 1, k as int);
                        }
                    };
                }
                return Ok(entry.1);
            }
            k = k + 1;
        }
        Err(())
    }

    /// Borrows the peer registered under `token` mutably, or reports that no
    /// such peer is live.
    pub fn get_mut(&mut self, token: u64) -> (res: Result<&mut ConnectedPeer, ()>)
        requires
            old(self).wf(),
        ensures
            final(self).next_token == old(self).next_token,
            !old(self).spec_has_token(token) ==> (res matches Err(e) && *final(self) == *old(
                self,
            )),
            old(self).spec_has_token(token) ==> (res matches Ok(peer)
                && *peer == old(self).entries@[old(self).spec_index_of(token)].1
                && 0 <= old(self).spec_index_of(token) < old(self).entries@.len()
                && old(self).entries@[old(self).spec_index_of(token)].0 == token
                && final(self).entries@ == old(self).entries@.update(
                    old(self).spec_index_of(token),
                    (token, *final(peer)),
                )),
    {
        let len = self.entries.len();
        let mut k: usize = 0;
        while k < len
            invariant
                old(self).wf(),
                k <= len,
                len == self.entries@.len(),
                *self == *old(self),
                forall|i: int| 0 <= i < k ==> #[trigger] self.entries@[i].0 != token,
            decreases len - k,
        {
            if self.entries[k].0 == token {
                proof {
                    let oe = old(self).entries@;
                    assert(oe[k as int].0 == token);
                    assert(old(self).spec_has_token(token));
                    let ci = old(self).spec_index_of(token);
                    assert(0 <= ci < oe.len() && oe[ci].0 == token);
                    assert(ci == k as int) by {
                        if ci != k as int {
                            old(self).lemma_distinct(ci, k as int);
                        }
                    };
                }
                let entry = &mut self.entries[k];
                let peer = &mut entry.1;
                return Ok(peer);
            }
            k = k + 1;
        }
        Err(())
    }
}

/// Replacing the peer of one live entry, keeping its token, preserves the
/// registry invariant and the set of live tokens. Callers of `get_mut`
/// restore well-formedness with this once the borrow ends.
pub proof fn lemma_update_keeps_wf(r1: Registry, r2: Registry, i: int, peer: ConnectedPeer)
    requires
        r1.wf(),
        0 <= i < r1.entries@.len(),
        r2.entries@ == r1.entries@.update(i, (r1.entries@[i].0, peer)),
        r2.next_token == r1.next_token,
    ensures
        r2.wf(),
        r2.tokens() == r1.tokens(),
        forall|t: u64| r2.spec_has_token(t) == r1.spec_has_token(t),
{
    assert forall|a: int| 0 <= a < r2.entries@.len()
        implies #[trigger] r2.entries@[a].0 == r1.entries@[a].0 by {
    };
    assert(r2.tokens() =~= r1.tokens());
    assert forall|t: u64| r2.spec_has_token(t) == r1.spec_has_token(t) by {
        if r1.spec_has_token(t) {
            let a = r1.spec_index_of(t);
            assert(0 <= a < r1.entries@.len() && r1.entries@[a].0 == t);
            assert(r2.entries@[a].0 == t);
        }
        if r2.spec_has_token(t) {
            let a = r2.spec_index_of(t);
            assert(0 <= a < r2.entries@.len() && r2.entries@[a].0 == t);
            assert(r1.entries@[a].0 == t);
        }
    };
}

/// No two simultaneously live connections share a token, and the sentinel is
/// never a live token: immediate from the registry invariant, which every
/// operation preserves and `allocate_token` feeds with fresh values only.
pub proof fn lemma_live_tokens_distinct(reg: Registry)
    requires
        reg.wf(),
    ensures
        forall|i: int, j: int|
            0 <= i < reg.tokens().len() && 0 <= j < reg.tokens().len() && i != j
            ==> reg.tokens()[i] != reg.tokens()[j],
        forall|i: int| 0 <= i < reg.tokens().len() ==> reg.tokens()[i] != LISTENER_TOKEN,
{
    assert forall|i: int, j: int|
        0 <= i < reg.tokens().len() && 0 <= j < reg.tokens().len() && i != j
        implies reg.tokens()[i] != reg.tokens()[j] by {
        assert(reg.entries@[i].0 != reg.entries@[j].0);
    };
    assert forall|i: int| 0 <= i < reg.tokens().len()
        implies reg.tokens()[i] != LISTENER_TOKEN by {
        assert(reg.entries@[i].0 != LISTENER_TOKEN);
    };
}

} // verus!
