//! Transaction identifiers and the manager of outstanding queries.
//!
//! Every locally-issued query is tracked by a 16-bit transaction id bound
//! to a target address and a deadline. Ids are unique across the held set.

use vstd::prelude::*;
use vstd::set_lib::lemma_int_range;
use crate::id::AddrOptId;
use crate::Instant;

verus! {

/// A 16-bit transaction id, sent on the wire as two big-endian bytes.
#[derive(Clone, Copy, Debug, PartialEq, Eq, Hash, Structural)]
pub struct Id(pub u16);

impl Id {
    /// The next id, wrapping around after `0xffff`.
    pub fn next(&self) -> (r: Id)
        ensures
            r.0 == (self.0 + 1) % 0x10000,
    {
        Id(self.0.wrapping_add(1))
    }

    /// The two big-endian bytes of the id.
    pub fn to_be_bytes(&self) -> (r: Vec<u8>)
        ensures
            r@ == seq![(self.0 / 0x100) as u8, (self.0 % 0x100) as u8],
    {
        let mut v: Vec<u8> = Vec::new();
        v.push((self.0 / 0x100) as u8);
        v.push((self.0 % 0x100) as u8);
        proof {
            assert(v@ =~= seq![(self.0 / 0x100) as u8, (self.0 % 0x100) as u8]);
        }
        v
    }

    /// Reads an id from a wire transaction-id field; the field is valid
    /// exactly when it is two bytes long.
    pub fn try_from_slice(bytes: &[u8]) -> (r: Option<Id>)
        ensures
            r is Some <==> bytes@.len() == 2,
            r matches Some(id) ==> id.0 == bytes@[0] * 0x100 + bytes@[1],
    {
        if bytes.len() == 2 {
            let hi = bytes[0];
            let lo = bytes[1];
            Some(Id((hi as u16) * 0x100 + (lo as u16)))
        } else {
            None
        }
    }
}

/// An outstanding locally-issued query: its id, the queried address with
/// the expected remote id (if known), and the deadline after which the
/// query counts as timed out.
#[derive(Clone, Copy, Debug)]
pub struct Transaction {
    pub tx_id: Id,
    pub addr_opt_id: AddrOptId,
    pub deadline: Instant,
}

/// The set of outstanding transactions, keyed by transaction id.
#[derive(Debug)]
pub struct Transactions {
    pub txs: Vec<Transaction>,
}

impl View for Transactions {
    type V = Seq<Transaction>;

    open spec fn view(&self) -> Seq<Transaction> {
        self.txs@
    }
}

impl Transactions {
    /// No two held transactions share an id.
    pub open spec fn wf(self) -> bool {
        forall|i: int, j: int|
            0 <= i < j < self@.len() ==> self@[i].tx_id != self@[j].tx_id
    }

    /// Whether some held transaction has the given 16-bit id.
    pub open spec fn spec_contains_id(self, id: u16) -> bool {
        exists|i: int| 0 <= i < self@.len() && self@[i].tx_id.0 == id
    }

    /// An empty set of transactions.
    pub fn new() -> (r: Transactions)
        ensures
            r@.len() == 0,
            r.wf(),
    {
        Transactions { txs: Vec::new() }
    }

    /// The number of outstanding transactions.
    pub fn len(&self) -> (r: usize)
        ensures
            r == self@.len(),
    {
        self.txs.len()
    }

    /// Whether a transaction with this id is held.
    pub fn contains(&self, tx_id: &Id) -> (r: bool)
        ensures
            r == self.spec_contains_id(tx_id.0),
    {
        let mut i: usize = 0;
        while i < self.txs.len()
            invariant
                i <= self@.len(),
                forall|j: int| 0 <= j < i ==> self@[j].tx_id.0 != tx_id.0,
            decreases self@.len() - i,
        {
            if self.txs[i].tx_id.0 == tx_id.0 {
                return true;
            }
            i += 1;
        }
        false
    }

    /// Adds a transaction. The insertion is accepted exactly when no held
    /// transaction shares its id and the table is not full.
    pub fn insert(&mut self, tx: Transaction) -> (r: bool)
        requires
            old(self).wf(),
        ensures
            final(self).wf(),
            r == (!old(self).spec_contains_id(tx.tx_id.0) && old(self)@.len() < 0x10000),
            r ==> final(self)@ == old(self)@.push(tx),
            !r ==> final(self)@ == old(self)@,
    {
        if self.txs.len() >= 0x10000 || self.contains(&tx.tx_id) {
            return false;
        }
        self.txs.push(tx);
        true
    }

    /// A free transaction id: the probe starts at `start` and walks upward
    /// with wraparound until an unused id is found. Fails only when all
    /// 65,536 ids are in use.
    pub fn next_tx_id(&self, start: u16) -> (r: Option<Id>)
        ensures
            r matches Some(id) ==> !self.spec_contains_id(id.0),
            self@.len() < 0x10000 ==> r is Some,
    {
        if self.txs.len() >= 0x10000 {
            return None;
        }
        let mut i: usize = 0;
        while i < 0x10000
            invariant
                i <= 0x10000,
                forall|j: int|
                    0 <= j < i ==> self.spec_contains_id(#[trigger] (((start + j) % 0x10000) as u16)),
            decreases 0x10000 - i,
        {
            let cand: u16 = start.wrapping_add(i as u16);
            if !self.contains(&Id(cand)) {
                return Some(Id(cand));
            }
            i += 1;
        }
        proof {
            self.lemma_all_ids_held_means_full(start);
        }
        None
    }

    /// If every 16-bit value reached by the wrapping probe is held, the
    /// table holds at least 65,536 transactions.
    proof fn lemma_all_ids_held_means_full(&self, start: u16)
        requires
            forall|j: int|
                0 <= j < 0x10000 ==> self.spec_contains_id(#[trigger] (((start + j) % 0x10000) as u16)),
        ensures
            self@.len() >= 0x10000,
    {
        broadcast use vstd::seq_lib::seq_to_set_is_finite;

        let ids: Seq<int> = self@.map(|i: int, t: Transaction| t.tx_id.0 as int);
        let full = vstd::set_lib::set_int_range(0, 0x10000);
        assert forall|n: int| full.contains(n) implies ids.to_set().contains(n) by {
            // n = (start + j) % 0x10000 for j = (n - start) mod 0x10000
            let j = if n >= start { n - start } else { n + 0x10000 - start };
            assert(0 <= j < 0x10000);
            assert(((start + j) % 0x10000) as u16 == n as u16);
            assert(self.spec_contains_id(((start + j) % 0x10000) as u16));
            let k = choose|k: int|
                0 <= k < self@.len() && self@[k].tx_id.0 == ((start + j) % 0x10000) as u16;
            assert(ids[k] == n);
            assert(ids.to_set().contains(ids[k]));
        }
        assert(full.subset_of(ids.to_set()));
        lemma_int_range(0, 0x10000);
        vstd::set_lib::lemma_len_subset(full, ids.to_set());
        ids.lemma_cardinality_of_set();
    }

    /// The index of the held transaction with the given id.
    pub open spec fn index_of_tx(self, id: u16) -> int {
        choose|i: int| 0 <= i < self@.len() && self@[i].tx_id.0 == id
    }

    /// Removing any entry keeps the remaining ids unique.
    proof fn lemma_wf_remove(pre: Seq<Transaction>, i: int)
        requires
            0 <= i < pre.len(),
            forall|x: int, y: int| 0 <= x < y < pre.len() ==> pre[x].tx_id != pre[y].tx_id,
        ensures
            forall|x: int, y: int|
                0 <= x < y < pre.remove(i).len() ==> pre.remove(i)[x].tx_id != pre.remove(i)[y].tx_id,
    {
        let post = pre.remove(i);
        assert forall|x: int, y: int|
            0 <= x < y < post.len() implies post[x].tx_id != post[y].tx_id by {
            assert(post[x] == if x < i { pre[x] } else { pre[x + 1] });
            assert(post[y] == if y < i { pre[y] } else { pre[y + 1] });
        }
    }

    /// Finds the index of the transaction with the given id, if held.
    fn find_index(&self, id: u16) -> (r: Option<usize>)
        ensures
            r matches Some(i) ==> i < self@.len() && self@[i as int].tx_id.0 == id,
            r is None ==> !self.spec_contains_id(id),
    {
        let mut i: usize = 0;
        while i < self.txs.len()
            invariant
                i <= self@.len(),
                forall|j: int| 0 <= j < i ==> self@[j].tx_id.0 != id,
            decreases self@.len() - i,
        {
            if self.txs[i].tx_id.0 == id {
                return Some(i);
            }
            i += 1;
        }
        None
    }

    /// Reconciles a received response against the held set.
    ///
    /// `t` is the raw wire transaction-id field and `queried_node_id` the
    /// `r.id` of the response. The matching transaction is removed whenever
    /// one exists; it is returned only if it also passes the identity
    /// checks, so a response failing the strict check still consumes its
    /// transaction.
    pub fn on_recv_resp(
        &mut self,
        t: &[u8],
        queried_node_id: Option<crate::id::Id>,
        strict: bool,
        local_id: crate::id::Id,
    ) -> (r: Option<Transaction>)
        requires
            old(self).wf(),
        ensures
            final(self).wf(),
            !(t@.len() == 2 && old(self).spec_contains_id(tx_id_of_bytes(t@))) ==> r is None
                && final(self)@ == old(self)@,
            (t@.len() == 2 && old(self).spec_contains_id(tx_id_of_bytes(t@))) ==> {
                let i = old(self).index_of_tx(tx_id_of_bytes(t@));
                final(self)@ == old(self)@.remove(i) && r == (if resp_accepted(
                    old(self)@[i],
                    queried_node_id,
                    strict,
                    local_id,
                ) {
                    Some(old(self)@[i])
                } else {
                    None::<Transaction>
                })
            },
    {
        if t.len() != 2 {
            return None;
        }
        let id16: u16 = (t[0] as u16) * 0x100 + (t[1] as u16);
        match self.find_index(id16) {
            None => None,
            Some(i) => {
                proof {
                    Self::lemma_wf_remove(self@, i as int);
                    assert(self@[self.index_of_tx(id16)].tx_id == self@[i as int].tx_id);
                    assert(self.index_of_tx(id16) == i as int) by {
                        let j = self.index_of_tx(id16);
                        if j != i as int {
                            assert(self@[j].tx_id != self@[i as int].tx_id);
                        }
                    }
                }
                let tx = self.txs.remove(i);
                let accepted = match (strict, tx.addr_opt_id.id) {
                    (true, Some(expected)) => {
                        match queried_node_id {
                            Some(qid) => qid == expected && !(qid == local_id),
                            None => false,
                        }
                    },
                    _ => {
                        match queried_node_id {
                            Some(qid) => !(qid == local_id),
                            None => true,
                        }
                    },
                };
                if accepted {
                    Some(tx)
                } else {
                    None
                }
            },
        }
    }

    /// Reconciles a received error message: the matching transaction, if
    /// any, is removed and returned.
    pub fn on_recv_error(&mut self, t: &[u8]) -> (r: Option<Transaction>)
        requires
            old(self).wf(),
        ensures
            final(self).wf(),
            !(t@.len() == 2 && old(self).spec_contains_id(tx_id_of_bytes(t@))) ==> r is None
                && final(self)@ == old(self)@,
            (t@.len() == 2 && old(self).spec_contains_id(tx_id_of_bytes(t@))) ==> {
                let i = old(self).index_of_tx(tx_id_of_bytes(t@));
                final(self)@ == old(self)@.remove(i) && r == Some(old(self)@[i])
            },
    {
        if t.len() != 2 {
            return None;
        }
        let id16: u16 = (t[0] as u16) * 0x100 + (t[1] as u16);
        match self.find_index(id16) {
            None => None,
            Some(i) => {
                proof {
                    Self::lemma_wf_remove(self@, i as int);
                    assert(self.index_of_tx(id16) == i as int) by {
                        let j = self.index_of_tx(id16);
                        assert(self@[j].tx_id.0 == id16);
                        if j != i as int {
                            assert(self@[j].tx_id != self@[i as int].tx_id);
                        }
                    }
                }
                Some(self.txs.remove(i))
            },
        }
    }

    /// Removes and returns a transaction whose deadline has passed, if any.
    pub fn pop_timed_out_tx(&mut self, now: Instant) -> (r: Option<Transaction>)
        requires
            old(self).wf(),
        ensures
            final(self).wf(),
            r is None ==> final(self)@ == old(self)@ && forall|i: int|
                0 <= i < old(self)@.len() ==> old(self)@[i].deadline > now,
            r matches Some(tx) ==> tx.deadline <= now && exists|i: int|
                0 <= i < old(self)@.len() && old(self)@[i] == tx && final(self)@ == old(self)@.remove(
                    i,
                ),
    {
        let mut i: usize = 0;
        while i < self.txs.len()
            invariant
                self@ == old(self)@,
                old(self).wf(),
                i <= self@.len(),
                forall|j: int| 0 <= j < i ==> self@[j].deadline > now,
            decreases self@.len() - i,
        {
            if self.txs[i].deadline <= now {
                proof {
                    Self::lemma_wf_remove(self@, i as int);
                }
                return Some(self.txs.remove(i));
            }
            i += 1;
        }
        None
    }

    /// The earliest deadline across the held set, if any transaction is
    /// outstanding.
    pub fn timeout(&self) -> (r: Option<Instant>)
        ensures
            r is None <==> self@.len() == 0,
            r matches Some(m) ==> m == min_deadline(self@) && (exists|i: int|
                0 <= i < self@.len() && self@[i].deadline == m) && forall|i: int|
                0 <= i < self@.len() ==> self@[i].deadline >= m,
    {
        let mut best: Instant = u64::MAX;
        let mut i: usize = 0;
        while i < self.txs.len()
            invariant
                i <= self@.len(),
                best == min_deadline(self@.subrange(0, i as int)),
                forall|j: int| 0 <= j < i ==> self@[j].deadline >= best,
                best < u64::MAX ==> exists|j: int| 0 <= j < i && self@[j].deadline == best,
            decreases self@.len() - i,
        {
            proof {
                assert(self@.subrange(0, i + 1).drop_last() =~= self@.subrange(0, i as int));
            }
            if self.txs[i].deadline < best {
                best = self.txs[i].deadline;
            }
            i += 1;
        }
        proof {
            assert(self@.subrange(0, self@.len() as int) =~= self@);
        }
        if self.txs.len() == 0 {
            None
        } else {
            proof {
                assert(self@[0].deadline < u64::MAX || self@[0].deadline == u64::MAX);
                if best == u64::MAX {
                    assert(self@[0].deadline >= best);
                    assert(self@[0].deadline == best);
                }
            }
            Some(best)
        }
    }
}

/// The earliest deadline in the sequence, or the largest instant when the
/// sequence is empty.
pub open spec fn min_deadline(s: Seq<Transaction>) -> Instant
    decreases s.len(),
{
    if s.len() == 0 {
        u64::MAX
    } else {
        let rest = min_deadline(s.drop_last());
        if s.last().deadline < rest {
            s.last().deadline
        } else {
            rest
        }
    }
}

/// Law: in a well-formed transaction set, no two held transactions share
/// a 16-bit id.
pub proof fn lemma_tx_ids_unique(txs: Transactions)
    requires
        txs.wf(),
    ensures
        forall|i: int, j: int|
            0 <= i < j < txs@.len() ==> txs@[i].tx_id.0 != txs@[j].tx_id.0,
{
    assert forall|i: int, j: int|
        0 <= i < j < txs@.len() implies txs@[i].tx_id.0 != txs@[j].tx_id.0 by {
        assert(txs@[i].tx_id != txs@[j].tx_id);
    }
}

/// The 16-bit id held in a two-byte wire transaction-id field.
pub open spec fn tx_id_of_bytes(t: Seq<u8>) -> u16 {
    (t[0] * 0x100 + t[1]) as u16
}

/// Whether a reconciled response passes the identity checks: under the
/// strict setting the responder must be the id the query was addressed to,
/// and a response claiming the local id itself is never accepted.
pub open spec fn resp_accepted(
    tx: Transaction,
    queried_node_id: Option<crate::id::Id>,
    strict: bool,
    local_id: crate::id::Id,
) -> bool {
    &&& (strict && tx.addr_opt_id.id is Some) ==> queried_node_id == Some(
        tx.addr_opt_id.id->0,
    )
    &&& queried_node_id != Some(local_id)
}

} // verus!
