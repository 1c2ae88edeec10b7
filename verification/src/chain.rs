//! The ledger: the pending-transaction pool, the persisted chain of
//! blocks, proof-of-work, and the append rules for locally mined and
//! remotely received blocks.
//!
//! The chain's invariant ties the store to an abstract run of blocks:
//! the height key counts them, each index key holds the block's header
//! hash, each hash key holds the block's encoding, and every block links
//! to its predecessor by hash.

use vstd::prelude::*;
use crate::block::{
    Block, Blockheader, BlockView, HeaderView, with_nonce, header_hash, block_enc,
    block_encodable,
    block_dec_full, block_wf, lemma_block_full_roundtrip, hash_header, encode_block,
    pow_ok,
};
use crate::digest::hash_hex_of;
use crate::endian::{u32_be_bytes, u32_to_be, u32_from_be, lemma_u32_be_roundtrip};
use crate::envelope::{Message, MsgView, msg_wf};
use crate::hex::hex_of;
use crate::merkle::{merkle_of_txs, merkle_root_of_transactions};
use crate::runtime::{new_id, now_millis, ascii_to_string};
use crate::store::KvStore;
use crate::tx::{Transaction, TxView, tx_hash, tx_encodable, hash_transaction};
use crate::util::{bytes_eq, copy_bytes};

verus! {

/// A failed chain lookup: the record is not there, or the store holds
/// something that is not a block record.
#[derive(Debug, Clone, Copy, PartialEq, Eq, Structural)]
pub enum ChainError {
    BlockNotFound,
    StoreError,
}

/// The reserved store key that holds the block count, the bytes of
/// `height`.
pub open spec fn height_key() -> Seq<u8> {
    seq![104u8, 101u8, 105u8, 103u8, 104u8, 116u8]
}

/// The previous-hash field of the genesis block: 64 ASCII zeros.
pub open spec fn zero_hash() -> Seq<u8> {
    Seq::new(64, |i: int| 48u8)
}

/// The sender identity of every miner reward, the bytes of `Root`.
pub open spec fn root_sender() -> Seq<u8> {
    seq![82u8, 111u8, 111u8, 116u8]
}

/// How the store represents the block at one index: the index key holds
/// the block's header hash, and the hash key holds the block's encoding.
pub open spec fn rep_at(store: Map<Seq<u8>, Seq<u8>>, blocks: Seq<BlockView>, i: int) -> bool {
    let h = header_hash(blocks[i].header);
    &&& store.contains_key(u32_be_bytes(i as u32))
    &&& store[u32_be_bytes(i as u32)] == h
    &&& store.contains_key(h)
    &&& store[h] == block_enc(blocks[i])
    &&& h.len() == 64
    &&& block_encodable(blocks[i])
    &&& block_wf(blocks[i])
}

/// How a store represents a run of blocks: the height key counts them,
/// and each block stands under its index and its header hash.
pub open spec fn chain_rep(store: Map<Seq<u8>, Seq<u8>>, blocks: Seq<BlockView>) -> bool {
    &&& blocks.len() <= u32::MAX
    &&& if blocks.len() == 0 {
        !store.contains_key(height_key()) || store[height_key()] == u32_be_bytes(0)
    } else {
        store.contains_key(height_key()) && store[height_key()] == u32_be_bytes(
            blocks.len() as u32,
        )
    }
    &&& forall|i: int| 0 <= i < blocks.len() ==> #[trigger] rep_at(store, blocks, i)
}

/// Whether a run of blocks is hash-linked: the first one extends the
/// zero hash, and each later one carries the hash of its predecessor's
/// header.
pub open spec fn chain_linked(blocks: Seq<BlockView>) -> bool {
    &&& blocks.len() > 0 ==> blocks[0].header.pre_hash == zero_hash()
    &&& forall|i: int|
        1 <= i < blocks.len() ==> (#[trigger] blocks[i]).header.pre_hash == header_hash(
            blocks[i - 1].header,
        )
}

/// Whether a store holds some hash-linked chain: what a restored
/// snapshot is trusted to hold.
pub open spec fn store_holds_chain(store: Map<Seq<u8>, Seq<u8>>) -> bool {
    exists|blocks: Seq<BlockView>| chain_rep(store, blocks) && chain_linked(blocks)
}

/// Whether a pool's transaction ids are pairwise distinct.
pub open spec fn pool_ids_unique(pool: Seq<TxView>) -> bool {
    forall|i: int, j: int|
        0 <= i < j < pool.len() ==> (#[trigger] pool[i]).transaction_id != (
        #[trigger] pool[j]).transaction_id
}

/// The index of the first pool entry with this transaction id, or the
/// pool's length when there is none.
pub open spec fn pool_find(pool: Seq<TxView>, id: Seq<u8>) -> int
    decreases pool.len(),
{
    if pool.len() == 0 {
        0
    } else if pool[0].transaction_id == id {
        0
    } else {
        1 + pool_find(pool.drop_first(), id)
    }
}

/// Inserting keyed by transaction id: replace the entry that holds the
/// id, or append.
pub open spec fn pool_insert(pool: Seq<TxView>, t: TxView) -> Seq<TxView> {
    if pool_find(pool, t.transaction_id) < pool.len() {
        pool.update(pool_find(pool, t.transaction_id), t)
    } else {
        pool.push(t)
    }
}

/// Whether any of these transactions carries the id.
pub open spec fn has_tx_id(ts: Seq<TxView>, id: Seq<u8>) -> bool {
    exists|k: int| 0 <= k < ts.len() && (#[trigger] ts[k]).transaction_id == id
}

/// The pool after a block is applied: every transaction whose id the
/// block carries is dropped.
pub open spec fn pool_after_block(pool: Seq<TxView>, ts: Seq<TxView>) -> Seq<TxView>
    decreases pool.len(),
{
    if pool.len() == 0 {
        Seq::empty()
    } else {
        let rest = pool_after_block(pool.drop_last(), ts);
        if has_tx_id(ts, pool.last().transaction_id) {
            rest
        } else {
            rest.push(pool.last())
        }
    }
}

/// The ledger.
pub struct Chain {
    store: KvStore,
    height: u32,
    curr_trans: Vec<Transaction>,
    difficulty: u32,
    miner_addr: Vec<u8>,
    reward: u64,
    node_id: Vec<u8>,
    outbox: Vec<Message>,
    blocks: Ghost<Seq<BlockView>>,
}

impl Chain {
    /// The abstract run of blocks the store holds.
    pub closed spec fn blocks(&self) -> Seq<BlockView> {
        self.blocks@
    }

    /// The chain height: the number of persisted blocks.
    pub closed spec fn spec_height(&self) -> u32 {
        self.height
    }

    /// The pending pool, in insertion order.
    pub closed spec fn pool(&self) -> Seq<TxView> {
        Seq::new(self.curr_trans@.len(), |k: int| self.curr_trans@[k]@)
    }

    /// The envelopes queued for broadcast, oldest first.
    pub closed spec fn outgoing(&self) -> Seq<MsgView> {
        Seq::new(self.outbox@.len(), |k: int| self.outbox@[k]@)
    }

    /// The persisted records.
    pub closed spec fn store_map(&self) -> Map<Seq<u8>, Seq<u8>> {
        self.store@
    }

    /// The proof-of-work difficulty in force.
    pub closed spec fn spec_difficulty(&self) -> u32 {
        self.difficulty
    }

    /// The miner address rewards are paid to.
    pub closed spec fn spec_miner_addr(&self) -> Seq<u8> {
        self.miner_addr@
    }

    /// The reward amount.
    pub closed spec fn spec_reward(&self) -> u64 {
        self.reward
    }

    /// This node's id, stamped on outgoing envelopes.
    pub closed spec fn spec_node_id(&self) -> Seq<u8> {
        self.node_id@
    }

    /// The hash the next block must extend: the tip's header hash, or
    /// the zero hash at height 0.
    pub open spec fn tip_hash(&self) -> Seq<u8> {
        if self.blocks().len() == 0 {
            zero_hash()
        } else {
            header_hash(self.blocks().last().header)
        }
    }

    /// The ledger's invariant.
    pub closed spec fn wf(&self) -> bool {
        &&& self.store.wf()
        &&& chain_rep(self.store@, self.blocks@)
        &&& chain_linked(self.blocks@)
        &&& self.height == self.blocks@.len()
        &&& 1 <= self.difficulty <= 64
        &&& pool_ids_unique(self.pool())
    }

    /// Opens a ledger over a store that holds a chain: a fresh store, or
    /// one restored from a snapshot. The height is re-derived from the
    /// store's height key.
    pub fn new(miner_addr: Vec<u8>, difficulty: u32, node_id: Vec<u8>, store: KvStore) -> (c:
        Chain)
        requires
            store.wf(),
            store_holds_chain(store@),
            1 <= difficulty <= 64,
        ensures
            c.wf(),
            c.store_map() == store@,
            chain_rep(store@, c.blocks()),
            c.spec_height() == c.blocks().len(),
            c.pool() =~= Seq::<TxView>::empty(),
            c.outgoing() =~= Seq::<MsgView>::empty(),
            c.spec_difficulty() == difficulty,
            c.spec_miner_addr() == miner_addr@,
            c.spec_reward() == 100,
            c.spec_node_id() == node_id@,
    {
        let ghost bs = choose|blocks: Seq<BlockView>|
            chain_rep(store@, blocks) && chain_linked(blocks);
        let hk = height_key_bytes();
        let height: u32 = match store.get(hk.as_slice()) {
            Some(v) => {
                if v.len() == 4 {
                    u32_from_be(v.as_slice())
                } else {
                    0
                }
            },
            None => 0,
        };
        proof {
            lemma_u32_be_roundtrip(bs.len() as u32);
            lemma_u32_be_roundtrip(0);
            assert(height == bs.len());
        }
        Chain {
            store,
            height,
            curr_trans: Vec::new(),
            difficulty,
            miner_addr,
            reward: 100,
            node_id,
            outbox: Vec::new(),
            blocks: Ghost(bs),
        }
    }

    /// Reads the height from the store: the number of persisted blocks.
    pub fn get_height(&self) -> (r: u32)
        requires
            self.wf(),
        ensures
            r == self.spec_height(),
            r == self.blocks().len(),
    {
        let hk = height_key_bytes();
        let r: u32 = match self.store.get(hk.as_slice()) {
            Some(v) => {
                if v.len() == 4 {
                    u32_from_be(v.as_slice())
                } else {
                    0
                }
            },
            None => 0,
        };
        proof {
            lemma_u32_be_roundtrip(self.blocks@.len() as u32);
            lemma_u32_be_roundtrip(0);
        }
        r
    }

    /// The hash the next block must extend: 64 ASCII zeros at height 0,
    /// and the tip's header hash otherwise.
    pub fn last_hash(&self) -> (r: Result<Vec<u8>, ChainError>)
        requires
            self.wf(),
        ensures
            r matches Ok(h) && h@ == self.tip_hash(),
    {
        if self.height == 0 {
            let mut z: Vec<u8> = Vec::new();
            let mut i: usize = 0;
            while i < 64
                invariant
                    i <= 64,
                    z@.len() == i,
                    forall|j: int| 0 <= j < i ==> z@[j] == 48u8,
                decreases 64 - i,
            {
                z.push(48);
                i = i + 1;
            }
            proof {
                assert(z@ =~= zero_hash());
            }
            Ok(z)
        } else {
            let h = self.get_hash_by_index(self.height - 1)?;
            Ok(h)
        }
    }

    /// Reads the header hash persisted for a block index. Indices at or
    /// beyond the height are not found.
    pub fn get_hash_by_index(&self, index: u32) -> (r: Result<Vec<u8>, ChainError>)
        requires
            self.wf(),
        ensures
            index < self.spec_height() ==> (r matches Ok(h) && h@ == header_hash(
                self.blocks()[index as int].header,
            )),
            index >= self.spec_height() ==> (r matches Err(e) && e
                == ChainError::BlockNotFound),
    {
        if index >= self.height {
            return Err(ChainError::BlockNotFound);
        }
        let key = u32_to_be(index);
        proof {
            assert(rep_at(self.store@, self.blocks@, index as int));
        }
        match self.store.get(key.as_slice()) {
            Some(v) => Ok(v),
            None => unreached(),
        }
    }

    /// Reads the block persisted under a header hash: not found when the
    /// store has no such key, and a store error when the record there is
    /// not a block.
    pub fn get_block_by_hash(&self, hash: &[u8]) -> (r: Result<Block, ChainError>)
        requires
            self.wf(),
        ensures
            match r {
                Ok(b) => self.store_map().contains_key(hash@) && block_dec_full(
                    self.store_map()[hash@],
                ) == Some(b@),
                Err(e) => if e == ChainError::BlockNotFound {
                    !self.store_map().contains_key(hash@)
                } else {
                    self.store_map().contains_key(hash@) && block_dec_full(
                        self.store_map()[hash@],
                    ) is None
                },
            },
    {
        match self.store.get(hash) {
            Some(v) => match crate::block::parse_block_full(v.as_slice()) {
                Some(b) => Ok(b),
                None => Err(ChainError::StoreError),
            },
            None => Err(ChainError::BlockNotFound),
        }
    }

    /// Reads the block persisted at an index: the hash key, then the
    /// block record, which decodes back to exactly the appended block.
    pub fn get_block_by_index(&self, index: u32) -> (r: Result<Block, ChainError>)
        requires
            self.wf(),
        ensures
            index < self.spec_height() ==> (r matches Ok(b) && b@
                == self.blocks()[index as int]),
            index >= self.spec_height() ==> (r matches Err(e) && e
                == ChainError::BlockNotFound),
    {
        let h = self.get_hash_by_index(index)?;
        proof {
            if index < self.height {
                assert(rep_at(self.store@, self.blocks@, index as int));
                lemma_block_full_roundtrip(self.blocks@[index as int]);
            }
        }
        match self.get_block_by_hash(h.as_slice()) {
            Ok(b) => Ok(b),
            Err(_) => Err(ChainError::BlockNotFound),
        }
    }

    /// Reads the whole chain back from the store, genesis first.
    pub fn reveal_chain(&self) -> (r: Vec<Block>)
        requires
            self.wf(),
        ensures
            r@.len() == self.blocks().len(),
            forall|i: int| 0 <= i < r@.len() ==> (#[trigger] r@[i])@ == self.blocks()[i],
    {
        let mut out: Vec<Block> = Vec::new();
        let mut i: u32 = 0;
        while i < self.height
            invariant
                self.wf(),
                i <= self.height,
                out@.len() == i,
                forall|j: int| 0 <= j < i ==> (#[trigger] out@[j])@ == self.blocks()[j],
            decreases self.height - i,
        {
            let b = match self.get_block_by_index(i) {
                Ok(b) => b,
                Err(_) => unreached(),
            };
            out.push(b);
            i = i + 1;
        }
        out
    }

    /// A point-in-time copy of the persisted store: what the backup
    /// step packages before a peer downloads a snapshot.
    pub fn copy_db_backup(&self) -> (backup: KvStore)
        requires
            self.wf(),
        ensures
            backup.wf(),
            backup@ == self.store_map(),
            chain_rep(backup@, self.blocks()),
            chain_linked(self.blocks()),
            store_holds_chain(backup@),
    {
        let b = self.store.snapshot();
        proof {
            assert(chain_rep(b@, self.blocks@) && chain_linked(self.blocks@));
        }
        b
    }
}

/// When the entries before `k` miss the id and entry `k` holds it, `k`
/// is where the pool keeps that id.
proof fn lemma_pool_find_hit(pool: Seq<TxView>, id: Seq<u8>, k: int)
    requires
        0 <= k < pool.len(),
        pool[k].transaction_id == id,
        forall|j: int| 0 <= j < k ==> (#[trigger] pool[j]).transaction_id != id,
    ensures
        pool_find(pool, id) == k,
    decreases pool.len(),
{
    if k > 0 {
        assert(pool[0].transaction_id != id);
        assert(pool.drop_first()[k - 1].transaction_id == id);
        assert forall|j: int| 0 <= j < k - 1 implies (#[trigger] pool.drop_first()[j]).transaction_id
            != id by {
            assert(pool[j + 1].transaction_id != id);
        }
        lemma_pool_find_hit(pool.drop_first(), id, k - 1);
    }
}

/// When no entry holds the id, the find lands at the pool's length.
proof fn lemma_pool_find_miss(pool: Seq<TxView>, id: Seq<u8>)
    requires
        forall|j: int| 0 <= j < pool.len() ==> (#[trigger] pool[j]).transaction_id != id,
    ensures
        pool_find(pool, id) == pool.len(),
    decreases pool.len(),
{
    if pool.len() > 0 {
        lemma_pool_find_miss(pool.drop_first(), id);
    }
}

impl Chain {
    /// Puts a transaction into the pending pool, keyed by its id: a
    /// transaction already pending under the same id is replaced.
    #[verifier::loop_isolation(false)]
    pub fn add_transaction(&mut self, transaction: Transaction)
        requires
            old(self).wf(),
        ensures
            final(self).wf(),
            final(self).pool() == pool_insert(old(self).pool(), transaction@),
            final(self).blocks() == old(self).blocks(),
            final(self).store_map() == old(self).store_map(),
            final(self).outgoing() == old(self).outgoing(),
            final(self).spec_height() == old(self).spec_height(),
            final(self).spec_difficulty() == old(self).spec_difficulty(),
            final(self).spec_miner_addr() == old(self).spec_miner_addr(),
            final(self).spec_reward() == old(self).spec_reward(),
            final(self).spec_node_id() == old(self).spec_node_id(),
    {
        let mut i: usize = 0;
        while i < self.curr_trans.len()
            invariant
                self == old(self),
                i <= self.curr_trans@.len(),
                forall|j: int|
                    0 <= j < i ==> (#[trigger] self.pool()[j]).transaction_id
                        != transaction@.transaction_id,
            decreases self.curr_trans@.len() - i,
        {
            if bytes_eq(
                self.curr_trans[i].transaction_id.as_slice(),
                transaction.transaction_id.as_slice(),
            ) {
                proof {
                    lemma_pool_find_hit(
                        self.pool(),
                        transaction@.transaction_id,
                        i as int,
                    );
                }
                let ghost oldpool = self.pool();
                self.curr_trans.set(i, transaction);
                proof {
                    assert(self.pool() =~= oldpool.update(i as int, transaction@));
                    let idx = i as int;
                    assert forall|a: int, b: int|
                        0 <= a < b < self.pool().len() implies (
                    #[trigger] self.pool()[a]).transaction_id != (
                    #[trigger] self.pool()[b]).transaction_id by {
                        if a == idx {
                            assert(oldpool[b].transaction_id != oldpool[idx].transaction_id);
                        } else if b == idx {
                            assert(oldpool[a].transaction_id != transaction@.transaction_id);
                        } else {
                            assert(oldpool[a].transaction_id != oldpool[b].transaction_id);
                        }
                    }
                }
                return ;
            }
            i = i + 1;
        }
        proof {
            lemma_pool_find_miss(self.pool(), transaction@.transaction_id);
        }
        let ghost oldpool = self.pool();
        self.curr_trans.push(transaction);
        proof {
            assert(self.pool() =~= oldpool.push(transaction@));
            assert(pool_ids_unique(self.pool()));
        }
    }

    /// Creates a transaction: allocates a fresh id, puts it in the
    /// pending pool, and queues a transaction envelope for broadcast.
    /// Always succeeds.
    pub fn new_transaction(&mut self, sender: Vec<u8>, receiver: Vec<u8>, amount: u64) -> (r:
        bool)
        requires
            old(self).wf(),
        ensures
            r == true,
            final(self).wf(),
            final(self).outgoing().len() == old(self).outgoing().len() + 1,
            final(self).outgoing() == old(self).outgoing().push(final(self).outgoing().last()),
            ({
                let m = final(self).outgoing().last();
                &&& msg_wf(m)
                &&& m.uuid == old(self).spec_node_id()
                &&& m.block is None
                &&& (m.transaction matches Some(t) ==> {
                    &&& t.sender == sender@
                    &&& t.receiver == receiver@
                    &&& t.amount == amount
                    &&& t.transaction_id.len() == 36
                    &&& m.message_hash == tx_hash(t)
                    &&& final(self).pool() == pool_insert(old(self).pool(), t)
                })
            }),
            final(self).blocks() == old(self).blocks(),
            final(self).store_map() == old(self).store_map(),
            final(self).spec_height() == old(self).spec_height(),
            final(self).spec_difficulty() == old(self).spec_difficulty(),
            final(self).spec_miner_addr() == old(self).spec_miner_addr(),
            final(self).spec_reward() == old(self).spec_reward(),
            final(self).spec_node_id() == old(self).spec_node_id(),
    {
        let id = new_id();
        let tx = Transaction { sender, receiver, amount, transaction_id: id };
        let hash = hash_transaction(&tx);
        let wire_tx = tx.duplicate();
        self.add_transaction(tx);
        let nid = copy_bytes(self.node_id.as_slice());
        let ghost out0 = self.outgoing();
        self.outbox.push(
            Message { uuid: nid, block: None, transaction: Some(wire_tx), message_hash: hash },
        );
        proof {
            assert(self.outgoing() =~= out0.push(self.outgoing().last()));
        }
        true
    }

    /// How many transactions are pending.
    pub fn pending_count(&self) -> (r: usize)
        ensures
            r == self.pool().len(),
    {
        self.curr_trans.len()
    }

    /// Whether a transaction with this id is pending.
    pub fn has_pending(&self, id: &[u8]) -> (r: bool)
        ensures
            r == has_tx_id(self.pool(), id@),
    {
        txs_contain_id(&self.curr_trans, id)
    }

    /// Sets the proof-of-work difficulty. A difficulty outside the
    /// range a 64-digit hash can satisfy is rejected with no change.
    pub fn update_difficulty(&mut self, difficulty: u32) -> (r: bool)
        requires
            old(self).wf(),
        ensures
            final(self).wf(),
            r == (1 <= difficulty <= 64),
            r ==> final(self).spec_difficulty() == difficulty,
            !r ==> *final(self) == *old(self),
            final(self).blocks() == old(self).blocks(),
            final(self).store_map() == old(self).store_map(),
            final(self).pool() == old(self).pool(),
            final(self).outgoing() == old(self).outgoing(),
            final(self).spec_height() == old(self).spec_height(),
            final(self).spec_miner_addr() == old(self).spec_miner_addr(),
            final(self).spec_reward() == old(self).spec_reward(),
            final(self).spec_node_id() == old(self).spec_node_id(),
    {
        if 1 <= difficulty && difficulty <= 64 {
            self.difficulty = difficulty;
            true
        } else {
            false
        }
    }

    /// Sets the miner reward amount. Always succeeds.
    pub fn update_reward(&mut self, reward: u64) -> (r: bool)
        requires
            old(self).wf(),
        ensures
            final(self).wf(),
            r == true,
            final(self).spec_reward() == reward,
            final(self).blocks() == old(self).blocks(),
            final(self).store_map() == old(self).store_map(),
            final(self).pool() == old(self).pool(),
            final(self).outgoing() == old(self).outgoing(),
            final(self).spec_height() == old(self).spec_height(),
            final(self).spec_difficulty() == old(self).spec_difficulty(),
            final(self).spec_miner_addr() == old(self).spec_miner_addr(),
            final(self).spec_node_id() == old(self).spec_node_id(),
    {
        self.reward = reward;
        true
    }

    /// Sets the address rewards are paid to. Always succeeds.
    pub fn update_miner_address(&mut self, miner_address: Vec<u8>)
        requires
            old(self).wf(),
        ensures
            final(self).wf(),
            final(self).spec_miner_addr() == miner_address@,
            final(self).blocks() == old(self).blocks(),
            final(self).store_map() == old(self).store_map(),
            final(self).pool() == old(self).pool(),
            final(self).outgoing() == old(self).outgoing(),
            final(self).spec_height() == old(self).spec_height(),
            final(self).spec_difficulty() == old(self).spec_difficulty(),
            final(self).spec_reward() == old(self).spec_reward(),
            final(self).spec_node_id() == old(self).spec_node_id(),
    {
        self.miner_addr = miner_address;
    }

    /// Takes every envelope queued for broadcast, oldest first. The
    /// embedding writes them to the node's peers.
    pub fn drain_outgoing(&mut self) -> (r: Vec<Message>)
        requires
            old(self).wf(),
        ensures
            final(self).wf(),
            final(self).outgoing().len() == 0,
            Seq::new(r@.len(), |k: int| r@[k]@) == old(self).outgoing(),
            final(self).blocks() == old(self).blocks(),
            final(self).store_map() == old(self).store_map(),
            final(self).pool() == old(self).pool(),
            final(self).spec_height() == old(self).spec_height(),
            final(self).spec_difficulty() == old(self).spec_difficulty(),
            final(self).spec_miner_addr() == old(self).spec_miner_addr(),
            final(self).spec_reward() == old(self).spec_reward(),
            final(self).spec_node_id() == old(self).spec_node_id(),
    {
        let mut out: Vec<Message> = Vec::new();
        core::mem::swap(&mut self.outbox, &mut out);
        proof {
            assert(Seq::new(out@.len(), |k: int| out@[k]@) =~= old(self).outgoing());
            assert(self.pool() =~= old(self).pool());
        }
        out
    }

    /// Hashes a canonical byte encoding: the 256-bit digest rendered as
    /// 64 lowercase hexadecimal digits.
    pub fn hash(data: &[u8]) -> (r: Vec<u8>)
        ensures
            r@ == hash_hex_of(data@),
            r@.len() == 64,
    {
        crate::digest::hash_bytes(data)
    }

    /// Renders bytes as a lowercase hexadecimal string.
    pub fn hex_to_string(vec_res: &[u8]) -> (r: String)
        ensures
            r@ == hex_of(vec_res@).map_values(|b: u8| b as char),
    {
        let h = crate::hex::hex_encode(vec_res);
        proof {
            assert forall|i: int| 0 <= i < h@.len() implies h@[i] < 128 by {
                let b = vec_res@[i / 2];
                assert((b >> 4) < 16 && (b & 0xf) < 16) by (bit_vector);
            }
        }
        ascii_to_string(h)
    }

    /// Searches for a nonce whose header hash meets the proof-of-work
    /// condition, incrementing by one on each failure: the found nonce
    /// is the least satisfying one at or above the starting nonce, and
    /// the search fails only when the whole remaining nonce space fails.
    pub fn proof_of_work(header: &mut Blockheader) -> (ok: bool)
        requires
            1 <= old(header).difficulty <= 64,
        ensures
            final(header).timestamp == old(header).timestamp,
            final(header).pre_hash@ == old(header).pre_hash@,
            final(header).merkle@ == old(header).merkle@,
            final(header).difficulty == old(header).difficulty,
            old(header).nonce <= final(header).nonce,
            ok ==> pow_ok(final(header)@),
            ok ==> forall|n: u32|
                old(header).nonce <= n < final(header).nonce ==> !pow_ok(
                    #[trigger] with_nonce(old(header)@, n),
                ),
            !ok ==> forall|n: u32|
                old(header).nonce <= n ==> !pow_ok(#[trigger] with_nonce(old(header)@, n)),
    {
        loop
            invariant
                1 <= header.difficulty <= 64,
                header.timestamp == old(header).timestamp,
                header.pre_hash@ == old(header).pre_hash@,
                header.merkle@ == old(header).merkle@,
                header.difficulty == old(header).difficulty,
                old(header).nonce <= header.nonce,
                forall|n: u32|
                    old(header).nonce <= n < header.nonce ==> !pow_ok(
                        #[trigger] with_nonce(old(header)@, n),
                    ),
            decreases u32::MAX - header.nonce,
        {
            let h = hash_header(header);
            let d = header.difficulty as usize;
            let prefix = &h.as_slice()[0..d];
            proof {
                assert(header@ == with_nonce(old(header)@, header.nonce));
            }
            let hit = match crate::hex::parse_ascii_u32(prefix) {
                Some(v) => v == 0,
                None => false,
            };
            if hit {
                proof {
                    assert(pow_ok(header@));
                }
                return true;
            }
            proof {
                assert(!pow_ok(header@));
            }
            if header.nonce == u32::MAX {
                proof {
                    assert forall|n: u32| old(header).nonce <= n implies !pow_ok(
                        #[trigger] with_nonce(old(header)@, n),
                    ) by {
                        if n >= header.nonce {
                            assert(n == header.nonce);
                        }
                    }
                }
                return false;
            }
            let ghost tried = header.nonce;
            header.nonce = header.nonce + 1;
            proof {
                assert forall|n: u32|
                    old(header).nonce <= n < header.nonce implies !pow_ok(
                    #[trigger] with_nonce(old(header)@, n),
                ) by {
                    if n >= tried {
                        assert(n == tried);
                    }
                }
            }
        }
    }
}

/// Appending a block's three records — the block under its header hash,
/// the hash under the next index, and the bumped height — represents the
/// extended run of blocks.
proof fn lemma_rep_append(store0: Map<Seq<u8>, Seq<u8>>, blocks0: Seq<BlockView>, b: BlockView)
    requires
        chain_rep(store0, blocks0),
        blocks0.len() < u32::MAX,
        block_encodable(b),
        block_wf(b),
        header_hash(b.header).len() == 64,
        !store0.contains_key(header_hash(b.header)),
    ensures
        chain_rep(
            store0.insert(header_hash(b.header), block_enc(b)).insert(
                u32_be_bytes(blocks0.len() as u32),
                header_hash(b.header),
            ).insert(height_key(), u32_be_bytes((blocks0.len() + 1) as u32)),
            blocks0.push(b),
        ),
{
    let h = header_hash(b.header);
    let n = blocks0.len() as u32;
    let store1 = store0.insert(h, block_enc(b)).insert(u32_be_bytes(n as u32), h).insert(
        height_key(),
        u32_be_bytes((n + 1) as u32),
    );
    let blocks1 = blocks0.push(b);
    assert(height_key().len() == 6);
    assert forall|i: int| 0 <= i < blocks1.len() implies #[trigger] rep_at(
        store1,
        blocks1,
        i,
    ) by {
        if i < blocks0.len() {
            assert(rep_at(store0, blocks0, i));
            let hi = header_hash(blocks0[i].header);
            assert(store0.contains_key(hi));
            assert(hi != h);
            assert(u32_be_bytes(i as u32).len() == 4);
            assert(u32_be_bytes(n).len() == 4);
            if u32_be_bytes(i as u32) == u32_be_bytes(n) {
                lemma_u32_be_roundtrip(i as u32);
                lemma_u32_be_roundtrip(n);
            }
            assert(blocks1[i] == blocks0[i]);
        } else {
            assert(blocks1[i] == b);
            assert(u32_be_bytes(n).len() == 4);
        }
    }
    assert(blocks1.len() <= u32::MAX);
    assert(store1.contains_key(height_key()));
    assert(store1[height_key()] == u32_be_bytes(blocks1.len() as u32));
    assert(chain_rep(store1, blocks1));
}

/// The byte rendering of the reward sender identity.
fn root_sender_bytes() -> (r: Vec<u8>)
    ensures
        r@ == root_sender(),
{
    let mut v: Vec<u8> = Vec::new();
    v.push(82);
    v.push(111);
    v.push(111);
    v.push(116);
    proof {
        assert(v@ =~= root_sender());
    }
    v
}

/// Whether any of these transactions carries the id.
fn txs_contain_id(ts: &Vec<Transaction>, id: &[u8]) -> (r: bool)
    ensures
        r == has_tx_id(Seq::new(ts@.len(), |k: int| ts@[k]@), id@),
{
    let ghost vs = Seq::new(ts@.len(), |k: int| ts@[k]@);
    let mut i: usize = 0;
    while i < ts.len()
        invariant
            i <= ts@.len(),
            vs == Seq::new(ts@.len(), |k: int| ts@[k]@),
            forall|j: int| 0 <= j < i ==> (#[trigger] vs[j]).transaction_id != id@,
        decreases ts@.len() - i,
    {
        if bytes_eq(ts[i].transaction_id.as_slice(), id) {
            proof {
                assert(vs[i as int].transaction_id == id@);
            }
            return true;
        }
        i = i + 1;
    }
    false
}

/// A block value's fields always fit their encodings.
proof fn lemma_block_view_encodable(b: &Block)
    requires
        b.count == b@.transactions.len(),
    ensures
        block_encodable(b@),
{
    assert(b.header.pre_hash.len() == b.header.pre_hash@.len());
    assert(b.header.merkle.len() == b.header.merkle@.len());
    assert forall|k: int| 0 <= k < b@.transactions.len() implies tx_encodable(
        #[trigger] b@.transactions[k],
    ) by {
        let t = b.transactions@[k];
        assert(t.sender.len() == t.sender@.len());
        assert(t.receiver.len() == t.receiver@.len());
        assert(t.transaction_id.len() == t.transaction_id@.len());
        assert(b@.transactions[k] == t@);
    }
}

impl Chain {
    /// Persists one sealed block: the block record, its index record,
    /// and the bumped height, in that order, then extends the abstract
    /// chain. The block's header hash must not already be a store key.
    #[verifier::loop_isolation(false)]
    fn persist_block(&mut self, block: &Block, block_hash: &Vec<u8>)
        requires
            old(self).wf(),
            old(self).spec_height() < u32::MAX,
            block@.count == block@.transactions.len(),
            block@.transactions.len() >= 1,
            block_hash@ == header_hash(block@.header),
            block_hash@.len() == 64,
            !old(self).store_map().contains_key(header_hash(block@.header)),
            block@.header.pre_hash == old(self).tip_hash(),
        ensures
            final(self).wf(),
            final(self).blocks() == old(self).blocks().push(block@),
            final(self).spec_height() == old(self).spec_height() + 1,
            final(self).pool() == old(self).pool(),
            final(self).outgoing() == old(self).outgoing(),
            final(self).store_map() == old(self).store_map().insert(
                header_hash(block@.header),
                block_enc(block@),
            ).insert(
                u32_be_bytes(old(self).spec_height()),
                header_hash(block@.header),
            ).insert(height_key(), u32_be_bytes((old(self).spec_height() + 1) as u32)),
            final(self).spec_difficulty() == old(self).spec_difficulty(),
            final(self).spec_miner_addr() == old(self).spec_miner_addr(),
            final(self).spec_reward() == old(self).spec_reward(),
            final(self).spec_node_id() == old(self).spec_node_id(),
    {
        proof {
            lemma_block_view_encodable(block);
        }
        let enc = encode_block(block);
        self.store.put(block_hash.as_slice(), enc);
        let idx_key = u32_to_be(self.height);
        self.store.put(idx_key.as_slice(), copy_bytes(block_hash.as_slice()));
        let hk = height_key_bytes();
        self.store.put(hk.as_slice(), u32_to_be(self.height + 1));
        self.store.flush();
        self.height = self.height + 1;
        proof {
            lemma_rep_append(old(self).store@, old(self).blocks@, block@);
            self.blocks@ = self.blocks@.push(block@);
            assert(chain_linked(self.blocks@));
            assert(self.pool() =~= old(self).pool());
            assert(self.outgoing() =~= old(self).outgoing());
        }
    }

    /// Drops from the pending pool every transaction whose id the block
    /// carries, so a transaction mined remotely is not mined again.
    #[verifier::loop_isolation(false)]
    fn remove_included(&mut self, block: &Block)
        requires
            old(self).wf(),
        ensures
            final(self).wf(),
            final(self).pool() == pool_after_block(old(self).pool(), block@.transactions),
            final(self).blocks() == old(self).blocks(),
            final(self).store_map() == old(self).store_map(),
            final(self).outgoing() == old(self).outgoing(),
            final(self).spec_height() == old(self).spec_height(),
            final(self).spec_difficulty() == old(self).spec_difficulty(),
            final(self).spec_miner_addr() == old(self).spec_miner_addr(),
            final(self).spec_reward() == old(self).spec_reward(),
            final(self).spec_node_id() == old(self).spec_node_id(),
    {
        let mut kept: Vec<Transaction> = Vec::new();
        let ghost pool0 = self.pool();
        let mut i: usize = 0;
        while i < self.curr_trans.len()
            invariant
                i <= self.curr_trans@.len(),
                pool0 == self.pool(),
                Seq::new(kept@.len(), |k: int| kept@[k]@) == pool_after_block(
                    pool0.subrange(0, i as int),
                    block@.transactions,
                ),
            decreases self.curr_trans@.len() - i,
        {
            let ghost kv0 = Seq::new(kept@.len(), |k: int| kept@[k]@);
            if !txs_contain_id(&block.transactions, self.curr_trans[i].transaction_id.as_slice())
                {
                kept.push(self.curr_trans[i].duplicate());
            }
            proof {
                assert(pool0.subrange(0, i + 1).drop_last() =~= pool0.subrange(0, i as int));
                assert(pool0.subrange(0, i + 1).last() == pool0[i as int]);
                assert(Seq::new(block.transactions@.len(), |k: int| block.transactions@[k]@)
                    =~= block@.transactions);
                assert(Seq::new(kept@.len(), |k: int| kept@[k]@) =~= (
                if has_tx_id(block@.transactions, pool0[i as int].transaction_id) {
                    kv0
                } else {
                    kv0.push(pool0[i as int])
                }));
            }
            i = i + 1;
        }
        proof {
            assert(pool0.subrange(0, pool0.len() as int) =~= pool0);
        }
        self.curr_trans = kept;
        proof {
            assert(pool_ids_unique(self.pool())) by {
                lemma_pool_after_block_unique(pool0, block@.transactions);
            }
        }
    }

    /// Applies a block received from a peer: the block must extend the
    /// local tip by hash, or it is rejected with no change. A block
    /// whose header hash is already a store key is likewise rejected:
    /// under a collision-free digest this refuses nothing, and it keeps
    /// every persisted record tied to exactly one block. On success the
    /// block is persisted, the height advances, and every pending
    /// transaction the block carries leaves the pool.
    #[verifier::loop_isolation(false)]
    #[verifier::rlimit(100)]
    pub fn add_block(&mut self, block: Block) -> (r: bool)
        requires
            old(self).wf(),
            old(self).spec_height() < u32::MAX,
            block@.count == block@.transactions.len(),
            block@.transactions.len() >= 1,
        ensures
            final(self).wf(),
            r == (block@.header.pre_hash == old(self).tip_hash() && !old(
                self,
            ).store_map().contains_key(header_hash(block@.header))),
            !r ==> *final(self) == *old(self),
            r ==> final(self).blocks() == old(self).blocks().push(block@),
            r ==> final(self).spec_height() == old(self).spec_height() + 1,
            r ==> final(self).pool() == pool_after_block(
                old(self).pool(),
                block@.transactions,
            ),
            r ==> final(self).store_map() == old(self).store_map().insert(
                header_hash(block@.header),
                block_enc(block@),
            ).insert(
                u32_be_bytes(old(self).spec_height()),
                header_hash(block@.header),
            ).insert(height_key(), u32_be_bytes((old(self).spec_height() + 1) as u32)),
            final(self).outgoing() == old(self).outgoing(),
            final(self).spec_difficulty() == old(self).spec_difficulty(),
            final(self).spec_miner_addr() == old(self).spec_miner_addr(),
            final(self).spec_reward() == old(self).spec_reward(),
            final(self).spec_node_id() == old(self).spec_node_id(),
    {
        let block_hash = hash_header(&block.header);
        let tip = match self.last_hash() {
            Ok(h) => h,
            Err(_) => unreached(),
        };
        if !bytes_eq(block.header.pre_hash.as_slice(), tip.as_slice()) {
            return false;
        }
        match self.store.get(block_hash.as_slice()) {
            Some(_) => {
                return false;
            },
            None => {},
        }
        self.persist_block(&block, &block_hash);
        self.remove_included(&block);
        true
    }

    /// Builds, mines, persists, and queues a new block: the reward
    /// transaction followed by the whole pending pool, the merkle root
    /// over their hashes, a proof-of-work nonce, and a block envelope
    /// for broadcast. Fails with no change when there is nothing to
    /// mine at a nonzero height, or when no nonce satisfies the
    /// difficulty.
    #[verifier::loop_isolation(false)]
    #[verifier::rlimit(100)]
    pub fn generate_new_block(&mut self) -> (r: bool)
        requires
            old(self).wf(),
            old(self).spec_height() < u32::MAX,
            old(self).pool().len() < u32::MAX,
        ensures
            final(self).wf(),
            (old(self).spec_height() > 0 && old(self).pool().len() == 0) ==> r == false,
            !r ==> *final(self) == *old(self),
            r ==> ({
                let b = final(self).blocks().last();
                &&& final(self).blocks() == old(self).blocks().push(b)
                &&& final(self).spec_height() == old(self).spec_height() + 1
                &&& b.header.pre_hash == old(self).tip_hash()
                &&& b.header.difficulty == old(self).spec_difficulty()
                &&& pow_ok(b.header)
                &&& b.header.merkle == merkle_of_txs(b.transactions)
                &&& b.count == b.transactions.len()
                &&& b.transactions.len() == old(self).pool().len() + 1
                &&& b.transactions[0].sender == root_sender()
                &&& b.transactions[0].receiver == old(self).spec_miner_addr()
                &&& b.transactions[0].amount == old(self).spec_reward()
                &&& (forall|k: int|
                    1 <= k < b.transactions.len() ==> #[trigger] b.transactions[k] == old(
                        self,
                    ).pool()[k - 1])
                &&& final(self).pool().len() == 0
                &&& final(self).outgoing() == old(self).outgoing().push(
                    final(self).outgoing().last(),
                )
                &&& ({
                    let m = final(self).outgoing().last();
                    &&& msg_wf(m)
                    &&& m.uuid == old(self).spec_node_id()
                    &&& m.transaction is None
                    &&& m.block == Some(b)
                    &&& m.message_hash == header_hash(b.header)
                })
                &&& final(self).store_map() == old(self).store_map().insert(
                    header_hash(b.header),
                    block_enc(b),
                ).insert(
                    u32_be_bytes(old(self).spec_height()),
                    header_hash(b.header),
                ).insert(height_key(), u32_be_bytes((old(self).spec_height() + 1) as u32))
            }),
            final(self).spec_difficulty() == old(self).spec_difficulty(),
            final(self).spec_miner_addr() == old(self).spec_miner_addr(),
            final(self).spec_reward() == old(self).spec_reward(),
            final(self).spec_node_id() == old(self).spec_node_id(),
    {
        if self.height > 0 && self.curr_trans.len() == 0 {
            return false;
        }
        let ts = now_millis();
        let tip = match self.last_hash() {
            Ok(h) => h,
            Err(_) => unreached(),
        };
        let rid = new_id();
        if txs_contain_id(&self.curr_trans, rid.as_slice()) {
            return false;
        }
        let reward_tx = Transaction {
            sender: root_sender_bytes(),
            receiver: copy_bytes(self.miner_addr.as_slice()),
            amount: self.reward,
            transaction_id: rid,
        };
        let mut txs: Vec<Transaction> = Vec::new();
        let ghost rv = reward_tx@;
        txs.push(reward_tx);
        let mut k: usize = 0;
        while k < self.curr_trans.len()
            invariant
                k <= self.curr_trans@.len(),
                txs@.len() == k + 1,
                txs@[0]@ == rv,
                forall|j: int| 1 <= j < txs@.len() ==> (#[trigger] txs@[j])@ == self.pool()[j - 1],
            decreases self.curr_trans@.len() - k,
        {
            txs.push(self.curr_trans[k].duplicate());
            k = k + 1;
        }
        let merkle = merkle_root_of_transactions(&txs);
        let mut header = Blockheader {
            timestamp: ts,
            nonce: 0,
            pre_hash: tip,
            merkle,
            difficulty: self.difficulty,
        };
        if !Chain::proof_of_work(&mut header) {
            return false;
        }
        let count = txs.len() as u32;
        let block = Block { header, count, transactions: txs };
        let block_hash = hash_header(&block.header);
        match self.store.get(block_hash.as_slice()) {
            Some(_) => {
                return false;
            },
            None => {},
        }
        proof {
            assert(block@.transactions =~= Seq::new(
                block.transactions@.len(),
                |j: int| block.transactions@[j]@,
            ));
        }
        self.persist_block(&block, &block_hash);
        self.curr_trans = Vec::new();
        let wire_block = block.duplicate();
        let nid = copy_bytes(self.node_id.as_slice());
        let ghost out0 = self.outgoing();
        self.outbox.push(
            Message {
                uuid: nid,
                block: Some(wire_block),
                transaction: None,
                message_hash: copy_bytes(block_hash.as_slice()),
            },
        );
        proof {
            assert(self.pool() =~= Seq::<TxView>::empty());
            assert(self.outgoing() =~= out0.push(self.outgoing().last()));
        }
        true
    }
}

/// Dropping entries from a pool with pairwise distinct ids keeps the
/// remaining ids pairwise distinct.
proof fn lemma_pool_after_block_unique(pool: Seq<TxView>, ts: Seq<TxView>)
    requires
        pool_ids_unique(pool),
    ensures
        pool_ids_unique(pool_after_block(pool, ts)),
        forall|i: int|
            0 <= i < pool_after_block(pool, ts).len() ==> has_tx_id(
                pool,
                (#[trigger] pool_after_block(pool, ts)[i]).transaction_id,
            ),
    decreases pool.len(),
{
    if pool.len() > 0 {
        assert(pool_ids_unique(pool.drop_last()));
        lemma_pool_after_block_unique(pool.drop_last(), ts);
        let rest = pool_after_block(pool.drop_last(), ts);
        assert forall|i: int|
            0 <= i < pool_after_block(pool, ts).len() implies has_tx_id(
            pool,
            (#[trigger] pool_after_block(pool, ts)[i]).transaction_id,
        ) by {
            if i < rest.len() {
                let id = rest[i].transaction_id;
                let j = choose|j: int|
                    0 <= j < pool.drop_last().len() && (#[trigger] pool.drop_last()[j]).transaction_id
                        == id;
                assert(pool[j].transaction_id == id);
            } else {
                assert(pool[pool.len() - 1].transaction_id == pool_after_block(
                    pool,
                    ts,
                )[i].transaction_id);
            }
        }
        assert forall|i: int, j: int|
            0 <= i < j < pool_after_block(pool, ts).len() implies (#[trigger] pool_after_block(
            pool,
            ts,
        )[i]).transaction_id != (#[trigger] pool_after_block(pool, ts)[j]).transaction_id by {
            if j == pool_after_block(pool, ts).len() - 1 && pool_after_block(pool, ts).len()
                > rest.len() {
                let id = rest[i].transaction_id;
                let m = choose|m: int|
                    0 <= m < pool.drop_last().len() && (#[trigger] pool.drop_last()[m]).transaction_id
                        == id;
                assert(pool[m].transaction_id == id);
                assert(pool[pool.len() - 1].transaction_id != id);
            }
        }
    }
}

/// Every appended block extends its predecessor: the genesis block's
/// previous-hash field is the zero hash, and at every later height the
/// block's previous-hash field is the hash of the header one below it.
pub proof fn lemma_chain_linkage(c: &Chain)
    requires
        c.wf(),
    ensures
        c.blocks().len() > 0 ==> c.blocks()[0].header.pre_hash == zero_hash(),
        forall|n: int|
            1 <= n < c.blocks().len() ==> (#[trigger] c.blocks()[n]).header.pre_hash
                == header_hash(c.blocks()[n - 1].header),
{
}

/// A persisted block reads back field-for-field: its index key holds
/// its header hash, the hash key holds its canonical encoding, and that
/// encoding decodes to exactly the block that was appended.
pub proof fn lemma_persisted_block_roundtrip(c: &Chain, i: int)
    requires
        c.wf(),
        0 <= i < c.blocks().len(),
    ensures
        c.store_map().contains_key(u32_be_bytes(i as u32)),
        c.store_map()[u32_be_bytes(i as u32)] == header_hash(c.blocks()[i].header),
        c.store_map().contains_key(header_hash(c.blocks()[i].header)),
        block_dec_full(c.store_map()[header_hash(c.blocks()[i].header)]) == Some(c.blocks()[i]),
{
    assert(rep_at(c.store_map(), c.blocks(), i));
    lemma_block_full_roundtrip(c.blocks()[i]);
}

/// A store represents at most one run of blocks: the height key pins
/// the length, and each index and hash record pins its block through
/// the decodable encoding. A ledger opened over a snapshot therefore
/// reads back exactly the donor's blocks.
pub proof fn lemma_chain_rep_unique(
    store: Map<Seq<u8>, Seq<u8>>,
    b1: Seq<BlockView>,
    b2: Seq<BlockView>,
)
    requires
        chain_rep(store, b1),
        chain_rep(store, b2),
    ensures
        b1 == b2,
{
    assert(b1.len() == b2.len()) by {
        lemma_u32_be_roundtrip(b1.len() as u32);
        lemma_u32_be_roundtrip(b2.len() as u32);
        lemma_u32_be_roundtrip(0u32);
    }
    assert forall|i: int| 0 <= i < b1.len() implies b1[i] == b2[i] by {
        assert(rep_at(store, b1, i));
        assert(rep_at(store, b2, i));
        assert(header_hash(b1[i].header) == header_hash(b2[i].header));
        assert(block_enc(b1[i]) == block_enc(b2[i]));
        lemma_block_full_roundtrip(b1[i]);
        lemma_block_full_roundtrip(b2[i]);
    }
    assert(b1 =~= b2);
}

/// The bytes of the reserved height key.
fn height_key_bytes() -> (r: Vec<u8>)
    ensures
        r@ == height_key(),
{
    let mut v: Vec<u8> = Vec::new();
    v.push(104);
    v.push(101);
    v.push(105);
    v.push(103);
    v.push(104);
    v.push(116);
    proof {
        assert(v@ =~= height_key());
    }
    v
}

} // verus!
