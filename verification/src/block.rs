//! Block headers, blocks, and their canonical byte encodings.
//!
//! A block's identity is the digest of its encoded header; the
//! proof-of-work condition is a predicate on that digest. The decoder
//! reads back exactly what the encoder wrote, which is what lets a block
//! persisted to the store or carried in a gossip frame come back
//! field-for-field equal.

use vstd::prelude::*;
use crate::codec::{
    len_pref, dec_len_pref, dec_u64, dec_u32, lemma_dec_len_pref, lemma_dec_u64, lemma_dec_u32,
    lemma_subwindow, write_len_pref, write_u64, write_u32, read_len_pref, read_u64, read_u32,
};
use crate::digest::{hash_hex_of, hash_bytes};
use crate::endian::{u64_be_bytes, u32_be_bytes};
use crate::hex::ascii_u32;
use crate::tx::{
    Transaction, TxView, tx_enc, tx_dec, tx_encodable, lemma_tx_roundtrip, encode_transaction,
    parse_transaction,
};
use crate::util::copy_bytes;

verus! {

/// A block header: stamped when the block is built, searched over during
/// proof-of-work, immutable after the block is sealed.
pub struct Blockheader {
    pub timestamp: i64,
    pub nonce: u32,
    pub pre_hash: Vec<u8>,
    pub merkle: Vec<u8>,
    pub difficulty: u32,
}

/// The mathematical content of a block header.
pub struct HeaderView {
    pub timestamp: i64,
    pub nonce: u32,
    pub pre_hash: Seq<u8>,
    pub merkle: Seq<u8>,
    pub difficulty: u32,
}

impl View for Blockheader {
    type V = HeaderView;

    open spec fn view(&self) -> HeaderView {
        HeaderView {
            timestamp: self.timestamp,
            nonce: self.nonce,
            pre_hash: self.pre_hash@,
            merkle: self.merkle@,
            difficulty: self.difficulty,
        }
    }
}

/// A block: a sealed header, the number of transactions, and the
/// transactions themselves in their stable iteration order.
pub struct Block {
    pub header: Blockheader,
    pub count: u32,
    pub transactions: Vec<Transaction>,
}

/// The mathematical content of a block.
pub struct BlockView {
    pub header: HeaderView,
    pub count: u32,
    pub transactions: Seq<TxView>,
}

impl View for Block {
    type V = BlockView;

    open spec fn view(&self) -> BlockView {
        BlockView {
            header: self.header@,
            count: self.count,
            transactions: Seq::new(self.transactions@.len(), |k: int| self.transactions@[k]@),
        }
    }
}

/// Whether a header's fields fit their length prefixes.
pub open spec fn header_encodable(h: HeaderView) -> bool {
    h.pre_hash.len() <= u64::MAX && h.merkle.len() <= u64::MAX
}

/// The canonical byte encoding of a block header.
pub open spec fn header_enc(h: HeaderView) -> Seq<u8> {
    u64_be_bytes(h.timestamp as u64) + u32_be_bytes(h.nonce) + len_pref(h.pre_hash) + len_pref(
        h.merkle,
    ) + u32_be_bytes(h.difficulty)
}

/// Reads one encoded block header starting at position `i`.
pub open spec fn header_dec(s: Seq<u8>, i: int) -> Option<(HeaderView, int)> {
    match dec_u64(s, i) {
        Option::None => None,
        Option::Some((ts, i1)) => match dec_u32(s, i1) {
            Option::None => None,
            Option::Some((nonce, i2)) => match dec_len_pref(s, i2) {
                Option::None => None,
                Option::Some((pre_hash, i3)) => match dec_len_pref(s, i3) {
                    Option::None => None,
                    Option::Some((merkle, i4)) => match dec_u32(s, i4) {
                        Option::None => None,
                        Option::Some((difficulty, i5)) => Some(
                            (
                                HeaderView {
                                    timestamp: ts as i64,
                                    nonce,
                                    pre_hash,
                                    merkle,
                                    difficulty,
                                },
                                i5,
                            ),
                        ),
                    },
                },
            },
        },
    }
}

/// A block's identity: the digest of its encoded header, as 64 lowercase
/// hexadecimal digits.
pub open spec fn header_hash(h: HeaderView) -> Seq<u8> {
    hash_hex_of(header_enc(h))
}

/// The proof-of-work condition: the leading `difficulty` digits of the
/// header's hash, parsed as an unsigned decimal number, equal zero.
pub open spec fn pow_ok(h: HeaderView) -> bool {
    &&& 1 <= h.difficulty
    &&& h.difficulty <= header_hash(h).len()
    &&& ascii_u32(header_hash(h).subrange(0, h.difficulty as int)) == Some(0u32)
}

/// The same header with another nonce: the candidates a proof-of-work
/// search steps through.
pub open spec fn with_nonce(h: HeaderView, n: u32) -> HeaderView {
    HeaderView { nonce: n, ..h }
}

/// The concatenated encodings of a run of transactions, first to last.
pub open spec fn txs_enc(ts: Seq<TxView>) -> Seq<u8>
    decreases ts.len(),
{
    if ts.len() == 0 {
        Seq::empty()
    } else {
        tx_enc(ts[0]) + txs_enc(ts.drop_first())
    }
}

/// Whether every transaction of a run fits its encoding.
pub open spec fn txs_encodable(ts: Seq<TxView>) -> bool {
    forall|k: int| 0 <= k < ts.len() ==> tx_encodable(#[trigger] ts[k])
}

/// Reads `n` encoded transactions starting at position `i`.
pub open spec fn txs_dec(s: Seq<u8>, i: int, n: nat) -> Option<(Seq<TxView>, int)>
    decreases n,
{
    if n == 0 {
        Some((Seq::empty(), i))
    } else {
        match tx_dec(s, i) {
            Option::None => None,
            Option::Some((t, j)) => match txs_dec(s, j, (n - 1) as nat) {
                Option::None => None,
                Option::Some((ts, k)) => Some((seq![t] + ts, k)),
            },
        }
    }
}

/// Whether a block is well formed: the count field counts the
/// transactions, and there is at least one (the miner reward).
pub open spec fn block_wf(b: BlockView) -> bool {
    b.count == b.transactions.len() && b.transactions.len() >= 1
}

/// The canonical byte encoding of a block.
pub open spec fn block_enc(b: BlockView) -> Seq<u8> {
    header_enc(b.header) + u32_be_bytes(b.count) + txs_enc(b.transactions)
}

/// Whether a block's fields fit their encodings.
pub open spec fn block_encodable(b: BlockView) -> bool {
    header_encodable(b.header) && txs_encodable(b.transactions) && b.count
        == b.transactions.len()
}

/// Reads one encoded block starting at position `i`.
pub open spec fn block_dec(s: Seq<u8>, i: int) -> Option<(BlockView, int)> {
    match header_dec(s, i) {
        Option::None => None,
        Option::Some((h, i1)) => match dec_u32(s, i1) {
            Option::None => None,
            Option::Some((count, i2)) => match txs_dec(s, i2, count as nat) {
                Option::None => None,
                Option::Some((ts, i3)) => Some(
                    (BlockView { header: h, count, transactions: ts }, i3),
                ),
            },
        },
    }
}

/// What a block record in the store decodes to: an encoded block that
/// fills the value exactly.
pub open spec fn block_dec_full(s: Seq<u8>) -> Option<BlockView> {
    match block_dec(s, 0) {
        Option::None => None,
        Option::Some((b, n)) => if n == s.len() {
            Some(b)
        } else {
            None
        },
    }
}

/// The five windows of a header encoding.
proof fn lemma_header_windows(s: Seq<u8>, i: int, h: HeaderView)
    requires
        0 <= i,
        header_encodable(h),
        i + header_enc(h).len() <= s.len(),
        s.subrange(i, i + header_enc(h).len() as int) == header_enc(h),
    ensures
        header_dec(s, i) == Some((h, i + header_enc(h).len() as int)),
{
    let e = header_enc(h);
    let p0 = u64_be_bytes(h.timestamp as u64);
    let p1 = u32_be_bytes(h.nonce);
    let p2 = len_pref(h.pre_hash);
    let p3 = len_pref(h.merkle);
    let p4 = u32_be_bytes(h.difficulty);
    let n0 = 8int;
    let n1 = n0 + 4;
    let n2 = n1 + 8 + h.pre_hash.len() as int;
    let n3 = n2 + 8 + h.merkle.len() as int;
    let n4 = n3 + 4;
    assert(e.len() == n4);
    assert forall|k: int| 0 <= k < e.len() implies e[k] == (if k < n0 {
        p0[k]
    } else if k < n1 {
        p1[k - n0]
    } else if k < n2 {
        p2[k - n1]
    } else if k < n3 {
        p3[k - n2]
    } else {
        p4[k - n3]
    }) by {
        if k < n3 {
            assert((((p0 + p1) + p2) + p3)[k] == ((p0 + p1) + p2)[k] || (((p0 + p1) + p2)
                + p3)[k] == p3[k - n2]);
            if k < n2 {
                assert(((p0 + p1) + p2)[k] == (p0 + p1)[k] || ((p0 + p1) + p2)[k] == p2[k - n1]);
            }
        }
    }
    assert(e.subrange(0, n0) =~= p0);
    assert(e.subrange(n0, n1) =~= p1);
    assert(e.subrange(n1, n2) =~= p2);
    assert(e.subrange(n2, n3) =~= p3);
    assert(e.subrange(n3, n4) =~= p4);
    lemma_subwindow(s, i, e, 0, n0);
    lemma_dec_u64(s, i, h.timestamp as u64);
    lemma_subwindow(s, i, e, n0, n1);
    lemma_dec_u32(s, i + n0, h.nonce);
    lemma_subwindow(s, i, e, n1, n2);
    lemma_dec_len_pref(s, i + n1, h.pre_hash);
    lemma_subwindow(s, i, e, n2, n3);
    lemma_dec_len_pref(s, i + n2, h.merkle);
    lemma_subwindow(s, i, e, n3, n4);
    lemma_dec_u32(s, i + n3, h.difficulty);
    let ts = h.timestamp;
    assert((ts as u64) as i64 == ts) by (bit_vector);
}

/// Decoding reads back exactly the header that was encoded.
pub proof fn lemma_header_roundtrip(s: Seq<u8>, i: int, h: HeaderView)
    requires
        0 <= i,
        header_encodable(h),
        i + header_enc(h).len() <= s.len(),
        s.subrange(i, i + header_enc(h).len() as int) == header_enc(h),
    ensures
        header_dec(s, i) == Some((h, i + header_enc(h).len() as int)),
{
    lemma_header_windows(s, i, h);
}

/// Decoding reads back exactly the run of transactions that was encoded.
pub proof fn lemma_txs_roundtrip(s: Seq<u8>, i: int, ts: Seq<TxView>)
    requires
        0 <= i,
        txs_encodable(ts),
        i + txs_enc(ts).len() <= s.len(),
        s.subrange(i, i + txs_enc(ts).len() as int) == txs_enc(ts),
    ensures
        txs_dec(s, i, ts.len()) == Some((ts, i + txs_enc(ts).len() as int)),
    decreases ts.len(),
{
    if ts.len() == 0 {
        assert(ts =~= Seq::<TxView>::empty());
    } else {
        let e = txs_enc(ts);
        let head = tx_enc(ts[0]);
        let rest = txs_enc(ts.drop_first());
        let m = head.len() as int;
        assert(e == head + rest);
        assert(e.subrange(0, m) =~= head);
        assert(e.subrange(m, e.len() as int) =~= rest);
        lemma_subwindow(s, i, e, 0, m);
        lemma_tx_roundtrip(s, i, ts[0]);
        lemma_subwindow(s, i, e, m, e.len() as int);
        assert(txs_encodable(ts.drop_first()));
        lemma_txs_roundtrip(s, i + m, ts.drop_first());
        assert(seq![ts[0]] + ts.drop_first() =~= ts);
    }
}

/// Decoding reads back exactly the block that was encoded.
pub proof fn lemma_block_roundtrip(s: Seq<u8>, i: int, b: BlockView)
    requires
        0 <= i,
        block_encodable(b),
        i + block_enc(b).len() <= s.len(),
        s.subrange(i, i + block_enc(b).len() as int) == block_enc(b),
    ensures
        block_dec(s, i) == Some((b, i + block_enc(b).len() as int)),
{
    let e = block_enc(b);
    let p0 = header_enc(b.header);
    let p1 = u32_be_bytes(b.count);
    let p2 = txs_enc(b.transactions);
    let n0 = p0.len() as int;
    let n1 = n0 + 4;
    let n2 = n1 + p2.len() as int;
    assert(e.len() == n2);
    assert forall|k: int| 0 <= k < e.len() implies e[k] == (if k < n0 {
        p0[k]
    } else if k < n1 {
        p1[k - n0]
    } else {
        p2[k - n1]
    }) by {
        if k < n1 {
            assert((p0 + p1)[k] == (if k < n0 {
                p0[k]
            } else {
                p1[k - n0]
            }));
        }
    }
    assert(e.subrange(0, n0) =~= p0);
    assert(e.subrange(n0, n1) =~= p1);
    assert(e.subrange(n1, n2) =~= p2);
    lemma_subwindow(s, i, e, 0, n0);
    lemma_header_roundtrip(s, i, b.header);
    lemma_subwindow(s, i, e, n0, n1);
    lemma_dec_u32(s, i + n0, b.count);
    lemma_subwindow(s, i, e, n1, n2);
    lemma_txs_roundtrip(s, i + n1, b.transactions);
}

/// A block's encoding, decoded as a whole store value, yields the block.
pub proof fn lemma_block_full_roundtrip(b: BlockView)
    requires
        block_encodable(b),
    ensures
        block_dec_full(block_enc(b)) == Some(b),
{
    let e = block_enc(b);
    assert(e.subrange(0, e.len() as int) =~= e);
    lemma_block_roundtrip(e, 0, b);
}

/// Renders a block header in its canonical byte encoding.
pub fn encode_header(h: &Blockheader) -> (r: Vec<u8>)
    ensures
        r@ == header_enc(h@),
{
    let mut out: Vec<u8> = Vec::new();
    write_u64(&mut out, h.timestamp as u64);
    write_u32(&mut out, h.nonce);
    write_len_pref(&mut out, h.pre_hash.as_slice());
    write_len_pref(&mut out, h.merkle.as_slice());
    write_u32(&mut out, h.difficulty);
    proof {
        assert(out@ =~= header_enc(h@));
    }
    out
}

/// Hashes a block header: the block's identity, and the value measured
/// against the proof-of-work condition.
pub fn hash_header(h: &Blockheader) -> (r: Vec<u8>)
    ensures
        r@ == header_hash(h@),
        r@.len() == 64,
{
    let e = encode_header(h);
    hash_bytes(e.as_slice())
}

/// Reads one encoded block header starting at `i`.
pub fn parse_header(s: &[u8], i: usize) -> (r: Option<(Blockheader, usize)>)
    requires
        i <= s@.len(),
    ensures
        match r {
            Some(p) => header_dec(s@, i as int) == Some((p.0@, p.1 as int)) && i < p.1
                <= s@.len(),
            None => header_dec(s@, i as int) is None,
        },
{
    let (ts, i1) = match read_u64(s, i) {
        Some(p) => p,
        None => { return None },
    };
    let (nonce, i2) = match read_u32(s, i1) {
        Some(p) => p,
        None => { return None },
    };
    let (pre_hash, i3) = match read_len_pref(s, i2) {
        Some(p) => p,
        None => { return None },
    };
    let (merkle, i4) = match read_len_pref(s, i3) {
        Some(p) => p,
        None => { return None },
    };
    let (difficulty, i5) = match read_u32(s, i4) {
        Some(p) => p,
        None => { return None },
    };
    Some((Blockheader { timestamp: ts as i64, nonce, pre_hash, merkle, difficulty }, i5))
}

/// Renders a block in its canonical byte encoding.
pub fn encode_block(b: &Block) -> (r: Vec<u8>)
    requires
        b.count == b@.transactions.len(),
    ensures
        r@ == block_enc(b@),
{
    let mut out = encode_header(&b.header);
    write_u32(&mut out, b.count);
    let ghost base = out@;
    let mut k: usize = 0;
    while k < b.transactions.len()
        invariant
            k <= b.transactions@.len(),
            base == header_enc(b@.header) + u32_be_bytes(b.count),
            out@ == base + txs_enc(b@.transactions.subrange(0, k as int)),
        decreases b.transactions@.len() - k,
    {
        let e = encode_transaction(&b.transactions[k]);
        crate::util::extend_bytes(&mut out, e.as_slice());
        proof {
            lemma_txs_enc_snoc(b@.transactions.subrange(0, k as int), b@.transactions[k as int]);
            assert(b@.transactions.subrange(0, k as int).push(b@.transactions[k as int])
                =~= b@.transactions.subrange(0, k + 1));
            assert(out@ =~= base + txs_enc(b@.transactions.subrange(0, k + 1)));
        }
        k = k + 1;
    }
    proof {
        assert(b@.transactions.subrange(0, b@.transactions.len() as int) =~= b@.transactions);
        assert(out@ =~= block_enc(b@));
    }
    out
}

/// Appending one transaction to a run extends the run's encoding by that
/// transaction's encoding.
proof fn lemma_txs_enc_snoc(ts: Seq<TxView>, t: TxView)
    ensures
        txs_enc(ts.push(t)) == txs_enc(ts) + tx_enc(t),
    decreases ts.len(),
{
    if ts.len() == 0 {
        reveal_with_fuel(txs_enc, 3);
        assert(ts.push(t)[0] == t);
        assert(ts.push(t).drop_first() =~= Seq::<TxView>::empty());
        assert(txs_enc(ts.push(t)) =~= txs_enc(ts) + tx_enc(t));
    } else {
        assert(ts.push(t)[0] == ts[0]);
        assert(ts.push(t).drop_first() =~= ts.drop_first().push(t));
        lemma_txs_enc_snoc(ts.drop_first(), t);
        assert(txs_enc(ts.push(t)) == tx_enc(ts[0]) + txs_enc(ts.drop_first().push(t)));
        assert(txs_enc(ts.push(t)) =~= txs_enc(ts) + tx_enc(t));
    }
}

/// Reads one encoded block starting at `i`.
#[verifier::loop_isolation(false)]
pub fn parse_block(s: &[u8], i: usize) -> (r: Option<(Block, usize)>)
    requires
        i <= s@.len(),
    ensures
        match r {
            Some(p) => block_dec(s@, i as int) == Some((p.0@, p.1 as int)) && i <= p.1
                <= s@.len() && p.0.count == p.0@.transactions.len(),
            None => block_dec(s@, i as int) is None,
        },
{
    let (header, i1) = match parse_header(s, i) {
        Some(p) => p,
        None => { return None },
    };
    let (count, i2) = match read_u32(s, i1) {
        Some(p) => p,
        None => { return None },
    };
    let mut txs: Vec<Transaction> = Vec::new();
    let mut cur: usize = i2;
    let mut done: u32 = 0;
    while done < count
        invariant
            done <= count,
            i2 <= cur,
            cur <= s@.len(),
            txs@.len() == done,
            ({
                let vs = Seq::new(txs@.len(), |k: int| txs@[k]@);
                match txs_dec(s@, cur as int, (count - done) as nat) {
                    Option::None => txs_dec(s@, i2 as int, count as nat) is None,
                    Option::Some(p) => txs_dec(s@, i2 as int, count as nat) == Some(
                        (vs + p.0, p.1),
                    ),
                }
            }),
        decreases count - done,
    {
        let (t, j) = match parse_transaction(s, cur) {
            Some(p) => p,
            None => {
                proof {
                    assert(txs_dec(s@, cur as int, (count - done) as nat) is None);
                }
                return None;
            },
        };
        txs.push(t);
        proof {
            let vs_old = Seq::new((txs@.len() - 1) as nat, |k: int| txs@[k]@);
            let vs_new = Seq::new(txs@.len(), |k: int| txs@[k]@);
            assert(vs_new =~= vs_old.push(t@));
            match txs_dec(s@, j as int, (count - done - 1) as nat) {
                Option::None => {},
                Option::Some(p) => {
                    assert(vs_old + (seq![t@] + p.0) =~= vs_new + p.0);
                },
            }
        }
        cur = j;
        done = done + 1;
    }
    let ghost vs = Seq::new(txs@.len(), |k: int| txs@[k]@);
    proof {
        assert(vs + Seq::<TxView>::empty() =~= vs);
        assert(txs_dec(s@, cur as int, 0nat) == Some((Seq::<TxView>::empty(), cur as int)));
        assert(txs_dec(s@, i2 as int, count as nat) == Some((vs, cur as int)));
    }
    let b = Block { header, count, transactions: txs };
    proof {
        assert(b@.transactions =~= vs);
    }
    Some((b, cur))
}

/// Reads a whole store value as one encoded block, requiring it to fill
/// the value exactly.
pub fn parse_block_full(s: &[u8]) -> (r: Option<Block>)
    ensures
        match r {
            Some(b) => block_dec_full(s@) == Some(b@) && b.count == b@.transactions.len(),
            None => block_dec_full(s@) is None,
        },
{
    match parse_block(s, 0) {
        Some(p) => {
            if p.1 == s.len() {
                Some(p.0)
            } else {
                None
            }
        },
        None => None,
    }
}

impl Blockheader {
    /// An owned copy with the same content.
    pub fn duplicate(&self) -> (r: Blockheader)
        ensures
            r@ == self@,
    {
        Blockheader {
            timestamp: self.timestamp,
            nonce: self.nonce,
            pre_hash: copy_bytes(self.pre_hash.as_slice()),
            merkle: copy_bytes(self.merkle.as_slice()),
            difficulty: self.difficulty,
        }
    }
}

impl Block {
    /// An owned copy with the same content.
    pub fn duplicate(&self) -> (r: Block)
        ensures
            r@ == self@,
    {
        let mut txs: Vec<Transaction> = Vec::new();
        let mut k: usize = 0;
        while k < self.transactions.len()
            invariant
                k <= self.transactions@.len(),
                txs@.len() == k,
                forall|j: int| 0 <= j < k ==> txs@[j]@ == #[trigger] self.transactions@[j]@,
            decreases self.transactions@.len() - k,
        {
            txs.push(self.transactions[k].duplicate());
            k = k + 1;
        }
        let r = Block { header: self.header.duplicate(), count: self.count, transactions: txs };
        proof {
            assert(r@.transactions =~= self@.transactions);
        }
        r
    }
}

} // verus!
