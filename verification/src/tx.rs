//! Transactions and their canonical byte encoding.
//!
//! The encoding is the deterministic rendering that content hashes are
//! computed over and that blocks and gossip envelopes embed; the decoder
//! reads back exactly what the encoder wrote.

use vstd::prelude::*;
use crate::codec::{
    lemma_subwindow, lemma_cat4_windows,
    len_pref, dec_len_pref, dec_u64, lemma_dec_len_pref, lemma_dec_u64, write_len_pref, write_u64,
    read_len_pref, read_u64,
};
use crate::digest::{hash_hex_of, hash_bytes};
use crate::endian::u64_be_bytes;
use crate::util::copy_bytes;

verus! {

/// A transfer record: who sends, who receives, how much, and a unique id.
/// Identifiers are byte strings, as they travel on the wire.
pub struct Transaction {
    pub sender: Vec<u8>,
    pub receiver: Vec<u8>,
    pub amount: u64,
    pub transaction_id: Vec<u8>,
}

/// The mathematical content of a transaction.
pub struct TxView {
    pub sender: Seq<u8>,
    pub receiver: Seq<u8>,
    pub amount: u64,
    pub transaction_id: Seq<u8>,
}

impl View for Transaction {
    type V = TxView;

    open spec fn view(&self) -> TxView {
        TxView {
            sender: self.sender@,
            receiver: self.receiver@,
            amount: self.amount,
            transaction_id: self.transaction_id@,
        }
    }
}

/// Whether a transaction's fields fit their length prefixes.
pub open spec fn tx_encodable(t: TxView) -> bool {
    t.sender.len() <= u64::MAX && t.receiver.len() <= u64::MAX && t.transaction_id.len()
        <= u64::MAX
}

/// The canonical byte encoding of a transaction: length-prefixed sender,
/// length-prefixed receiver, the amount, and the length-prefixed id.
pub open spec fn tx_enc(t: TxView) -> Seq<u8> {
    len_pref(t.sender) + len_pref(t.receiver) + u64_be_bytes(t.amount) + len_pref(
        t.transaction_id,
    )
}

/// Reads one encoded transaction starting at position `i`.
pub open spec fn tx_dec(s: Seq<u8>, i: int) -> Option<(TxView, int)> {
    match dec_len_pref(s, i) {
        Option::None => None,
        Option::Some((sender, i1)) => match dec_len_pref(s, i1) {
            Option::None => None,
            Option::Some((receiver, i2)) => match dec_u64(s, i2) {
                Option::None => None,
                Option::Some((amount, i3)) => match dec_len_pref(s, i3) {
                    Option::None => None,
                    Option::Some((id, i4)) => Some(
                        (TxView { sender, receiver, amount, transaction_id: id }, i4),
                    ),
                },
            },
        },
    }
}

/// The content hash of a transaction: the digest of its canonical encoding.
pub open spec fn tx_hash(t: TxView) -> Seq<u8> {
    hash_hex_of(tx_enc(t))
}

/// Decoding reads back exactly the transaction that was encoded.
pub proof fn lemma_tx_roundtrip(s: Seq<u8>, i: int, t: TxView)
    requires
        0 <= i,
        tx_encodable(t),
        i + tx_enc(t).len() <= s.len(),
        s.subrange(i, i + tx_enc(t).len() as int) == tx_enc(t),
    ensures
        tx_dec(s, i) == Some((t, i + tx_enc(t).len() as int)),
{
    let e = tx_enc(t);
    let n0 = 8 + t.sender.len() as int;
    let n1 = n0 + 8 + t.receiver.len() as int;
    let n2 = n1 + 8;
    let n3 = n2 + 8 + t.transaction_id.len() as int;
    assert(e.len() == n3);
    lemma_cat4_windows(
        len_pref(t.sender),
        len_pref(t.receiver),
        u64_be_bytes(t.amount),
        len_pref(t.transaction_id),
    );
    lemma_subwindow(s, i, e, 0, n0);
    assert(e.subrange(0, n0) == len_pref(t.sender));
    lemma_dec_len_pref(s, i, t.sender);
    lemma_subwindow(s, i, e, n0, n1);
    lemma_dec_len_pref(s, i + n0, t.receiver);
    lemma_subwindow(s, i, e, n1, n2);
    lemma_dec_u64(s, i + n1, t.amount);
    lemma_subwindow(s, i, e, n2, n3);
    lemma_dec_len_pref(s, i + n2, t.transaction_id);
}

/// Renders a transaction in its canonical byte encoding.
pub fn encode_transaction(t: &Transaction) -> (r: Vec<u8>)
    ensures
        r@ == tx_enc(t@),
{
    let mut out: Vec<u8> = Vec::new();
    write_len_pref(&mut out, t.sender.as_slice());
    write_len_pref(&mut out, t.receiver.as_slice());
    write_u64(&mut out, t.amount);
    write_len_pref(&mut out, t.transaction_id.as_slice());
    proof {
        assert(out@ =~= tx_enc(t@));
    }
    out
}

/// Reads one encoded transaction starting at `i`.
pub fn parse_transaction(s: &[u8], i: usize) -> (r: Option<(Transaction, usize)>)
    requires
        i <= s@.len(),
    ensures
        match r {
            Some(p) => tx_dec(s@, i as int) == Some((p.0@, p.1 as int)) && i < p.1 <= s@.len(),
            None => tx_dec(s@, i as int) is None,
        },
{
    let (sender, i1) = match read_len_pref(s, i) {
        Some(p) => p,
        None => { return None },
    };
    let (receiver, i2) = match read_len_pref(s, i1) {
        Some(p) => p,
        None => { return None },
    };
    let (amount, i3) = match read_u64(s, i2) {
        Some(p) => p,
        None => { return None },
    };
    let (id, i4) = match read_len_pref(s, i3) {
        Some(p) => p,
        None => { return None },
    };
    Some((Transaction { sender, receiver, amount, transaction_id: id }, i4))
}

/// Hashes a transaction's canonical encoding: its content identity on the
/// wire and the merkle leaf it contributes.
pub fn hash_transaction(t: &Transaction) -> (r: Vec<u8>)
    ensures
        r@ == tx_hash(t@),
        r@.len() == 64,
{
    let e = encode_transaction(t);
    hash_bytes(e.as_slice())
}

impl Transaction {
    /// An owned copy with the same content.
    pub fn duplicate(&self) -> (r: Transaction)
        ensures
            r@ == self@,
    {
        Transaction {
            sender: copy_bytes(self.sender.as_slice()),
            receiver: copy_bytes(self.receiver.as_slice()),
            amount: self.amount,
            transaction_id: copy_bytes(self.transaction_id.as_slice()),
        }
    }
}

} // verus!
