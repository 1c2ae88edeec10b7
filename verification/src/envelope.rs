//! The gossip message envelope: the sender's node id, at most one of a
//! block or a transaction, and the content hash of the carried payload,
//! which is the deduplication key.

use vstd::prelude::*;
use crate::block::{
    Block, BlockView, block_enc, block_encodable, block_dec_full, lemma_block_full_roundtrip,
    encode_block, parse_block_full,
};
use crate::codec::{
    len_pref, dec_len_pref, lemma_dec_len_pref, write_len_pref, read_len_pref,
};
use crate::tx::{
    Transaction, TxView, tx_enc, tx_encodable, tx_dec, lemma_tx_roundtrip, encode_transaction,
    parse_transaction,
};

verus! {

/// A gossip envelope. Exactly one of `block` and `transaction` is
/// populated in a well-formed envelope; `message_hash` identifies the
/// payload content and deduplicates deliveries.
pub struct Message {
    pub uuid: Vec<u8>,
    pub block: Option<Block>,
    pub transaction: Option<Transaction>,
    pub message_hash: Vec<u8>,
}

/// The mathematical content of an envelope.
pub struct MsgView {
    pub uuid: Seq<u8>,
    pub block: Option<BlockView>,
    pub transaction: Option<TxView>,
    pub message_hash: Seq<u8>,
}

impl View for Message {
    type V = MsgView;

    open spec fn view(&self) -> MsgView {
        MsgView {
            uuid: self.uuid@,
            block: match self.block {
                Option::Some(b) => Some(b@),
                Option::None => None,
            },
            transaction: match self.transaction {
                Option::Some(t) => Some(t@),
                Option::None => None,
            },
            message_hash: self.message_hash@,
        }
    }
}

/// Whether an envelope is well formed: it carries exactly one of a block
/// or a transaction.
pub open spec fn msg_wf(m: MsgView) -> bool {
    (m.block is Some) != (m.transaction is Some)
}

/// What a whole transaction payload decodes to: an encoded transaction
/// that fills the payload exactly.
pub open spec fn tx_dec_full(s: Seq<u8>) -> Option<TxView> {
    match tx_dec(s, 0) {
        Option::None => None,
        Option::Some((t, n)) => if n == s.len() {
            Some(t)
        } else {
            None
        },
    }
}

/// A transaction's encoding, decoded as a whole payload, yields the
/// transaction.
pub proof fn lemma_tx_full_roundtrip(t: TxView)
    requires
        tx_encodable(t),
    ensures
        tx_dec_full(tx_enc(t)) == Some(t),
{
    let e = tx_enc(t);
    assert(e.subrange(0, e.len() as int) =~= e);
    lemma_tx_roundtrip(e, 0, t);
}

/// The optional-block field on the wire: an absent marker, or a present
/// marker followed by the length-prefixed block encoding.
#[verifier::opaque]
pub open spec fn opt_block_piece(b: Option<BlockView>) -> Seq<u8> {
    match b {
        Option::None => seq![0u8],
        Option::Some(bv) => seq![1u8] + len_pref(block_enc(bv)),
    }
}

/// The optional-transaction field on the wire.
#[verifier::opaque]
pub open spec fn opt_tx_piece(t: Option<TxView>) -> Seq<u8> {
    match t {
        Option::None => seq![0u8],
        Option::Some(tv) => seq![1u8] + len_pref(tx_enc(tv)),
    }
}

/// The canonical byte encoding of an envelope.
pub open spec fn msg_enc(m: MsgView) -> Seq<u8> {
    len_pref(m.uuid) + opt_block_piece(m.block) + opt_tx_piece(m.transaction) + len_pref(
        m.message_hash,
    )
}

/// Reads one marker byte starting at position `i`.
pub open spec fn dec_tag(s: Seq<u8>, i: int) -> Option<(u8, int)> {
    if 0 <= i && i + 1 <= s.len() {
        Some((s[i], i + 1))
    } else {
        None
    }
}

/// Reads the optional-block field starting at position `i`.
pub open spec fn dec_opt_block(s: Seq<u8>, i: int) -> Option<(Option<BlockView>, int)> {
    match dec_tag(s, i) {
        Option::None => None,
        Option::Some((tag, i1)) => if tag == 0 {
            Some((None, i1))
        } else if tag == 1 {
            match dec_len_pref(s, i1) {
                Option::None => None,
                Option::Some((pb, i2)) => match block_dec_full(pb) {
                    Option::None => None,
                    Option::Some(b) => Some((Some(b), i2)),
                },
            }
        } else {
            None
        },
    }
}

/// Reads the optional-transaction field starting at position `i`.
pub open spec fn dec_opt_tx(s: Seq<u8>, i: int) -> Option<(Option<TxView>, int)> {
    match dec_tag(s, i) {
        Option::None => None,
        Option::Some((tag, i1)) => if tag == 0 {
            Some((None, i1))
        } else if tag == 1 {
            match dec_len_pref(s, i1) {
                Option::None => None,
                Option::Some((pt, i2)) => match tx_dec_full(pt) {
                    Option::None => None,
                    Option::Some(t) => Some((Some(t), i2)),
                },
            }
        } else {
            None
        },
    }
}

/// What a whole gossip payload decodes to: an encoded envelope that fills
/// the payload exactly.
pub open spec fn msg_dec(s: Seq<u8>) -> Option<MsgView> {
    match dec_len_pref(s, 0) {
        Option::None => None,
        Option::Some((uuid, i1)) => match dec_opt_block(s, i1) {
            Option::None => None,
            Option::Some((ob, i2)) => match dec_opt_tx(s, i2) {
                Option::None => None,
                Option::Some((ot, i3)) => match dec_len_pref(s, i3) {
                    Option::None => None,
                    Option::Some((h, i4)) => if i4 == s.len() {
                        Some(MsgView { uuid, block: ob, transaction: ot, message_hash: h })
                    } else {
                        None
                    },
                },
            },
        },
    }
}

/// Whether an envelope's fields fit their encodings.
pub open spec fn msg_encodable(m: MsgView) -> bool {
    &&& m.uuid.len() <= u64::MAX
    &&& m.message_hash.len() <= u64::MAX
    &&& match m.block {
        Option::Some(b) => block_encodable(b) && block_enc(b).len() <= u64::MAX,
        Option::None => true,
    }
    &&& match m.transaction {
        Option::Some(t) => tx_encodable(t) && tx_enc(t).len() <= u64::MAX,
        Option::None => true,
    }
}

/// Reading at a position where the optional-block field was written
/// yields exactly that field.
proof fn lemma_dec_opt_block_at(s: Seq<u8>, i: int, b: Option<BlockView>)
    requires
        0 <= i,
        i + opt_block_piece(b).len() <= s.len(),
        s.subrange(i, i + opt_block_piece(b).len() as int) == opt_block_piece(b),
        match b {
            Option::Some(bv) => block_encodable(bv) && block_enc(bv).len() <= u64::MAX,
            Option::None => true,
        },
    ensures
        dec_opt_block(s, i) == Some((b, i + opt_block_piece(b).len() as int)),
{
    reveal(opt_block_piece);
    let p = opt_block_piece(b);
    assert(s[i] == p[0]) by {
        assert(s.subrange(i, i + p.len() as int)[0] == s[i]);
    }
    match b {
        Option::None => {},
        Option::Some(bv) => {
            let body = block_enc(bv);
            assert(s.subrange(i + 1, i + p.len() as int) =~= len_pref(body)) by {
                assert forall|k: int| 0 <= k < 8 + body.len() as int implies s.subrange(
                    i + 1,
                    i + p.len() as int,
                )[k] == len_pref(body)[k] by {
                    assert(s.subrange(i, i + p.len() as int)[1 + k] == s[i + 1 + k]);
                    assert(p[1 + k] == len_pref(body)[k]);
                }
            }
            lemma_dec_len_pref(s, i + 1, body);
            lemma_block_full_roundtrip(bv);
        },
    }
}

/// Reading at a position where the optional-transaction field was
/// written yields exactly that field.
proof fn lemma_dec_opt_tx_at(s: Seq<u8>, i: int, t: Option<TxView>)
    requires
        0 <= i,
        i + opt_tx_piece(t).len() <= s.len(),
        s.subrange(i, i + opt_tx_piece(t).len() as int) == opt_tx_piece(t),
        match t {
            Option::Some(tv) => tx_encodable(tv) && tx_enc(tv).len() <= u64::MAX,
            Option::None => true,
        },
    ensures
        dec_opt_tx(s, i) == Some((t, i + opt_tx_piece(t).len() as int)),
{
    reveal(opt_tx_piece);
    let p = opt_tx_piece(t);
    assert(s[i] == p[0]) by {
        assert(s.subrange(i, i + p.len() as int)[0] == s[i]);
    }
    match t {
        Option::None => {},
        Option::Some(tv) => {
            let body = tx_enc(tv);
            assert(s.subrange(i + 1, i + p.len() as int) =~= len_pref(body)) by {
                assert forall|k: int| 0 <= k < 8 + body.len() as int implies s.subrange(
                    i + 1,
                    i + p.len() as int,
                )[k] == len_pref(body)[k] by {
                    assert(s.subrange(i, i + p.len() as int)[1 + k] == s[i + 1 + k]);
                    assert(p[1 + k] == len_pref(body)[k]);
                }
            }
            lemma_dec_len_pref(s, i + 1, body);
            lemma_tx_full_roundtrip(tv);
        },
    }
}

/// The offset just after the sender id field of an encoded envelope.
pub open spec fn msg_off1(m: MsgView) -> int {
    8 + m.uuid.len() as int
}

/// The offset just after the optional-block field.
pub open spec fn msg_off2(m: MsgView) -> int {
    msg_off1(m) + opt_block_piece(m.block).len() as int
}

/// The offset just after the optional-transaction field.
pub open spec fn msg_off3(m: MsgView) -> int {
    msg_off2(m) + opt_tx_piece(m.transaction).len() as int
}

#[verifier::rlimit(100)]
proof fn lemma_msg_field0(m: MsgView)
    requires
        msg_encodable(m),
    ensures
        dec_len_pref(msg_enc(m), 0) == Some((m.uuid, msg_off1(m))),
{
    let e = msg_enc(m);
    let pa = len_pref(m.uuid);
    let pb = opt_block_piece(m.block);
    let pc = opt_tx_piece(m.transaction);
    let pd = len_pref(m.message_hash);
    assert(e.subrange(0, pa.len() as int) =~= pa) by {
        assert forall|k: int| 0 <= k < pa.len() implies e.subrange(0, pa.len() as int)[k]
            == pa[k] by {
            assert(e[k] == ((pa + pb) + pc)[k]);
            assert(((pa + pb) + pc)[k] == (pa + pb)[k]);
            assert((pa + pb)[k] == pa[k]);
        }
    }
    lemma_dec_len_pref(e, 0, m.uuid);
}

#[verifier::rlimit(100)]
proof fn lemma_msg_field1(m: MsgView)
    requires
        msg_encodable(m),
    ensures
        dec_opt_block(msg_enc(m), msg_off1(m)) == Some((m.block, msg_off2(m))),
{
    let e = msg_enc(m);
    crate::codec::lemma_cat4_windows(
        len_pref(m.uuid),
        opt_block_piece(m.block),
        opt_tx_piece(m.transaction),
        len_pref(m.message_hash),
    );
    lemma_dec_opt_block_at(e, msg_off1(m), m.block);
}

#[verifier::rlimit(100)]
proof fn lemma_msg_field2(m: MsgView)
    requires
        msg_encodable(m),
    ensures
        dec_opt_tx(msg_enc(m), msg_off2(m)) == Some((m.transaction, msg_off3(m))),
{
    let e = msg_enc(m);
    crate::codec::lemma_cat4_windows(
        len_pref(m.uuid),
        opt_block_piece(m.block),
        opt_tx_piece(m.transaction),
        len_pref(m.message_hash),
    );
    lemma_dec_opt_tx_at(e, msg_off2(m), m.transaction);
}

#[verifier::rlimit(100)]
proof fn lemma_msg_field3(m: MsgView)
    requires
        msg_encodable(m),
    ensures
        dec_len_pref(msg_enc(m), msg_off3(m)) == Some((m.message_hash, msg_enc(m).len() as int)),
{
    let e = msg_enc(m);
    crate::codec::lemma_cat4_windows(
        len_pref(m.uuid),
        opt_block_piece(m.block),
        opt_tx_piece(m.transaction),
        len_pref(m.message_hash),
    );
    lemma_dec_len_pref(e, msg_off3(m), m.message_hash);
}

/// Decoding reads back exactly the envelope that was encoded.
pub proof fn lemma_msg_roundtrip(m: MsgView)
    requires
        msg_encodable(m),
    ensures
        msg_dec(msg_enc(m)) == Some(m),
{
    lemma_msg_field0(m);
    lemma_msg_field1(m);
    lemma_msg_field2(m);
    lemma_msg_field3(m);
}

/// Renders an envelope in its canonical byte encoding.
pub fn encode_message(m: &Message) -> (r: Vec<u8>)
    requires
        match m.block {
            Option::Some(b) => b.count == b@.transactions.len(),
            Option::None => true,
        },
    ensures
        r@ == msg_enc(m@),
{
    let mut out: Vec<u8> = Vec::new();
    write_len_pref(&mut out, m.uuid.as_slice());
    match &m.block {
        None => {
            out.push(0);
        },
        Some(b) => {
            out.push(1);
            let e = encode_block(b);
            write_len_pref(&mut out, e.as_slice());
        },
    }
    proof {
        reveal(opt_block_piece);
        assert(out@ =~= len_pref(m.uuid@) + opt_block_piece(m@.block));
    }
    match &m.transaction {
        None => {
            out.push(0);
        },
        Some(t) => {
            out.push(1);
            let e = encode_transaction(t);
            write_len_pref(&mut out, e.as_slice());
        },
    }
    proof {
        reveal(opt_tx_piece);
        assert(out@ =~= len_pref(m.uuid@) + opt_block_piece(m@.block) + opt_tx_piece(
            m@.transaction,
        ));
    }
    write_len_pref(&mut out, m.message_hash.as_slice());
    proof {
        assert(out@ =~= msg_enc(m@));
    }
    out
}

/// Reads one marker byte starting at `i`.
fn read_tag(s: &[u8], i: usize) -> (r: Option<(u8, usize)>)
    requires
        i <= s@.len(),
    ensures
        match r {
            Some(p) => dec_tag(s@, i as int) == Some((p.0, p.1 as int)) && i < p.1 <= s@.len(),
            None => dec_tag(s@, i as int) is None,
        },
{
    if i < s.len() {
        Some((s[i], i + 1))
    } else {
        None
    }
}

/// Reads a whole gossip payload as one envelope, requiring it to fill the
/// payload exactly.
pub fn parse_message(s: &[u8]) -> (r: Option<Message>)
    ensures
        match r {
            Some(m) => msg_dec(s@) == Some(m@) && (match m.block {
                Option::Some(b) => b.count == b@.transactions.len(),
                Option::None => true,
            }),
            None => msg_dec(s@) is None,
        },
{
    let (uuid, i1) = match read_len_pref(s, 0) {
        Some(p) => p,
        None => { return None },
    };
    let (btag, i1a) = match read_tag(s, i1) {
        Some(p) => p,
        None => { return None },
    };
    let block: Option<Block>;
    let i2: usize;
    if btag == 0 {
        block = None;
        i2 = i1a;
    } else if btag == 1 {
        let (pb, j) = match read_len_pref(s, i1a) {
            Some(p) => p,
            None => { return None },
        };
        let b = match parse_block_full(pb.as_slice()) {
            Some(b) => b,
            None => { return None },
        };
        block = Some(b);
        i2 = j;
    } else {
        return None;
    }
    let (ttag, i2a) = match read_tag(s, i2) {
        Some(p) => p,
        None => { return None },
    };
    let transaction: Option<Transaction>;
    let i3: usize;
    if ttag == 0 {
        transaction = None;
        i3 = i2a;
    } else if ttag == 1 {
        let (pt, j) = match read_len_pref(s, i2a) {
            Some(p) => p,
            None => { return None },
        };
        let t = match parse_transaction(pt.as_slice(), 0) {
            Some(p) => p,
            None => { return None },
        };
        if t.1 != pt.len() {
            return None;
        }
        transaction = Some(t.0);
        i3 = j;
    } else {
        return None;
    }
    let (h, i4) = match read_len_pref(s, i3) {
        Some(p) => p,
        None => { return None },
    };
    if i4 != s.len() {
        return None;
    }
    Some(Message { uuid, block, transaction, message_hash: h })
}

} // verus!
