//! The handshake wire format: the ASCII marker `HNDSHK `, a two-digit
//! status code, the sender's node id, and the sender's reachable gossip
//! address, space-separated. Parsing accepts exactly the well-formed
//! frames and nothing else.

use vstd::prelude::*;
use crate::util::copy_bytes;

verus! {

/// How an inbound connection's first bytes classify it: a handshake
/// attempt, or an unknown protocol that is rejected.
pub enum Protocol {
    Handshake,
    Unknown,
}

/// The three handshake status codes: a connection request, an
/// acceptance, and a rejection.
#[derive(Debug, Clone, Copy, PartialEq, Eq, Structural)]
pub enum HandshakeCode {
    Request,
    Accept,
    Reject,
}

/// The marker that opens every handshake frame: the bytes of `HNDSHK `
/// including the trailing space.
pub open spec fn hs_prefix() -> Seq<u8> {
    seq![72u8, 78u8, 68u8, 83u8, 72u8, 75u8, 32u8]
}

/// The two ASCII digits of a status code: `01` requests, `10` accepts,
/// `00` rejects.
pub open spec fn code_bytes(c: HandshakeCode) -> Seq<u8> {
    match c {
        HandshakeCode::Request => seq![48u8, 49u8],
        HandshakeCode::Accept => seq![49u8, 48u8],
        HandshakeCode::Reject => seq![48u8, 48u8],
    }
}

/// A token that can stand in a frame: nonempty and free of spaces.
pub open spec fn token_ok(t: Seq<u8>) -> bool {
    t.len() > 0 && forall|i: int| 0 <= i < t.len() ==> t[i] != 32
}

/// A whole handshake frame.
pub open spec fn hs_frame(c: HandshakeCode, id: Seq<u8>, addr: Seq<u8>) -> Seq<u8> {
    hs_prefix() + code_bytes(c) + seq![32u8] + id + seq![32u8] + addr
}

/// Where each piece of a frame lands: the marker, the code, the spaces,
/// the id, and the address.
pub proof fn lemma_hs_frame_facts(c: HandshakeCode, id: Seq<u8>, addr: Seq<u8>)
    requires
        token_ok(id),
        token_ok(addr),
    ensures
        ({
            let f = hs_frame(c, id, addr);
            &&& f.len() == 11 + id.len() + addr.len()
            &&& (forall|k: int| 0 <= k < 7 ==> f[k] == hs_prefix()[k])
            &&& f[7] == code_bytes(c)[0]
            &&& f[8] == code_bytes(c)[1]
            &&& f[9] == 32
            &&& (forall|k: int| 0 <= k < id.len() ==> f[10 + k] == id[k])
            &&& f[10 + id.len() as int] == 32
            &&& (forall|k: int| 0 <= k < addr.len() ==> f[11 + id.len() as int + k] == addr[k])
        }),
{
    let f = hs_frame(c, id, addr);
    let p0 = hs_prefix();
    let p1 = code_bytes(c);
    let p2 = seq![32u8];
    let p5 = seq![32u8];
    assert(f.len() == 11 + id.len() + addr.len());
    assert forall|k: int| 0 <= k < f.len() implies f[k] == (if k < 7 {
        p0[k]
    } else if k < 9 {
        p1[k - 7]
    } else if k < 10 {
        32u8
    } else if k < 10 + id.len() {
        id[k - 10]
    } else if k < 11 + id.len() {
        32u8
    } else {
        addr[k - 11 - id.len()]
    }) by {
        let a = p0 + p1;
        let b = a + p2;
        let d = b + id;
        let e = d + p5;
        assert(f == e + addr);
        if k < e.len() {
            assert(e[k] == d[k] || e[k] == 32);
            if k < d.len() {
                assert(d[k] == b[k] || d[k] == id[k - 10]);
                if k < b.len() {
                    assert(b[k] == a[k] || b[k] == 32);
                }
            }
        }
    }
}

/// The handshake grammar is unambiguous: equal frames carry the same
/// code, the same id, and the same address.
pub proof fn lemma_hs_frame_injective(
    c1: HandshakeCode,
    id1: Seq<u8>,
    addr1: Seq<u8>,
    c2: HandshakeCode,
    id2: Seq<u8>,
    addr2: Seq<u8>,
)
    requires
        token_ok(id1),
        token_ok(addr1),
        token_ok(id2),
        token_ok(addr2),
        hs_frame(c1, id1, addr1) == hs_frame(c2, id2, addr2),
    ensures
        c1 == c2,
        id1 == id2,
        addr1 == addr2,
{
    let f = hs_frame(c1, id1, addr1);
    lemma_hs_frame_facts(c1, id1, addr1);
    lemma_hs_frame_facts(c2, id2, addr2);
    assert(code_bytes(c1) =~= code_bytes(c2)) by {
        assert(code_bytes(c1)[0] == f[7] && code_bytes(c2)[0] == f[7]);
        assert(code_bytes(c1)[1] == f[8] && code_bytes(c2)[1] == f[8]);
    }
    match c1 {
        HandshakeCode::Request => assert(c2 is Request),
        HandshakeCode::Accept => assert(c2 is Accept),
        HandshakeCode::Reject => assert(c2 is Reject),
    }
    assert(id1.len() == id2.len()) by {
        if id1.len() < id2.len() {
            assert(f[10 + id1.len() as int] == 32);
            assert(f[10 + id1.len() as int] == id2[id1.len() as int]);
        } else if id2.len() < id1.len() {
            assert(f[10 + id2.len() as int] == 32);
            assert(f[10 + id2.len() as int] == id1[id2.len() as int]);
        }
    }
    assert(id1 =~= id2) by {
        assert forall|k: int| 0 <= k < id1.len() implies id1[k] == id2[k] by {
            assert(f[10 + k] == id1[k] && f[10 + k] == id2[k]);
        }
    }
    assert(addr1 =~= addr2) by {
        assert(addr1.len() == addr2.len());
        assert forall|k: int| 0 <= k < addr1.len() implies addr1[k] == addr2[k] by {
            assert(f[11 + id1.len() as int + k] == addr1[k]);
            assert(f[11 + id2.len() as int + k] == addr2[k]);
        }
    }
}

/// Builds a handshake frame from this side's code, id, and address.
pub fn handshake_frame(c: HandshakeCode, id: &[u8], addr: &[u8]) -> (r: Vec<u8>)
    ensures
        r@ == hs_frame(c, id@, addr@),
{
    let mut out: Vec<u8> = Vec::new();
    out.push(72);
    out.push(78);
    out.push(68);
    out.push(83);
    out.push(72);
    out.push(75);
    out.push(32);
    match c {
        HandshakeCode::Request => {
            out.push(48);
            out.push(49);
        },
        HandshakeCode::Accept => {
            out.push(49);
            out.push(48);
        },
        HandshakeCode::Reject => {
            out.push(48);
            out.push(48);
        },
    }
    out.push(32);
    crate::util::extend_bytes(&mut out, id);
    out.push(32);
    crate::util::extend_bytes(&mut out, addr);
    proof {
        assert(out@ =~= hs_frame(c, id@, addr@));
    }
    out
}

/// Classifies an inbound connection from its first peeked bytes: only a
/// stream that opens with the handshake marker is a handshake.
pub fn detect_protocol(peeked: &[u8]) -> (r: Protocol)
    ensures
        (r is Handshake) <==> (peeked@.len() >= 7 && peeked@.subrange(0, 7) == hs_prefix()),
{
    if peeked.len() >= 7 && peeked[0] == 72 && peeked[1] == 78 && peeked[2] == 68 && peeked[3]
        == 83 && peeked[4] == 72 && peeked[5] == 75 && peeked[6] == 32 {
        proof {
            assert(peeked@.subrange(0, 7) =~= hs_prefix());
        }
        Protocol::Handshake
    } else {
        proof {
            if peeked@.len() >= 7 && peeked@.subrange(0, 7) == hs_prefix() {
                assert forall|k: int| 0 <= k < 7 implies peeked@[k] == hs_prefix()[k] by {
                    assert(peeked@.subrange(0, 7)[k] == peeked@[k]);
                }
            }
        }
        Protocol::Unknown
    }
}

/// Parses a handshake frame: the status code, the sender's id, and the
/// sender's address, exactly when the bytes are a well-formed frame.
#[verifier::loop_isolation(false)]
#[verifier::rlimit(100)]
pub fn parse_handshake(s: &[u8]) -> (r: Option<(HandshakeCode, Vec<u8>, Vec<u8>)>)
    ensures
        (match r {
            Some(t) => token_ok(t.1@) && token_ok(t.2@) && s@ == hs_frame(t.0, t.1@, t.2@),
            None => true,
        }),
        forall|c: HandshakeCode, id: Seq<u8>, addr: Seq<u8>|
            token_ok(id) && token_ok(addr) && s@ == #[trigger] hs_frame(c, id, addr) ==> r
                is Some,
{
    let n = s.len();
    if n < 13 || s[0] != 72 || s[1] != 78 || s[2] != 68 || s[3] != 83 || s[4] != 72 || s[5]
        != 75 || s[6] != 32 || s[9] != 32 {
        proof {
            assert forall|c: HandshakeCode, id: Seq<u8>, addr: Seq<u8>|
                token_ok(id) && token_ok(addr) && s@ == #[trigger] hs_frame(
                    c,
                    id,
                    addr,
                ) implies false by {
                lemma_hs_frame_facts(c, id, addr);
            }
        }
        return None;
    }
    let code: HandshakeCode;
    if s[7] == 48 && s[8] == 49 {
        code = HandshakeCode::Request;
    } else if s[7] == 49 && s[8] == 48 {
        code = HandshakeCode::Accept;
    } else if s[7] == 48 && s[8] == 48 {
        code = HandshakeCode::Reject;
    } else {
        proof {
            assert forall|c: HandshakeCode, id: Seq<u8>, addr: Seq<u8>|
                token_ok(id) && token_ok(addr) && s@ == #[trigger] hs_frame(
                    c,
                    id,
                    addr,
                ) implies false by {
                lemma_hs_frame_facts(c, id, addr);
                match c {
                    HandshakeCode::Request => {},
                    HandshakeCode::Accept => {},
                    HandshakeCode::Reject => {},
                }
            }
        }
        return None;
    }
    let mut j: usize = 10;
    while j < n && s[j] != 32
        invariant
            10 <= j <= n,
            forall|k: int| 10 <= k < j ==> s@[k] != 32,
        decreases n - j,
    {
        j = j + 1;
    }
    if j >= n || j == 10 || j + 1 >= n {
        proof {
            assert forall|c: HandshakeCode, id: Seq<u8>, addr: Seq<u8>|
                token_ok(id) && token_ok(addr) && s@ == #[trigger] hs_frame(
                    c,
                    id,
                    addr,
                ) implies false by {
                lemma_hs_frame_facts(c, id, addr);
                assert(s@[10 + id.len() as int] == 32);
                assert(j == 10 + id.len()) by {
                    if j < 10 + id.len() {
                        assert(s@[j as int] == id[j - 10]);
                    }
                }
            }
        }
        return None;
    }
    let mut k: usize = j + 1;
    while k < n
        invariant
            j + 1 <= k <= n,
            forall|m: int| j + 1 <= m < k ==> s@[m] != 32,
        decreases n - k,
    {
        if s[k] == 32 {
            proof {
                assert forall|c: HandshakeCode, id: Seq<u8>, addr: Seq<u8>|
                    token_ok(id) && token_ok(addr) && s@ == #[trigger] hs_frame(
                        c,
                        id,
                        addr,
                    ) implies false by {
                    lemma_hs_frame_facts(c, id, addr);
                    assert(s@[10 + id.len() as int] == 32);
                    assert(j == 10 + id.len()) by {
                        if j < 10 + id.len() {
                            assert(s@[j as int] == id[j - 10]);
                        }
                    }
                    assert(s@[k as int] == addr[k - 11 - id.len()]);
                }
            }
            return None;
        }
        k = k + 1;
    }
    let id = copy_bytes(&s[10..j]);
    let addr = copy_bytes(&s[j + 1..n]);
    proof {
        assert(token_ok(id@));
        assert(token_ok(addr@));
        lemma_hs_frame_facts(code, id@, addr@);
        assert(s@ =~= hs_frame(code, id@, addr@)) by {
            let f = hs_frame(code, id@, addr@);
            assert(f.len() == 11 + (j - 10) + (n - j - 1));
            assert forall|m: int| 0 <= m < s@.len() implies s@[m] == f[m] by {
                if 10 <= m < j {
                    assert(f[m] == id@[m - 10]);
                    assert(id@[m - 10] == s@[m]);
                } else if m > j {
                    assert(f[m] == addr@[m - 11 - id@.len()]);
                    assert(addr@[m - j - 1] == s@[m]);
                }
            }
        }
    }
    Some((code, id, addr))
}

} // verus!
