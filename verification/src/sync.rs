//! Catch-up synchronization decisions: which peer to download a
//! snapshot from, and whether its archive step succeeded. The HTTP
//! calls themselves are the embedding's; the choices are made here.

use vstd::prelude::*;

verus! {

/// A peer's height report, as the height query returns it: the peer's
/// node id and its chain height.
pub struct Len {
    pub uuid: String,
    pub len: u32,
}

/// A peer's answer to an archive request: its node id and an HTTP-style
/// status, 200 on success.
pub struct Msg {
    pub uuid: String,
    pub status: u32,
}

/// A height report paired with the peer address it came from.
pub struct PeerHeight {
    pub addr: Vec<u8>,
    pub len: u32,
}

/// Picks the donor for catch-up: the first peer whose reported height
/// is maximal, provided it exceeds the local height; nobody when no
/// peer is ahead.
pub fn select_sync_peer(local_height: u32, reports: &Vec<PeerHeight>) -> (r: Option<usize>)
    ensures
        match r {
            Some(i) => {
                &&& i < reports@.len()
                &&& reports@[i as int].len > local_height
                &&& (forall|j: int|
                    0 <= j < reports@.len() ==> (#[trigger] reports@[j]).len
                        <= reports@[i as int].len)
                &&& (forall|j: int|
                    0 <= j < i ==> (#[trigger] reports@[j]).len < reports@[i as int].len)
            },
            None => forall|j: int|
                0 <= j < reports@.len() ==> (#[trigger] reports@[j]).len <= local_height,
        },
{
    let mut best: Option<usize> = None;
    let mut best_len: u32 = local_height;
    let mut i: usize = 0;
    while i < reports.len()
        invariant
            i <= reports@.len(),
            match best {
                Some(b) => b < i && reports@[b as int].len == best_len && best_len > local_height
                    && (forall|j: int|
                    0 <= j < i ==> (#[trigger] reports@[j]).len <= best_len) && (forall|j: int|
                    0 <= j < b ==> (#[trigger] reports@[j]).len < best_len),
                None => best_len == local_height && (forall|j: int|
                    0 <= j < i ==> (#[trigger] reports@[j]).len <= local_height),
            },
        decreases reports@.len() - i,
    {
        if reports[i].len > best_len {
            best = Some(i);
            best_len = reports[i].len;
        }
        i = i + 1;
    }
    best
}

/// Whether a peer's archive answer lets the snapshot download proceed:
/// only a success status does, and any other answer aborts this round
/// of synchronization.
pub fn archive_ok(m: &Msg) -> (r: bool)
    ensures
        r == (m.status == 200),
{
    m.status == 200
}

} // verus!
