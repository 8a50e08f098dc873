use vstd::prelude::*;
use crate::bencode::{encoded_at, well_formed, BencodeVal, DecodeError, decode, dict_get, lookup, decodes_to, copy_range};
use crate::keys::{
    failure_reason_key, failure_reason_key_bytes, peers_key, peers_key_bytes, peer_id_key,
    peer_id_key_bytes, ip_key, ip_key_bytes, port_key, port_key_bytes,
};
use crate::primitives::{utf8_decode, utf8_text};

verus! {

/// A field of a peer entry in a tracker response.
#[derive(Debug, Clone, Copy, PartialEq, Eq, Structural)]
pub enum PeerField {
    PeerId,
    Ip,
    Port,
}

/// Why a tracker response was rejected.
#[derive(Debug)]
pub enum TrackerError {
    /// The bytes are not Bencode.
    Decode(DecodeError),
    /// The top-level value is not a dictionary.
    NotADict,
    /// The tracker reported a failure; these are the bytes of its reason.
    Failure(Vec<u8>),
    /// `failure reason` is not a byte string.
    FailureNotString,
    /// `peers` is absent or not a list.
    NoPeerList,
    /// A peer entry lacks a key.
    Missing(PeerField),
    /// A peer entry holds a value of the wrong kind.
    WrongType(PeerField),
    /// A peer's `ip` is not UTF-8.
    NotUtf8(PeerField),
    /// A peer id that is not 20 bytes long, or a port outside `0..=65535`.
    BadValue(PeerField),
}

/// A peer that the tracker named: its 20-byte id, its address as text, and
/// its port.
#[derive(Debug)]
pub struct Peer {
    pub id: Vec<u8>,
    pub ip: String,
    pub port: u16,
}

pub ghost struct PeerView {
    pub id: Seq<u8>,
    pub ip: Seq<char>,
    pub port: u16,
}

impl View for Peer {
    type V = PeerView;

    open spec fn view(&self) -> PeerView {
        PeerView { id: self.id@, ip: self.ip@, port: self.port }
    }
}

pub open spec fn peers_view(ps: Seq<Peer>) -> Seq<PeerView> {
    ps.map_values(|p: Peer| p@)
}

/// The peer that an entry of `peers` describes; `None` for an entry that is
/// not a dictionary, which is passed over.
pub open spec fn peer_of(v: BencodeVal) -> Option<Result<PeerView, TrackerError>> {
    match v {
        BencodeVal::Dict { dict, .. } => Some(
            match lookup(dict@, peer_id_key()) {
                None => Err(TrackerError::Missing(PeerField::PeerId)),
                Some(BencodeVal::Str { byte_str: id, .. }) => if id@.len() != 20 {
                    Err(TrackerError::BadValue(PeerField::PeerId))
                } else {
                    match lookup(dict@, ip_key()) {
                        None => Err(TrackerError::Missing(PeerField::Ip)),
                        Some(BencodeVal::Str { byte_str: ip, .. }) => match utf8_decode(ip@) {
                            None => Err(TrackerError::NotUtf8(PeerField::Ip)),
                            Some(ip_text) => match lookup(dict@, port_key()) {
                                None => Err(TrackerError::Missing(PeerField::Port)),
                                Some(BencodeVal::Int { int: port, .. }) => if 0 <= port
                                    <= 65535 {
                                    Ok(PeerView { id: id@, ip: ip_text, port: port as u16 })
                                } else {
                                    Err(TrackerError::BadValue(PeerField::Port))
                                },
                                Some(_) => Err(TrackerError::WrongType(PeerField::Port)),
                            },
                        },
                        Some(_) => Err(TrackerError::WrongType(PeerField::Ip)),
                    }
                },
                Some(_) => Err(TrackerError::WrongType(PeerField::PeerId)),
            },
        ),
        _ => None,
    }
}

/// The peers that the entries of `peers` describe, or the first entry's error.
pub open spec fn peers_of(s: Seq<BencodeVal>) -> Result<Seq<PeerView>, TrackerError>
    decreases s.len(),
{
    if s.len() == 0 {
        Ok(Seq::empty())
    } else {
        match peers_of(s.drop_last()) {
            Err(e) => Err(e),
            Ok(ps) => match peer_of(s.last()) {
                None => Ok(ps),
                Some(Ok(p)) => Ok(ps.push(p)),
                Some(Err(e)) => Err(e),
            },
        }
    }
}

/// What the decoded tracker response `root` says: its failure, or its peers.
pub open spec fn tracker_of(root: BencodeVal) -> Result<Seq<PeerView>, TrackerError> {
    match root {
        BencodeVal::Dict { dict, .. } => match lookup(dict@, failure_reason_key()) {
            Some(BencodeVal::Str { byte_str, .. }) => Err(TrackerError::Failure(byte_str)),
            Some(_) => Err(TrackerError::FailureNotString),
            None => match lookup(dict@, peers_key()) {
                Some(BencodeVal::List { list, .. }) => peers_of(list@),
                _ => Err(TrackerError::NoPeerList),
            },
        },
        _ => Err(TrackerError::NotADict),
    }
}

fn peer_from(v: &BencodeVal) -> (r: Option<Result<Peer, TrackerError>>)
    ensures
        !(r matches Some(Err(TrackerError::Decode(_)))),
        match r {
            Some(Ok(p)) => peer_of(*v) == Some(Ok::<PeerView, TrackerError>(p@)),
            Some(Err(e)) => peer_of(*v) == Some(Err::<PeerView, TrackerError>(e)),
            None => peer_of(*v) is None,
        },
{
    let dict = match v {
        BencodeVal::Dict { dict, .. } => dict,
        _ => return None,
    };
    let id = match dict_get(dict, peer_id_key_bytes().as_slice()) {
        None => return Some(Err(TrackerError::Missing(PeerField::PeerId))),
        Some(BencodeVal::Str { byte_str, .. }) => byte_str,
        Some(_) => return Some(Err(TrackerError::WrongType(PeerField::PeerId))),
    };
    if id.len() != 20 {
        return Some(Err(TrackerError::BadValue(PeerField::PeerId)));
    }
    let ip_bytes = match dict_get(dict, ip_key_bytes().as_slice()) {
        None => return Some(Err(TrackerError::Missing(PeerField::Ip))),
        Some(BencodeVal::Str { byte_str, .. }) => byte_str,
        Some(_) => return Some(Err(TrackerError::WrongType(PeerField::Ip))),
    };
    let ip = match utf8_text(ip_bytes.as_slice()) {
        None => return Some(Err(TrackerError::NotUtf8(PeerField::Ip))),
        Some(t) => t,
    };
    let port = match dict_get(dict, port_key_bytes().as_slice()) {
        None => return Some(Err(TrackerError::Missing(PeerField::Port))),
        Some(BencodeVal::Int { int: n, .. }) => *n,
        Some(_) => return Some(Err(TrackerError::WrongType(PeerField::Port))),
    };
    if port < 0 || port > 65535 {
        return Some(Err(TrackerError::BadValue(PeerField::Port)));
    }
    let id_copy = copy_range(id.as_slice(), 0, 20);
    assert(id_copy@ =~= id@);
    Some(Ok(Peer { id: id_copy, ip, port: port as u16 }))
}

/// An error in the peers of a prefix of the entries is the error of them all.
proof fn lemma_peers_error_kept(s: Seq<BencodeVal>, k: int, e: TrackerError)
    requires
        0 <= k <= s.len(),
        peers_of(s.subrange(0, k)) == Err::<Seq<PeerView>, TrackerError>(e),
    ensures
        peers_of(s) == Err::<Seq<PeerView>, TrackerError>(e),
    decreases s.len() - k,
{
    if k == s.len() {
        assert(s.subrange(0, k) =~= s);
    } else {
        assert(s.subrange(0, k + 1).drop_last() =~= s.subrange(0, k));
        lemma_peers_error_kept(s, k + 1, e);
    }
}

fn peers_from(list: &Vec<BencodeVal>) -> (r: Result<Vec<Peer>, TrackerError>)
    ensures
        !(r matches Err(TrackerError::Decode(_))),
        match r {
            Ok(ps) => peers_of(list@) == Ok::<Seq<PeerView>, TrackerError>(peers_view(ps@)),
            Err(e) => peers_of(list@) == Err::<Seq<PeerView>, TrackerError>(e),
        },
{
    let mut out: Vec<Peer> = Vec::new();
    let mut k: usize = 0;
    assert(list@.subrange(0, 0) =~= Seq::<BencodeVal>::empty());
    assert(peers_view(out@) =~= Seq::<PeerView>::empty());
    while k < list.len()
        invariant
            0 <= k <= list@.len(),
            peers_of(list@.subrange(0, k as int)) == Ok::<Seq<PeerView>, TrackerError>(
                peers_view(out@),
            ),
        decreases list@.len() - k,
    {
        assert(list@.subrange(0, k + 1).drop_last() =~= list@.subrange(0, k as int));
        assert(list@.subrange(0, k + 1).last() == list@[k as int]);
        match peer_from(&list[k]) {
            None => {},
            Some(Ok(p)) => {
                let ghost prev = out@;
                out.push(p);
                assert(peers_view(out@) =~= peers_view(prev).push(p@));
            },
            Some(Err(e)) => {
                proof {
                    lemma_peers_error_kept(list@, k + 1, e);
                }
                return Err(e);
            },
        }
        k = k + 1;
    }
    assert(list@.subrange(0, k as int) =~= list@);
    Ok(out)
}

/// Reads a tracker response: the failure it reports, or its list of peers.
pub fn parse_response(response: &[u8]) -> (r: Result<Vec<Peer>, TrackerError>)
    ensures
        match r {
            Ok(ps) => exists|root: BencodeVal, n: int|
                decodes_to(response@, root, n) && tracker_of(root) == Ok::<
                    Seq<PeerView>,
                    TrackerError,
                >(peers_view(ps@)),
            Err(TrackerError::Decode(_)) => forall|w: BencodeVal|
                #[trigger] encoded_at(w, response@, 0) ==> !well_formed(w),
            Err(TrackerError::Failure(b)) => exists|root: BencodeVal, n: int|
                decodes_to(response@, root, n) && (tracker_of(root) matches Err(
                    TrackerError::Failure(c),
                ) && c@ == b@),
            Err(e) => exists|root: BencodeVal, n: int|
                decodes_to(response@, root, n) && tracker_of(root) == Err::<
                    Seq<PeerView>,
                    TrackerError,
                >(e),
        },
{
    let (root, n) = match decode(response) {
        Ok(p) => p,
        Err(e) => return Err(TrackerError::Decode(e)),
    };
    assert(decodes_to(response@, root, n as int));
    let dict = match &root {
        BencodeVal::Dict { dict, .. } => dict,
        _ => return Err(TrackerError::NotADict),
    };
    match dict_get(dict, failure_reason_key_bytes().as_slice()) {
        Some(BencodeVal::Str { byte_str, .. }) => {
            let reason = copy_range(byte_str.as_slice(), 0, byte_str.len());
            assert(reason@ =~= byte_str@);
            return Err(TrackerError::Failure(reason));
        },
        Some(_) => return Err(TrackerError::FailureNotString),
        None => {},
    }
    match dict_get(dict, peers_key_bytes().as_slice()) {
        Some(BencodeVal::List { list, .. }) => peers_from(list),
        _ => Err(TrackerError::NoPeerList),
    }
}

} // verus!
