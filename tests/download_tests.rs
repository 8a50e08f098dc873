use torrent::coordinator::{Coordinator, Job};
use torrent::download::{build_pieces, JobState, Piece};
use torrent::wire::{
    handshake_matches, handshake_message, interested_message, parse_frame, request_message,
    BlockOutcome, PeerMsg, PeerWorker, WorkerAction,
};

fn sha1(b: &[u8]) -> Vec<u8> {
    sha1::Sha1::from(b).digest().bytes().to_vec()
}

fn table(n: u32) -> Vec<Piece> {
    (0..n).map(|i| Piece::new(i, 10, vec![i as u8; 20])).collect()
}

fn job_index(j: &Option<Job>) -> Option<u32> {
    j.as_ref().map(|j| j.index)
}

#[test]
fn last_piece_shorter() {
    let hashes: Vec<Vec<u8>> = (0..3u8).map(|i| vec![i; 20]).collect();
    let t = build_pieces(16, 40, &hashes).unwrap();
    let lengths: Vec<u64> = t.iter().map(|p| p.length).collect();
    assert_eq!(lengths, vec![16, 16, 8]);
    assert_eq!(lengths.iter().sum::<u64>(), 40);
    assert!(t.iter().enumerate().all(|(i, p)| p.index as usize == i));
    assert!(t.iter().all(|p| p.job_state == JobState::Available && p.peers.is_empty()));
    let exact = build_pieces(10, 40, &hashes.iter().cloned().chain(vec![vec![9; 20]]).collect()).unwrap();
    assert_eq!(exact.iter().map(|p| p.length).collect::<Vec<u64>>(), vec![10, 10, 10, 10]);
    assert!(build_pieces(10, 40, &hashes).is_none());
    assert!(build_pieces(10, 0, &hashes).unwrap().is_empty());
}

#[test]
fn two_peers_four_pieces() {
    let mut c = Coordinator::new(table(4), 2);
    let first = c.on_bitfield(0, &vec![0b1100_0000]);
    assert!(first.is_empty());
    let first = c.on_bitfield(1, &vec![0b0011_0000]);
    assert_eq!(first.len(), 2);
    assert_eq!(first[0].0, 0);
    assert_eq!(job_index(&first[0].1), Some(0));
    assert_eq!(first[1].0, 1);
    assert_eq!(job_index(&first[1].1), Some(2));
    assert_eq!(c.pieces[0].peers, vec![0]);
    assert_eq!(c.pieces[3].peers, vec![1]);

    let a = c.on_piece(0, 0, vec![1; 10]);
    assert_eq!(job_index(&a.next), Some(1));
    assert!(!a.finished);
    let b = c.on_piece(1, 2, vec![2; 10]);
    assert_eq!(job_index(&b.next), Some(3));
    assert!(!b.finished);
    let a = c.on_piece(0, 1, vec![3; 10]);
    assert!(a.next.is_none());
    assert!(!a.finished);
    let b = c.on_piece(1, 3, vec![4; 10]);
    assert!(b.next.is_none());
    assert!(b.finished);
    assert!(c.pieces.iter().all(|p| p.job_state == JobState::Done));
    let written = c.drain();
    let indices: Vec<u32> = written.iter().map(|(i, _)| *i).collect();
    assert_eq!(indices, vec![0, 2, 1, 3]);
}

#[test]
fn rarest_piece_first() {
    let mut c = Coordinator::new(table(3), 2);
    c.on_bitfield(0, &vec![0b1110_0000]);
    let jobs = c.on_bitfield(1, &vec![0b1100_0000]);
    assert_eq!(job_index(&jobs[0].1), Some(2));
    assert_eq!(job_index(&jobs[1].1), Some(0));
    assert_eq!(c.pieces[1].job_state, JobState::Available);
    assert_eq!(c.pieces[0].job_state, JobState::Downloading);
}

#[test]
fn single_peer_with_last_piece_only() {
    let mut c = Coordinator::new(table(3), 1);
    let jobs = c.on_bitfield(0, &vec![0b0010_0000]);
    assert_eq!(job_index(&jobs[0].1), Some(2));
    assert_eq!(jobs[0].1.as_ref().unwrap().length, 10);
    let out = c.on_piece(0, 2, vec![0; 10]);
    assert!(out.next.is_none());
    assert!(out.finished);
}

#[test]
fn no_owner_no_job() {
    let mut c = Coordinator::new(table(2), 1);
    let jobs = c.on_bitfield(0, &vec![0]);
    assert!(jobs[0].1.is_none());
    assert!(c.all_idle());
}

#[test]
fn late_bitfield_ignored() {
    let mut c = Coordinator::new(table(2), 1);
    c.on_bitfield(0, &vec![0b1000_0000]);
    let again = c.on_bitfield(0, &vec![0b0100_0000]);
    assert!(again.is_empty());
    assert!(c.pieces[1].peers.is_empty());
}

#[test]
fn holds_tracks_current_job() {
    let mut c = Coordinator::new(table(2), 1);
    c.on_bitfield(0, &vec![0b1000_0000]);
    assert!(c.holds(0, 0));
    assert!(!c.holds(0, 1));
    assert!(!c.holds(5, 0));
}

fn piece_msg(index: u32, begin: u32, block: &[u8]) -> Vec<u8> {
    let mut p = index.to_be_bytes().to_vec();
    p.extend_from_slice(&begin.to_be_bytes());
    p.extend_from_slice(block);
    p
}

#[test]
fn hash_mismatch_then_retry() {
    let good = vec![5u8; 20000];
    let mut w = PeerWorker::new();
    let first = w.start_job(3, 20000, sha1(&good)).unwrap();
    assert_eq!(first, request_message(3, 0, 16384));
    let bad = vec![6u8; 16384];
    match w.on_block(&piece_msg(3, 0, &bad)) {
        BlockOutcome::Request(m) => assert_eq!(m, request_message(3, 16384, 3616)),
        _ => panic!("expected a request"),
    }
    match w.on_block(&piece_msg(3, 16384, &good[16384..])) {
        BlockOutcome::Retry(m) => assert_eq!(m, request_message(3, 0, 16384)),
        _ => panic!("expected a retry"),
    }
    assert_eq!(w.job.as_ref().unwrap().downloaded, 0);
    assert!(w.buffer.is_empty());
    let mut forwarded = 0;
    match w.on_block(&piece_msg(3, 0, &good[..16384])) {
        BlockOutcome::Request(_) => {}
        _ => panic!("expected a request"),
    }
    match w.on_block(&piece_msg(3, 16384, &good[16384..])) {
        BlockOutcome::Complete { index, data } => {
            forwarded += 1;
            assert_eq!(index, 3);
            assert_eq!(data, good);
        }
        _ => panic!("expected completion"),
    }
    assert_eq!(forwarded, 1);
    assert!(w.job.is_none());
    assert!(matches!(w.on_block(&piece_msg(3, 0, &good[..10])), BlockOutcome::Ignored));
}

#[test]
fn finish_compares_digest() {
    let mut w = PeerWorker::new();
    w.start_job(1, 4, vec![9; 20]);
    match w.on_block(&piece_msg(1, 0, &[1, 2, 3])) {
        BlockOutcome::Request(m) => assert_eq!(m, request_message(1, 3, 1)),
        _ => panic!("expected a request"),
    }
    assert!(matches!(w.on_block(&[0, 0, 0]), BlockOutcome::Ignored));
    w.buffer.push(4);
    w.job.as_mut().unwrap().downloaded = 4;
    match w.finish(&[9; 20]) {
        BlockOutcome::Complete { index, data } => {
            assert_eq!(index, 1);
            assert_eq!(data, vec![1, 2, 3, 4]);
        }
        _ => panic!("expected completion"),
    }
}

#[test]
fn overlong_block_restarts() {
    let mut w = PeerWorker::new();
    w.start_job(0, 4, vec![0; 20]);
    assert!(matches!(w.on_block(&piece_msg(0, 0, &[1, 2, 3, 4, 5])), BlockOutcome::Retry(_)));
}

#[test]
fn handshake_layout() {
    let h = handshake_message(&[1u8; 20], b"01234567890123456789");
    assert_eq!(h.len(), 68);
    assert_eq!(h[0], 19);
    assert_eq!(&h[1..20], b"BitTorrent protocol");
    assert_eq!(&h[20..28], &[0u8; 8]);
    assert_eq!(&h[28..48], &[1u8; 20]);
    assert_eq!(&h[48..68], b"01234567890123456789");
    assert!(handshake_matches(&h, b"01234567890123456789"));
    assert!(!handshake_matches(&h, &[0u8; 20]));
    assert!(!handshake_matches(&h[..67], b"01234567890123456789"));
}

#[test]
fn request_and_interested_bytes() {
    assert_eq!(
        request_message(0x01020304, 16384, 16384),
        vec![0, 0, 0, 13, 6, 1, 2, 3, 4, 0, 0, 0x40, 0, 0, 0, 0x40, 0]
    );
    assert_eq!(interested_message(), vec![0, 0, 0, 1, 2]);
}

#[test]
fn frames() {
    assert!(parse_frame(&[0, 0, 0]).is_none());
    let (m, used) = parse_frame(&[0, 0, 0, 0, 9]).unwrap();
    assert!(m.is_none());
    assert_eq!(used, 4);
    let (m, used) = parse_frame(&[0, 0, 0, 1, 1]).unwrap();
    let m = m.unwrap();
    assert_eq!((m.id, m.payload.is_none(), used), (1, true, 5));
    assert!(parse_frame(&[0, 0, 0, 3, 5, 0xff]).is_none());
    let (m, used) = parse_frame(&[0, 0, 0, 3, 5, 0xff, 0x80, 7]).unwrap();
    let m = m.unwrap();
    assert_eq!(m.id, 5);
    assert_eq!(m.payload.unwrap(), vec![0xff, 0x80]);
    assert_eq!(used, 7);
}

#[test]
fn message_dispatch() {
    let mut w = PeerWorker::new();
    let unchoke = PeerMsg { id: 1, payload: None };
    assert!(matches!(w.on_message(unchoke), WorkerAction::Nothing));
    w.start_job(2, 20000, vec![0; 20]);
    match w.on_message(PeerMsg { id: 1, payload: None }) {
        WorkerAction::Send(m) => assert_eq!(m, request_message(2, 0, 16384)),
        _ => panic!("expected a request"),
    }
    match w.on_message(PeerMsg { id: 5, payload: Some(vec![0xf0]) }) {
        WorkerAction::Bitfield(b) => assert_eq!(b, vec![0xf0]),
        _ => panic!("expected a bitfield"),
    }
    match w.on_message(PeerMsg { id: 7, payload: Some(piece_msg(2, 0, &[1; 100])) }) {
        WorkerAction::Block(BlockOutcome::Request(m)) => {
            assert_eq!(m, request_message(2, 100, 16384))
        }
        _ => panic!("expected the next request"),
    }
    assert!(matches!(
        w.on_message(PeerMsg { id: 4, payload: Some(vec![0, 0, 0, 1]) }),
        WorkerAction::Unhandled(4)
    ));
    assert_eq!(w.job.as_ref().unwrap().downloaded, 100);
}
