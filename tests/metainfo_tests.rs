use torrent::metainfo::{Field, MetaError, TorrentMetaInfo};
use torrent::tracker::{parse_response, PeerField, TrackerError};

fn sha1(b: &[u8]) -> Vec<u8> {
    sha1::Sha1::from(b).digest().bytes().to_vec()
}

fn bstr(s: &[u8]) -> Vec<u8> {
    let mut v = format!("{}:", s.len()).into_bytes();
    v.extend_from_slice(s);
    v
}

fn torrent_bytes(info_body: &[u8]) -> (Vec<u8>, Vec<u8>) {
    let mut info = b"d".to_vec();
    info.extend_from_slice(info_body);
    info.push(b'e');
    let mut t = b"d8:announce".to_vec();
    t.extend(bstr(b"http://tracker.example/announce"));
    t.extend_from_slice(b"4:info");
    t.extend_from_slice(&info);
    t.push(b'e');
    (t, info)
}

fn single_file_info(pieces: &[u8]) -> Vec<u8> {
    let mut body = b"6:lengthi50e4:name8:file.bin12:piece lengthi20e6:pieces".to_vec();
    body.extend(bstr(pieces));
    body
}

#[test]
fn single_file_torrent() {
    let pieces: Vec<u8> = (0u8..60).collect();
    let (t, info) = torrent_bytes(&single_file_info(&pieces));
    let m = TorrentMetaInfo::new(&t).unwrap();
    assert_eq!(m.announce, "http://tracker.example/announce");
    assert_eq!(m.info.name, "file.bin");
    assert_eq!(m.info.piece_length, 20);
    assert_eq!(m.info.length, Some(50));
    assert!(m.info.files.is_none());
    assert_eq!(m.info.pieces.len(), 3);
    assert_eq!(m.info.pieces[1], pieces[20..40].to_vec());
    assert_eq!(m.info.hash, sha1(&info));
    assert_eq!(m.info.total_length(), Some(50));
    let table = m.info.piece_table().unwrap();
    let lengths: Vec<u64> = table.iter().map(|p| p.length).collect();
    assert_eq!(lengths, vec![20, 20, 10]);
    assert_eq!(table[2].hash, pieces[40..60].to_vec());
}

#[test]
fn info_hash_of_recorded_range() {
    let mut t = b"d8:announce3:url4:info".to_vec();
    let info = b"d6:lengthi1e4:name1:a12:piece lengthi1e6:pieces20:aaaaaaaaaaaaaaaaaaaae".to_vec();
    t.extend_from_slice(&info);
    t.push(b'e');
    let m = TorrentMetaInfo::new(&t).unwrap();
    assert_eq!(m.info.hash, sha1(&t[22..22 + info.len()]));
    assert_eq!(m.info.hash, sha1(&info));
    assert_ne!(m.info.hash, sha1(&t));
}

#[test]
fn multi_file_torrent() {
    let mut body = b"5:filesld6:lengthi30e4:pathl3:dir5:a.txteed6:lengthi15e4:pathl5:b.txteee".to_vec();
    body.extend_from_slice(b"4:name3:dir12:piece lengthi16e6:pieces");
    body.extend(bstr(&[7u8; 60]));
    let (t, _) = torrent_bytes(&body);
    let m = TorrentMetaInfo::new(&t).unwrap();
    let files = m.info.files.as_ref().unwrap();
    assert_eq!(files.len(), 2);
    assert_eq!(files[0].length, 30);
    assert_eq!(files[0].path, "dir/a.txt");
    assert_eq!(files[1].path, "b.txt");
    assert_eq!(m.info.total_length(), Some(45));
    let lengths: Vec<u64> = m.info.piece_table().unwrap().iter().map(|p| p.length).collect();
    assert_eq!(lengths, vec![16, 16, 13]);
}

#[test]
fn descriptor_errors() {
    assert!(matches!(TorrentMetaInfo::new(b""), Err(MetaError::Decode(_))));
    assert!(matches!(TorrentMetaInfo::new(b"le"), Err(MetaError::NotADict)));
    assert!(matches!(
        TorrentMetaInfo::new(b"d4:infodee"),
        Err(MetaError::Missing(Field::Announce))
    ));
    assert!(matches!(
        TorrentMetaInfo::new(b"d8:announcei1ee"),
        Err(MetaError::WrongType(Field::Announce))
    ));
    assert!(matches!(
        TorrentMetaInfo::new(b"d8:announce1:\xffe"),
        Err(MetaError::NotUtf8(Field::Announce))
    ));
    assert!(matches!(
        TorrentMetaInfo::new(b"d8:announce1:ae"),
        Err(MetaError::Missing(Field::Info))
    ));
    let (t, _) = torrent_bytes(&single_file_info(&[1u8; 21]));
    assert!(matches!(TorrentMetaInfo::new(&t), Err(MetaError::BadValue(Field::Pieces))));
    let (t, _) = torrent_bytes(b"4:name1:a12:piece lengthi0e6:pieces0:");
    assert!(matches!(TorrentMetaInfo::new(&t), Err(MetaError::BadValue(Field::PieceLength))));
    let (t, _) = torrent_bytes(b"4:name1:a12:piece length1:x6:pieces0:");
    assert!(matches!(TorrentMetaInfo::new(&t), Err(MetaError::WrongType(Field::PieceLength))));
    let (t, _) = torrent_bytes(b"4:name1:a12:piece lengthi4e6:pieces0:");
    assert!(matches!(TorrentMetaInfo::new(&t), Err(MetaError::Missing(Field::Length))));
    let (t, _) = torrent_bytes(b"5:filesld4:pathl1:aeee4:name1:a12:piece lengthi4e6:pieces0:");
    assert!(matches!(TorrentMetaInfo::new(&t), Err(MetaError::Missing(Field::FileLength))));
}

fn peer_entry(id: &[u8], ip: &[u8], port: i64) -> Vec<u8> {
    let mut v = b"d2:ip".to_vec();
    v.extend(bstr(ip));
    v.extend_from_slice(b"7:peer id");
    v.extend(bstr(id));
    v.extend_from_slice(format!("4:porti{}ee", port).as_bytes());
    v
}

#[test]
fn tracker_peers() {
    let mut r = b"d8:intervali900e5:peersl".to_vec();
    r.extend(peer_entry(&[b'A'; 20], b"10.0.0.1", 6881));
    r.extend(peer_entry(&[b'B'; 20], b"::1", 51413));
    r.extend_from_slice(b"ee");
    let peers = parse_response(&r).unwrap();
    assert_eq!(peers.len(), 2);
    assert_eq!(peers[0].id, vec![b'A'; 20]);
    assert_eq!(peers[0].ip, "10.0.0.1");
    assert_eq!(peers[0].port, 6881);
    assert_eq!(peers[1].ip, "::1");
    assert_eq!(peers[1].port, 51413);
}

#[test]
fn tracker_errors() {
    match parse_response(b"d14:failure reason6:bannede") {
        Err(TrackerError::Failure(reason)) => assert_eq!(reason, b"banned".to_vec()),
        _ => panic!("expected a failure"),
    }
    assert!(matches!(parse_response(b"d5:peersi1ee"), Err(TrackerError::NoPeerList)));
    assert!(matches!(parse_response(b"i1e"), Err(TrackerError::NotADict)));
    let mut r = b"d5:peersl".to_vec();
    r.extend(peer_entry(&[b'A'; 19], b"10.0.0.1", 6881));
    r.extend_from_slice(b"ee");
    assert!(matches!(parse_response(&r), Err(TrackerError::BadValue(PeerField::PeerId))));
    let mut r = b"d5:peersl".to_vec();
    r.extend(peer_entry(&[b'A'; 20], b"10.0.0.1", 70000));
    r.extend_from_slice(b"ee");
    assert!(matches!(parse_response(&r), Err(TrackerError::BadValue(PeerField::Port))));
}
