use vstd::prelude::*;
use crate::bencode::bytes_equal;
use crate::primitives::{sha1_of, sha1_digest};

verus! {

/// The largest block asked for in one request: 16 KiB.
pub const BLOCK_SIZE: u64 = 16384;

/// The ASCII bytes of `BitTorrent protocol`.
pub open spec fn protocol_name() -> Seq<u8> {
    seq![66u8, 105, 116, 84, 111, 114, 114, 101, 110, 116, 32, 112, 114, 111, 116, 111, 99, 111, 108]
}

/// The handshake: the name's length 19, the name, 8 zero bytes, the
/// info-hash and the peer id.
pub open spec fn handshake_spec(info_hash: Seq<u8>, peer_id: Seq<u8>) -> Seq<u8> {
    seq![19u8] + protocol_name() + Seq::new(8, |i: int| 0u8) + info_hash + peer_id
}

/// The four big-endian bytes of `x`.
pub open spec fn be32(x: u32) -> Seq<u8> {
    seq![(x / 16777216) as u8, (x / 65536 % 256) as u8, (x / 256 % 256) as u8, (x % 256) as u8]
}

/// The number whose big-endian bytes are `b[0..4]`.
pub open spec fn be32_value(b: Seq<u8>) -> int {
    b[0] * 16777216 + b[1] * 65536 + b[2] * 256 + b[3]
}

/// The `request` message for `len` bytes at `begin` of piece `index`.
pub open spec fn request_spec(index: u32, begin: u32, len: u32) -> Seq<u8> {
    seq![0u8, 0, 0, 13, 6] + be32(index) + be32(begin) + be32(len)
}

/// The handshake that opens a connection.
pub fn handshake_message(info_hash: &[u8], peer_id: &[u8]) -> (r: Vec<u8>)
    requires
        info_hash@.len() == 20,
        peer_id@.len() == 20,
    ensures
        r@ == handshake_spec(info_hash@, peer_id@),
        r@.len() == 68,
{
    let mut r: Vec<u8> = vec![19u8, 66, 105, 116, 84, 111, 114, 114, 101, 110, 116, 32, 112, 114, 111, 116, 111, 99, 111, 108, 0, 0, 0, 0, 0, 0, 0, 0];
    let mut i: usize = 0;
    while i < 20
        invariant
            0 <= i <= 20,
            info_hash@.len() == 20,
            r@ == seq![19u8] + protocol_name() + Seq::new(8, |i: int| 0u8) + info_hash@.subrange(0, i as int),
        decreases 20 - i,
    {
        r.push(info_hash[i]);
        assert(info_hash@.subrange(0, i + 1) =~= info_hash@.subrange(0, i as int).push(info_hash@[i as int]));
        i = i + 1;
    }
    let mut j: usize = 0;
    while j < 20
        invariant
            0 <= j <= 20,
            peer_id@.len() == 20,
            info_hash@.len() == 20,
            r@ == seq![19u8] + protocol_name() + Seq::new(8, |i: int| 0u8) + info_hash@ + peer_id@.subrange(0, j as int),
        decreases 20 - j,
    {
        r.push(peer_id[j]);
        assert(peer_id@.subrange(0, j + 1) =~= peer_id@.subrange(0, j as int).push(peer_id@[j as int]));
        j = j + 1;
    }
    assert(info_hash@.subrange(0, 20) =~= info_hash@);
    assert(peer_id@.subrange(0, 20) =~= peer_id@);
    r
}

/// Whether a 68-byte handshake reply carries the expected peer id.
pub fn handshake_matches(reply: &[u8], expected_id: &[u8]) -> (r: bool)
    ensures
        r == (reply@.len() == 68 && reply@.subrange(48, 68) == expected_id@),
{
    if reply.len() != 68 {
        return false;
    }
    let mut i: usize = 0;
    if expected_id.len() != 20 {
        return false;
    }
    while i < 20
        invariant
            0 <= i <= 20,
            reply@.len() == 68,
            expected_id@.len() == 20,
            forall|k: int| 0 <= k < i ==> reply@[48 + k] == expected_id@[k],
        decreases 20 - i,
    {
        if reply[48 + i] != expected_id[i] {
            assert(reply@.subrange(48, 68)[i as int] != expected_id@[i as int]);
            return false;
        }
        i = i + 1;
    }
    assert(reply@.subrange(48, 68) =~= expected_id@);
    true
}

fn push_be32(out: &mut Vec<u8>, x: u32)
    ensures
        final(out)@ == old(out)@ + be32(x),
{
    out.push((x / 16777216) as u8);
    out.push((x / 65536 % 256) as u8);
    out.push((x / 256 % 256) as u8);
    out.push((x % 256) as u8);
    assert(final(out)@ =~= old(out)@ + be32(x));
}

/// The `request` message (id 6) for `len` bytes at `begin` of piece `index`.
pub fn request_message(index: u32, begin: u32, len: u32) -> (r: Vec<u8>)
    ensures
        r@ == request_spec(index, begin, len),
{
    let mut r: Vec<u8> = vec![0u8, 0, 0, 13, 6];
    push_be32(&mut r, index);
    push_be32(&mut r, begin);
    push_be32(&mut r, len);
    assert(r@ =~= request_spec(index, begin, len));
    r
}

/// The `interested` message (id 2).
pub fn interested_message() -> (r: Vec<u8>)
    ensures
        r@ == seq![0u8, 0, 0, 1, 2],
{
    let r: Vec<u8> = vec![0u8, 0, 0, 1, 2];
    assert(r@ =~= seq![0u8, 0, 0, 1, 2]);
    r
}

/// A message from a peer: its id and, when it has one, its payload.
#[derive(Debug)]
pub struct PeerMsg {
    pub id: u8,
    pub payload: Option<Vec<u8>>,
}

/// Reads the first frame of `bytes`: a big-endian length, then that many
/// bytes of id and payload. `None` while the frame is incomplete; otherwise
/// the message (`None` for a keep-alive, whose length is 0) and the number of
/// bytes the frame takes.
pub fn parse_frame(bytes: &[u8]) -> (r: Option<(Option<PeerMsg>, usize)>)
    ensures
        match r {
            None => bytes@.len() < 4 || bytes@.len() < 4 + be32_value(bytes@),
            Some((msg, used)) => {
                &&& bytes@.len() >= 4
                &&& used == 4 + be32_value(bytes@) <= bytes@.len()
                &&& match msg {
                    None => be32_value(bytes@) == 0,
                    Some(m) => {
                        &&& be32_value(bytes@) > 0
                        &&& m.id == bytes@[4]
                        &&& match m.payload {
                            None => be32_value(bytes@) == 1,
                            Some(p) => be32_value(bytes@) > 1 && p@ == bytes@.subrange(5, used as int),
                        }
                    },
                }
            },
        },
{
    if bytes.len() < 4 {
        return None;
    }
    let len: u64 = (bytes[0] as u64) * 16777216 + (bytes[1] as u64) * 65536 + (bytes[2] as u64) * 256
        + (bytes[3] as u64);
    if len > (bytes.len() - 4) as u64 {
        return None;
    }
    let used = 4 + len as usize;
    if len == 0 {
        return Some((None, used));
    }
    let id = bytes[4];
    if len == 1 {
        return Some((Some(PeerMsg { id, payload: None }), used));
    }
    let payload = crate::bencode::copy_range(bytes, 5, used);
    Some((Some(PeerMsg { id, payload: Some(payload) }), used))
}

/// The piece a worker is downloading, and how many of its bytes have come.
#[derive(Debug)]
pub struct WorkerJob {
    pub index: u32,
    pub length: u64,
    pub downloaded: u64,
    pub hash: Vec<u8>,
}

/// The size of the next block of a piece of `length` bytes of which
/// `downloaded` have come: what is left, at most `BLOCK_SIZE`.
pub open spec fn block_len(length: u64, downloaded: u64) -> u64 {
    if length - downloaded < BLOCK_SIZE {
        (length - downloaded) as u64
    } else {
        BLOCK_SIZE
    }
}

/// The request for the next block of job `j`.
pub open spec fn next_request_spec(j: WorkerJob) -> Seq<u8> {
    request_spec(j.index, j.downloaded as u32, block_len(j.length, j.downloaded) as u32)
}

/// `k` is job `j` with `downloaded` bytes come.
pub open spec fn job_at(k: WorkerJob, j: WorkerJob, downloaded: int) -> bool {
    &&& k.index == j.index
    &&& k.length == j.length
    &&& k.hash@ == j.hash@
    &&& k.downloaded == downloaded
}

/// What a worker does after a `piece` message.
#[derive(Debug)]
pub enum BlockOutcome {
    /// Nothing: no job is active, or the message is too short.
    Ignored,
    /// Send this request for the next block.
    Request(Vec<u8>),
    /// The piece is complete and its digest matches: hand it on.
    Complete { index: u32, data: Vec<u8> },
    /// The piece was wrong: it is discarded, and this request starts it again.
    Retry(Vec<u8>),
}

/// One `piece` message with payload `payload` takes worker `w` to `w2` with
/// outcome `r`: see `PeerWorker::on_block`.
pub open spec fn block_step(w: PeerWorker, payload: Seq<u8>, w2: PeerWorker, r: BlockOutcome) -> bool {
    &&& (w.job is None || payload.len() < 8) ==> {
        &&& r is Ignored
        &&& w2.job == w.job
        &&& w2.buffer@ == w.buffer@
    }
    &&& ({
        let j = w.job->0;
        let block = payload.subrange(8, payload.len() as int);
        let got = w.buffer@ + block;
        w.job is Some && payload.len() >= 8 ==> if got.len() > j.length {
            &&& r matches BlockOutcome::Retry(m) && m@ == request_spec(
                j.index,
                0,
                block_len(j.length, 0) as u32,
            )
            &&& w2.job matches Some(k) && job_at(k, j, 0)
            &&& w2.buffer@.len() == 0
        } else if got.len() < j.length {
            &&& w2.job matches Some(k) && job_at(k, j, got.len() as int)
            &&& r matches BlockOutcome::Request(m) && m@ == next_request_spec(w2.job->0)
            &&& w2.buffer@ == got
        } else if sha1_of(got) == j.hash@ {
            &&& r matches BlockOutcome::Complete { index, data } && index == j.index && data@ == got
            &&& w2.job is None
        } else {
            &&& r matches BlockOutcome::Retry(m) && m@ == request_spec(
                j.index,
                0,
                block_len(j.length, 0) as u32,
            )
            &&& w2.job matches Some(k) && job_at(k, j, 0)
            &&& w2.buffer@.len() == 0
        }
    })
}

/// What a worker does after a message from its peer.
#[derive(Debug)]
pub enum WorkerAction {
    /// Nothing.
    Nothing,
    /// Write these bytes to the peer.
    Send(Vec<u8>),
    /// Hand this bitfield to the coordinator, then take the job it gives:
    /// start it and tell the peer that this client is interested.
    Bitfield(Vec<u8>),
    /// Act on the outcome of a `piece` message.
    Block(BlockOutcome),
    /// A message that this client does not act on, with its id.
    Unhandled(u8),
}

/// The download state of one peer connection.
#[derive(Debug)]
pub struct PeerWorker {
    pub job: Option<WorkerJob>,
    /// The bytes of the current piece received so far.
    pub buffer: Vec<u8>,
}

impl PeerWorker {
    pub open spec fn wf(&self) -> bool {
        match self.job {
            Some(j) => {
                &&& j.length <= 4294967295
                &&& j.downloaded <= j.length
                &&& self.buffer@.len() == j.downloaded
            },
            None => self.buffer@.len() == 0,
        }
    }

    /// A worker with no job.
    pub fn new() -> (r: PeerWorker)
        ensures
            r.wf(),
            r.job is None,
    {
        PeerWorker { job: None, buffer: Vec::new() }
    }

    /// The request for the next block of the current piece, if bytes of it
    /// are still missing.
    pub fn next_request(&self) -> (r: Option<Vec<u8>>)
        requires
            self.wf(),
        ensures
            match self.job {
                Some(j) => if j.downloaded < j.length {
                    r matches Some(m) && m@ == next_request_spec(j)
                } else {
                    r is None
                },
                None => r is None,
            },
    {
        match &self.job {
            Some(j) => {
                if j.downloaded < j.length {
                    let left = j.length - j.downloaded;
                    let len: u64 = if left < BLOCK_SIZE {
                        left
                    } else {
                        BLOCK_SIZE
                    };
                    Some(request_message(j.index, j.downloaded as u32, len as u32))
                } else {
                    None
                }
            },
            None => None,
        }
    }

    /// Takes on the job to download piece `index` of `length` bytes with the
    /// expected digest `hash`, and gives the request for its first block.
    pub fn start_job(&mut self, index: u32, length: u64, hash: Vec<u8>) -> (r: Option<Vec<u8>>)
        requires
            length <= 4294967295,
        ensures
            final(self).wf(),
            final(self).job matches Some(j) && j.index == index && j.length == length
                && j.downloaded == 0 && j.hash@ == hash@,
            final(self).buffer@.len() == 0,
            length > 0 ==> (r matches Some(m) && m@ == request_spec(
                index,
                0,
                block_len(length, 0) as u32,
            )),
            length == 0 ==> r is None,
    {
        self.job = Some(WorkerJob { index, length, downloaded: 0, hash });
        self.buffer = Vec::new();
        self.next_request()
    }

    /// Ends the current piece, all of whose bytes have come, given `digest`,
    /// the SHA-1 of those bytes: when it is the expected one the piece is
    /// handed on and the worker is free; otherwise the bytes are discarded
    /// and the piece is asked for again from its start.
    pub fn finish(&mut self, digest: &[u8]) -> (r: BlockOutcome)
        requires
            old(self).wf(),
            old(self).job matches Some(j) && j.downloaded == j.length,
        ensures
            final(self).wf(),
            ({
                let j = old(self).job->0;
                if digest@ == j.hash@ {
                    &&& r matches BlockOutcome::Complete { index, data } && index == j.index
                        && data@ == old(self).buffer@
                    &&& final(self).job is None
                } else {
                    &&& r matches BlockOutcome::Retry(m) && m@ == request_spec(
                        j.index,
                        0,
                        block_len(j.length, 0) as u32,
                    )
                    &&& final(self).job matches Some(k) && k.index == j.index && k.length
                        == j.length && k.downloaded == 0 && k.hash@ == j.hash@
                    &&& final(self).buffer@.len() == 0
                }
            }),
    {
        let job = self.job.take().unwrap();
        if bytes_equal(digest, job.hash.as_slice()) {
            let mut data: Vec<u8> = Vec::new();
            std::mem::swap(&mut data, &mut self.buffer);
            BlockOutcome::Complete { index: job.index, data }
        } else {
            let len: u64 = if job.length < BLOCK_SIZE {
                job.length
            } else {
                BLOCK_SIZE
            };
            let m = request_message(job.index, 0, len as u32);
            self.job = Some(WorkerJob { index: job.index, length: job.length, downloaded: 0, hash: job.hash });
            self.buffer = Vec::new();
            BlockOutcome::Retry(m)
        }
    }

    /// Handles a `piece` message, whose payload is the piece index and the
    /// block offset (4 bytes each) followed by the block. The block is
    /// appended to the piece. While bytes are missing, the next block is
    /// requested; once the piece is complete its SHA-1 is checked against the
    /// expected digest: a match hands the piece on, a mismatch starts the
    /// piece again. A block that runs past the piece's end also starts it
    /// again.
    pub fn on_block(&mut self, payload: &[u8]) -> (r: BlockOutcome)
        requires
            old(self).wf(),
        ensures
            final(self).wf(),
            block_step(*old(self), payload@, *final(self), r),
    {
        if payload.len() < 8 || self.job.is_none() {
            return BlockOutcome::Ignored;
        }
        let job = self.job.take().unwrap();
        let n = payload.len() - 8;
        if n as u64 > job.length - job.downloaded {
            let len: u64 = if job.length < BLOCK_SIZE {
                job.length
            } else {
                BLOCK_SIZE
            };
            let m = request_message(job.index, 0, len as u32);
            self.job = Some(WorkerJob { index: job.index, length: job.length, downloaded: 0, hash: job.hash });
            self.buffer = Vec::new();
            return BlockOutcome::Retry(m);
        }
        let ghost start = self.buffer@;
        let mut i: usize = 8;
        while i < payload.len()
            invariant
                8 <= i <= payload@.len(),
                self.buffer@ == start + payload@.subrange(8, i as int),
            decreases payload@.len() - i,
        {
            self.buffer.push(payload[i]);
            assert(payload@.subrange(8, i + 1) =~= payload@.subrange(8, i as int).push(payload@[i as int]));
            i = i + 1;
        }
        let downloaded = job.downloaded + n as u64;
        self.job = Some(WorkerJob { index: job.index, length: job.length, downloaded, hash: job.hash });
        if downloaded < job.length {
            let m = self.next_request();
            BlockOutcome::Request(m.unwrap())
        } else {
            let digest = sha1_digest(self.buffer.as_slice());
            self.finish(digest.as_slice())
        }
    }

    /// Handles one message from the peer: `unchoke` (1) asks for the next
    /// block of the current piece, `bitfield` (5) goes to the coordinator,
    /// `piece` (7) is handled by `on_block`; any other message is not acted on.
    pub fn on_message(&mut self, msg: PeerMsg) -> (r: WorkerAction)
        requires
            old(self).wf(),
        ensures
            final(self).wf(),
            msg.id != 7 ==> final(self).job == old(self).job && final(self).buffer@ == old(
                self,
            ).buffer@,
            msg.id == 1 ==> match old(self).job {
                Some(j) => if j.downloaded < j.length {
                    r matches WorkerAction::Send(m) && m@ == next_request_spec(j)
                } else {
                    r is Nothing
                },
                None => r is Nothing,
            },
            msg.id == 5 ==> match msg.payload {
                Some(p) => r matches WorkerAction::Bitfield(b) && b@ == p@,
                None => r is Nothing,
            },
            msg.id == 7 ==> match msg.payload {
                Some(p) => r matches WorkerAction::Block(o) && block_step(
                    *old(self),
                    p@,
                    *final(self),
                    o,
                ),
                None => r is Nothing && final(self).job == old(self).job && final(self).buffer@
                    == old(self).buffer@,
            },
            msg.id != 1 && msg.id != 5 && msg.id != 7 ==> r == WorkerAction::Unhandled(msg.id),
    {
        if msg.id == 1 {
            match self.next_request() {
                Some(m) => WorkerAction::Send(m),
                None => WorkerAction::Nothing,
            }
        } else if msg.id == 5 {
            match msg.payload {
                Some(p) => WorkerAction::Bitfield(p),
                None => WorkerAction::Nothing,
            }
        } else if msg.id == 7 {
            match msg.payload {
                Some(p) => WorkerAction::Block(self.on_block(p.as_slice())),
                None => WorkerAction::Nothing,
            }
        } else {
            WorkerAction::Unhandled(msg.id)
        }
    }
}

} // verus!
