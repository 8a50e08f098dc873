use vstd::prelude::*;
use crate::download::{JobState, Piece};

verus! {

/// Buffered piece bytes above which the coordinator hands a batch to storage.
pub const FLUSH_THRESHOLD: u64 = 2147483648;

/// A piece handed to a worker: its index, length and expected digest.
#[derive(Debug)]
pub struct Job {
    pub index: u32,
    pub length: u64,
    pub hash: Vec<u8>,
}

/// Bit `i` of a bitfield, most significant bit of byte 0 first.
pub open spec fn has_bit(bits: Seq<u8>, i: int) -> bool {
    0 <= i < bits.len() * 8 && bits[i / 8] & (128u8 >> ((i % 8) as u8)) != 0
}

/// The workers that advertise piece `i`, in the order of their bitfields.
pub open spec fn owners_from(events: Seq<(usize, Seq<u8>)>, i: int) -> Seq<usize>
    decreases events.len(),
{
    if events.len() == 0 {
        Seq::empty()
    } else {
        owners_from(events.drop_last(), i) + if has_bit(events.last().1, i) {
            seq![events.last().0]
        } else {
            Seq::empty()
        }
    }
}

/// Piece `i` can be handed to worker `w`.
pub open spec fn eligible(pieces: Seq<Piece>, w: usize, i: int) -> bool {
    &&& 0 <= i < pieces.len()
    &&& pieces[i].job_state == JobState::Available
    &&& pieces[i].peers@.contains(w)
}

/// Piece `i` comes no later than piece `j` in rarest-first order: fewer
/// owners, and on a tie the lower index.
pub open spec fn rarer_or_same(pieces: Seq<Piece>, i: int, j: int) -> bool {
    pieces[i].peers@.len() < pieces[j].peers@.len() || (pieces[i].peers@.len()
        == pieces[j].peers@.len() && i <= j)
}

/// The piece that worker `w` gets next: the first eligible piece in
/// rarest-first order.
pub open spec fn is_next_for(pieces: Seq<Piece>, w: usize, p: int) -> bool {
    &&& eligible(pieces, w, p)
    &&& forall|q: int| eligible(pieces, w, q) ==> rarer_or_same(pieces, p, q)
}

/// `p` with its state set to `st`.
pub open spec fn with_state(p: Piece, st: JobState) -> Piece {
    Piece { job_state: st, ..p }
}

/// Whether worker `w` is among `peers`.
fn has_worker(peers: &Vec<usize>, w: usize) -> (r: bool)
    ensures
        r == peers@.contains(w),
{
    let mut i: usize = 0;
    while i < peers.len()
        invariant
            0 <= i <= peers@.len(),
            forall|k: int| 0 <= k < i ==> peers@[k] != w,
        decreases peers@.len() - i,
    {
        if peers[i] == w {
            return true;
        }
        i = i + 1;
    }
    false
}

/// Whether bit `i` of a bitfield is set.
pub fn bit_set(bits: &Vec<u8>, i: usize) -> (r: bool)
    ensures
        r == has_bit(bits@, i as int),
{
    let byte = i / 8;
    if byte >= bits.len() {
        return false;
    }
    let mask: u8 = 128u8 >> ((i % 8) as u8);
    bits[byte] & mask != 0
}

/// The number of pieces that are done.
pub open spec fn done_count(pieces: Seq<Piece>) -> nat
    decreases pieces.len(),
{
    if pieces.len() == 0 {
        0
    } else {
        done_count(pieces.drop_last()) + if pieces.last().job_state == JobState::Done {
            1nat
        } else {
            0nat
        }
    }
}

/// Setting the state of piece `i` changes the count of done pieces by what
/// the piece's own state change gives.
pub proof fn lemma_done_count_update(pieces: Seq<Piece>, i: int, st: JobState)
    requires
        0 <= i < pieces.len(),
    ensures
        done_count(pieces.update(i, with_state(pieces[i], st))) + (if pieces[i].job_state
            == JobState::Done {
            1int
        } else {
            0int
        }) == done_count(pieces) + (if st == JobState::Done {
            1int
        } else {
            0int
        }),
        done_count(pieces) <= pieces.len(),
    decreases pieces.len(),
{
    let u = pieces.update(i, with_state(pieces[i], st));
    if i == pieces.len() - 1 {
        assert(u.drop_last() =~= pieces.drop_last());
        lemma_done_count_le(pieces.drop_last());
    } else {
        lemma_done_count_update(pieces.drop_last(), i, st);
        assert(u.drop_last() =~= pieces.drop_last().update(i, with_state(pieces[i], st)));
    }
}

proof fn lemma_done_count_le(pieces: Seq<Piece>)
    ensures
        done_count(pieces) <= pieces.len(),
    decreases pieces.len(),
{
    if pieces.len() > 0 {
        lemma_done_count_le(pieces.drop_last());
    }
}

/// What the coordinator decides when a worker reports a completed piece.
#[derive(Debug)]
pub struct PieceOutcome {
    /// Pieces to write to storage now, if the buffer went over its threshold.
    pub flush: Vec<(u32, Vec<u8>)>,
    /// The reporting worker's next job, if any piece is left for it.
    pub next: Option<Job>,
    /// Every worker is out of work: each is to be told it is done.
    pub finished: bool,
}

/// The single owner of the piece table. Workers are numbered from 0.
pub struct Coordinator {
    pub pieces: Vec<Piece>,
    pub num_workers: usize,
    /// Bitfields received so far.
    pub bitfields: usize,
    /// The piece that each worker is downloading.
    pub current: Vec<Option<u32>>,
    /// Workers for which no piece is left.
    pub idle: Vec<bool>,
    /// Verified pieces not yet written to storage.
    pub buffer: Vec<(u32, Vec<u8>)>,
    /// Bytes in `buffer`.
    pub buffered: u64,
    /// The bitfields received, with the worker that sent each.
    pub events: Ghost<Seq<(usize, Seq<u8>)>>,
}

impl Coordinator {
    pub open spec fn wf(&self) -> bool {
        &&& self.pieces@.len() <= 4294967296
        &&& forall|i: int| 0 <= i < self.pieces@.len() ==> (#[trigger] self.pieces@[i]).index == i
        &&& self.current@.len() == self.num_workers
        &&& self.idle@.len() == self.num_workers
        &&& self.bitfields <= self.num_workers
        &&& forall|i: int|
            0 <= i < self.pieces@.len() ==> (#[trigger] self.pieces@[i]).peers@ == owners_from(
                self.events@,
                i,
            )
        &&& forall|k: int|
            0 <= k < self.events@.len() ==> (#[trigger] self.events@[k]).0 < self.num_workers
        &&& forall|w: int|
            0 <= w < self.num_workers && (#[trigger] self.current@[w]) is Some ==> {
                &&& self.current@[w]->0 < self.pieces@.len()
                &&& self.pieces@[self.current@[w]->0 as int].job_state == JobState::Downloading
            }
        &&& forall|w1: int, w2: int|
            0 <= w1 < self.num_workers && 0 <= w2 < self.num_workers && w1 != w2
                && (#[trigger] self.current@[w1]) is Some ==> self.current@[w1]
                != #[trigger] self.current@[w2]
        &&& forall|i: int|
            0 <= i < self.pieces@.len() && (#[trigger] self.pieces@[i]).job_state
                == JobState::Downloading ==> exists|w: int|
                0 <= w < self.num_workers && self.current@[w] == Some(i as u32)
        &&& forall|w: int|
            0 <= w < self.num_workers && #[trigger] self.idle@[w] ==> {
                &&& self.current@[w] is None
                &&& self.bitfields == self.num_workers
                &&& forall|i: int| !#[trigger] eligible(self.pieces@, w as usize, i)
            }
        &&& self.bitfields < self.num_workers ==> {
            &&& forall|w: int| 0 <= w < self.num_workers ==> (#[trigger] self.current@[w]) is None
            &&& forall|i: int|
                0 <= i < self.pieces@.len() ==> (#[trigger] self.pieces@[i]).job_state
                    == JobState::Available
        }
    }

    /// Once every bitfield is in, each worker is downloading a piece or is
    /// out of work.
    pub open spec fn engaged(&self) -> bool {
        self.bitfields == self.num_workers ==> forall|w: int|
            0 <= w < self.num_workers ==> #[trigger] self.idle@[w] || self.current@[w] is Some
    }

    /// A coordinator over a fresh piece table (piece `i` at position `i`, no
    /// owners, all available) for `num_workers` workers.
    pub fn new(pieces: Vec<Piece>, num_workers: usize) -> (r: Coordinator)
        requires
            pieces@.len() <= 4294967296,
            forall|i: int|
                0 <= i < pieces@.len() ==> {
                    &&& (#[trigger] pieces@[i]).index == i
                    &&& pieces@[i].peers@.len() == 0
                    &&& pieces@[i].job_state == JobState::Available
                },
        ensures
            r.wf(),
            r.engaged(),
            r.pieces@ == pieces@,
            r.num_workers == num_workers,
            r.bitfields == 0,
            r.buffer@.len() == 0,
    {
        let mut current: Vec<Option<u32>> = Vec::new();
        let mut idle: Vec<bool> = Vec::new();
        let mut w: usize = 0;
        while w < num_workers
            invariant
                0 <= w <= num_workers,
                current@.len() == w,
                idle@.len() == w,
                forall|k: int| 0 <= k < w ==> (#[trigger] current@[k]) is None,
                forall|k: int| 0 <= k < w ==> !(#[trigger] idle@[k]),
            decreases num_workers - w,
        {
            current.push(None);
            idle.push(false);
            w = w + 1;
        }
        let r = Coordinator {
            pieces,
            num_workers,
            bitfields: 0,
            current,
            idle,
            buffer: Vec::new(),
            buffered: 0,
            events: Ghost(Seq::empty()),
        };
        assert forall|i: int| 0 <= i < r.pieces@.len() implies (#[trigger] r.pieces@[i]).peers@
            == owners_from(r.events@, i) by {
            assert(r.pieces@[i].peers@ =~= Seq::<usize>::empty());
        }
        r
    }

    /// Hands worker `w` the first piece, in rarest-first order, that is
    /// available and that `w` owns, and marks it as downloading. When there is
    /// none, `w` is marked as out of work.
    pub fn give_out_job(&mut self, w: usize) -> (r: Option<Job>)
        requires
            old(self).wf(),
            w < old(self).num_workers,
            old(self).current@[w as int] is None,
            old(self).bitfields == old(self).num_workers,
        ensures
            final(self).wf(),
            final(self).num_workers == old(self).num_workers,
            final(self).bitfields == old(self).bitfields,
            final(self).buffer@ == old(self).buffer@,
            final(self).buffered == old(self).buffered,
            final(self).events@ == old(self).events@,
            match r {
                Some(job) => {
                    &&& is_next_for(old(self).pieces@, w, job.index as int)
                    &&& job.length == old(self).pieces@[job.index as int].length
                    &&& job.hash@ == old(self).pieces@[job.index as int].hash@
                    &&& final(self).pieces@ == old(self).pieces@.update(
                        job.index as int,
                        with_state(old(self).pieces@[job.index as int], JobState::Downloading),
                    )
                    &&& final(self).current@ == old(self).current@.update(w as int, Some(job.index))
                    &&& final(self).idle@ == old(self).idle@
                },
                None => {
                    &&& forall|i: int| !#[trigger] eligible(old(self).pieces@, w, i)
                    &&& final(self).pieces@ == old(self).pieces@
                    &&& final(self).current@ == old(self).current@
                    &&& final(self).idle@ == old(self).idle@.update(w as int, true)
                },
            },
    {
        let mut best: Option<usize> = None;
        let mut i: usize = 0;
        while i < self.pieces.len()
            invariant
                0 <= i <= self.pieces@.len(),
                self.pieces@ == old(self).pieces@,
                match best {
                    Some(b) => {
                        &&& b < i
                        &&& eligible(self.pieces@, w, b as int)
                        &&& forall|q: int|
                            0 <= q < i && #[trigger] eligible(self.pieces@, w, q) ==> rarer_or_same(
                                self.pieces@,
                                b as int,
                                q,
                            )
                    },
                    None => forall|q: int| 0 <= q < i ==> !#[trigger] eligible(self.pieces@, w, q),
                },
            decreases self.pieces@.len() - i,
        {
            if self.pieces[i].job_state == JobState::Available && has_worker(
                &self.pieces[i].peers,
                w,
            ) {
                match best {
                    None => {
                        best = Some(i);
                    },
                    Some(b) => {
                        if self.pieces[i].peers.len() < self.pieces[b].peers.len() {
                            best = Some(i);
                        }
                    },
                }
            }
            i = i + 1;
        }
        match best {
            None => {
                self.idle.set(w, true);
                assert forall|i: int| !#[trigger] eligible(old(self).pieces@, w, i) by {
                    if 0 <= i < self.pieces@.len() {
                    }
                }
                assert forall|v: int|
                    0 <= v < self.num_workers && #[trigger] self.idle@[v] implies {
                        &&& self.current@[v] is None
                        &&& self.bitfields == self.num_workers
                        &&& forall|i: int| !#[trigger] eligible(self.pieces@, v as usize, i)
                    } by {
                    if v != w {
                        assert(old(self).idle@[v]);
                    }
                }
                None
            },
            Some(b) => {
                let job = Job {
                    index: self.pieces[b].index,
                    length: self.pieces[b].length,
                    hash: self.pieces[b].hash.clone(),
                };
                self.pieces[b].job_state = JobState::Downloading;
                self.current.set(w, Some(b as u32));
                assert(self.pieces@ =~= old(self).pieces@.update(
                    b as int,
                    with_state(old(self).pieces@[b as int], JobState::Downloading),
                ));
                assert forall|i: int| 0 <= i < self.pieces@.len() implies (#[trigger] self.pieces@[i]).index == i
                    && self.pieces@[i].peers@ == owners_from(self.events@, i) by {
                    assert(old(self).pieces@[i].index == i);
                }
                assert forall|i: int|
                    0 <= i < self.pieces@.len() && (#[trigger] self.pieces@[i]).job_state
                        == JobState::Downloading implies exists|v: int|
                    0 <= v < self.num_workers && self.current@[v] == Some(i as u32) by {
                    if i == b {
                        assert(self.current@[w as int] == Some(i as u32));
                    } else {
                        assert(old(self).pieces@[i].job_state == JobState::Downloading);
                        let v = choose|v: int|
                            0 <= v < old(self).num_workers && old(self).current@[v] == Some(i as u32);
                        assert(self.current@[v] == Some(i as u32));
                    }
                }
                assert forall|v: int|
                    0 <= v < self.num_workers && (#[trigger] self.current@[v]) is Some implies {
                        &&& self.current@[v]->0 < self.pieces@.len()
                        &&& self.pieces@[self.current@[v]->0 as int].job_state == JobState::Downloading
                    } by {
                    if v != w {
                        assert(old(self).current@[v] is Some);
                    }
                }
                assert forall|w1: int, w2: int|
                    0 <= w1 < self.num_workers && 0 <= w2 < self.num_workers && w1 != w2
                        && (#[trigger] self.current@[w1]) is Some implies self.current@[w1]
                        != #[trigger] self.current@[w2] by {
                    if w1 != w && w2 != w {
                        assert(old(self).current@[w1] is Some);
                    } else if w1 == w {
                        if old(self).current@[w2] is Some {
                            assert(old(self).pieces@[old(self).current@[w2]->0 as int].job_state
                                == JobState::Downloading);
                        }
                    } else {
                        assert(old(self).current@[w1] is Some);
                        assert(old(self).pieces@[old(self).current@[w1]->0 as int].job_state
                            == JobState::Downloading);
                    }
                }
                assert forall|v: int|
                    0 <= v < self.num_workers && #[trigger] self.idle@[v] implies {
                        &&& self.current@[v] is None
                        &&& self.bitfields == self.num_workers
                        &&& forall|i: int| !#[trigger] eligible(self.pieces@, v as usize, i)
                    } by {
                    assert(old(self).idle@[v]);
                    if v == w {
                        assert(eligible(old(self).pieces@, w, b as int));
                        assert(!eligible(old(self).pieces@, v as usize, b as int));
                        assert(false);
                    }
                    assert(old(self).current@[v] is None);
                    assert(self.current@[v] is None);
                    assert forall|i: int| !#[trigger] eligible(self.pieces@, v as usize, i) by {
                        assert(!eligible(old(self).pieces@, v as usize, i));
                        if 0 <= i < self.pieces@.len() && i != b {
                            assert(self.pieces@[i] == old(self).pieces@[i]);
                        }
                    }
                }
                Some(job)
            },
        }
    }

    /// Records the bitfield of worker `w`: `w` becomes an owner of every piece
    /// whose bit is set. When this is the last bitfield awaited, every worker
    /// is handed its first job, in worker order; the result pairs each worker
    /// with its job, or with `None` when no piece is left for it. A bitfield
    /// that comes after all were received changes nothing.
    pub fn on_bitfield(&mut self, w: usize, bits: &Vec<u8>) -> (r: Vec<(usize, Option<Job>)>)
        requires
            old(self).wf(),
            old(self).engaged(),
            w < old(self).num_workers,
        ensures
            final(self).wf(),
            final(self).engaged(),
            final(self).num_workers == old(self).num_workers,
            final(self).buffer@ == old(self).buffer@,
            final(self).buffered == old(self).buffered,
            old(self).bitfields == old(self).num_workers ==> {
                &&& r@.len() == 0
                &&& final(self).pieces@ == old(self).pieces@
                &&& final(self).events@ == old(self).events@
                &&& final(self).bitfields == old(self).bitfields
                &&& final(self).current@ == old(self).current@
                &&& final(self).idle@ == old(self).idle@
            },
            old(self).bitfields < old(self).num_workers ==> {
                &&& final(self).events@ == old(self).events@.push((w, bits@))
                &&& final(self).bitfields == old(self).bitfields + 1
                &&& final(self).pieces@.len() == old(self).pieces@.len()
                &&& forall|i: int|
                    0 <= i < final(self).pieces@.len() ==> (#[trigger] final(self).pieces@[i]).peers@
                        == old(self).pieces@[i].peers@ + if has_bit(bits@, i) {
                        seq![w]
                    } else {
                        Seq::<usize>::empty()
                    }
                &&& final(self).bitfields < final(self).num_workers ==> r@.len() == 0
                &&& final(self).bitfields == final(self).num_workers ==> {
                    &&& r@.len() == final(self).num_workers
                    &&& forall|k: int|
                        0 <= k < r@.len() ==> {
                            &&& (#[trigger] r@[k]).0 == k
                            &&& match r@[k].1 {
                                Some(job) => final(self).current@[k] == Some(job.index),
                                None => final(self).idle@[k],
                            }
                        }
                }
            },
    {
        let mut out: Vec<(usize, Option<Job>)> = Vec::new();
        if self.bitfields >= self.num_workers {
            return out;
        }
        let ghost old_events = self.events@;
        self.events = Ghost(self.events@.push((w, bits@)));
        let mut i: usize = 0;
        while i < self.pieces.len()
            invariant
                0 <= i <= self.pieces@.len(),
                self.pieces@.len() == old(self).pieces@.len(),
                self.events@ == old_events.push((w, bits@)),
                old_events == old(self).events@,
                self.bitfields == old(self).bitfields,
                self.num_workers == old(self).num_workers,
                self.current@ == old(self).current@,
                self.idle@ == old(self).idle@,
                self.buffer@ == old(self).buffer@,
                self.buffered == old(self).buffered,
                forall|j: int|
                    0 <= j < self.pieces@.len() ==> {
                        &&& (#[trigger] self.pieces@[j]).index == old(self).pieces@[j].index
                        &&& self.pieces@[j].job_state == old(self).pieces@[j].job_state
                        &&& self.pieces@[j].peers@ == if j < i {
                            old(self).pieces@[j].peers@ + if has_bit(bits@, j) {
                                seq![w]
                            } else {
                                Seq::<usize>::empty()
                            }
                        } else {
                            old(self).pieces@[j].peers@
                        }
                    },
            decreases self.pieces@.len() - i,
        {
            if bit_set(bits, i) {
                self.pieces[i].peers.push(w);
            }
            assert(self.pieces@[i as int].peers@ =~= old(self).pieces@[i as int].peers@ + if has_bit(bits@, i as int) {
                seq![w]
            } else {
                Seq::<usize>::empty()
            });
            i = i + 1;
        }
        assert(self.events@.drop_last() =~= old_events);
        assert forall|j: int| 0 <= j < self.pieces@.len() implies (#[trigger] self.pieces@[j]).peers@
            == owners_from(self.events@, j) by {
            assert(old(self).pieces@[j].peers@ == owners_from(old_events, j));
        }
        assert forall|j: int| 0 <= j < self.events@.len() implies (#[trigger] self.events@[j]).0
            < self.num_workers by {
            if j < old_events.len() {
                assert(old_events[j] == self.events@[j]);
            }
        }
        assert forall|v: int| 0 <= v < self.num_workers implies !(#[trigger] self.idle@[v]) by {
            if self.idle@[v] {
                assert(old(self).idle@[v]);
            }
        }
        self.bitfields = self.bitfields + 1;
        if self.bitfields < self.num_workers {
            return out;
        }
        let mut k: usize = 0;
        while k < self.num_workers
            invariant
                self.wf(),
                self.bitfields == self.num_workers,
                self.num_workers == old(self).num_workers,
                self.events@ == old_events.push((w, bits@)),
                self.buffer@ == old(self).buffer@,
                self.buffered == old(self).buffered,
                self.pieces@.len() == old(self).pieces@.len(),
                forall|j: int|
                    0 <= j < self.pieces@.len() ==> (#[trigger] self.pieces@[j]).peers@ == old(
                        self,
                    ).pieces@[j].peers@ + if has_bit(bits@, j) {
                        seq![w]
                    } else {
                        Seq::<usize>::empty()
                    },
                0 <= k <= self.num_workers,
                out@.len() == k,
                forall|j: int| k <= j < self.num_workers ==> (#[trigger] self.current@[j]) is None,
                forall|j: int| k <= j < self.num_workers ==> !(#[trigger] self.idle@[j]),
                forall|j: int|
                    0 <= j < k ==> #[trigger] self.idle@[j] || self.current@[j] is Some,
                forall|j: int|
                    0 <= j < k ==> {
                        &&& (#[trigger] out@[j]).0 == j
                        &&& match out@[j].1 {
                            Some(job) => self.current@[j] == Some(job.index),
                            None => self.idle@[j],
                        }
                    },
            decreases self.num_workers - k,
        {
            let job = self.give_out_job(k);
            out.push((k, job));
            k = k + 1;
        }
        out
    }

    /// Whether worker `w` is downloading piece `index`.
    pub fn holds(&self, w: usize, index: u32) -> (r: bool)
        requires
            self.wf(),
        ensures
            r == (w < self.num_workers && self.current@[w as int] == Some(index)),
    {
        w < self.current.len() && self.current[w] == Some(index)
    }

    /// Whether every worker is out of work.
    pub fn all_idle(&self) -> (r: bool)
        requires
            self.wf(),
        ensures
            r == forall|v: int| 0 <= v < self.num_workers ==> #[trigger] self.idle@[v],
    {
        let mut v: usize = 0;
        while v < self.idle.len()
            invariant
                self.idle@.len() == self.num_workers,
                0 <= v <= self.num_workers,
                forall|u: int| 0 <= u < v ==> #[trigger] self.idle@[u],
            decreases self.num_workers - v,
        {
            if !self.idle[v] {
                return false;
            }
            v = v + 1;
        }
        true
    }

    /// Worker `w` reports piece `index`, verified, with its bytes. The piece
    /// is marked done and buffered; when the buffer holds more than
    /// `FLUSH_THRESHOLD` bytes, the whole buffer is handed back to be written.
    /// Then `w` gets its next job, or is marked out of work; `finished` tells
    /// whether every worker is now out of work.
    pub fn on_piece(&mut self, w: usize, index: u32, data: Vec<u8>) -> (r: PieceOutcome)
        requires
            old(self).wf(),
            old(self).engaged(),
            w < old(self).num_workers,
            old(self).current@[w as int] == Some(index),
        ensures
            final(self).wf(),
            final(self).engaged(),
            done_count(final(self).pieces@) == done_count(old(self).pieces@) + 1,
            final(self).num_workers == old(self).num_workers,
            final(self).bitfields == old(self).bitfields,
            final(self).events@ == old(self).events@,
            final(self).pieces@[index as int].job_state == JobState::Done,
            old(self).buffered as int + data@.len() > FLUSH_THRESHOLD ==> {
                &&& r.flush@ == old(self).buffer@.push((index, data))
                &&& final(self).buffer@.len() == 0
                &&& final(self).buffered == 0
            },
            old(self).buffered as int + data@.len() <= FLUSH_THRESHOLD ==> {
                &&& r.flush@.len() == 0
                &&& final(self).buffer@ == old(self).buffer@.push((index, data))
                &&& final(self).buffered == old(self).buffered + data@.len()
            },
            ({
                let done = old(self).pieces@.update(
                    index as int,
                    with_state(old(self).pieces@[index as int], JobState::Done),
                );
                match r.next {
                    Some(job) => {
                        &&& is_next_for(done, w, job.index as int)
                        &&& job.length == done[job.index as int].length
                        &&& job.hash@ == done[job.index as int].hash@
                        &&& final(self).current@[w as int] == Some(job.index)
                    },
                    None => {
                        &&& forall|i: int| !#[trigger] eligible(done, w, i)
                        &&& final(self).idle@[w as int]
                    },
                }
            }),
            r.finished == forall|v: int|
                0 <= v < final(self).num_workers ==> #[trigger] final(self).idle@[v],
    {
        let i = index as usize;
        self.pieces[i].job_state = JobState::Done;
        self.current.set(w, None);
        let ghost done = old(self).pieces@.update(
            index as int,
            with_state(old(self).pieces@[index as int], JobState::Done),
        );
        assert(self.pieces@ =~= done);
        proof {
            assert forall|i: int| 0 <= i < self.pieces@.len() implies (#[trigger] self.pieces@[i]).index == i
                && self.pieces@[i].peers@ == owners_from(self.events@, i) by {
                assert(old(self).pieces@[i].index == i);
            }
            assert forall|v: int|
                0 <= v < self.num_workers && (#[trigger] self.current@[v]) is Some implies {
                    &&& self.current@[v]->0 < self.pieces@.len()
                    &&& self.pieces@[self.current@[v]->0 as int].job_state == JobState::Downloading
                } by {
                assert(old(self).current@[v] is Some);
                assert(v != w);
            }
            assert forall|w1: int, w2: int|
                0 <= w1 < self.num_workers && 0 <= w2 < self.num_workers && w1 != w2
                    && (#[trigger] self.current@[w1]) is Some implies self.current@[w1]
                    != #[trigger] self.current@[w2] by {
                assert(old(self).current@[w1] is Some);
            }
            assert forall|i: int|
                0 <= i < self.pieces@.len() && (#[trigger] self.pieces@[i]).job_state
                    == JobState::Downloading implies exists|v: int|
                0 <= v < self.num_workers && self.current@[v] == Some(i as u32) by {
                assert(i != index);
                assert(old(self).pieces@[i].job_state == JobState::Downloading);
                let v = choose|v: int|
                    0 <= v < old(self).num_workers && old(self).current@[v] == Some(i as u32);
                assert(v != w);
                assert(self.current@[v] == Some(i as u32));
            }
            assert forall|v: int|
                0 <= v < self.num_workers && #[trigger] self.idle@[v] implies {
                    &&& self.current@[v] is None
                    &&& self.bitfields == self.num_workers
                    &&& forall|i: int| !#[trigger] eligible(self.pieces@, v as usize, i)
                } by {
                assert(old(self).idle@[v]);
                assert forall|i: int| !#[trigger] eligible(self.pieces@, v as usize, i) by {
                    assert(!eligible(old(self).pieces@, v as usize, i));
                    if 0 <= i < self.pieces@.len() && i != index {
                        assert(self.pieces@[i] == old(self).pieces@[i]);
                    }
                }
            }
            if old(self).bitfields < old(self).num_workers {
                assert(old(self).current@[w as int] is None);
            }
        }
        let n = data.len() as u64;
        let mut flush: Vec<(u32, Vec<u8>)> = Vec::new();
        self.buffer.push((index, data));
        if self.buffered > FLUSH_THRESHOLD || n > FLUSH_THRESHOLD - self.buffered {
            assert(old(self).buffered as int + n > FLUSH_THRESHOLD);
            std::mem::swap(&mut flush, &mut self.buffer);
            self.buffered = 0;
        } else {
            self.buffered = self.buffered + n;
        }
        let ghost before = self.pieces@;
        let next = self.give_out_job(w);
        proof {
            lemma_done_count_update(old(self).pieces@, index as int, JobState::Done);
            assert(old(self).pieces@[index as int].job_state == JobState::Downloading);
            if next is Some {
                let p = next->Some_0.index as int;
                lemma_done_count_update(before, p, JobState::Downloading);
            }
        }
        let finished = self.all_idle();
        PieceOutcome { flush, next, finished }
    }

    /// Hands back every buffered piece, for the final write.
    pub fn drain(&mut self) -> (r: Vec<(u32, Vec<u8>)>)
        requires
            old(self).wf(),
        ensures
            final(self).wf(),
            r@ == old(self).buffer@,
            final(self).buffer@.len() == 0,
            final(self).buffered == 0,
            final(self).pieces@ == old(self).pieces@,
            final(self).current@ == old(self).current@,
            final(self).idle@ == old(self).idle@,
    {
        let mut out: Vec<(u32, Vec<u8>)> = Vec::new();
        std::mem::swap(&mut out, &mut self.buffer);
        self.buffered = 0;
        out
    }
}


/// A worker is among the owners of piece `i` after the bitfields `events`
/// exactly when one of its bitfields has bit `i` set.
pub proof fn lemma_owners_from_bits(events: Seq<(usize, Seq<u8>)>, i: int, w: usize)
    ensures
        owners_from(events, i).contains(w) <==> exists|k: int|
            0 <= k < events.len() && (#[trigger] events[k]).0 == w && has_bit(events[k].1, i),
    decreases events.len(),
{
    if events.len() > 0 {
        let prev = events.drop_last();
        lemma_owners_from_bits(prev, i, w);
        let tail = if has_bit(events.last().1, i) {
            seq![events.last().0]
        } else {
            Seq::<usize>::empty()
        };
        assert(owners_from(events, i) == owners_from(prev, i) + tail);
        if owners_from(events, i).contains(w) {
            let j = choose|j: int| 0 <= j < owners_from(events, i).len() && owners_from(events, i)[j] == w;
            if j < owners_from(prev, i).len() {
                assert(owners_from(prev, i)[j] == w);
                let k = choose|k: int|
                    0 <= k < prev.len() && (#[trigger] prev[k]).0 == w && has_bit(prev[k].1, i);
                assert(events[k] == prev[k]);
            } else {
                assert(events[events.len() - 1].0 == w);
            }
        }
        if exists|k: int|
            0 <= k < events.len() && (#[trigger] events[k]).0 == w && has_bit(events[k].1, i) {
            let k = choose|k: int|
                0 <= k < events.len() && (#[trigger] events[k]).0 == w && has_bit(events[k].1, i);
            if k < prev.len() {
                assert(prev[k] == events[k]);
                let j = choose|j: int| 0 <= j < owners_from(prev, i).len() && owners_from(prev, i)[j] == w;
                assert(owners_from(events, i)[j] == w);
            } else {
                assert(owners_from(events, i)[owners_from(prev, i).len() as int] == w);
            }
        }
    }
}

/// After the bitfield events that a coordinator has received, the owners of
/// each piece are exactly the workers whose bitfield has the piece's bit set.
pub proof fn lemma_owners_are_advertisers(c: Coordinator, i: int, w: usize)
    requires
        c.wf(),
        0 <= i < c.pieces@.len(),
    ensures
        c.pieces@[i].peers@.contains(w) <==> exists|k: int|
            0 <= k < c.events@.len() && (#[trigger] c.events@[k]).0 == w && has_bit(
                c.events@[k].1,
                c.pieces@[i].index as int,
            ),
{
    lemma_owners_from_bits(c.events@, i, w);
}

/// At most one worker is downloading any given piece.
pub proof fn lemma_single_downloader(c: Coordinator, w1: int, w2: int)
    requires
        c.wf(),
        0 <= w1 < c.num_workers,
        0 <= w2 < c.num_workers,
        w1 != w2,
        c.current@[w1] is Some,
    ensures
        c.current@[w1] != c.current@[w2],
{
}

/// When every worker is out of work, which is when the coordinator tells them
/// all that they are done, every piece that some worker owns is done.
pub proof fn lemma_finished_leaves_nothing(c: Coordinator, i: int)
    requires
        c.wf(),
        forall|v: int| 0 <= v < c.num_workers ==> #[trigger] c.idle@[v],
        0 <= i < c.pieces@.len(),
        c.pieces@[i].peers@.len() > 0,
    ensures
        c.pieces@[i].job_state == JobState::Done,
{
    let w = c.pieces@[i].peers@[0];
    assert(c.pieces@[i].peers@.contains(w));
    lemma_owners_from_bits(c.events@, i, w);
    let k = choose|k: int|
        0 <= k < c.events@.len() && (#[trigger] c.events@[k]).0 == w && has_bit(c.events@[k].1, i);
    assert(w < c.num_workers);
    let v = w as int;
    assert(c.idle@[v]);
    assert(!eligible(c.pieces@, v as usize, i));
    assert(v as usize == w);
    if c.pieces@[i].job_state == JobState::Downloading {
        let u = choose|u: int| 0 <= u < c.num_workers && c.current@[u] == Some(i as u32);
        assert(c.idle@[u]);
    }
}

/// While some worker is still at work, one of them is downloading a piece:
/// with every bitfield in, a coordinator whose workers are not all out of
/// work has a piece in progress, whose report marks one more piece done (see
/// `on_piece`). As at most all pieces can be done, reports end, and the last
/// one leaves every worker out of work, when all are told that they are done.
pub proof fn lemma_work_in_progress(c: Coordinator)
    requires
        c.wf(),
        c.engaged(),
        c.bitfields == c.num_workers,
        exists|v: int| 0 <= v < c.num_workers && !#[trigger] c.idle@[v],
    ensures
        exists|v: int|
            0 <= v < c.num_workers && (#[trigger] c.current@[v]) is Some && c.pieces@[c.current@[v]->0 as int].job_state == JobState::Downloading,
        done_count(c.pieces@) < c.pieces@.len(),
{
    let v = choose|v: int| 0 <= v < c.num_workers && !#[trigger] c.idle@[v];
    assert(c.current@[v] is Some);
    let p = c.current@[v]->0 as int;
    lemma_done_count_update(c.pieces@, p, JobState::Done);
    lemma_done_count_le(c.pieces@.update(p, with_state(c.pieces@[p], JobState::Done)));
}

} // verus!
