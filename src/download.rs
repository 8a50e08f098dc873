use vstd::prelude::*;

pub use crate::tracker::Peer;

verus! {

/// Where a piece stands in the download.
#[derive(Debug, Clone, Copy, PartialEq, Eq, Structural)]
pub enum JobState {
    Done,
    Downloading,
    Available,
}

/// One piece of the payload. Workers are named by their number, and `peers`
/// lists the workers whose bitfield advertises the piece.
#[derive(Debug)]
pub struct Piece {
    pub index: u32,
    pub peers: Vec<usize>,
    pub job_state: JobState,
    pub length: u64,
    pub hash: Vec<u8>,
}

impl Piece {
    /// A piece that no worker owns yet and that is free to be handed out.
    pub fn new(index: u32, length: u64, hash: Vec<u8>) -> (r: Piece)
        ensures
            r.index == index,
            r.length == length,
            r.hash@ == hash@,
            r.peers@.len() == 0,
            r.job_state == JobState::Available,
    {
        Piece { index, peers: Vec::new(), job_state: JobState::Available, length, hash }
    }
}

/// The length of piece `i` of a payload of `total` bytes cut into pieces of
/// `piece_length` bytes: the full length but for a shorter last piece.
pub open spec fn piece_len(piece_length: int, total: int, i: int) -> int {
    if total - i * piece_length < piece_length {
        total - i * piece_length
    } else {
        piece_length
    }
}

/// The number of pieces of a payload of `total` bytes: `ceil(total / piece_length)`.
pub open spec fn piece_count(piece_length: int, total: int) -> int {
    total / piece_length + if total % piece_length == 0 {
        0int
    } else {
        1int
    }
}

/// `pieces` is the fresh table of a payload of `total` bytes: piece `i` has
/// index `i`, its share of the payload, the `i`-th digest, no owner, and is
/// available.
pub open spec fn is_fresh_table(
    pieces: Seq<Piece>,
    piece_length: int,
    total: int,
    hashes: Seq<Vec<u8>>,
) -> bool {
    &&& pieces.len() == piece_count(piece_length, total)
    &&& forall|i: int|
        0 <= i < pieces.len() ==> {
            &&& (#[trigger] pieces[i]).index == i
            &&& pieces[i].length == piece_len(piece_length, total, i)
            &&& pieces[i].hash@ == hashes[i]@
            &&& pieces[i].peers@.len() == 0
            &&& pieces[i].job_state == JobState::Available
        }
}

/// The sum of the lengths of the pieces.
pub open spec fn sum_lengths(pieces: Seq<Piece>) -> int
    decreases pieces.len(),
{
    if pieces.len() == 0 {
        0
    } else {
        sum_lengths(pieces.drop_last()) + pieces.last().length
    }
}

/// Cuts a payload of `total` bytes into pieces of `piece_length` bytes, the
/// last one possibly shorter, each with its digest from `hashes`. `None` when
/// `hashes` has fewer digests than there are pieces, or when there are more
/// pieces than a `u32` index can number.
pub fn build_pieces(piece_length: u64, total: u64, hashes: &Vec<Vec<u8>>) -> (r: Option<
    Vec<Piece>,
>)
    requires
        piece_length > 0,
    ensures
        match r {
            Some(t) => is_fresh_table(t@, piece_length as int, total as int, hashes@),
            None => hashes@.len() < piece_count(piece_length as int, total as int)
                || piece_count(piece_length as int, total as int) > 4294967296,
        },
{
    let whole = total / piece_length;
    proof {
        vstd::arithmetic::div_mod::lemma_fundamental_div_mod(total as int, piece_length as int);
        assert(whole * piece_length >= whole) by (nonlinear_arith)
            requires
                piece_length >= 1,
        ;
    }
    let n: u64 = if total % piece_length == 0 {
        whole
    } else {
        assert(whole < total);
        whole + 1
    };
    if n > hashes.len() as u64 || n > 4294967296 {
        return None;
    }
    let ghost pl = piece_length as int;
    let ghost q = total as int / pl;
    let ghost rem = total as int % pl;
    proof {
        vstd::arithmetic::div_mod::lemma_fundamental_div_mod(total as int, pl);
    }
    let mut out: Vec<Piece> = Vec::new();
    let mut off: u64 = 0;
    let mut i: u64 = 0;
    while i < n
        invariant
            pl == piece_length > 0,
            n == piece_count(pl, total as int),
            n <= hashes@.len(),
            n <= 4294967296,
            total == pl * q + rem,
            q >= 0,
            0 <= rem < pl,
            q == total as int / pl,
            rem == total as int % pl,
            0 <= i <= n,
            out@.len() == i,
            i < n ==> off == i * pl,
            forall|k: int|
                0 <= k < out@.len() ==> {
                    &&& (#[trigger] out@[k]).index == k
                    &&& out@[k].length == piece_len(pl, total as int, k)
                    &&& out@[k].hash@ == hashes@[k]@
                    &&& out@[k].peers@.len() == 0
                    &&& out@[k].job_state == JobState::Available
                },
        decreases n - i,
    {
        assert(off < total) by (nonlinear_arith)
            requires
                off == i * pl,
                i < n,
                n == q + if rem == 0 {
                    0int
                } else {
                    1int
                },
                total == pl * q + rem,
                q >= 0,
                0 <= rem < pl,
        ;
        let len: u64 = if total - off < piece_length {
            total - off
        } else {
            piece_length
        };
        let hash = hashes[i as usize].clone();
        let piece = Piece::new(i as u32, len, hash);
        out.push(piece);
        assert((i + 1) * pl == i * pl + pl) by (nonlinear_arith);
        if i + 1 < n {
            assert(off + pl <= total) by (nonlinear_arith)
                requires
                    off == i * pl,
                    i + 1 < n,
                    n == q + if rem == 0 {
                        0int
                    } else {
                        1int
                    },
                    total == pl * q + rem,
                q >= 0,
                    0 <= rem < pl,
            ;
            off = off + piece_length;
        }
        i = i + 1;
    }
    Some(out)
}

/// Every piece of a fresh table but the last has the full length.
proof fn lemma_full_pieces(t: Seq<Piece>, pl: int, total: int, h: Seq<Vec<u8>>, i: int)
    requires
        pl > 0,
        total >= 0,
        is_fresh_table(t, pl, total, h),
        0 <= i < t.len() - 1,
    ensures
        t[i].length == pl,
        (i + 1) * pl <= total,
{
    vstd::arithmetic::div_mod::lemma_fundamental_div_mod(total, pl);
    let q = total / pl;
    let rem = total % pl;
    assert((i + 1) * pl <= total) by (nonlinear_arith)
        requires
            i + 1 < q + if rem == 0 {
                0int
            } else {
                1int
            },
            total == pl * q + rem,
            q >= 0,
            0 <= rem < pl,
            0 <= i,
    ;
    assert((i + 1) * pl == i * pl + pl) by (nonlinear_arith);
}

proof fn lemma_prefix_sum(t: Seq<Piece>, pl: int, total: int, h: Seq<Vec<u8>>, k: int)
    requires
        pl > 0,
        total >= 0,
        is_fresh_table(t, pl, total, h),
        0 <= k <= t.len() - 1,
    ensures
        sum_lengths(t.take(k)) == k * pl,
    decreases k,
{
    if k > 0 {
        lemma_prefix_sum(t, pl, total, h, k - 1);
        lemma_full_pieces(t, pl, total, h, k - 1);
        assert(t.take(k).drop_last() =~= t.take(k - 1));
        assert(k * pl == (k - 1) * pl + pl) by (nonlinear_arith);
    } else {
        assert(t.take(0) =~= Seq::<Piece>::empty());
    }
}

/// The pieces of a fresh table cover the payload exactly: their lengths add
/// up to the total length, and every piece but the last has the full piece
/// length.
pub proof fn lemma_table_covers_payload(t: Seq<Piece>, pl: int, total: int, h: Seq<Vec<u8>>)
    requires
        pl > 0,
        total >= 0,
        is_fresh_table(t, pl, total, h),
    ensures
        sum_lengths(t) == total,
        forall|i: int| 0 <= i < t.len() - 1 ==> (#[trigger] t[i]).length == pl,
{
    assert forall|i: int| 0 <= i < t.len() - 1 implies (#[trigger] t[i]).length == pl by {
        lemma_full_pieces(t, pl, total, h, i);
    }
    vstd::arithmetic::div_mod::lemma_fundamental_div_mod(total, pl);
    let q = total / pl;
    let rem = total % pl;
    let n = t.len() as int;
    if n == 0 {
        assert(total == 0) by (nonlinear_arith)
            requires
                0 == q + if rem == 0 {
                    0int
                } else {
                    1int
                },
                total == pl * q + rem,
                q >= 0,
                0 <= rem < pl,
        ;
    } else {
        lemma_prefix_sum(t, pl, total, h, n - 1);
        assert(t.take(n - 1) =~= t.drop_last());
        assert(total - (n - 1) * pl <= pl && total - (n - 1) * pl > 0) by (nonlinear_arith)
            requires
                n == q + if rem == 0 {
                    0int
                } else {
                    1int
                },
                total == pl * q + rem,
                q >= 0,
                0 <= rem < pl,
                n >= 1,
        ;
    }
}

} // verus!
