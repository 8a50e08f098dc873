use vstd::prelude::*;

verus! {

/// A decoded Bencode value. Every value records where it starts in the
/// buffer it was decoded from (`index`) and how many bytes it spans (`size`).
/// A dictionary keeps its entries in the order in which they appear.
#[derive(Debug)]
pub enum BencodeVal {
    Int { index: usize, int: i64, size: usize },
    Str { index: usize, byte_str: Vec<u8>, size: usize },
    List { index: usize, list: Vec<BencodeVal>, size: usize },
    Dict { index: usize, dict: Vec<(Vec<u8>, BencodeVal)>, size: usize },
}

/// Why decoding stopped.
#[derive(Debug, Clone, Copy, PartialEq, Eq, Structural)]
pub enum DecodeErrorKind {
    /// The input ended before the value did.
    Eof,
    /// A byte that cannot start or continue the value at this place.
    UnexpectedByte,
    /// A number with a leading zero.
    LeadingZero,
    /// The integer `-0`.
    NegativeZero,
    /// A number too large for its type.
    Overflow,
    /// A dictionary key that occurs twice.
    DuplicateKey,
}

/// A decoding failure and the offset at which the decoder gave up.
#[derive(Debug, Clone, Copy, PartialEq, Eq, Structural)]
pub struct DecodeError {
    pub kind: DecodeErrorKind,
    pub pos: usize,
}

impl BencodeVal {
    /// Offset of the first byte of the value in the source buffer.
    pub open spec fn start(self) -> int {
        match self {
            BencodeVal::Int { index, .. } => index as int,
            BencodeVal::Str { index, .. } => index as int,
            BencodeVal::List { index, .. } => index as int,
            BencodeVal::Dict { index, .. } => index as int,
        }
    }

    /// Number of source bytes that the value spans.
    pub open spec fn extent(self) -> int {
        match self {
            BencodeVal::Int { size, .. } => size as int,
            BencodeVal::Str { size, .. } => size as int,
            BencodeVal::List { size, .. } => size as int,
            BencodeVal::Dict { size, .. } => size as int,
        }
    }

    pub fn index(&self) -> (r: usize)
        ensures
            r == self.start(),
    {
        match self {
            BencodeVal::Int { index, .. } => *index,
            BencodeVal::Str { index, .. } => *index,
            BencodeVal::List { index, .. } => *index,
            BencodeVal::Dict { index, .. } => *index,
        }
    }

    pub fn size(&self) -> (r: usize)
        ensures
            r == self.extent(),
    {
        match self {
            BencodeVal::Int { size, .. } => *size,
            BencodeVal::Str { size, .. } => *size,
            BencodeVal::List { size, .. } => *size,
            BencodeVal::Dict { size, .. } => *size,
        }
    }
}

pub open spec fn is_digit(b: u8) -> bool {
    48 <= b <= 57
}

/// Decimal digits of a natural number, without leading zeros.
pub open spec fn nat_digits(n: nat) -> Seq<u8>
    decreases n,
{
    if n < 10 {
        seq![(n + 48) as u8]
    } else {
        nat_digits(n / 10) + seq![((n % 10) + 48) as u8]
    }
}

/// Decimal form of an integer: a single `-` before a negative one.
pub open spec fn int_digits(n: int) -> Seq<u8> {
    if n < 0 {
        seq![45u8] + nat_digits((-n) as nat)
    } else {
        nat_digits(n as nat)
    }
}

/// The canonical Bencode bytes of a value (dictionary entries in stored order).
pub open spec fn encoding(v: BencodeVal) -> Seq<u8>
    decreases v,
{
    match v {
        BencodeVal::Int { int: n, .. } => seq![105u8] + int_digits(n as int) + seq![101u8],
        BencodeVal::Str { byte_str, .. } => nat_digits(byte_str@.len()) + seq![58u8] + byte_str@,
        BencodeVal::List { list, .. } => seq![108u8] + encoding_list(list@) + seq![101u8],
        BencodeVal::Dict { dict, .. } => seq![100u8] + encoding_dict(dict@) + seq![101u8],
    }
}

/// The values of a list, encoded one after another.
pub open spec fn encoding_list(s: Seq<BencodeVal>) -> Seq<u8>
    decreases s,
{
    if s.len() == 0 {
        seq![]
    } else {
        encoding_list(s.drop_last()) + encoding(s.last())
    }
}

/// The entries of a dictionary, each key as a byte string followed by its value.
pub open spec fn encoding_dict(s: Seq<(Vec<u8>, BencodeVal)>) -> Seq<u8>
    decreases s,
{
    if s.len() == 0 {
        seq![]
    } else {
        encoding_dict(s.drop_last()) + nat_digits(s.last().0@.len()) + seq![58u8] + s.last().0@
            + encoding(s.last().1)
    }
}


/// The keys of a dictionary's entries are pairwise different.
pub open spec fn keys_distinct(s: Seq<(Vec<u8>, BencodeVal)>) -> bool {
    forall|i: int, j: int| 0 <= i < j < s.len() ==> s[i].0@ != s[j].0@
}

/// `v` was decoded from `s`: its recorded range lies in `s` and holds exactly
/// its encoding, the same holds of every value nested in it, and no
/// dictionary in it repeats a key.
pub open spec fn decoded_from(v: BencodeVal, s: Seq<u8>) -> bool
    decreases v,
{
    &&& 0 < v.extent()
    &&& 0 <= v.start()
    &&& v.start() + v.extent() <= s.len()
    &&& s.subrange(v.start(), v.start() + v.extent()) == encoding(v)
    &&& match v {
        BencodeVal::List { list, .. } => forall|i: int|
            0 <= i < list@.len() ==> decoded_from(#[trigger] list@[i], s),
        BencodeVal::Dict { dict, .. } => keys_distinct(dict@) && forall|i: int|
            0 <= i < dict@.len() ==> decoded_from(#[trigger] dict@[i].1, s),
        _ => true,
    }
}

/// What a successful `decode` of `s` returns: a value that starts at offset 0
/// and spans `n` bytes.
pub open spec fn decodes_to(s: Seq<u8>, v: BencodeVal, n: int) -> bool {
    &&& v.start() == 0
    &&& v.extent() == n
    &&& decoded_from(v, s)
}

fn digit_at(bytes: &[u8], i: usize) -> (r: bool)
    requires
        i <= bytes@.len(),
    ensures
        r == (i < bytes@.len() && is_digit(bytes@[i as int])),
{
    i < bytes.len() && 48 <= bytes[i] && bytes[i] <= 57
}

/// The number that a string of decimal digits spells.
pub open spec fn digits_value(s: Seq<u8>) -> nat
    decreases s.len(),
{
    if s.len() == 0 {
        0
    } else {
        digits_value(s.drop_last()) * 10 + (s.last() - 48) as nat
    }
}

/// The end of the run of digits that starts at `i`.
pub open spec fn digit_run_end(s: Seq<u8>, i: int) -> int
    decreases s.len() - i,
{
    if 0 <= i < s.len() && is_digit(s[i]) {
        digit_run_end(s, i + 1)
    } else {
        i
    }
}

/// Every byte is a digit.
pub open spec fn all_digits(s: Seq<u8>) -> bool {
    forall|k: int| 0 <= k < s.len() ==> is_digit(#[trigger] s[k])
}

/// What the decimal digits of `n` are made of.
pub proof fn lemma_nat_digits(n: nat)
    ensures
        all_digits(nat_digits(n)),
        nat_digits(n).len() >= 1,
        digits_value(nat_digits(n)) == n,
        nat_digits(n)[0] == 48u8 ==> n == 0 && nat_digits(n).len() == 1,
    decreases n,
{
    let s = nat_digits(n);
    if n >= 10 {
        lemma_nat_digits(n / 10);
        assert(s.drop_last() =~= nat_digits(n / 10));
        assert(s[0] == nat_digits(n / 10)[0]);
        vstd::arithmetic::div_mod::lemma_fundamental_div_mod(n as int, 10);
    } else {
        assert(s.drop_last() =~= Seq::<u8>::empty());
        assert(digits_value(Seq::<u8>::empty()) == 0);
    }
}

/// A run of digits ends where the digits stop.
pub proof fn lemma_run_end(s: Seq<u8>, i: int, e: int)
    requires
        0 <= i <= e <= s.len(),
        forall|k: int| i <= k < e ==> is_digit(#[trigger] s[k]),
        e == s.len() || !is_digit(s[e]),
    ensures
        digit_run_end(s, i) == e,
    decreases e - i,
{
    if i < e {
        lemma_run_end(s, i + 1, e);
    }
}

/// A longer string of digits spells a number at least as large.
pub proof fn lemma_digits_value_grows(s: Seq<u8>, k: int)
    requires
        0 <= k <= s.len(),
    ensures
        digits_value(s.take(k)) <= digits_value(s),
    decreases s.len() - k,
{
    if k < s.len() {
        lemma_digits_value_grows(s, k + 1);
        assert(s.take(k + 1).drop_last() =~= s.take(k));
    } else {
        assert(s.take(k) =~= s);
    }
}

/// Reads the decimal number that starts at `start` and ends before the first
/// byte that is not a digit. A leading zero, or a value beyond `u64`, is an
/// error.
fn read_number(bytes: &[u8], start: usize) -> (r: Result<(u64, usize), DecodeError>)
    requires
        start < bytes@.len(),
        is_digit(bytes@[start as int]),
    ensures
        match r {
            Ok((n, end)) => {
                &&& start < end <= bytes@.len()
                &&& bytes@.subrange(start as int, end as int) == nat_digits(n as nat)
                &&& (end == bytes@.len() || !is_digit(bytes@[end as int]))
            },
            Err(e) => start <= e.pos <= bytes@.len(),
        },
        ({
            let e = digit_run_end(bytes@, start as int);
            let v = digits_value(bytes@.subrange(start as int, e));
            if bytes@[start as int] == 48u8 && e > start + 1 {
                r is Err
            } else if v > u64::MAX {
                r is Err
            } else {
                r == Ok::<(u64, usize), DecodeError>((v as u64, e as usize))
            }
        }),
{
    let ghost e = digit_run_end(bytes@, start as int);
    proof {
        lemma_run_end_digits(bytes@, start as int);
        lemma_run_end_digits(bytes@, start + 1);
    }
    let first = bytes[start];
    if first == 48 {
        if digit_at(bytes, start + 1) {
            proof {
                lemma_run_end_digits(bytes@, start + 2);
            }
            return Err(DecodeError { kind: DecodeErrorKind::LeadingZero, pos: start });
        }
        assert(digit_run_end(bytes@, start + 1) == start + 1);
        assert(e == start + 1);
        assert(bytes@.subrange(start as int, start + 1) =~= nat_digits(0));
        assert(bytes@.subrange(start as int, start + 1).drop_last() =~= Seq::<u8>::empty());
        assert(digits_value(Seq::<u8>::empty()) == 0);
        return Ok((0, start + 1));
    }
    let mut acc: u64 = (first - 48) as u64;
    let mut i: usize = start + 1;
    assert(bytes@.subrange(start as int, i as int) =~= nat_digits(acc as nat));
    assert(bytes@.subrange(start as int, i as int).drop_last() =~= Seq::<u8>::empty());
    assert(digits_value(Seq::<u8>::empty()) == 0);
    assert(digits_value(bytes@.subrange(start as int, i as int)) == acc);
    while digit_at(bytes, i)
        invariant
            start < i <= bytes@.len(),
            acc >= 1,
            bytes@[start as int] != 48u8,
            bytes@.subrange(start as int, i as int) == nat_digits(acc as nat),
            acc == digits_value(bytes@.subrange(start as int, i as int)),
            e == digit_run_end(bytes@, start as int),
            digit_run_end(bytes@, i as int) == e,
            i <= e <= bytes@.len(),
        decreases bytes@.len() - i,
    {
        let d = (bytes[i] - 48) as u64;
        proof {
            lemma_run_end_digits(bytes@, i + 1);
        }
        let ghost next_s = bytes@.subrange(start as int, i + 1);
        assert(next_s.drop_last() =~= bytes@.subrange(start as int, i as int));
        if acc > (18446744073709551615u64 - d) / 10 {
            proof {
                assert(acc * 10 + d > 18446744073709551615u64) by (nonlinear_arith)
                    requires
                        acc > (18446744073709551615u64 - d) / 10,
                        d < 10,
                ;
                lemma_run_end_digits(bytes@, start as int);
                lemma_digits_value_grows(bytes@.subrange(start as int, e), i + 1 - start);
                assert(bytes@.subrange(start as int, e).take(i + 1 - start) =~= next_s);
            }
            return Err(DecodeError { kind: DecodeErrorKind::Overflow, pos: i });
        }
        assert(acc * 10 + d <= 18446744073709551615u64) by (nonlinear_arith)
            requires
                acc <= (18446744073709551615u64 - d) / 10,
                d < 10,
        ;
        let next = acc * 10 + d;
        assert(next / 10 == acc && next % 10 == d) by (nonlinear_arith)
            requires
                next == acc * 10 + d,
                d < 10,
        ;
        assert(bytes@.subrange(start as int, i + 1) =~= bytes@.subrange(start as int, i as int)
            + seq![bytes@[i as int]]);
        acc = next;
        i = i + 1;
    }
    assert(e == i);
    Ok((acc, i))
}

/// Every byte of a run of digits is a digit, and the run ends in the input.
pub proof fn lemma_run_end_digits(s: Seq<u8>, i: int)
    requires
        0 <= i <= s.len(),
    ensures
        i <= digit_run_end(s, i) <= s.len(),
        forall|k: int| i <= k < digit_run_end(s, i) ==> is_digit(#[trigger] s[k]),
    decreases s.len() - i,
{
    if i < s.len() && is_digit(s[i]) {
        lemma_run_end_digits(s, i + 1);
    }
}

/// Every dictionary in `v` has distinct keys: the values a decoder accepts.
pub open spec fn well_formed(v: BencodeVal) -> bool
    decreases v,
{
    match v {
        BencodeVal::List { list, .. } => forall|i: int|
            0 <= i < list@.len() ==> well_formed(#[trigger] list@[i]),
        BencodeVal::Dict { dict, .. } => keys_distinct(dict@) && forall|i: int|
            0 <= i < dict@.len() ==> well_formed(#[trigger] dict@[i].1),
        _ => true,
    }
}

/// The encoding of `v` stands in `s` at offset `pos`.
pub open spec fn encoded_at(v: BencodeVal, s: Seq<u8>, pos: int) -> bool {
    &&& 0 <= pos
    &&& pos + encoding(v).len() <= s.len()
    &&& s.subrange(pos, pos + encoding(v).len()) == encoding(v)
}

/// The magnitude of an integer value.
pub open spec fn int_magnitude(v: BencodeVal) -> nat {
    match v {
        BencodeVal::Int { int: n, .. } => if n < 0 {
            (-n) as nat
        } else {
            n as nat
        },
        _ => 0,
    }
}

/// An integer value is negative.
pub open spec fn int_negative(v: BencodeVal) -> bool {
    match v {
        BencodeVal::Int { int: n, .. } => n < 0,
        _ => false,
    }
}

/// What the bytes of an encoded integer look like.
proof fn lemma_int_form(v: BencodeVal, s: Seq<u8>, pos: int)
    requires
        v is Int,
        encoded_at(v, s, pos),
    ensures
        ({
            let m = int_magnitude(v);
            let neg = int_negative(v);
            let j = if neg {
                pos + 2
            } else {
                pos + 1
            };
            let k = nat_digits(m).len() as int;
            &&& pos + 1 < s.len()
            &&& neg ==> s[pos + 1] == 45u8
            &&& !neg ==> is_digit(s[pos + 1])
            &&& j + k < s.len()
            &&& s[j + k] == 101u8
            &&& is_digit(s[j])
            &&& digit_run_end(s, j) == j + k
            &&& digits_value(s.subrange(j, j + k)) == m
            &&& (s[j] == 48u8 ==> m == 0 && k == 1)
            &&& (neg ==> 1 <= m <= 9223372036854775808)
            &&& (!neg ==> m <= 9223372036854775807)
            &&& encoding(v).len() == j + k + 1 - pos
        }),
{
    let m = int_magnitude(v);
    let neg = int_negative(v);
    let j = if neg {
        pos + 2
    } else {
        pos + 1
    };
    let d = nat_digits(m);
    let k = d.len() as int;
    lemma_nat_digits(m);
    let e = encoding(v);
    if neg {
        assert(e =~= seq![105u8] + seq![45u8] + d + seq![101u8]);
    } else {
        assert(e =~= seq![105u8] + d + seq![101u8]);
    }
    assert(s.subrange(j, j + k) =~= d) by {
        assert forall|t: int| 0 <= t < k implies s.subrange(j, j + k)[t] == d[t] by {
            assert(s[j + t] == s.subrange(pos, pos + e.len())[j + t - pos]);
        }
    }
    assert(s[j + k] == s.subrange(pos, pos + e.len())[j + k - pos]);
    assert(s[pos + 1] == s.subrange(pos, pos + e.len())[1]);
    assert(s[j] == d[0]);
    assert forall|t: int| j <= t < j + k implies is_digit(#[trigger] s[t]) by {
        assert(s[t] == d[t - j]);
    }
    lemma_run_end(s, j, j + k);
}

/// Decodes the integer `i<decimal>e` that starts at `pos`.
fn decode_int(bytes: &[u8], pos: usize) -> (r: Result<BencodeVal, DecodeError>)
    requires
        pos < bytes@.len(),
        bytes@[pos as int] == 105u8,
    ensures
        match r {
            Ok(v) => v.start() == pos && decoded_from(v, bytes@) && v is Int,
            Err(e) => pos <= e.pos <= bytes@.len(),
        },
        forall|w: BencodeVal|
            #[trigger] encoded_at(w, bytes@, pos as int) && w is Int ==> (r matches Ok(u)
                && u.extent() == encoding(w).len()),
{
    let n = bytes.len();
    let mut j: usize = pos + 1;
    let neg = j < bytes.len() && bytes[j] == 45;
    if neg {
        j = j + 1;
    }
    if j >= bytes.len() {
        proof {
            assert forall|w: BencodeVal| encoded_at(w, bytes@, pos as int) && w is Int implies false by {
                lemma_int_form(w, bytes@, pos as int);
            }
        }
        return Err(DecodeError { kind: DecodeErrorKind::Eof, pos: j });
    }
    if !digit_at(bytes, j) {
        proof {
            assert forall|w: BencodeVal| encoded_at(w, bytes@, pos as int) && w is Int implies false by {
                lemma_int_form(w, bytes@, pos as int);
            }
        }
        return Err(DecodeError { kind: DecodeErrorKind::UnexpectedByte, pos: j });
    }
    if neg && bytes[j] == 48 {
        proof {
            assert forall|w: BencodeVal| encoded_at(w, bytes@, pos as int) && w is Int implies false by {
                lemma_int_form(w, bytes@, pos as int);
            }
        }
        return Err(DecodeError { kind: DecodeErrorKind::NegativeZero, pos: pos + 1 });
    }
    let (m, end) = match read_number(bytes, j) {
        Ok(p) => p,
        Err(e) => {
            proof {
                assert forall|w: BencodeVal| encoded_at(w, bytes@, pos as int) && w is Int implies false by {
                    lemma_int_form(w, bytes@, pos as int);
                }
            }
            return Err(e);
        },
    };
    if end >= bytes.len() {
        proof {
            assert forall|w: BencodeVal| encoded_at(w, bytes@, pos as int) && w is Int implies false by {
                lemma_int_form(w, bytes@, pos as int);
            }
        }
        return Err(DecodeError { kind: DecodeErrorKind::Eof, pos: end });
    }
    if bytes[end] != 101 {
        proof {
            assert forall|w: BencodeVal| encoded_at(w, bytes@, pos as int) && w is Int implies false by {
                lemma_int_form(w, bytes@, pos as int);
            }
        }
        return Err(DecodeError { kind: DecodeErrorKind::UnexpectedByte, pos: end });
    }
    let value: i64;
    if neg {
        if m > 9223372036854775808u64 {
            proof {
            assert forall|w: BencodeVal| encoded_at(w, bytes@, pos as int) && w is Int implies false by {
                lemma_int_form(w, bytes@, pos as int);
            }
        }
        return Err(DecodeError { kind: DecodeErrorKind::Overflow, pos: j });
        }
        if m == 9223372036854775808u64 {
            value = i64::MIN;
        } else {
            value = -(m as i64);
        }
        assert(m >= 1) by {
            if m == 0 {
                assert(bytes@.subrange(j as int, end as int)[0] == 48u8);
            }
        }
        assert(int_digits(value as int) =~= seq![45u8] + nat_digits(m as nat));
        assert(bytes@.subrange(pos as int, end + 1) =~= seq![105u8] + seq![45u8]
            + bytes@.subrange(j as int, end as int) + seq![101u8]);
    } else {
        if m > 9223372036854775807u64 {
            proof {
            assert forall|w: BencodeVal| encoded_at(w, bytes@, pos as int) && w is Int implies false by {
                lemma_int_form(w, bytes@, pos as int);
            }
        }
        return Err(DecodeError { kind: DecodeErrorKind::Overflow, pos: j });
        }
        value = m as i64;
        assert(bytes@.subrange(pos as int, end + 1) =~= seq![105u8] + bytes@.subrange(
            j as int,
            end as int,
        ) + seq![101u8]);
    }
    let v = BencodeVal::Int { index: pos, int: value, size: end + 1 - pos };
    proof {
        assert forall|w: BencodeVal| encoded_at(w, bytes@, pos as int) && w is Int implies v.extent()
            == encoding(w).len() by {
            lemma_int_form(w, bytes@, pos as int);
        }
    }
    assert(bytes@.subrange(v.start(), v.start() + v.extent()) =~= encoding(v));
    Ok(v)
}


/// A copy of `bytes[from..to]`.
pub fn copy_range(bytes: &[u8], from: usize, to: usize) -> (r: Vec<u8>)
    requires
        from <= to <= bytes@.len(),
    ensures
        r@ == bytes@.subrange(from as int, to as int),
{
    let mut out: Vec<u8> = Vec::new();
    let mut i: usize = from;
    while i < to
        invariant
            from <= i <= to <= bytes@.len(),
            out@ == bytes@.subrange(from as int, i as int),
        decreases to - i,
    {
        out.push(bytes[i]);
        assert(out@ =~= bytes@.subrange(from as int, i + 1));
        i = i + 1;
    }
    out
}

/// Whether two byte strings are equal.
pub fn bytes_equal(a: &[u8], b: &[u8]) -> (r: bool)
    ensures
        r == (a@ == b@),
{
    if a.len() != b.len() {
        return false;
    }
    let mut i: usize = 0;
    while i < a.len()
        invariant
            a@.len() == b@.len(),
            0 <= i <= a@.len(),
            a@.subrange(0, i as int) == b@.subrange(0, i as int),
        decreases a@.len() - i,
    {
        if a[i] != b[i] {
            assert(a@[i as int] != b@[i as int]);
            return false;
        }
        assert(a@.subrange(0, i + 1) =~= a@.subrange(0, i as int).push(a@[i as int]));
        assert(b@.subrange(0, i + 1) =~= b@.subrange(0, i as int).push(b@[i as int]));
        i = i + 1;
    }
    assert(a@ =~= a@.subrange(0, i as int));
    assert(b@ =~= b@.subrange(0, i as int));
    true
}

/// What the bytes of an encoded byte string look like.
proof fn lemma_str_form(v: BencodeVal, s: Seq<u8>, pos: int)
    requires
        v is Str,
        encoded_at(v, s, pos),
    ensures
        ({
            let b = v->byte_str@;
            let k = nat_digits(b.len()).len() as int;
            &&& pos + k + 1 + b.len() <= s.len()
            &&& is_digit(s[pos])
            &&& digit_run_end(s, pos) == pos + k
            &&& digits_value(s.subrange(pos, pos + k)) == b.len()
            &&& (s[pos] == 48u8 ==> k == 1)
            &&& s[pos + k] == 58u8
            &&& s.subrange(pos + k + 1, pos + k + 1 + b.len()) == b
            &&& encoding(v).len() == k + 1 + b.len()
        }),
{
    let b = v->byte_str@;
    let d = nat_digits(b.len());
    let k = d.len() as int;
    lemma_nat_digits(b.len());
    let e = encoding(v);
    assert(e =~= d + seq![58u8] + b);
    let w = s.subrange(pos, pos + e.len());
    assert(s.subrange(pos, pos + k) =~= d) by {
        assert forall|t: int| 0 <= t < k implies s.subrange(pos, pos + k)[t] == d[t] by {
            assert(s[pos + t] == w[t]);
        }
    }
    assert(s.subrange(pos + k + 1, pos + k + 1 + b.len()) =~= b) by {
        assert forall|t: int| 0 <= t < b.len() implies s.subrange(pos + k + 1, pos + k + 1 + b.len())[t]
            == b[t] by {
            assert(s[pos + k + 1 + t] == w[k + 1 + t]);
        }
    }
    assert(s[pos + k] == w[k]);
    assert(s[pos] == d[0]);
    assert forall|t: int| pos <= t < pos + k implies is_digit(#[trigger] s[t]) by {
        assert(s[t] == d[t - pos]);
    }
    lemma_run_end(s, pos, pos + k);
}

/// Decodes the byte string `<len>:<bytes>` that starts at `pos`.
fn decode_str(bytes: &[u8], pos: usize) -> (r: Result<BencodeVal, DecodeError>)
    requires
        pos < bytes@.len(),
        is_digit(bytes@[pos as int]),
    ensures
        match r {
            Ok(v) => v.start() == pos && decoded_from(v, bytes@) && v is Str,
            Err(e) => pos <= e.pos <= bytes@.len(),
        },
        forall|w: BencodeVal|
            #[trigger] encoded_at(w, bytes@, pos as int) && w is Str ==> (r matches Ok(u)
                && u.extent() == encoding(w).len() && u is Str && u->byte_str@ == w->byte_str@),
{
    let n = bytes.len();
    let (len, colon) = match read_number(bytes, pos) {
        Ok(p) => p,
        Err(e) => {
            proof {
                assert forall|w: BencodeVal| encoded_at(w, bytes@, pos as int) && w is Str implies false by {
                    lemma_str_form(w, bytes@, pos as int);
                }
            }
            return Err(e);
        },
    };
    if colon >= n {
        proof {
            assert forall|w: BencodeVal| encoded_at(w, bytes@, pos as int) && w is Str implies false by {
                lemma_str_form(w, bytes@, pos as int);
            }
        }
        return Err(DecodeError { kind: DecodeErrorKind::Eof, pos: colon });
    }
    if bytes[colon] != 58 {
        proof {
            assert forall|w: BencodeVal| encoded_at(w, bytes@, pos as int) && w is Str implies false by {
                lemma_str_form(w, bytes@, pos as int);
            }
        }
        return Err(DecodeError { kind: DecodeErrorKind::UnexpectedByte, pos: colon });
    }
    if len > (n - (colon + 1)) as u64 {
        proof {
            assert forall|w: BencodeVal| encoded_at(w, bytes@, pos as int) && w is Str implies false by {
                lemma_str_form(w, bytes@, pos as int);
            }
        }
        return Err(DecodeError { kind: DecodeErrorKind::Eof, pos: n });
    }
    let end = colon + 1 + len as usize;
    let byte_str = copy_range(bytes, colon + 1, end);
    let v = BencodeVal::Str { index: pos, byte_str, size: end - pos };
    proof {
        assert forall|w: BencodeVal| encoded_at(w, bytes@, pos as int) && w is Str implies v.extent()
            == encoding(w).len() && v->byte_str@ == w->byte_str@ by {
            lemma_str_form(w, bytes@, pos as int);
        }
    }
    assert(bytes@.subrange(v.start(), v.start() + v.extent()) =~= bytes@.subrange(
        pos as int,
        colon as int,
    ) + seq![58u8] + byte_str@);
    Ok(v)
}

/// The first byte of an encoding tells the kind of the value.
proof fn lemma_first_byte(v: BencodeVal)
    ensures
        encoding(v).len() >= 2,
        v is Int <==> encoding(v)[0] == 105u8,
        v is List <==> encoding(v)[0] == 108u8,
        v is Dict <==> encoding(v)[0] == 100u8,
        v is Str <==> is_digit(encoding(v)[0]),
{
    match v {
        BencodeVal::Str { byte_str, .. } => {
            lemma_nat_digits(byte_str@.len());
        },
        _ => {},
    }
}

/// The encoding of the first `j` values of a list begins the encoding of all of them.
proof fn lemma_list_prefix(l: Seq<BencodeVal>, j: int)
    requires
        0 <= j <= l.len(),
    ensures
        encoding_list(l.take(j)).len() <= encoding_list(l).len(),
        encoding_list(l).subrange(0, encoding_list(l.take(j)).len() as int) == encoding_list(l.take(j)),
    decreases l.len() - j,
{
    if j == l.len() {
        assert(l.take(j) =~= l);
        assert(encoding_list(l).subrange(0, encoding_list(l).len() as int) =~= encoding_list(l));
    } else {
        lemma_list_prefix(l, j + 1);
        assert(l.take(j + 1).drop_last() =~= l.take(j));
        let a = encoding_list(l.take(j));
        let b = encoding_list(l.take(j + 1));
        assert(encoding_list(l).subrange(0, a.len() as int) =~= b.subrange(0, a.len() as int));
        assert(b.subrange(0, a.len() as int) =~= a);
    }
}

/// Inside an encoded list, value `j` is encoded right after the values before it.
proof fn lemma_list_elem_at(w: BencodeVal, s: Seq<u8>, pos: int, j: int)
    requires
        w is List,
        encoded_at(w, s, pos),
        0 <= j <= w->list@.len(),
    ensures
        ({
            let l = w->list@;
            let i = pos + 1 + encoding_list(l.take(j)).len();
            &&& j < l.len() ==> encoded_at(l[j], s, i)
            &&& j == l.len() ==> i < s.len() && s[i] == 101u8 && encoding(w).len() == i + 1 - pos
        }),
{
    let l = w->list@;
    let e = encoding(w);
    let big = encoding_list(l);
    assert(e =~= seq![108u8] + big + seq![101u8]);
    let a = encoding_list(l.take(j));
    let i = pos + 1 + a.len();
    if j < l.len() {
        lemma_list_prefix(l, j + 1);
        assert(l.take(j + 1).drop_last() =~= l.take(j));
        let b = encoding_list(l.take(j + 1));
        let x = encoding(l[j]);
        assert(b == a + x);
        assert(s.subrange(i, i + x.len()) =~= x) by {
            assert forall|t: int| 0 <= t < x.len() implies s.subrange(i, i + x.len())[t] == x[t] by {
                assert(s[i + t] == s.subrange(pos, pos + e.len())[1 + a.len() + t]);
                assert(big[a.len() + t] == b[a.len() + t]);
            }
        }
    } else {
        assert(l.take(j) =~= l);
        assert(s[i] == s.subrange(pos, pos + e.len())[1 + a.len() as int]);
    }
}

/// The encoding of the first `j` entries of a dictionary begins the encoding of all of them.
proof fn lemma_dict_prefix(d: Seq<(Vec<u8>, BencodeVal)>, j: int)
    requires
        0 <= j <= d.len(),
    ensures
        encoding_dict(d.take(j)).len() <= encoding_dict(d).len(),
        encoding_dict(d).subrange(0, encoding_dict(d.take(j)).len() as int) == encoding_dict(d.take(j)),
    decreases d.len() - j,
{
    if j == d.len() {
        assert(d.take(j) =~= d);
        assert(encoding_dict(d).subrange(0, encoding_dict(d).len() as int) =~= encoding_dict(d));
    } else {
        lemma_dict_prefix(d, j + 1);
        assert(d.take(j + 1).drop_last() =~= d.take(j));
        let a = encoding_dict(d.take(j));
        let b = encoding_dict(d.take(j + 1));
        assert(encoding_dict(d).subrange(0, a.len() as int) =~= b.subrange(0, a.len() as int));
        assert(b.subrange(0, a.len() as int) =~= a);
    }
}

/// A byte string value holding `k`.
pub open spec fn str_value(k: Vec<u8>) -> BencodeVal {
    BencodeVal::Str { index: 0, byte_str: k, size: 0 }
}

/// Inside an encoded dictionary, entry `j` is encoded right after the entries
/// before it: first its key as a byte string, then its value.
proof fn lemma_dict_entry_at(w: BencodeVal, s: Seq<u8>, pos: int, j: int)
    requires
        w is Dict,
        encoded_at(w, s, pos),
        0 <= j <= w->dict@.len(),
    ensures
        ({
            let d = w->dict@;
            let i = pos + 1 + encoding_dict(d.take(j)).len();
            &&& j < d.len() ==> encoded_at(str_value(d[j].0), s, i) && encoded_at(
                d[j].1,
                s,
                i + encoding(str_value(d[j].0)).len(),
            )
            &&& j == d.len() ==> i < s.len() && s[i] == 101u8 && encoding(w).len() == i + 1 - pos
        }),
{
    let d = w->dict@;
    let e = encoding(w);
    let big = encoding_dict(d);
    assert(e =~= seq![100u8] + big + seq![101u8]);
    let a = encoding_dict(d.take(j));
    let i = pos + 1 + a.len();
    if j < d.len() {
        lemma_dict_prefix(d, j + 1);
        assert(d.take(j + 1).drop_last() =~= d.take(j));
        let b = encoding_dict(d.take(j + 1));
        let key = encoding(str_value(d[j].0));
        let x = encoding(d[j].1);
        assert(b =~= a + key + x);
        assert(s.subrange(i, i + key.len()) =~= key) by {
            assert forall|t: int| 0 <= t < key.len() implies s.subrange(i, i + key.len())[t] == key[t] by {
                assert(s[i + t] == s.subrange(pos, pos + e.len())[1 + a.len() + t]);
                assert(big[a.len() + t] == b[a.len() + t]);
            }
        }
        let i2 = i + key.len();
        assert(s.subrange(i2, i2 + x.len()) =~= x) by {
            assert forall|t: int| 0 <= t < x.len() implies s.subrange(i2, i2 + x.len())[t] == x[t] by {
                assert(s[i2 + t] == s.subrange(pos, pos + e.len())[1 + a.len() + key.len() + t]);
                assert(big[a.len() + key.len() + t] == b[a.len() + key.len() + t]);
            }
        }
    } else {
        assert(d.take(j) =~= d);
        assert(s[i] == s.subrange(pos, pos + e.len())[1 + a.len() as int]);
    }
}

/// Decodes the value that starts at `pos`, whatever its kind.
fn decode_value(bytes: &[u8], pos: usize, Ghost(hint): Ghost<BencodeVal>) -> (r: Result<
    BencodeVal,
    DecodeError,
>)
    requires
        pos <= bytes@.len(),
    ensures
        match r {
            Ok(v) => v.start() == pos && decoded_from(v, bytes@),
            Err(e) => pos <= e.pos <= bytes@.len(),
        },
        encoded_at(hint, bytes@, pos as int) && well_formed(hint) ==> (r matches Ok(u)
            && u.extent() == encoding(hint).len()),
        pos == bytes@.len() ==> r == Err::<BencodeVal, DecodeError>(
            DecodeError { kind: DecodeErrorKind::Eof, pos },
        ),
        pos < bytes@.len() && !is_digit(bytes@[pos as int]) && bytes@[pos as int] != 105u8
            && bytes@[pos as int] != 108u8 && bytes@[pos as int] != 100u8 ==> r
            == Err::<BencodeVal, DecodeError>(
            DecodeError { kind: DecodeErrorKind::UnexpectedByte, pos },
        ),
    decreases bytes@.len() - pos, 1int,
{
    proof {
        lemma_first_byte(hint);
        if encoded_at(hint, bytes@, pos as int) {
            assert(bytes@[pos as int] == encoding(hint)[0]);
        }
    }
    if pos >= bytes.len() {
        return Err(DecodeError { kind: DecodeErrorKind::Eof, pos });
    }
    let c = bytes[pos];
    if c == 105 {
        decode_int(bytes, pos)
    } else if c == 108 {
        decode_list(bytes, pos, Ghost(hint))
    } else if c == 100 {
        decode_dict(bytes, pos, Ghost(hint))
    } else if 48 <= c && c <= 57 {
        decode_str(bytes, pos)
    } else {
        Err(DecodeError { kind: DecodeErrorKind::UnexpectedByte, pos })
    }
}

/// Decodes the list `l<value>*e` that starts at `pos`.
fn decode_list(bytes: &[u8], pos: usize, Ghost(hint): Ghost<BencodeVal>) -> (r: Result<
    BencodeVal,
    DecodeError,
>)
    requires
        pos < bytes@.len(),
        bytes@[pos as int] == 108u8,
    ensures
        match r {
            Ok(v) => v.start() == pos && decoded_from(v, bytes@) && v is List,
            Err(e) => pos <= e.pos <= bytes@.len(),
        },
        hint is List && encoded_at(hint, bytes@, pos as int) && well_formed(hint) ==> (r matches Ok(
            u,
        ) && u.extent() == encoding(hint).len()),
    decreases bytes@.len() - pos, 0int,
{
    let n = bytes.len();
    let mut list: Vec<BencodeVal> = Vec::new();
    let mut i: usize = pos + 1;
    let ghost hinted = hint is List && encoded_at(hint, bytes@, pos as int) && well_formed(hint);
    assert(hint->list@.take(0) =~= Seq::<BencodeVal>::empty());
    assert(bytes@.subrange(pos + 1, i as int) =~= encoding_list(list@));
    loop
        invariant
            pos < i <= n == bytes@.len(),
            bytes@[pos as int] == 108u8,
            bytes@.subrange(pos + 1, i as int) == encoding_list(list@),
            forall|k: int| 0 <= k < list@.len() ==> decoded_from(#[trigger] list@[k], bytes@),
            hinted == (hint is List && encoded_at(hint, bytes@, pos as int) && well_formed(hint)),
            hinted ==> list@.len() <= hint->list@.len() && i == pos + 1 + encoding_list(
                hint->list@.take(list@.len() as int),
            ).len(),
        decreases n - i,
    {
        proof {
            if hinted {
                lemma_list_elem_at(hint, bytes@, pos as int, list@.len() as int);
                if list@.len() < hint->list@.len() {
                    lemma_first_byte(hint->list@[list@.len() as int]);
                    assert(bytes@[i as int] == encoding(hint->list@[list@.len() as int])[0]);
                }
            }
        }
        if i >= n {
            return Err(DecodeError { kind: DecodeErrorKind::Eof, pos: i });
        }
        if bytes[i] == 101 {
            let v = BencodeVal::List { index: pos, list, size: i + 1 - pos };
            assert(v.start() == pos && v.extent() == i + 1 - pos);
            assert(bytes@.subrange(pos as int, i + 1) =~= seq![108u8] + bytes@.subrange(
                pos + 1,
                i as int,
            ) + seq![101u8]);
            return Ok(v);
        }
        let ghost sub = if hinted {
            hint->list@[list@.len() as int]
        } else {
            hint
        };
        let item = match decode_value(bytes, i, Ghost(sub)) {
            Ok(item) => item,
            Err(e) => return Err(e),
        };
        let size = item.size();
        let ghost old_list = list@;
        proof {
            if hinted {
                let l = hint->list@;
                let j = list@.len() as int;
                assert(well_formed(l[j]));
                assert(l.take(j + 1).drop_last() =~= l.take(j));
            }
        }
        assert(bytes@.subrange(pos + 1, i + size) =~= bytes@.subrange(pos + 1, i as int)
            + bytes@.subrange(i as int, i + size));
        list.push(item);
        assert(list@.drop_last() =~= old_list);
        i = i + size;
    }
}

/// Decodes the dictionary `d(<key><value>)*e` that starts at `pos`.
fn decode_dict(bytes: &[u8], pos: usize, Ghost(hint): Ghost<BencodeVal>) -> (r: Result<
    BencodeVal,
    DecodeError,
>)
    requires
        pos < bytes@.len(),
        bytes@[pos as int] == 100u8,
    ensures
        match r {
            Ok(v) => v.start() == pos && decoded_from(v, bytes@) && v is Dict,
            Err(e) => pos <= e.pos <= bytes@.len(),
        },
        hint is Dict && encoded_at(hint, bytes@, pos as int) && well_formed(hint) ==> (r matches Ok(
            u,
        ) && u.extent() == encoding(hint).len()),
    decreases bytes@.len() - pos, 0int,
{
    let n = bytes.len();
    let mut dict: Vec<(Vec<u8>, BencodeVal)> = Vec::new();
    let mut i: usize = pos + 1;
    let ghost hinted = hint is Dict && encoded_at(hint, bytes@, pos as int) && well_formed(hint);
    let ghost hd = hint->dict@;
    assert(hd.take(0) =~= Seq::<(Vec<u8>, BencodeVal)>::empty());
    assert(bytes@.subrange(pos + 1, i as int) =~= encoding_dict(dict@));
    loop
        invariant
            pos < i <= n == bytes@.len(),
            bytes@[pos as int] == 100u8,
            bytes@.subrange(pos + 1, i as int) == encoding_dict(dict@),
            keys_distinct(dict@),
            forall|k: int| 0 <= k < dict@.len() ==> decoded_from(#[trigger] dict@[k].1, bytes@),
            hinted == (hint is Dict && encoded_at(hint, bytes@, pos as int) && well_formed(hint)),
            hd == hint->dict@,
            hinted ==> dict@.len() <= hd.len() && i == pos + 1 + encoding_dict(
                hd.take(dict@.len() as int),
            ).len(),
            hinted ==> forall|m: int| 0 <= m < dict@.len() ==> (#[trigger] dict@[m]).0@ == hd[m].0@,
        decreases n - i,
    {
        let ghost jj = dict@.len() as int;
        proof {
            if hinted {
                lemma_dict_entry_at(hint, bytes@, pos as int, jj);
                if jj < hd.len() {
                    lemma_first_byte(str_value(hd[jj].0));
                    assert(bytes@[i as int] == encoding(str_value(hd[jj].0))[0]);
                }
            }
        }
        if i >= n {
            return Err(DecodeError { kind: DecodeErrorKind::Eof, pos: i });
        }
        if bytes[i] == 101 {
            let v = BencodeVal::Dict { index: pos, dict, size: i + 1 - pos };
            assert(v.start() == pos && v.extent() == i + 1 - pos);
            assert(bytes@.subrange(pos as int, i + 1) =~= seq![100u8] + bytes@.subrange(
                pos + 1,
                i as int,
            ) + seq![101u8]);
            return Ok(v);
        }
        if !digit_at(bytes, i) {
            return Err(DecodeError { kind: DecodeErrorKind::UnexpectedByte, pos: i });
        }
        let key_val = match decode_str(bytes, i) {
            Ok(k) => k,
            Err(e) => return Err(e),
        };
        let key_size = key_val.size();
        let key = match key_val {
            BencodeVal::Str { byte_str, .. } => byte_str,
            _ => return Err(DecodeError { kind: DecodeErrorKind::UnexpectedByte, pos: i }),
        };
        let mut k: usize = 0;
        while k < dict.len()
            invariant
                0 <= k <= dict@.len(),
                pos < i < n == bytes@.len(),
                forall|m: int| 0 <= m < k ==> dict@[m].0@ != key@,
                hinted == (hint is Dict && encoded_at(hint, bytes@, pos as int) && well_formed(hint)),
                hinted ==> jj < hd.len() && key@ == hd[jj].0@ && keys_distinct(hd) && jj
                    == dict@.len(),
                hinted ==> forall|m: int| 0 <= m < dict@.len() ==> (#[trigger] dict@[m]).0@ == hd[m].0@,
            decreases dict@.len() - k,
        {
            if bytes_equal(dict[k].0.as_slice(), key.as_slice()) {
                proof {
                    if hinted {
                        assert(dict@[k as int].0@ == hd[k as int].0@);
                        assert(keys_distinct(hd));
                        assert(k < jj);
                        assert(hd[k as int].0@ != hd[jj].0@);
                    }
                }
                return Err(DecodeError { kind: DecodeErrorKind::DuplicateKey, pos: i });
            }
            k = k + 1;
        }
        let j = i + key_size;
        let ghost sub = if hinted {
            hd[jj].1
        } else {
            hint
        };
        let item = match decode_value(bytes, j, Ghost(sub)) {
            Ok(item) => item,
            Err(e) => return Err(e),
        };
        let size = item.size();
        let ghost old_dict = dict@;
        proof {
            if hinted {
                assert(well_formed(hd[jj].1));
                assert(hd.take(jj + 1).drop_last() =~= hd.take(jj));
                assert(encoding(str_value(hd[jj].0)) == nat_digits(hd[jj].0@.len()) + seq![58u8]
                    + hd[jj].0@);
            }
        }
        assert(bytes@.subrange(pos + 1, j + size) =~= bytes@.subrange(pos + 1, i as int)
            + bytes@.subrange(i as int, j as int) + bytes@.subrange(j as int, j + size));
        dict.push((key, item));
        assert(dict@.drop_last() =~= old_dict);
        i = j + size;
    }
}

/// Decodes the Bencode value at the start of `bytes`, and returns it with the
/// number of bytes it spans. Offsets recorded in the value are offsets in
/// `bytes`. It succeeds exactly when `bytes` starts with the encoding of a
/// value that repeats no dictionary key; bytes after that value are left.
pub fn decode(bytes: &[u8]) -> (r: Result<(BencodeVal, usize), DecodeError>)
    ensures
        match r {
            Ok((v, n)) => decodes_to(bytes@, v, n as int),
            Err(e) => e.pos <= bytes@.len(),
        },
        bytes@.len() == 0 ==> r == Err::<(BencodeVal, usize), DecodeError>(
            DecodeError { kind: DecodeErrorKind::Eof, pos: 0 },
        ),
        bytes@.len() > 0 && !is_digit(bytes@[0]) && bytes@[0] != 105u8 && bytes@[0] != 108u8
            && bytes@[0] != 100u8 ==> r == Err::<(BencodeVal, usize), DecodeError>(
            DecodeError { kind: DecodeErrorKind::UnexpectedByte, pos: 0 },
        ),
        forall|w: BencodeVal| #[trigger] encoded_at(w, bytes@, 0) && well_formed(w) ==> r is Ok,
{
    let ghost w = choose|w: BencodeVal| encoded_at(w, bytes@, 0) && well_formed(w);
    match decode_value(bytes, 0, Ghost(w)) {
        Ok(v) => {
            let n = v.size();
            Ok((v, n))
        },
        Err(e) => Err(e),
    }
}


/// Appends the decimal digits of `n`.
fn push_decimal(out: &mut Vec<u8>, n: u64)
    ensures
        final(out)@ == old(out)@ + nat_digits(n as nat),
    decreases n,
{
    if n >= 10 {
        push_decimal(out, n / 10);
    }
    out.push((n % 10) as u8 + 48);
    assert(final(out)@ =~= old(out)@ + nat_digits(n as nat));
}

/// Appends the canonical encoding of `v` (dictionary entries in stored order).
pub fn encode_into(v: &BencodeVal, out: &mut Vec<u8>)
    ensures
        final(out)@ == old(out)@ + encoding(*v),
    decreases v,
{
    let ghost start = out@;
    match v {
        BencodeVal::Int { int: x, .. } => {
            out.push(105);
            if *x < 0 {
                out.push(45);
                let m: u64 = if *x == i64::MIN {
                    9223372036854775808u64
                } else {
                    (-*x) as u64
                };
                push_decimal(out, m);
            } else {
                push_decimal(out, *x as u64);
            }
            out.push(101);
            assert(out@ =~= start + encoding(*v));
        },
        BencodeVal::Str { byte_str, .. } => {
            push_decimal(out, byte_str.len() as u64);
            out.push(58);
            let mut i: usize = 0;
            while i < byte_str.len()
                invariant
                    0 <= i <= byte_str@.len(),
                    out@ == start + nat_digits(byte_str@.len()) + seq![58u8]
                        + byte_str@.subrange(0, i as int),
                decreases byte_str@.len() - i,
            {
                out.push(byte_str[i]);
                assert(byte_str@.subrange(0, i + 1) =~= byte_str@.subrange(0, i as int).push(
                    byte_str@[i as int],
                ));
                i = i + 1;
            }
            assert(byte_str@.subrange(0, i as int) =~= byte_str@);
        },
        BencodeVal::List { index, list, size } => {
            out.push(108);
            let mut k: usize = 0;
            assert(list@.subrange(0, 0) =~= Seq::<BencodeVal>::empty());
            while k < list.len()
                invariant
                    0 <= k <= list@.len(),
                    out@ == start + seq![108u8] + encoding_list(list@.subrange(0, k as int)),
                    *v == (BencodeVal::List { index: *index, list: *list, size: *size }),
                decreases list@.len() - k,
            {
                proof {
                    vstd::std_specs::vec::axiom_vec_decreases_to_view(*list);
                    vstd::seq::axiom_seq_index_decreases(list@, k as int);
                    let ghost w = *v;
                    assert(decreases_to!(w => w->list));
                    assert(decreases_to!(*v => list@[k as int]));
                }
                encode_into(&list[k], out);
                assert(list@.subrange(0, k + 1).drop_last() =~= list@.subrange(0, k as int));
                k = k + 1;
            }
            assert(list@.subrange(0, k as int) =~= list@);
            out.push(101);
            assert(out@ =~= start + encoding(*v));
        },
        BencodeVal::Dict { index, dict, size } => {
            out.push(100);
            let mut k: usize = 0;
            assert(dict@.subrange(0, 0) =~= Seq::<(Vec<u8>, BencodeVal)>::empty());
            while k < dict.len()
                invariant
                    0 <= k <= dict@.len(),
                    out@ == start + seq![100u8] + encoding_dict(dict@.subrange(0, k as int)),
                    *v == (BencodeVal::Dict { index: *index, dict: *dict, size: *size }),
                decreases dict@.len() - k,
            {
                let key = &dict[k].0;
                push_decimal(out, key.len() as u64);
                out.push(58);
                let mut i: usize = 0;
                let ghost mid = out@;
                while i < key.len()
                    invariant
                        0 <= i <= key@.len(),
                        out@ == mid + key@.subrange(0, i as int),
                    decreases key@.len() - i,
                {
                    out.push(key[i]);
                    assert(key@.subrange(0, i + 1) =~= key@.subrange(0, i as int).push(
                        key@[i as int],
                    ));
                    i = i + 1;
                }
                assert(key@.subrange(0, i as int) =~= key@);
                proof {
                    vstd::std_specs::vec::axiom_vec_decreases_to_view(*dict);
                    vstd::seq::axiom_seq_index_decreases(dict@, k as int);
                    let ghost w = *v;
                    assert(decreases_to!(w => w->dict));
                    assert(decreases_to!(dict@[k as int] => dict@[k as int].1));
                    assert(decreases_to!(*v => dict@[k as int].1));
                }
                encode_into(&dict[k].1, out);
                assert(dict@.subrange(0, k + 1).drop_last() =~= dict@.subrange(0, k as int));
                k = k + 1;
            }
            assert(dict@.subrange(0, k as int) =~= dict@);
            out.push(101);
            assert(out@ =~= start + encoding(*v));
        },
    }
}

/// The canonical encoding of `v` (dictionary entries in stored order).
pub fn encode(v: &BencodeVal) -> (r: Vec<u8>)
    ensures
        r@ == encoding(*v),
{
    let mut out: Vec<u8> = Vec::new();
    encode_into(v, &mut out);
    assert(out@ =~= encoding(*v));
    out
}

/// Round trip: the value that `decode` returns on `bytes` encodes to exactly
/// the bytes it consumed, and so to `bytes` itself when they were all consumed.
pub proof fn lemma_round_trip(bytes: Seq<u8>, v: BencodeVal, n: int)
    requires
        decodes_to(bytes, v, n),
    ensures
        encoding(v) == bytes.subrange(0, n),
        n == bytes.len() ==> encoding(v) == bytes,
{
    assert(n == bytes.len() ==> bytes.subrange(0, n) =~= bytes);
}

/// `w` is `v` or a value nested in it at any depth.
pub open spec fn nested_in(w: BencodeVal, v: BencodeVal) -> bool
    decreases v,
{
    w == v || match v {
        BencodeVal::List { list, .. } => exists|i: int|
            0 <= i < list@.len() && nested_in(w, #[trigger] list@[i]),
        BencodeVal::Dict { dict, .. } => exists|i: int|
            0 <= i < dict@.len() && nested_in(w, #[trigger] dict@[i].1),
        _ => false,
    }
}

/// A decoded value repeats no key in any of its dictionaries.
pub proof fn lemma_decoded_well_formed(v: BencodeVal, s: Seq<u8>)
    requires
        decoded_from(v, s),
    ensures
        well_formed(v),
    decreases v,
{
    match v {
        BencodeVal::List { list, .. } => {
            assert forall|i: int| 0 <= i < list@.len() implies well_formed(#[trigger] list@[i]) by {
                lemma_decoded_well_formed(list@[i], s);
            }
        },
        BencodeVal::Dict { dict, .. } => {
            assert forall|i: int| 0 <= i < dict@.len() implies well_formed(#[trigger] dict@[i].1) by {
                lemma_decoded_well_formed(dict@[i].1, s);
            }
        },
        _ => {},
    }
}

/// Every value nested in a decoded value, the value itself included, records
/// an offset and a size that delimit exactly its own encoding in the source;
/// that range, taken alone, starts with the encoding of a well-formed value,
/// so `decode` accepts it.
pub proof fn lemma_recorded_ranges(s: Seq<u8>, v: BencodeVal, w: BencodeVal)
    requires
        decoded_from(v, s),
        nested_in(w, v),
    ensures
        decoded_from(w, s),
        0 <= w.start() && w.start() + w.extent() <= s.len(),
        s.subrange(w.start(), w.start() + w.extent()) == encoding(w),
        well_formed(w),
        encoded_at(w, s.subrange(w.start(), w.start() + w.extent()), 0),
    decreases v,
{
    if w != v {
        match v {
            BencodeVal::List { list, .. } => {
                let i = choose|i: int| 0 <= i < list@.len() && nested_in(w, #[trigger] list@[i]);
                lemma_recorded_ranges(s, list@[i], w);
            },
            BencodeVal::Dict { dict, .. } => {
                let i = choose|i: int| 0 <= i < dict@.len() && nested_in(w, #[trigger] dict@[i].1);
                lemma_recorded_ranges(s, dict@[i].1, w);
            },
            _ => {},
        }
    } else {
        lemma_decoded_well_formed(w, s);
        let r = s.subrange(w.start(), w.start() + w.extent());
        assert(r.subrange(0, encoding(w).len() as int) =~= r);
    }
}

} // verus!

verus! {

/// The value stored under `k` in a dictionary's entries: that of the first
/// entry with this key.
pub open spec fn lookup(d: Seq<(Vec<u8>, BencodeVal)>, k: Seq<u8>) -> Option<BencodeVal>
    decreases d.len(),
{
    if d.len() == 0 {
        None
    } else if d[0].0@ == k {
        Some(d[0].1)
    } else {
        lookup(d.drop_first(), k)
    }
}

/// The value stored under `key` in a dictionary's entries.
pub fn dict_get<'a>(dict: &'a Vec<(Vec<u8>, BencodeVal)>, key: &[u8]) -> (r: Option<&'a BencodeVal>)
    ensures
        match r {
            Some(v) => lookup(dict@, key@) == Some(*v),
            None => lookup(dict@, key@) is None,
        },
{
    let mut i: usize = 0;
    assert(dict@.subrange(0, dict@.len() as int) =~= dict@);
    while i < dict.len()
        invariant
            0 <= i <= dict@.len(),
            lookup(dict@, key@) == lookup(dict@.subrange(i as int, dict@.len() as int), key@),
        decreases dict@.len() - i,
    {
        assert(dict@.subrange(i as int, dict@.len() as int).drop_first() =~= dict@.subrange(
            i + 1,
            dict@.len() as int,
        ));
        if bytes_equal(dict[i].0.as_slice(), key) {
            return Some(&dict[i].1);
        }
        i = i + 1;
    }
    None
}


/// A value looked up in a decoded dictionary was decoded from the same source.
pub proof fn lemma_child_decoded(v: BencodeVal, s: Seq<u8>, k: Seq<u8>)
    requires
        decoded_from(v, s),
        v is Dict,
        lookup(v->dict@, k) is Some,
    ensures
        decoded_from(lookup(v->dict@, k)->0, s),
{
    let d = v->dict@;
    lemma_lookup_in(d, k);
    let i = choose|i: int| 0 <= i < d.len() && d[i].1 == lookup(d, k)->0;
    assert(decoded_from(d[i].1, s));
}

/// What `lookup` finds is the value of one of the entries.
pub proof fn lemma_lookup_in(d: Seq<(Vec<u8>, BencodeVal)>, k: Seq<u8>)
    requires
        lookup(d, k) is Some,
    ensures
        exists|i: int| 0 <= i < d.len() && d[i].1 == lookup(d, k)->0,
    decreases d.len(),
{
    if d[0].0@ != k {
        lemma_lookup_in(d.drop_first(), k);
        let i = choose|i: int|
            0 <= i < d.drop_first().len() && d.drop_first()[i].1 == lookup(d.drop_first(), k)->0;
        assert(d[i + 1].1 == lookup(d, k)->0);
    }
}

} // verus!
