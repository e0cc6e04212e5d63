//! Self-delimiting record codec for the log files.
//!
//! Each mutation is stored as one record.  A `Put` record is the tag byte
//! `S`, the key length and the value length as 20-digit zero-padded
//! decimals, then the key bytes and the value bytes.  An `Rm` record is the
//! tag byte `R`, the key length as a 20-digit decimal, then the key bytes.
//! Twenty digits hold any machine-word length, so a stream of
//! concatenated records can be decoded left to right and the decoder always
//! knows the exact byte offset after each record.

use vstd::prelude::*;

verus! {

use vstd::arithmetic::div_mod::{lemma_basic_div, lemma_div_denominator, lemma_fundamental_div_mod};

/// A mutation record, at the specification level.
pub enum Rec {
    Put { k: Seq<u8>, v: Seq<u8> },
    Rm { k: Seq<u8> },
}

/// A mutation record, as decoded from a log file.
pub enum Operation {
    Put { k: Vec<u8>, v: Vec<u8> },
    Rm { k: Vec<u8> },
}

impl View for Operation {
    type V = Rec;

    open spec fn view(&self) -> Rec {
        match self {
            Operation::Put { k, v } => Rec::Put { k: k@, v: v@ },
            Operation::Rm { k } => Rec::Rm { k: k@ },
        }
    }
}

pub open spec fn pow10(k: nat) -> nat
    decreases k,
{
    if k == 0 {
        1
    } else {
        10 * pow10((k - 1) as nat)
    }
}

pub open spec fn is_digit(b: u8) -> bool {
    48 <= b <= 57
}

pub open spec fn digit_val(b: u8) -> nat {
    if is_digit(b) {
        (b - 48) as nat
    } else {
        0
    }
}

/// The digit byte at decimal position `j` (`j == 0` is the least
/// significant digit) of `n`.
pub open spec fn digit_at(n: nat, j: nat) -> u8 {
    (48 + (n / pow10(j)) % 10) as u8
}

/// The 20-digit zero-padded decimal numeral of `n`, most significant first.
pub open spec fn num20(n: nat) -> Seq<u8> {
    Seq::new(20, |i: int| digit_at(n, (19 - i) as nat))
}

/// Value of the `k` digit bytes of `s` starting at `off`, read most
/// significant first.
pub open spec fn num_val(s: Seq<u8>, off: int, k: int) -> nat
    decreases k,
{
    if k <= 0 {
        0
    } else {
        num_val(s, off, k - 1) * 10 + digit_val(s[off + k - 1])
    }
}

pub open spec fn digits_at(s: Seq<u8>, off: int) -> bool {
    forall|j: int| 0 <= j < 20 ==> is_digit(#[trigger] s[off + j])
}

pub open spec fn num_at(s: Seq<u8>, off: int) -> nat {
    num_val(s, off, 20)
}

/// The encoding of one record.
pub open spec fn rec_enc(r: Rec) -> Seq<u8> {
    match r {
        Rec::Put { k, v } => seq![83u8] + num20(k.len()) + num20(v.len()) + k + v,
        Rec::Rm { k } => seq![82u8] + num20(k.len()) + k,
    }
}

/// Decode the first record of `s`.  Returns the record and the number of
/// bytes it occupies, or `None` when no complete well-formed record starts
/// at the beginning of `s`.
pub open spec fn parse_rec(s: Seq<u8>) -> Option<(Rec, int)> {
    if s.len() >= 41 && s[0] == 83u8 && digits_at(s, 1) && digits_at(s, 21) && num_at(s, 1)
        <= usize::MAX as nat && num_at(s, 21) <= usize::MAX as nat && 41 + num_at(s, 1) + num_at(
        s,
        21,
    ) <= s.len() {
        let kl = num_at(s, 1) as int;
        let vl = num_at(s, 21) as int;
        Some(
            (
                Rec::Put { k: s.subrange(41, 41 + kl), v: s.subrange(41 + kl, 41 + kl + vl) },
                41 + kl + vl,
            ),
        )
    } else if s.len() >= 21 && s[0] == 82u8 && digits_at(s, 1) && num_at(s, 1) <= usize::MAX as nat
        && 21 + num_at(s, 1) <= s.len() {
        let kl = num_at(s, 1) as int;
        Some((Rec::Rm { k: s.subrange(21, 21 + kl) }, 21 + kl))
    } else {
        None
    }
}

/// A successful parse consumes at least the fixed header and at most the
/// whole input.
pub proof fn lemma_parse_bounds(s: Seq<u8>)
    requires
        parse_rec(s) is Some,
    ensures
        21 <= parse_rec(s)->Some_0.1 <= s.len(),
{
}

/// `num_val` only looks at the bytes it covers.
pub proof fn lemma_num_val_congruent(s1: Seq<u8>, s2: Seq<u8>, off1: int, off2: int, k: int)
    requires
        forall|j: int| 0 <= j < k ==> s1[off1 + j] == #[trigger] s2[off2 + j],
    ensures
        num_val(s1, off1, k) == num_val(s2, off2, k),
    decreases k,
{
    if k > 0 {
        lemma_num_val_congruent(s1, s2, off1, off2, k - 1);
    }
}

/// Parsing only looks at the bytes of the record itself: any sequence that
/// agrees with `s1` on the first record's bytes parses to the same record.
pub proof fn lemma_parse_congruent(s1: Seq<u8>, s2: Seq<u8>)
    requires
        parse_rec(s1) is Some,
        s2.len() >= parse_rec(s1)->Some_0.1,
        forall|i: int| 0 <= i < parse_rec(s1)->Some_0.1 ==> s1[i] == s2[i],
    ensures
        parse_rec(s2) == parse_rec(s1),
{
    let n = parse_rec(s1)->Some_0.1;
    if s1.len() >= 41 && s1[0] == 83u8 && digits_at(s1, 1) && digits_at(s1, 21) && num_at(s1, 1)
        <= usize::MAX as nat && num_at(s1, 21) <= usize::MAX as nat && 41 + num_at(s1, 1) + num_at(
        s1,
        21,
    ) <= s1.len() {
        assert(digits_at(s2, 1)) by {
            assert(forall|j: int| 0 <= j < 20 ==> #[trigger] s2[1 + j] == s1[1 + j]);
        }
        assert(digits_at(s2, 21)) by {
            assert(forall|j: int| 0 <= j < 20 ==> #[trigger] s2[21 + j] == s1[21 + j]);
        }
        lemma_num_val_congruent(s1, s2, 1, 1, 20);
        lemma_num_val_congruent(s1, s2, 21, 21, 20);
        let kl = num_at(s1, 1) as int;
        let vl = num_at(s1, 21) as int;
        assert(s1.subrange(41, 41 + kl) =~= s2.subrange(41, 41 + kl));
        assert(s1.subrange(41 + kl, 41 + kl + vl) =~= s2.subrange(41 + kl, 41 + kl + vl));
    } else {
        assert(digits_at(s2, 1)) by {
            assert(forall|j: int| 0 <= j < 20 ==> #[trigger] s2[1 + j] == s1[1 + j]);
        }
        lemma_num_val_congruent(s1, s2, 1, 1, 20);
        let kl = num_at(s1, 1) as int;
        assert(s1.subrange(21, 21 + kl) =~= s2.subrange(21, 21 + kl));
    }
}

proof fn lemma_pow10_pos(k: nat)
    ensures
        pow10(k) >= 1,
    decreases k,
{
    if k > 0 {
        lemma_pow10_pos((k - 1) as nat);
    }
}

/// `10^20` tops every machine-word value.
proof fn lemma_pow10_20_large()
    ensures
        (usize::MAX as nat) < pow10(20),
{
    assert(pow10(20) == 0x56bc75e2d63100000) by {
        reveal_with_fuel(pow10, 21);
    }
    assert(usize::MAX as nat <= u64::MAX as nat);
}

/// Reading back the digits of `num20(n)` yields `n` again.
proof fn lemma_num_val_num20(n: nat, k: int)
    requires
        0 <= k <= 20,
        n < pow10(20),
    ensures
        num_val(num20(n), 0, k) == n / pow10((20 - k) as nat),
    decreases k,
{
    if k == 0 {
        lemma_pow10_pos(20);
        lemma_basic_div(n as int, pow10(20) as int);
    } else {
        lemma_num_val_num20(n, k - 1);
        let small = pow10((20 - k) as nat);
        let big = pow10((21 - k) as nat);
        lemma_pow10_pos((20 - k) as nat);
        assert(big == 10 * small);
        lemma_div_denominator(n as int, small as int, 10);
        // n / big == (n / small) / 10
        let x = n / small;
        lemma_fundamental_div_mod(x as int, 10);
        assert(num20(n)[k - 1] == digit_at(n, (20 - k) as nat));
        assert(digit_val(digit_at(n, (20 - k) as nat)) == (n / small) % 10);
    }
}

proof fn lemma_num20_digits(n: nat)
    ensures
        forall|i: int| 0 <= i < 20 ==> is_digit(#[trigger] num20(n)[i]),
{
}

/// Round trip at the record level: the encoding of a record parses back to
/// exactly that record, consuming exactly the encoding.
pub proof fn lemma_parse_enc(r: Rec)
    requires
        match r {
            Rec::Put { k, v } => k.len() <= usize::MAX && v.len() <= usize::MAX,
            Rec::Rm { k } => k.len() <= usize::MAX,
        },
    ensures
        parse_rec(rec_enc(r)) == Some((r, rec_enc(r).len() as int)),
{
    lemma_pow10_20_large();
    match r {
        Rec::Put { k, v } => {
            let s = rec_enc(r);
            assert(s.len() == 41 + k.len() + v.len());
            assert(s[0] == 83u8);
            lemma_num20_digits(k.len());
            lemma_num20_digits(v.len());
            assert(forall|j: int| 0 <= j < 20 ==> #[trigger] s[1 + j] == num20(k.len())[j]);
            assert(forall|j: int| 0 <= j < 20 ==> #[trigger] s[21 + j] == num20(v.len())[j]);
            assert(digits_at(s, 1));
            assert(digits_at(s, 21));
            lemma_num_val_num20(k.len(), 20);
            lemma_num_val_num20(v.len(), 20);
            lemma_num_val_congruent(num20(k.len()), s, 0, 1, 20);
            lemma_num_val_congruent(num20(v.len()), s, 0, 21, 20);
            assert(num_at(s, 1) == k.len() / pow10(0));
            assert(num_at(s, 21) == v.len() / pow10(0));
            assert(k.len() / 1 == k.len()) by (nonlinear_arith);
            assert(v.len() / 1 == v.len()) by (nonlinear_arith);
            let kl = k.len() as int;
            let vl = v.len() as int;
            assert(s.subrange(41, 41 + kl) =~= k);
            assert(s.subrange(41 + kl, 41 + kl + vl) =~= v);
        },
        Rec::Rm { k } => {
            let s = rec_enc(r);
            assert(s.len() == 21 + k.len());
            assert(s[0] == 82u8);
            lemma_num20_digits(k.len());
            assert(forall|j: int| 0 <= j < 20 ==> #[trigger] s[1 + j] == num20(k.len())[j]);
            assert(digits_at(s, 1));
            lemma_num_val_num20(k.len(), 20);
            lemma_num_val_congruent(num20(k.len()), s, 0, 1, 20);
            assert(num_at(s, 1) == k.len() / pow10(0));
            assert(k.len() / 1 == k.len()) by (nonlinear_arith);
            let kl = k.len() as int;
            assert(s.subrange(21, 21 + kl) =~= k);
        },
    }
}

/// `num_val` never shrinks as more digits are read.
proof fn lemma_num_val_mono(s: Seq<u8>, off: int, k1: int, k2: int)
    requires
        0 <= k1 <= k2,
    ensures
        num_val(s, off, k1) <= num_val(s, off, k2),
    decreases k2,
{
    if k1 < k2 {
        lemma_num_val_mono(s, off, k1, k2 - 1);
    }
}

/// Append `src[start..end]` to `out`.
pub fn push_bytes(out: &mut Vec<u8>, src: &Vec<u8>, start: usize, end: usize)
    requires
        start <= end <= src.len(),
    ensures
        final(out)@ == old(out)@ + src@.subrange(start as int, end as int),
{
    let mut i: usize = start;
    while i < end
        invariant
            start <= i <= end <= src.len(),
            out@ == old(out)@ + src@.subrange(start as int, i as int),
        decreases end - i,
    {
        out.push(src[i]);
        proof {
            assert(src@.subrange(start as int, i + 1) =~= src@.subrange(start as int, i as int).push(
                src@[i as int],
            ));
            assert(out@ =~= old(out)@ + src@.subrange(start as int, i + 1));
        }
        i += 1;
    }
    proof {
        assert(out@ =~= old(out)@ + src@.subrange(start as int, end as int));
    }
}

/// A fresh copy of `data[start..end]`.
pub fn copy_range(data: &Vec<u8>, start: usize, end: usize) -> (r: Vec<u8>)
    requires
        start <= end <= data.len(),
    ensures
        r@ == data@.subrange(start as int, end as int),
{
    let mut out: Vec<u8> = Vec::new();
    push_bytes(&mut out, data, start, end);
    proof {
        assert(out@ =~= data@.subrange(start as int, end as int));
    }
    out
}

/// Append the 20-digit decimal numeral of `n` to `out`.
pub fn push_num20(out: &mut Vec<u8>, n: usize)
    ensures
        final(out)@ == old(out)@ + num20(n as nat),
{
    let mut tmp: Vec<u8> = Vec::new();
    let mut cur: usize = n;
    let mut j: usize = 0;
    proof {
        assert(pow10(0) == 1);
        assert((n as nat) / 1 == n as nat);
    }
    while j < 20
        invariant
            0 <= j <= 20,
            tmp@.len() == j,
            cur as nat == (n as nat) / pow10(j as nat),
            forall|i: int| 0 <= i < j ==> tmp@[i] == digit_at(n as nat, i as nat),
        decreases 20 - j,
    {
        let d = (cur % 10) as u8;
        tmp.push(48 + d);
        proof {
            assert(digit_at(n as nat, j as nat) == 48 + d);
            lemma_pow10_pos(j as nat);
            lemma_div_denominator(n as int, pow10(j as nat) as int, 10);
            assert(pow10((j + 1) as nat) == pow10(j as nat) * 10) by {
                assert(pow10((j + 1) as nat) == 10 * pow10(j as nat));
            }
        }
        cur = cur / 10;
        j += 1;
    }
    let ghost base = old(out)@.len() as int;
    let mut j2: usize = 0;
    while j2 < 20
        invariant
            tmp@.len() == 20,
            forall|i: int| 0 <= i < 20 ==> tmp@[i] == digit_at(n as nat, i as nat),
            0 <= j2 <= 20,
            out@.len() == base + j2,
            base == old(out)@.len(),
            forall|i: int| 0 <= i < base ==> out@[i] == old(out)@[i],
            forall|i: int| 0 <= i < j2 ==> out@[base + i] == num20(n as nat)[i],
        decreases 20 - j2,
    {
        out.push(tmp[19 - j2]);
        j2 += 1;
    }
    proof {
        assert(out@ =~= old(out)@ + num20(n as nat));
    }
}

/// Encode a `Put` record for the given key and value bytes.
pub fn encode_put(k: &Vec<u8>, v: &Vec<u8>) -> (r: Vec<u8>)
    ensures
        r@ == rec_enc(Rec::Put { k: k@, v: v@ }),
{
    let mut out: Vec<u8> = Vec::new();
    out.push(83u8);
    push_num20(&mut out, k.len());
    push_num20(&mut out, v.len());
    push_bytes(&mut out, k, 0, k.len());
    push_bytes(&mut out, v, 0, v.len());
    proof {
        assert(k@.subrange(0, k@.len() as int) =~= k@);
        assert(v@.subrange(0, v@.len() as int) =~= v@);
        assert(out@ =~= rec_enc(Rec::Put { k: k@, v: v@ }));
    }
    out
}

/// Encode an `Rm` record for the given key bytes.
pub fn encode_rm(k: &Vec<u8>) -> (r: Vec<u8>)
    ensures
        r@ == rec_enc(Rec::Rm { k: k@ }),
{
    let mut out: Vec<u8> = Vec::new();
    out.push(82u8);
    push_num20(&mut out, k.len());
    push_bytes(&mut out, k, 0, k.len());
    proof {
        assert(k@.subrange(0, k@.len() as int) =~= k@);
        assert(out@ =~= rec_enc(Rec::Rm { k: k@ }));
    }
    out
}

/// Read the 20-digit decimal at `data[off..off + 20]`.
fn parse_num20(data: &Vec<u8>, off: usize) -> (r: Option<usize>)
    requires
        off + 20 <= data.len(),
    ensures
        match r {
            Some(v) => (forall|j: int| 0 <= j < 20 ==> is_digit(#[trigger] data@[off + j]))
                && num_val(data@, off as int, 20) == v as nat,
            None => !(forall|j: int| 0 <= j < 20 ==> is_digit(#[trigger] data@[off + j]))
                || num_val(data@, off as int, 20) > usize::MAX as nat,
        },
{
    let mut acc: usize = 0;
    let mut j: usize = 0;
    while j < 20
        invariant
            off + 20 <= data.len(),
            0 <= j <= 20,
            forall|i: int| 0 <= i < j ==> is_digit(#[trigger] data@[off + i]),
            acc as nat == num_val(data@, off as int, j as int),
        decreases 20 - j,
    {
        let b = data[off + j];
        if b < 48 || b > 57 {
            return None;
        }
        let d = (b - 48) as usize;
        if acc > (usize::MAX - d) / 10 {
            proof {
                let m = (usize::MAX - d) as int;
                lemma_fundamental_div_mod(m, 10);
                assert(acc * 10 + d > usize::MAX as int);
                assert(num_val(data@, off as int, j + 1) == acc * 10 + d);
                lemma_num_val_mono(data@, off as int, j + 1, 20);
            }
            return None;
        }
        proof {
            let m = (usize::MAX - d) as int;
            lemma_fundamental_div_mod(m, 10);
            assert(acc * 10 + d <= usize::MAX as int);
            assert(num_val(data@, off as int, j + 1) == acc * 10 + d);
        }
        acc = acc * 10 + d;
        j += 1;
    }
    Some(acc)
}

/// Decode the record that starts at byte `off` of `data`.  Returns the
/// record and its encoded length, or `None` when no complete well-formed
/// record starts there.
pub fn parse_record(data: &Vec<u8>, off: usize) -> (r: Option<(Operation, usize)>)
    requires
        off <= data.len(),
    ensures
        match r {
            Some(p) => parse_rec(data@.skip(off as int)) == Some((p.0@, p.1 as int)) && 21 <= p.1
                && off + p.1 <= data.len(),
            None => parse_rec(data@.skip(off as int)) is None,
        },
{
    let ghost s = data@.skip(off as int);
    proof {
        assert(forall|i: int| 0 <= i < s.len() ==> s[i] == data@[off + i]);
    }
    let n = data.len();
    let rem = n - off;
    if rem >= 41 && data[off] == 83 {
        let klo = parse_num20(data, off + 1);
        let vlo = parse_num20(data, off + 21);
        proof {
            lemma_num_val_congruent(data@, s, off + 1, 1, 20);
            lemma_num_val_congruent(data@, s, off + 21, 21, 20);
            assert(forall|j: int| 0 <= j < 20 ==> #[trigger] s[1 + j] == data@[(off + 1) + j]);
            assert(forall|j: int| 0 <= j < 20 ==> #[trigger] s[21 + j] == data@[(off + 21) + j]);
        }
        match (klo, vlo) {
            (Some(kl), Some(vl)) => {
                proof {
                    assert(digits_at(s, 1));
                    assert(digits_at(s, 21));
                    assert(num_at(s, 1) == kl as nat);
                    assert(num_at(s, 21) == vl as nat);
                }
                if kl <= rem - 41 && vl <= rem - 41 - kl {
                    let k = copy_range(data, off + 41, off + 41 + kl);
                    let v = copy_range(data, off + 41 + kl, off + 41 + kl + vl);
                    proof {
                        assert(k@ =~= s.subrange(41, 41 + kl as int));
                        assert(v@ =~= s.subrange(41 + kl as int, 41 + kl as int + vl as int));
                    }
                    Some((Operation::Put { k, v }, 41 + kl + vl))
                } else {
                    None
                }
            },
            _ => {
                proof {
                    if digits_at(s, 1) && num_at(s, 1) <= usize::MAX as nat && digits_at(s, 21)
                        && num_at(s, 21) <= usize::MAX as nat {
                        assert(forall|j: int|
                            0 <= j < 20 ==> is_digit(#[trigger] data@[(off + 1) + j])) by {
                            assert(forall|j: int|
                                0 <= j < 20 ==> #[trigger] data@[(off + 1) + j] == s[1 + j]);
                        }
                        assert(forall|j: int|
                            0 <= j < 20 ==> is_digit(#[trigger] data@[(off + 21) + j])) by {
                            assert(forall|j: int|
                                0 <= j < 20 ==> #[trigger] data@[(off + 21) + j] == s[21 + j]);
                        }
                        assert(false);
                    }
                }
                None
            },
        }
    } else if rem >= 21 && data[off] == 82 {
        let klo = parse_num20(data, off + 1);
        proof {
            lemma_num_val_congruent(data@, s, off + 1, 1, 20);
            assert(forall|j: int| 0 <= j < 20 ==> #[trigger] s[1 + j] == data@[(off + 1) + j]);
        }
        match klo {
            Some(kl) => {
                proof {
                    assert(digits_at(s, 1));
                    assert(num_at(s, 1) == kl as nat);
                }
                if kl <= rem - 21 {
                    let k = copy_range(data, off + 21, off + 21 + kl);
                    proof {
                        assert(k@ =~= s.subrange(21, 21 + kl as int));
                    }
                    Some((Operation::Rm { k }, 21 + kl))
                } else {
                    None
                }
            },
            None => {
                proof {
                    if digits_at(s, 1) && num_at(s, 1) <= usize::MAX as nat {
                        assert(forall|j: int|
                            0 <= j < 20 ==> is_digit(#[trigger] data@[(off + 1) + j])) by {
                            assert(forall|j: int|
                                0 <= j < 20 ==> #[trigger] data@[(off + 1) + j] == s[1 + j]);
                        }
                        assert(false);
                    }
                }
                None
            },
        }
    } else {
        None
    }
}


} // verus!
