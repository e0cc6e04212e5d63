//! Log file naming and directory enumeration.
//!
//! A generation `g` lives in the file `<dir>/<g>.log`.  Scanning a
//! directory keeps exactly the names of the form `<digits>.log` whose
//! numeric stem fits a `u64`, and yields the generation numbers in
//! ascending order.

use vstd::prelude::*;

verus! {

use vstd::string::{StrSliceExecFns, StringExecFns};

/// The character for the decimal digit `d`.
pub open spec fn digit_char(d: nat) -> char {
    if d == 0 {
        '0'
    } else if d == 1 {
        '1'
    } else if d == 2 {
        '2'
    } else if d == 3 {
        '3'
    } else if d == 4 {
        '4'
    } else if d == 5 {
        '5'
    } else if d == 6 {
        '6'
    } else if d == 7 {
        '7'
    } else if d == 8 {
        '8'
    } else {
        '9'
    }
}

/// The decimal numeral of `n`, most significant digit first, no leading
/// zeros.
pub open spec fn dec_chars(n: nat) -> Seq<char>
    decreases n,
{
    if n < 10 {
        seq![digit_char(n)]
    } else {
        dec_chars(n / 10).push(digit_char(n % 10))
    }
}

pub open spec fn is_digit_char(c: char) -> bool {
    48 <= c as u32 <= 57
}

pub open spec fn char_val(c: char) -> nat {
    if is_digit_char(c) {
        (c as u32 - 48) as nat
    } else {
        0
    }
}

/// Value of the first `k` characters of `s` read as a decimal numeral.
pub open spec fn dec_val(s: Seq<char>, k: int) -> nat
    decreases k,
{
    if k <= 0 {
        0
    } else {
        dec_val(s, k - 1) * 10 + char_val(s[k - 1])
    }
}

/// The generation number a file name denotes: `Some(g)` exactly for names
/// of the form `<digits>.log` whose stem fits a `u64`.
pub open spec fn gen_of_name(s: Seq<char>) -> Option<u64> {
    if s.len() >= 5 && s.subrange(s.len() - 4, s.len() as int) == seq!['.', 'l', 'o', 'g'] && (
    forall|i: int| 0 <= i < s.len() - 4 ==> is_digit_char(#[trigger] s[i])) && dec_val(
        s,
        s.len() - 4,
    ) <= u64::MAX as nat {
        Some(dec_val(s, s.len() - 4) as u64)
    } else {
        None
    }
}

/// Reading more digits never shrinks the value.
proof fn lemma_dec_val_mono(s: Seq<char>, k1: int, k2: int)
    requires
        0 <= k1 <= k2,
    ensures
        dec_val(s, k1) <= dec_val(s, k2),
    decreases k2,
{
    if k1 < k2 {
        lemma_dec_val_mono(s, k1, k2 - 1);
    }
}

/// Append the decimal numeral of `n` to `out`.
fn push_dec(out: &mut String, n: u64)
    ensures
        final(out)@ == old(out)@ + dec_chars(n as nat),
    decreases n,
{
    if n >= 10 {
        push_dec(out, n / 10);
    }
    let d = n % 10;
    proof {
        reveal_strlit("0");
        reveal_strlit("1");
        reveal_strlit("2");
        reveal_strlit("3");
        reveal_strlit("4");
        reveal_strlit("5");
        reveal_strlit("6");
        reveal_strlit("7");
        reveal_strlit("8");
        reveal_strlit("9");
    }
    if d == 0 {
        out.append("0");
    } else if d == 1 {
        out.append("1");
    } else if d == 2 {
        out.append("2");
    } else if d == 3 {
        out.append("3");
    } else if d == 4 {
        out.append("4");
    } else if d == 5 {
        out.append("5");
    } else if d == 6 {
        out.append("6");
    } else if d == 7 {
        out.append("7");
    } else if d == 8 {
        out.append("8");
    } else {
        out.append("9");
    }
    proof {
        if n < 10 {
            assert(out@ =~= old(out)@ + dec_chars(n as nat));
        } else {
            assert(out@ =~= old(out)@ + dec_chars(n as nat));
        }
    }
}

/// The file name of generation `gen`: `<gen>.log`.
pub fn log_file_name(gen: u64) -> (r: String)
    ensures
        r@ == dec_chars(gen as nat) + seq!['.', 'l', 'o', 'g'],
{
    let mut out = String::new();
    push_dec(&mut out, gen);
    out.append(".log");
    proof {
        reveal_strlit(".log");
        assert(out@ =~= dec_chars(gen as nat) + seq!['.', 'l', 'o', 'g']);
    }
    out
}

/// The path of generation `gen`'s log file inside `dir`: `<dir>/<gen>.log`.
pub fn log_path(dir: &str, gen: u64) -> (r: String)
    ensures
        r@ == dir@ + seq!['/'] + dec_chars(gen as nat) + seq!['.', 'l', 'o', 'g'],
{
    let mut out = String::new();
    out.append(dir);
    out.append("/");
    push_dec(&mut out, gen);
    out.append(".log");
    proof {
        reveal_strlit("/");
        reveal_strlit(".log");
        assert(out@ =~= dir@ + seq!['/'] + dec_chars(gen as nat) + seq!['.', 'l', 'o', 'g']);
    }
    out
}

/// Parse a directory entry name as a generation file name.
fn parse_gen_name(name: &str) -> (r: Option<u64>)
    ensures
        r == gen_of_name(name@),
{
    let n = name.unicode_len();
    if n < 5 {
        return None;
    }
    let c1 = name.get_char(n - 4);
    let c2 = name.get_char(n - 3);
    let c3 = name.get_char(n - 2);
    let c4 = name.get_char(n - 1);
    if !(c1 == '.' && c2 == 'l' && c3 == 'o' && c4 == 'g') {
        proof {
            let s = name@;
            if s.subrange(s.len() - 4, s.len() as int) == seq!['.', 'l', 'o', 'g'] {
                assert(s.subrange(s.len() - 4, s.len() as int)[0] == s[s.len() - 4]);
                assert(s.subrange(s.len() - 4, s.len() as int)[1] == s[s.len() - 3]);
                assert(s.subrange(s.len() - 4, s.len() as int)[2] == s[s.len() - 2]);
                assert(s.subrange(s.len() - 4, s.len() as int)[3] == s[s.len() - 1]);
            }
        }
        return None;
    }
    proof {
        assert(name@.subrange(name@.len() - 4, name@.len() as int) =~= seq!['.', 'l', 'o', 'g']);
    }
    let mut acc: u64 = 0;
    let mut i: usize = 0;
    while i < n - 4
        invariant
            n == name@.len(),
            n >= 5,
            0 <= i <= n - 4,
            forall|j: int| 0 <= j < i ==> is_digit_char(#[trigger] name@[j]),
            acc as nat == dec_val(name@, i as int),
        decreases n - 4 - i,
    {
        let c = name.get_char(i);
        let cu = c as u32;
        if cu < 48 || cu > 57 {
            return None;
        }
        let d = (cu - 48) as u64;
        if acc > (u64::MAX - d) / 10 {
            proof {
                let m = (u64::MAX - d) as int;
                vstd::arithmetic::div_mod::lemma_fundamental_div_mod(m, 10);
                assert(acc * 10 + d > u64::MAX as int);
                assert(dec_val(name@, i + 1) == acc * 10 + d);
                lemma_dec_val_mono(name@, i + 1, name@.len() - 4);
            }
            return None;
        }
        proof {
            let m = (u64::MAX - d) as int;
            vstd::arithmetic::div_mod::lemma_fundamental_div_mod(m, 10);
            assert(acc * 10 + d <= u64::MAX as int);
            assert(dec_val(name@, i + 1) == acc * 10 + d);
        }
        acc = acc * 10 + d;
        i += 1;
    }
    Some(acc)
}

/// The generation numbers present in a directory listing, ascending and
/// without duplicates: exactly the values some name of the listing
/// denotes.
pub fn sorted_gen_list(names: &Vec<String>) -> (r: Vec<u64>)
    ensures
        forall|i: int, j: int| 0 <= i < j < r@.len() ==> r@[i] < r@[j],
        forall|g: u64|
            r@.contains(g) <==> exists|i: int|
                0 <= i < names@.len() && gen_of_name((#[trigger] names@[i])@) == Some(g),
{
    let mut out: Vec<u64> = Vec::new();
    let mut i: usize = 0;
    while i < names.len()
        invariant
            0 <= i <= names@.len(),
            forall|a: int, b: int| 0 <= a < b < out@.len() ==> out@[a] < out@[b],
            forall|g: u64|
                out@.contains(g) <==> exists|x: int|
                    0 <= x < i && gen_of_name((#[trigger] names@[x])@) == Some(g),
        decreases names@.len() - i,
    {
        let parsed = parse_gen_name(names[i].as_str());
        match parsed {
            Some(g) => {
                insert_sorted(&mut out, g);
                proof {
                    assert forall|g2: u64| out@.contains(g2) implies exists|x: int|
                        0 <= x < i + 1 && gen_of_name((#[trigger] names@[x])@) == Some(g2) by {
                        if g2 == g {
                            assert(gen_of_name((names@[i as int])@) == Some(g2));
                        } else {
                            let x = choose|x: int|
                                0 <= x < i && gen_of_name((#[trigger] names@[x])@) == Some(g2);
                            assert(0 <= x < i + 1);
                        }
                    };
                }
            },
            None => {},
        }
        i += 1;
    }
    out
}

/// Insert `g` into the ascending list `out`, keeping it ascending and
/// duplicate-free.
fn insert_sorted(out: &mut Vec<u64>, g: u64)
    requires
        forall|a: int, b: int| 0 <= a < b < old(out)@.len() ==> old(out)@[a] < old(out)@[b],
    ensures
        forall|a: int, b: int| 0 <= a < b < final(out)@.len() ==> final(out)@[a] < final(out)@[b],
        forall|g2: u64| final(out)@.contains(g2) <==> (old(out)@.contains(g2) || g2 == g),
{
    let ghost out0 = out@;
    let mut p: usize = 0;
    while p < out.len() && out[p] < g
        invariant
            out@ == out0,
            0 <= p <= out0.len(),
            forall|a: int| 0 <= a < p ==> out0[a] < g,
        decreases out0.len() - p,
    {
        p += 1;
    }
    if p < out.len() {
        let cur = out[p];
        if cur == g {
            proof {
                assert(out@.contains(g));
            }
            return ;
        }
    }
    out.insert(p, g);
    proof {
        assert(forall|a: int| 0 <= a < p ==> out@[a] == out0[a]);
        assert(forall|a: int| p < a < out@.len() ==> out@[a] == out0[a - 1]);
        assert(out@[p as int] == g);
        assert forall|a: int, b: int| 0 <= a < b < out@.len() implies out@[a] < out@[b] by {
            if a < p && b == p {
            } else if a == p && b > p {
                assert(out@[b] == out0[b - 1]);
                assert(b - 1 >= p);
                if p < out0.len() {
                    assert(out0[p as int] != g);
                    assert(out0[p as int] >= g);
                }
            }
        };
        assert forall|g2: u64| out@.contains(g2) implies (out0.contains(g2) || g2 == g) by {
            let a = choose|a: int| 0 <= a < out@.len() && out@[a] == g2;
            if a < p {
                assert(out0[a] == g2);
            } else if a > p {
                assert(out0[a - 1] == g2);
            }
        };
        assert forall|g2: u64| (out0.contains(g2) || g2 == g) implies out@.contains(g2) by {
            if g2 == g {
                assert(out@[p as int] == g2);
            } else {
                let a = choose|a: int| 0 <= a < out0.len() && out0[a] == g2;
                if a < p {
                    assert(out@[a] == g2);
                } else {
                    assert(out@[a + 1] == g2);
                }
            }
        };
    }
}

} // verus!
