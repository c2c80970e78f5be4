use vstd::prelude::*;

use crate::seqs::lemma_split_at_prefix;

verus! {

pub open spec fn is_digit(c: char) -> bool {
    ||| c == '0'
    ||| c == '1'
    ||| c == '2'
    ||| c == '3'
    ||| c == '4'
    ||| c == '5'
    ||| c == '6'
    ||| c == '7'
    ||| c == '8'
    ||| c == '9'
}

pub open spec fn digit_char(d: int) -> char {
    if d == 0 {
        '0'
    } else if d == 1 {
        '1'
    } else if d == 2 {
        '2'
    } else if d == 3 {
        '3'
    } else if d == 4 {
        '4'
    } else if d == 5 {
        '5'
    } else if d == 6 {
        '6'
    } else if d == 7 {
        '7'
    } else if d == 8 {
        '8'
    } else {
        '9'
    }
}

pub open spec fn digit_val(c: char) -> int {
    if c == '0' {
        0
    } else if c == '1' {
        1
    } else if c == '2' {
        2
    } else if c == '3' {
        3
    } else if c == '4' {
        4
    } else if c == '5' {
        5
    } else if c == '6' {
        6
    } else if c == '7' {
        7
    } else if c == '8' {
        8
    } else {
        9
    }
}

/// Canonical decimal digits of a natural number, most significant first,
/// with no leading zeros (`0` itself is the single digit `0`).
pub open spec fn dec_nat(n: nat) -> Seq<char>
    decreases n,
{
    if n < 10 {
        seq![digit_char(n as int)]
    } else {
        dec_nat(n / 10) + seq![digit_char((n % 10) as int)]
    }
}

/// Canonical decimal form of an integer: a minus sign for negative values,
/// then the digits of the magnitude.
pub open spec fn dec_int(n: int) -> Seq<char> {
    if n < 0 {
        seq!['-'] + dec_nat((-n) as nat)
    } else {
        dec_nat(n as nat)
    }
}

/// The value of a digit string read most significant first.
pub open spec fn digits_val(ds: Seq<char>) -> int
    decreases ds.len(),
{
    if ds.len() == 0 {
        0
    } else {
        digits_val(ds.drop_last()) * 10 + digit_val(ds.last())
    }
}

pub open spec fn all_digits(ds: Seq<char>) -> bool {
    forall|i: int| 0 <= i < ds.len() ==> is_digit(#[trigger] ds[i])
}

pub proof fn lemma_digit_char_val(d: int)
    requires
        0 <= d < 10,
    ensures
        is_digit(digit_char(d)),
        digit_val(digit_char(d)) == d,
        d != 0 ==> digit_char(d) != '0',
{
}

pub proof fn lemma_digit_val_char(c: char)
    requires
        is_digit(c),
    ensures
        0 <= digit_val(c) < 10,
        digit_char(digit_val(c)) == c,
        c != '0' ==> digit_val(c) >= 1,
{
}

pub proof fn lemma_dec_nat_digits(n: nat)
    ensures
        dec_nat(n).len() >= 1,
        all_digits(dec_nat(n)),
        n > 0 ==> dec_nat(n)[0] != '0',
        n < 10 ==> dec_nat(n) == seq![digit_char(n as int)],
    decreases n,
{
    if n < 10 {
        lemma_digit_char_val(n as int);
    } else {
        lemma_dec_nat_digits(n / 10);
        lemma_digit_char_val((n % 10) as int);
        let pre = dec_nat(n / 10);
        let whole = pre + seq![digit_char((n % 10) as int)];
        assert(whole[0] == pre[0]);
        assert(all_digits(whole)) by {
            assert(forall|i: int|
                0 <= i < pre.len() ==> #[trigger] whole[i] == pre[i] && is_digit(pre[i]));
            assert(whole[whole.len() - 1] == digit_char((n % 10) as int));
        }
    }
}

pub proof fn lemma_digits_val_dec_nat(n: nat)
    ensures
        digits_val(dec_nat(n)) == n,
    decreases n,
{
    reveal_with_fuel(digits_val, 2);
    if n < 10 {
        lemma_digit_char_val(n as int);
        let ds = dec_nat(n);
        assert(ds.drop_last() =~= Seq::<char>::empty());
        assert(ds.last() == digit_char(n as int));
    } else {
        lemma_digits_val_dec_nat(n / 10);
        lemma_digit_char_val((n % 10) as int);
        let pre = dec_nat(n / 10);
        let ds = dec_nat(n);
        assert(ds.drop_last() =~= pre);
        assert(ds.last() == digit_char((n % 10) as int));
    }
}

pub proof fn lemma_digits_val_nonneg(ds: Seq<char>)
    requires
        all_digits(ds),
    ensures
        digits_val(ds) >= 0,
    decreases ds.len(),
{
    if ds.len() > 0 {
        assert(all_digits(ds.drop_last())) by {
            assert(forall|i: int|
                0 <= i < ds.len() - 1 ==> #[trigger] ds.drop_last()[i] == ds[i]);
        }
        lemma_digits_val_nonneg(ds.drop_last());
        lemma_digit_val_char(ds.last());
    }
}

pub proof fn lemma_digits_val_pos(ds: Seq<char>)
    requires
        all_digits(ds),
        ds.len() >= 1,
        ds[0] != '0',
    ensures
        digits_val(ds) >= 1,
    decreases ds.len(),
{
    reveal_with_fuel(digits_val, 2);
    if ds.len() == 1 {
        lemma_digit_val_char(ds[0]);
        assert(ds.drop_last() =~= Seq::<char>::empty());
        assert(ds.last() == ds[0]);
    } else {
        assert(all_digits(ds.drop_last())) by {
            assert(forall|i: int|
                0 <= i < ds.len() - 1 ==> #[trigger] ds.drop_last()[i] == ds[i]);
        }
        assert(ds.drop_last()[0] == ds[0]);
        lemma_digits_val_pos(ds.drop_last());
        lemma_digit_val_char(ds.last());
    }
}

/// The value of a prefix of a digit string never exceeds the whole value.
pub proof fn lemma_digits_val_prefix_le(ds: Seq<char>, k: int)
    requires
        all_digits(ds),
        0 <= k <= ds.len(),
    ensures
        digits_val(ds.take(k)) <= digits_val(ds),
    decreases ds.len() - k,
{
    if k == ds.len() {
        assert(ds.take(k) =~= ds);
    } else {
        lemma_digits_val_prefix_le(ds, k + 1);
        let a = ds.take(k);
        let b = ds.take(k + 1);
        assert(b.drop_last() =~= a);
        assert(b.last() == ds[k]);
        assert(all_digits(a)) by {
            assert(forall|i: int| 0 <= i < k ==> #[trigger] a[i] == ds[i]);
        }
        lemma_digits_val_nonneg(a);
        lemma_digit_val_char(ds[k]);
        assert(digits_val(a) <= digits_val(a) * 10 + digit_val(ds[k]));
    }
}

/// A nonempty digit string with no leading zero is the canonical form of
/// its own value.
pub proof fn lemma_dec_nat_of_digits(ds: Seq<char>)
    requires
        all_digits(ds),
        ds.len() >= 1,
        ds[0] == '0' ==> ds.len() == 1,
    ensures
        digits_val(ds) >= 0,
        dec_nat(digits_val(ds) as nat) == ds,
    decreases ds.len(),
{
    reveal_with_fuel(digits_val, 2);
    lemma_digits_val_nonneg(ds);
    if ds.len() == 1 {
        lemma_digit_val_char(ds[0]);
        assert(ds.drop_last() =~= Seq::<char>::empty());
        assert(ds.last() == ds[0]);
        assert(dec_nat(digits_val(ds) as nat) =~= ds);
    } else {
        let front = ds.drop_last();
        assert(all_digits(front)) by {
            assert(forall|i: int| 0 <= i < ds.len() - 1 ==> #[trigger] front[i] == ds[i]);
        }
        assert(front[0] == ds[0]);
        lemma_digits_val_pos(front);
        lemma_dec_nat_of_digits(front);
        lemma_digit_val_char(ds.last());
        let fv = digits_val(front);
        let d = digit_val(ds.last());
        let v = digits_val(ds);
        assert(v == fv * 10 + d);
        assert(v >= 10) by {
            assert(fv >= 1);
            assert(fv * 10 >= 10) by (nonlinear_arith)
                requires
                    fv >= 1,
            ;
        }
        assert(v / 10 == fv && v % 10 == d) by (nonlinear_arith)
            requires
                v == fv * 10 + d,
                0 <= d < 10,
                fv >= 0,
        ;
        assert(dec_nat(v as nat) == dec_nat(fv as nat) + seq![digit_char(d)]);
        assert(dec_nat(v as nat) =~= ds);
    }
}

/// Two canonical integers written at the same spot, each followed by text
/// that does not begin with a digit, are the same integer.
pub proof fn lemma_dec_int_unambiguous(a: int, b: int, ra: Seq<char>, rb: Seq<char>)
    requires
        dec_int(a) + ra == dec_int(b) + rb,
        ra.len() > 0 ==> !is_digit(ra[0]),
        rb.len() > 0 ==> !is_digit(rb[0]),
    ensures
        a == b,
        ra == rb,
{
    let ma = (if a < 0 {
        -a
    } else {
        a
    }) as nat;
    let mb = (if b < 0 {
        -b
    } else {
        b
    }) as nat;
    lemma_dec_nat_digits(ma);
    lemma_dec_nat_digits(mb);
    let da = dec_nat(ma);
    let db = dec_nat(mb);
    let s = dec_int(a) + ra;
    assert(s == dec_int(b) + rb);
    assert(da.len() >= 1 && db.len() >= 1);
    assert((a < 0) == (b < 0)) by {
        if a < 0 && b >= 0 {
            assert(s[0] == (seq!['-'] + da + ra)[0]);
            assert(s[0] == '-');
            assert(s[0] == (db + rb)[0]);
            assert(s[0] == db[0]);
            assert(is_digit(db[0]));
        }
        if b < 0 && a >= 0 {
            assert(s[0] == (seq!['-'] + db + rb)[0]);
            assert(s[0] == '-');
            assert(s[0] == (da + ra)[0]);
            assert(s[0] == da[0]);
            assert(is_digit(da[0]));
        }
    }
    let off: int = if a < 0 {
        1
    } else {
        0
    };
    // the digit runs of both readings start at `off` in s
    assert(s.skip(off) == da + ra) by {
        assert(s.skip(off) =~= da + ra);
    }
    assert(s.skip(off) == db + rb) by {
        assert(s.skip(off) =~= db + rb);
    }
    // equal-length digit runs: otherwise a digit would start the remainder
    assert(da.len() == db.len()) by {
        if da.len() < db.len() {
            assert((da + ra)[da.len() as int] == ra[0]);
            assert((db + rb)[da.len() as int] == db[da.len() as int]);
            assert(is_digit(db[da.len() as int]));
        }
        if db.len() < da.len() {
            assert((db + rb)[db.len() as int] == rb[0]);
            assert((da + ra)[db.len() as int] == da[db.len() as int]);
            assert(is_digit(da[db.len() as int]));
        }
    }
    assert(da =~= db) by {
        assert(forall|k: int|
            0 <= k < da.len() ==> #[trigger] da[k] == (da + ra)[k] && db[k] == (db + rb)[k]);
    }
    lemma_digits_val_dec_nat(ma);
    lemma_digits_val_dec_nat(mb);
    assert(ma == mb);
    assert(ra =~= rb) by {
        assert(forall|k: int|
            0 <= k < ra.len()
                ==> #[trigger] ra[k] == (da + ra)[k + da.len()] && rb[k] == (db + rb)[k
                + db.len()]);
    }
}

fn digit_to_char(d: u64) -> (c: char)
    requires
        d < 10,
    ensures
        c == digit_char(d as int),
{
    if d == 0 {
        '0'
    } else if d == 1 {
        '1'
    } else if d == 2 {
        '2'
    } else if d == 3 {
        '3'
    } else if d == 4 {
        '4'
    } else if d == 5 {
        '5'
    } else if d == 6 {
        '6'
    } else if d == 7 {
        '7'
    } else if d == 8 {
        '8'
    } else {
        '9'
    }
}

fn is_digit_ch(c: char) -> (b: bool)
    ensures
        b == is_digit(c),
{
    match c {
        '0' => true,
        '1' => true,
        '2' => true,
        '3' => true,
        '4' => true,
        '5' => true,
        '6' => true,
        '7' => true,
        '8' => true,
        '9' => true,
        _ => false,
    }
}

fn digit_of(c: char) -> (r: Option<u64>)
    ensures
        r is Some <==> is_digit(c),
        r matches Some(d) ==> d < 10 && d as int == digit_val(c),
{
    match c {
        '0' => Some(0),
        '1' => Some(1),
        '2' => Some(2),
        '3' => Some(3),
        '4' => Some(4),
        '5' => Some(5),
        '6' => Some(6),
        '7' => Some(7),
        '8' => Some(8),
        '9' => Some(9),
        _ => None,
    }
}

/// Reads a canonical decimal integer from `s` at position `i`.
///
/// On success the consumed characters are exactly the canonical form of the
/// returned value; and whenever the input at `i` is a canonical `i64`
/// followed by something that does not begin with a digit, the parse
/// succeeds and returns exactly that value.
#[verifier::loop_isolation(false)]
pub fn parse_dec_i64(s: &Vec<char>, i: usize) -> (r: Option<(i64, usize)>)
    requires
        i <= s@.len(),
    ensures
        r matches Some(p) ==> i < p.1 <= s@.len() && s@.subrange(i as int, p.1 as int) == dec_int(
            p.0 as int,
        ),
        forall|n: int, rest: Seq<char>|
            (i64::MIN <= n <= i64::MAX && s@.skip(i as int) == #[trigger] (dec_int(n) + rest) && (
            rest.len() > 0 ==> !is_digit(rest[0]))) ==> (r matches Some(p) && p.0 as int == n
                && p.1 as int == i + dec_int(n).len()),
{
    let ghost sv = s@;
    let slen = s.len();
    let mut pos = i;
    let mut neg = false;
    if pos < slen {
        if s[pos] == '-' {
            neg = true;
            pos = pos + 1;
        }
    }
    let ghost dstart = pos as int;
    proof {
        assert forall|n: int, rest: Seq<char>| (i64::MIN <= n <= i64::MAX && sv.skip(i as int)
            == #[trigger] (dec_int(n) + rest) && (rest.len() > 0 ==> !is_digit(
            rest[0],
        ))) implies (n < 0 <==> neg) && sv.skip(dstart) == dec_nat((if n < 0 {
            -n
        } else {
            n
        }) as nat) + rest by {
            let mag = (if n < 0 {
                -n
            } else {
                n
            }) as nat;
            lemma_dec_nat_digits(mag);
            lemma_split_at_prefix(sv, i as int, dec_int(n), rest);
            if n < 0 {
                assert(sv[i as int] == dec_int(n)[0]);
                assert(dec_int(n)[0] == '-');
                crate::seqs::lemma_concat_assoc(seq!['-'], dec_nat(mag), rest);
                lemma_split_at_prefix(sv, i as int, seq!['-'], dec_nat(mag) + rest);
            } else {
                assert(sv[i as int] == dec_int(n)[0]);
                assert(is_digit(dec_int(n)[0]));
            }
        }
    }
    if pos == slen {
        proof {
            assert forall|n: int, rest: Seq<char>| (i64::MIN <= n <= i64::MAX && sv.skip(i as int)
                == #[trigger] (dec_int(n) + rest) && (rest.len() > 0 ==> !is_digit(
                rest[0],
            ))) implies false by {
                let mag = (if n < 0 {
                    -n
                } else {
                    n
                }) as nat;
                lemma_dec_nat_digits(mag);
                lemma_split_at_prefix(sv, dstart, dec_nat(mag), rest);
            }
        }
        return None;
    }
    let c0 = s[pos];
    let d0 = match digit_of(c0) {
        Some(d) => d,
        None => {
            proof {
                assert forall|n: int, rest: Seq<char>| (i64::MIN <= n <= i64::MAX && sv.skip(
                    i as int,
                ) == #[trigger] (dec_int(n) + rest) && (rest.len() > 0 ==> !is_digit(
                    rest[0],
                ))) implies false by {
                    let mag = (if n < 0 {
                        -n
                    } else {
                        n
                    }) as nat;
                    lemma_dec_nat_digits(mag);
                    lemma_split_at_prefix(sv, dstart, dec_nat(mag), rest);
                    assert(sv[dstart] == dec_nat(mag)[0]);
                }
            }
            return None;
        },
    };
    if c0 == '0' {
        if neg {
            proof {
                assert forall|n: int, rest: Seq<char>| (i64::MIN <= n <= i64::MAX && sv.skip(
                    i as int,
                ) == #[trigger] (dec_int(n) + rest) && (rest.len() > 0 ==> !is_digit(
                    rest[0],
                ))) implies false by {
                    let mag = (if n < 0 {
                        -n
                    } else {
                        n
                    }) as nat;
                    lemma_dec_nat_digits(mag);
                    lemma_split_at_prefix(sv, dstart, dec_nat(mag), rest);
                    assert(sv[dstart] == dec_nat(mag)[0]);
                    assert(n < 0 && mag > 0);
                }
            }
            return None;
        }
        proof {
            lemma_digit_char_val(0);
            assert(dec_int(0) =~= seq!['0']);
            assert(sv.subrange(i as int, i + 1) =~= seq!['0']);
            assert forall|n: int, rest: Seq<char>| (i64::MIN <= n <= i64::MAX && sv.skip(i as int)
                == #[trigger] (dec_int(n) + rest) && (rest.len() > 0 ==> !is_digit(
                rest[0],
            ))) implies n == 0 && dec_int(n).len() == 1 by {
                let mag = (if n < 0 {
                    -n
                } else {
                    n
                }) as nat;
                lemma_dec_nat_digits(mag);
                lemma_split_at_prefix(sv, dstart, dec_nat(mag), rest);
                assert(sv[dstart] == dec_nat(mag)[0]);
                assert(mag == 0);
            }
        }
        return Some((0i64, pos + 1));
    }
    let mut acc: u64 = d0;
    pos = pos + 1;
    proof {
        assert(sv.subrange(dstart, pos as int) =~= seq![c0]);
        assert(seq![c0].drop_last() =~= Seq::<char>::empty());
        reveal_with_fuel(digits_val, 2);
    }
    while pos < slen && is_digit_ch(s[pos])
        invariant
            i <= dstart <= pos <= slen,
            dstart < pos,
            all_digits(sv.subrange(dstart, pos as int)),
            acc as int == digits_val(sv.subrange(dstart, pos as int)),
        decreases slen - pos,
    {
        let d = match digit_of(s[pos]) {
            Some(d) => d,
            None => {
                proof {
                    assert(false);
                }
                0
            },
        };
        let ghost run0 = sv.subrange(dstart, pos as int);
        let ghost run1 = sv.subrange(dstart, pos + 1);
        proof {
            assert(run1.drop_last() =~= run0);
            assert(run1.last() == sv[pos as int]);
            lemma_digit_val_char(sv[pos as int]);
            assert(all_digits(run1)) by {
                assert(forall|k: int|
                    0 <= k < run0.len() ==> #[trigger] run1[k] == run0[k] && is_digit(run0[k]));
            }
            lemma_digits_val_nonneg(run0);
        }
        let step = match acc.checked_mul(10) {
            Some(a) => a.checked_add(d),
            None => None,
        };
        acc = match step {
            Some(a) => a,
            None => {
                proof {
                    assert forall|n: int, rest: Seq<char>| (i64::MIN <= n <= i64::MAX && sv.skip(
                        i as int,
                    ) == #[trigger] (dec_int(n) + rest) && (rest.len() > 0 ==> !is_digit(
                        rest[0],
                    ))) implies false by {
                        let mag = (if n < 0 {
                            -n
                        } else {
                            n
                        }) as nat;
                        lemma_dec_nat_digits(mag);
                        lemma_split_at_prefix(sv, dstart, dec_nat(mag), rest);
                        let dlen = dec_nat(mag).len() as int;
                        assert(run1.len() <= dlen) by {
                            if run1.len() > dlen {
                                assert(sv[dstart + dlen] == rest[0]);
                                assert(run1[dlen] == sv[dstart + dlen]);
                                assert(is_digit(run1[dlen]));
                            }
                        }
                        assert(run1 =~= dec_nat(mag).take(run1.len() as int)) by {
                            assert(forall|k: int|
                                0 <= k < run1.len() ==> #[trigger] run1[k] == sv[dstart + k] && sv[
                                dstart + k] == dec_nat(mag)[k]);
                        }
                        lemma_digits_val_prefix_le(dec_nat(mag), run1.len() as int);
                        lemma_digits_val_dec_nat(mag);
                        assert(digits_val(run1) <= mag);
                        assert(digits_val(run1) == acc * 10 + digit_val(sv[pos as int]));
                        assert(mag <= 9223372036854775808);
                    }
                }
                return None;
            },
        };
        pos = pos + 1;
    }
    // the run of digits is the canonical form of `acc`
    let ghost run = sv.subrange(dstart, pos as int);
    proof {
        lemma_digits_val_pos(run);
        lemma_dec_nat_of_digits(run);
        assert(dec_nat(acc as nat) == run);
        assert(acc >= 1);
    }
    if neg {
        if acc > 9223372036854775808u64 {
            proof {
                assert forall|n: int, rest: Seq<char>| (i64::MIN <= n <= i64::MAX && sv.skip(
                    i as int,
                ) == #[trigger] (dec_int(n) + rest) && (rest.len() > 0 ==> !is_digit(
                    rest[0],
                ))) implies false by {
                    let mag = (if n < 0 {
                        -n
                    } else {
                        n
                    }) as nat;
                    lemma_dec_nat_digits(mag);
                    lemma_split_at_prefix(sv, dstart, dec_nat(mag), rest);
                    let dlen = dec_nat(mag).len() as int;
                    assert(run.len() <= dlen) by {
                        if run.len() > dlen {
                            assert(sv[dstart + dlen] == rest[0]);
                            assert(run[dlen] == sv[dstart + dlen]);
                            assert(is_digit(run[dlen]));
                        }
                    }
                    assert(run =~= dec_nat(mag).take(run.len() as int)) by {
                        assert(forall|k: int|
                            0 <= k < run.len() ==> #[trigger] run[k] == sv[dstart + k] && sv[dstart
                                + k] == dec_nat(mag)[k]);
                    }
                    lemma_digits_val_prefix_le(dec_nat(mag), run.len() as int);
                    lemma_digits_val_dec_nat(mag);
                    assert(acc <= mag);
                    assert(mag <= 9223372036854775808);
                }
            }
            return None;
        }
        let v: i64 = if acc == 9223372036854775808u64 {
            i64::MIN
        } else {
            -(acc as i64)
        };
        proof {
            assert(v as int == -(acc as int));
            assert(v < 0);
            assert(dec_int(v as int) == seq!['-'] + dec_nat(acc as nat));
            assert(sv.subrange(i as int, pos as int) =~= seq!['-'] + run);
            finish_parse_proof(sv, i as int, pos as int, slen as int, v);
        }
        return Some((v, pos));
    } else {
        if acc > 9223372036854775807u64 {
            proof {
                assert forall|n: int, rest: Seq<char>| (i64::MIN <= n <= i64::MAX && sv.skip(
                    i as int,
                ) == #[trigger] (dec_int(n) + rest) && (rest.len() > 0 ==> !is_digit(
                    rest[0],
                ))) implies false by {
                    let mag = (if n < 0 {
                        -n
                    } else {
                        n
                    }) as nat;
                    lemma_dec_nat_digits(mag);
                    lemma_split_at_prefix(sv, dstart, dec_nat(mag), rest);
                    let dlen = dec_nat(mag).len() as int;
                    assert(run.len() <= dlen) by {
                        if run.len() > dlen {
                            assert(sv[dstart + dlen] == rest[0]);
                            assert(run[dlen] == sv[dstart + dlen]);
                            assert(is_digit(run[dlen]));
                        }
                    }
                    assert(run =~= dec_nat(mag).take(run.len() as int)) by {
                        assert(forall|k: int|
                            0 <= k < run.len() ==> #[trigger] run[k] == sv[dstart + k] && sv[dstart
                                + k] == dec_nat(mag)[k]);
                    }
                    lemma_digits_val_prefix_le(dec_nat(mag), run.len() as int);
                    lemma_digits_val_dec_nat(mag);
                    assert(acc <= mag);
                    assert(n >= 0 ==> mag <= 9223372036854775807);
                }
            }
            return None;
        }
        let v: i64 = acc as i64;
        proof {
            assert(dec_int(v as int) == dec_nat(acc as nat));
            assert(sv.subrange(i as int, pos as int) =~= run);
            finish_parse_proof(sv, i as int, pos as int, slen as int, v);
        }
        return Some((v, pos));
    }
}

/// At a successful integer parse, any canonical reading of the same spot
/// agrees with the parsed value.
proof fn finish_parse_proof(sv: Seq<char>, i: int, pos: int, slen: int, v: i64)
    requires
        0 <= i < pos <= slen,
        slen == sv.len(),
        sv.subrange(i, pos) == dec_int(v as int),
        pos == slen || !is_digit(sv[pos]),
    ensures
        forall|n: int, rest: Seq<char>|
            (i64::MIN <= n <= i64::MAX && sv.skip(i) == #[trigger] (dec_int(n) + rest) && (
            rest.len() > 0 ==> !is_digit(rest[0]))) ==> (n == v as int && pos == i + dec_int(
                n,
            ).len()),
{
    assert forall|n: int, rest: Seq<char>| (i64::MIN <= n <= i64::MAX && sv.skip(i) == #[trigger] (
    dec_int(n) + rest) && (rest.len() > 0 ==> !is_digit(rest[0]))) implies (n == v as int && pos
        == i + dec_int(n).len()) by {
        let tail = sv.skip(pos);
        assert(sv.skip(i) == dec_int(v as int) + tail) by {
            assert(sv.skip(i) =~= sv.subrange(i, pos) + sv.skip(pos));
        }
        assert(tail.len() > 0 ==> !is_digit(tail[0])) by {
            if pos < slen {
                assert(tail[0] == sv[pos]);
            }
        }
        lemma_dec_int_unambiguous(v as int, n, tail, rest);
    }
}

/// Appends the canonical decimal digits of `n` to `out`.
pub fn push_dec_u64(out: &mut Vec<char>, n: u64)
    ensures
        final(out)@ == old(out)@ + dec_nat(n as nat),
{
    let mut tmp: Vec<char> = Vec::new();
    let mut m: u64 = n;
    loop
        invariant_except_break
            dec_nat(n as nat) == dec_nat(m as nat) + tmp@,
        ensures
            dec_nat(n as nat) == tmp@,
        decreases m,
    {
        let c = digit_to_char(m % 10);
        let m2 = m / 10;
        proof {
            if m >= 10 {
                assert(dec_nat(m as nat) == dec_nat((m as nat) / 10) + seq![
                    digit_char(((m as nat) % 10) as int),
                ]);
                assert((m as nat) / 10 == m2 as nat);
                assert(seq![digit_char(((m as nat) % 10) as int)] =~= seq![c]);
                crate::seqs::lemma_concat_assoc(dec_nat(m2 as nat), seq![c], tmp@);
                assert(dec_nat(m2 as nat) + (seq![c] + tmp@) == dec_nat(m as nat) + tmp@);
            } else {
                assert(dec_nat(m as nat) == seq![digit_char(m as int)]);
            }
        }
        let ghost tmp0 = tmp@;
        tmp.insert(0, c);
        proof {
            assert(tmp@ =~= seq![c] + tmp0);
        }
        if m2 == 0 {
            proof {
                assert(m < 10);
                assert(dec_nat(m as nat) == seq![digit_char(m as int)]);
                assert(dec_nat(n as nat) =~= tmp@);
            }
            break ;
        }
        m = m2;
    }
    let ghost out0 = out@;
    out.append(&mut tmp);
    proof {
        assert(out@ =~= out0 + dec_nat(n as nat));
    }
}

/// Appends the canonical decimal form of `n` (minus sign, then digits) to `out`.
pub fn push_dec_i64(out: &mut Vec<char>, n: i64)
    ensures
        final(out)@ == old(out)@ + dec_int(n as int),
{
    let ghost out0 = out@;
    if n < 0 {
        out.push('-');
        let mag: u64 = (-(n as i128)) as u64;
        proof {
            assert(mag as int == -(n as int));
        }
        push_dec_u64(out, mag);
        proof {
            assert(out@ =~= out0 + dec_int(n as int));
        }
    } else {
        push_dec_u64(out, n as u64);
    }
}

} // verus!
