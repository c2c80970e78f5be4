use vstd::prelude::*;

use crate::seqs::lemma_concat_assoc;
use crate::seqs::lemma_split_at_prefix;

verus! {

pub open spec fn hex_digit(d: int) -> char {
    if d == 0 {
        '0'
    } else if d == 1 {
        '1'
    } else if d == 2 {
        '2'
    } else if d == 3 {
        '3'
    } else if d == 4 {
        '4'
    } else if d == 5 {
        '5'
    } else if d == 6 {
        '6'
    } else if d == 7 {
        '7'
    } else if d == 8 {
        '8'
    } else if d == 9 {
        '9'
    } else if d == 10 {
        'a'
    } else if d == 11 {
        'b'
    } else if d == 12 {
        'c'
    } else if d == 13 {
        'd'
    } else if d == 14 {
        'e'
    } else {
        'f'
    }
}

/// A control character, which the storage format always escapes.
pub open spec fn is_ctl(c: char) -> bool {
    (c as u32) < 32
}

/// A character that is written as itself.
pub open spec fn is_plain(c: char) -> bool {
    c != '"' && c != '\\' && !is_ctl(c)
}

/// The escape of one character: quote and backslash get a backslash, the
/// five control characters with short names get those, any other control
/// character is written `\u00` and two lowercase hex digits, and everything
/// else stands as itself.
pub open spec fn esc_char(c: char) -> Seq<char> {
    if c == '"' {
        seq!['\\', '"']
    } else if c == '\\' {
        seq!['\\', '\\']
    } else if c == '\u{8}' {
        seq!['\\', 'b']
    } else if c == '\t' {
        seq!['\\', 't']
    } else if c == '\n' {
        seq!['\\', 'n']
    } else if c == '\u{c}' {
        seq!['\\', 'f']
    } else if c == '\r' {
        seq!['\\', 'r']
    } else if is_ctl(c) {
        seq!['\\', 'u', '0', '0', hex_digit(((c as u32) / 16) as int), hex_digit(
            ((c as u32) % 16) as int,
        )]
    } else {
        seq![c]
    }
}

/// The escape of a whole text.
pub open spec fn esc(t: Seq<char>) -> Seq<char>
    decreases t.len(),
{
    if t.len() == 0 {
        Seq::<char>::empty()
    } else {
        esc_char(t[0]) + esc(t.skip(1))
    }
}

pub proof fn lemma_hex_digit_inj(d1: int, d2: int)
    requires
        0 <= d1 < 16,
        0 <= d2 < 16,
        hex_digit(d1) == hex_digit(d2),
    ensures
        d1 == d2,
{
}

pub proof fn lemma_esc_char_props(c: char)
    ensures
        esc_char(c).len() >= 1,
        esc_char(c)[0] != '"',
        is_plain(c) ==> esc_char(c) == seq![c],
        !is_plain(c) ==> esc_char(c)[0] == '\\' && esc_char(c).len() >= 2,
{
    vstd::utf8::char_is_scalar(c);
}

/// Two escaped characters written at the same spot read back the same way.
pub proof fn lemma_esc_char_det(a: char, b: char, x: Seq<char>, y: Seq<char>)
    requires
        esc_char(a) + x == esc_char(b) + y,
    ensures
        a == b,
        x == y,
{
    lemma_esc_char_props(a);
    lemma_esc_char_props(b);
    let s = esc_char(a) + x;
    assert(s == esc_char(b) + y);
    assert(s[0] == esc_char(a)[0] && s[0] == esc_char(b)[0]);
    if is_plain(a) && is_plain(b) {
        assert(a == b);
    } else if is_plain(a) && !is_plain(b) {
        assert(s[0] == a && s[0] == '\\');
        assert(false);
    } else if !is_plain(a) && is_plain(b) {
        assert(s[0] == b && s[0] == '\\');
        assert(false);
    } else {
        assert(s[1] == esc_char(a)[1] && s[1] == esc_char(b)[1]);
        let ua = c_u32(a);
        let ub = c_u32(b);
        vstd::utf8::char_is_scalar(a);
        vstd::utf8::char_is_scalar(b);
        if esc_char(a)[1] == 'u' && esc_char(b)[1] == 'u' {
            assert(esc_char(a).len() == 6 && esc_char(b).len() == 6);
            assert(s[4] == esc_char(a)[4] && s[4] == esc_char(b)[4]);
            assert(s[5] == esc_char(a)[5] && s[5] == esc_char(b)[5]);
            lemma_hex_digit_inj((ua / 16) as int, (ub / 16) as int);
            lemma_hex_digit_inj((ua % 16) as int, (ub % 16) as int);
            assert(ua == ub);
            vstd::utf8::char_u32_cast(a, ua);
            vstd::utf8::char_u32_cast(b, ub);
            assert(a == b);
        } else {
            assert(a == b);
        }
    }
    assert(x =~= y) by {
        let e = esc_char(a);
        assert(forall|k: int|
            0 <= k < x.len() ==> #[trigger] x[k] == (esc_char(a) + x)[k + e.len()] && y[k] == (
            esc_char(b) + y)[k + e.len()]);
    }
}

/// Shorthand for the code of a character.
pub open spec fn c_u32(c: char) -> u32 {
    c as u32
}

pub proof fn lemma_esc_push(t: Seq<char>, c: char)
    ensures
        esc(t.push(c)) == esc(t) + esc_char(c),
    decreases t.len(),
{
    reveal_with_fuel(esc, 2);
    if t.len() == 0 {
        assert(t.push(c)[0] == c);
        assert(t.push(c).skip(1) =~= Seq::<char>::empty());
        assert(esc(t.push(c)) =~= esc_char(c));
        assert(esc(t) + esc_char(c) =~= esc_char(c));
    } else {
        assert(t.push(c)[0] == t[0]);
        assert(t.push(c).skip(1) =~= t.skip(1).push(c));
        lemma_esc_push(t.skip(1), c);
        lemma_concat_assoc(esc_char(t[0]), esc(t.skip(1)), esc_char(c));
    }
}

/// If an escaped text followed by anything equals an escaped text followed
/// by a closing quote, the first text is a prefix of the second and the
/// remainder picks up exactly where it left off.
pub proof fn lemma_esc_prefix(a: Seq<char>, t: Seq<char>, x: Seq<char>, rest: Seq<char>)
    requires
        esc(a) + x == esc(t) + (seq!['"'] + rest),
    ensures
        a.len() <= t.len(),
        a == t.take(a.len() as int),
        x == esc(t.skip(a.len() as int)) + (seq!['"'] + rest),
    decreases a.len(),
{
    if a.len() == 0 {
        assert(esc(a) + x =~= x);
        assert(t.take(0) =~= Seq::<char>::empty());
        assert(t.skip(0) =~= t);
    } else {
        if t.len() == 0 {
            // the right side starts with the quote, the left with an escape
            lemma_esc_char_props(a[0]);
            let s = esc(a) + x;
            assert(s == esc(t) + (seq!['"'] + rest));
            assert(s[0] == (seq!['"'] + rest)[0]);
            assert(s[0] == '"');
            lemma_concat_assoc(esc_char(a[0]), esc(a.skip(1)), x);
            assert(s == esc_char(a[0]) + (esc(a.skip(1)) + x));
            assert(s[0] == esc_char(a[0])[0]);
            assert(false);
        } else {
            lemma_concat_assoc(esc_char(a[0]), esc(a.skip(1)), x);
            lemma_concat_assoc(esc_char(t[0]), esc(t.skip(1)), seq!['"'] + rest);
            lemma_esc_char_det(
                a[0],
                t[0],
                esc(a.skip(1)) + x,
                esc(t.skip(1)) + (seq!['"'] + rest),
            );
            lemma_esc_prefix(a.skip(1), t.skip(1), x, rest);
            assert(a == t.take(a.len() as int)) by {
                assert forall|k: int| 0 <= k < a.len() implies a[k] == t.take(a.len() as int)[k] by {
                    if k >= 1 {
                        assert(a.skip(1)[k - 1] == t.skip(1).take(a.len() - 1)[k - 1]);
                        assert(a.skip(1)[k - 1] == a[k]);
                        assert(t.skip(1).take(a.len() - 1)[k - 1] == t[k]);
                    }
                }
                assert(a =~= t.take(a.len() as int));
            }
            assert(t.skip(1).skip(a.len() - 1) =~= t.skip(a.len() as int));
        }
    }
}

/// The state in the middle of reading a string body: what has been decoded
/// is a prefix of any text that can be read there, and the rest of the
/// input continues that text's escape.
pub proof fn lemma_mid(sv: Seq<char>, i: int, pos: int, resv: Seq<char>, t: Seq<char>, rest: Seq<char>)
    requires
        0 <= i <= pos <= sv.len(),
        sv.subrange(i, pos) == esc(resv),
        sv.skip(i) == esc(t) + (seq!['"'] + rest),
    ensures
        resv.len() <= t.len(),
        resv == t.take(resv.len() as int),
        pos < sv.len(),
        pos == i + esc(resv).len(),
        resv.len() < t.len() ==> sv.skip(pos) == esc_char(t[resv.len() as int]) + (esc(
            t.skip(resv.len() as int + 1),
        ) + (seq!['"'] + rest)),
        resv.len() < t.len() ==> sv[pos] == esc_char(t[resv.len() as int])[0],
        resv.len() == t.len() ==> sv[pos] == '"' && sv.skip(pos) == seq!['"'] + rest,
{
    assert(sv.skip(i) == esc(resv) + sv.skip(pos)) by {
        assert(sv.skip(i) =~= sv.subrange(i, pos) + sv.skip(pos));
    }
    lemma_esc_prefix(resv, t, sv.skip(pos), rest);
    let k = resv.len() as int;
    if k < t.len() {
        let u = t.skip(k);
        assert(u.len() > 0);
        assert(u[0] == t[k]);
        assert(u.skip(1) =~= t.skip(k + 1));
        assert(esc(u) == esc_char(t[k]) + esc(t.skip(k + 1)));
        lemma_concat_assoc(esc_char(t[k]), esc(t.skip(k + 1)), seq!['"'] + rest);
        lemma_esc_char_props(t[k]);
        assert(sv.skip(pos)[0] == esc_char(t[k])[0]);
        assert(sv.skip(pos)[0] == sv[pos]);
    } else {
        assert(t.skip(k) =~= Seq::<char>::empty());
        assert(esc(t.skip(k)) =~= Seq::<char>::empty());
        assert(sv.skip(pos) =~= seq!['"'] + rest);
        assert(sv.skip(pos)[0] == '"');
        assert(sv.skip(pos)[0] == sv[pos]);
    }
}

fn hex_char(d: u8) -> (c: char)
    requires
        d < 16,
    ensures
        c == hex_digit(d as int),
{
    if d == 0 {
        '0'
    } else if d == 1 {
        '1'
    } else if d == 2 {
        '2'
    } else if d == 3 {
        '3'
    } else if d == 4 {
        '4'
    } else if d == 5 {
        '5'
    } else if d == 6 {
        '6'
    } else if d == 7 {
        '7'
    } else if d == 8 {
        '8'
    } else if d == 9 {
        '9'
    } else if d == 10 {
        'a'
    } else if d == 11 {
        'b'
    } else if d == 12 {
        'c'
    } else if d == 13 {
        'd'
    } else if d == 14 {
        'e'
    } else {
        'f'
    }
}

fn hex_val(c: char) -> (r: Option<u8>)
    ensures
        r matches Some(d) ==> d < 16 && hex_digit(d as int) == c,
        r is None ==> forall|d: int| 0 <= d < 16 ==> hex_digit(d) != c,
{
    match c {
        '0' => Some(0),
        '1' => Some(1),
        '2' => Some(2),
        '3' => Some(3),
        '4' => Some(4),
        '5' => Some(5),
        '6' => Some(6),
        '7' => Some(7),
        '8' => Some(8),
        '9' => Some(9),
        'a' => Some(10),
        'b' => Some(11),
        'c' => Some(12),
        'd' => Some(13),
        'e' => Some(14),
        'f' => Some(15),
        _ => None,
    }
}

/// Appends the escaped form of `t` to `out`.
pub fn push_escaped(out: &mut Vec<char>, t: &Vec<char>)
    ensures
        final (out)@ == old(out)@ + esc(t@),
{
    let ghost out0 = old(out)@;
    let mut k: usize = 0;
    while k < t.len()
        invariant
            k <= t@.len(),
            out@ == out0 + esc(t@.take(k as int)),
        decreases t@.len() - k,
    {
        let c = t[k];
        proof {
            assert(t@.take(k + 1).drop_last() =~= t@.take(k as int));
            assert(t@.take(k + 1) =~= t@.take(k as int).push(c));
            lemma_esc_push(t@.take(k as int), c);
            vstd::utf8::char_is_scalar(c);
        }
        let ghost pre = out@;
        if c == '"' {
            out.push('\\');
            out.push('"');
            proof {
                assert(out@ =~= pre + esc_char(c));
            }
        } else if c == '\\' {
            out.push('\\');
            out.push('\\');
            proof {
                assert(out@ =~= pre + esc_char(c));
            }
        } else if c == '\u{8}' {
            out.push('\\');
            out.push('b');
            proof {
                assert(out@ =~= pre + esc_char(c));
            }
        } else if c == '\t' {
            out.push('\\');
            out.push('t');
            proof {
                assert(out@ =~= pre + esc_char(c));
            }
        } else if c == '\n' {
            out.push('\\');
            out.push('n');
            proof {
                assert(out@ =~= pre + esc_char(c));
            }
        } else if c == '\u{c}' {
            out.push('\\');
            out.push('f');
            proof {
                assert(out@ =~= pre + esc_char(c));
            }
        } else if c == '\r' {
            out.push('\\');
            out.push('r');
            proof {
                assert(out@ =~= pre + esc_char(c));
            }
        } else if (c as u32) < 32 {
            let code = c as u32;
            out.push('\\');
            out.push('u');
            out.push('0');
            out.push('0');
            out.push(hex_char((code / 16) as u8));
            out.push(hex_char((code % 16) as u8));
            proof {
                assert(out@ =~= pre + esc_char(c));
            }
        } else {
            out.push(c);
            proof {
                assert(is_plain(c));
                assert(out@ =~= pre + esc_char(c));
            }
        }
        k = k + 1;
        proof {
            lemma_concat_assoc(out0, esc(t@.take(k - 1)), esc_char(c));
        }
    }
    proof {
        assert(t@.take(t@.len() as int) =~= t@);
    }
}

/// Reads an escaped string body starting at `i`, stopping at (and not
/// consuming) the first unescaped closing quote.
///
/// On success the consumed characters are exactly the escape of the decoded
/// text and the next character is the closing quote; and whenever the input
/// at `i` is an escaped text followed by a closing quote, the parse succeeds
/// and decodes exactly that text.
#[verifier::loop_isolation(false)]
pub fn parse_string_body(s: &Vec<char>, i: usize) -> (r: Option<(Vec<char>, usize)>)
    requires
        i <= s@.len(),
    ensures
        r matches Some(p) ==> i <= p.1 < s@.len() && s@.subrange(i as int, p.1 as int) == esc(p.0@)
            && s@[p.1 as int] == '"',
        forall|t: Seq<char>, rest: Seq<char>|
            s@.skip(i as int) == #[trigger] (esc(t) + (seq!['"'] + rest)) ==> (r matches Some(p)
                && p.0@ == t && p.1 as int == i + esc(t).len()),
{
    let ghost sv = s@;
    let slen = s.len();
    let mut res: Vec<char> = Vec::new();
    let mut pos = i;
    loop
        invariant
            i <= pos <= slen,
            sv.subrange(i as int, pos as int) == esc(res@),
        decreases slen - pos,
    {
        proof {
            assert forall|t: Seq<char>, rest: Seq<char>| sv.skip(i as int) == #[trigger] (esc(t)
                + (seq!['"'] + rest)) implies pos < slen by {
                lemma_mid(sv, i as int, pos as int, res@, t, rest);
            }
        }
        if pos == slen {
            return None;
        }
        let c = s[pos];
        if c == '"' {
            proof {
                assert forall|t: Seq<char>, rest: Seq<char>| sv.skip(i as int) == #[trigger] (esc(
                    t,
                ) + (seq!['"'] + rest)) implies res@ == t && pos as int == i + esc(t).len() by {
                    lemma_mid(sv, i as int, pos as int, res@, t, rest);
                    if res@.len() < t.len() {
                        lemma_esc_char_props(t[res@.len() as int]);
                    }
                    assert(res@.len() == t.len());
                    assert(res@ =~= t);
                }
            }
            return Some((res, pos));
        }
        if c == '\\' {
            proof {
                assert forall|t: Seq<char>, rest: Seq<char>| sv.skip(i as int) == #[trigger] (esc(
                    t,
                ) + (seq!['"'] + rest)) implies res@.len() < t.len() && !is_plain(
                    t[res@.len() as int],
                ) && sv.skip(pos as int) == esc_char(t[res@.len() as int]) + (esc(
                    t.skip(res@.len() as int + 1),
                ) + (seq!['"'] + rest)) by {
                    lemma_mid(sv, i as int, pos as int, res@, t, rest);
                    if res@.len() == t.len() {
                        assert(sv[pos as int] == '"');
                    }
                    lemma_esc_char_props(t[res@.len() as int]);
                    if is_plain(t[res@.len() as int]) {
                        assert(sv[pos as int] == t[res@.len() as int]);
                        assert(sv[pos as int] == '\\');
                    }
                }
            }
            if slen - pos < 2 {
                proof {
                    assert forall|t: Seq<char>, rest: Seq<char>| sv.skip(i as int)
                        == #[trigger] (esc(t) + (seq!['"'] + rest)) implies false by {
                        lemma_mid(sv, i as int, pos as int, res@, t, rest);
                        lemma_esc_char_props(t[res@.len() as int]);
                        assert(sv.skip(pos as int).len() >= 3);
                    }
                }
                return None;
            }
            let e = s[pos + 1];
            proof {
                assert forall|t: Seq<char>, rest: Seq<char>| sv.skip(i as int) == #[trigger] (esc(
                    t,
                ) + (seq!['"'] + rest)) implies e == esc_char(t[res@.len() as int])[1] by {
                    lemma_mid(sv, i as int, pos as int, res@, t, rest);
                    lemma_esc_char_props(t[res@.len() as int]);
                    assert(sv.skip(pos as int)[1] == sv[pos + 1]);
                }
            }
            let decoded: char;
            let mut adv: usize = 2;
            if e == '"' {
                decoded = '"';
            } else if e == '\\' {
                decoded = '\\';
            } else if e == 'b' {
                decoded = '\u{8}';
            } else if e == 't' {
                decoded = '\t';
            } else if e == 'n' {
                decoded = '\n';
            } else if e == 'f' {
                decoded = '\u{c}';
            } else if e == 'r' {
                decoded = '\r';
            } else if e == 'u' {
                if slen - pos < 6 {
                    proof {
                        assert forall|t: Seq<char>, rest: Seq<char>| sv.skip(i as int)
                            == #[trigger] (esc(t) + (seq!['"'] + rest)) implies false by {
                            lemma_mid(sv, i as int, pos as int, res@, t, rest);
                            let tc = t[res@.len() as int];
                            lemma_esc_char_props(tc);
                            assert(esc_char(tc).len() == 6);
                            assert(sv.skip(pos as int).len() >= 7);
                        }
                    }
                    return None;
                }
                proof {
                    assert forall|t: Seq<char>, rest: Seq<char>| sv.skip(i as int)
                        == #[trigger] (esc(t) + (seq!['"'] + rest)) implies {
                        let tc = t[res@.len() as int];
                        esc_char(tc).len() == 6 && sv[pos + 2] == '0' && sv[pos + 3] == '0' && sv[
                            pos + 4] == hex_digit((c_u32(tc) / 16) as int) && sv[pos + 5]
                            == hex_digit((c_u32(tc) % 16) as int) && is_ctl(tc)
                    } by {
                        lemma_mid(sv, i as int, pos as int, res@, t, rest);
                        let tc = t[res@.len() as int];
                        lemma_esc_char_props(tc);
                        assert(esc_char(tc)[1] == 'u');
                        assert(esc_char(tc).len() == 6);
                        assert(sv.skip(pos as int)[2] == sv[pos + 2]);
                        assert(sv.skip(pos as int)[3] == sv[pos + 3]);
                        assert(sv.skip(pos as int)[4] == sv[pos + 4]);
                        assert(sv.skip(pos as int)[5] == sv[pos + 5]);
                    }
                }
                if !(s[pos + 2] == '0' && s[pos + 3] == '0') {
                    return None;
                }
                let h1 = match hex_val(s[pos + 4]) {
                    Some(h) => h,
                    None => {
                        proof {
                            assert forall|t: Seq<char>, rest: Seq<char>| sv.skip(i as int)
                                == #[trigger] (esc(t) + (seq!['"'] + rest)) implies false by {
                                let tc = t[res@.len() as int];
                                vstd::utf8::char_is_scalar(tc);
                                assert(hex_digit((c_u32(tc) / 16) as int) == sv[pos + 4]);
                            }
                        }
                        return None;
                    },
                };
                let h2 = match hex_val(s[pos + 5]) {
                    Some(h) => h,
                    None => {
                        proof {
                            assert forall|t: Seq<char>, rest: Seq<char>| sv.skip(i as int)
                                == #[trigger] (esc(t) + (seq!['"'] + rest)) implies false by {
                                let tc = t[res@.len() as int];
                                vstd::utf8::char_is_scalar(tc);
                                assert(hex_digit((c_u32(tc) % 16) as int) == sv[pos + 5]);
                            }
                        }
                        return None;
                    },
                };
                let code: u8 = h1 * 16 + h2;
                if code >= 32 || code == 8 || code == 9 || code == 10 || code == 12 || code == 13 {
                    proof {
                        assert forall|t: Seq<char>, rest: Seq<char>| sv.skip(i as int)
                            == #[trigger] (esc(t) + (seq!['"'] + rest)) implies false by {
                            let tc = t[res@.len() as int];
                            vstd::utf8::char_is_scalar(tc);
                            lemma_hex_digit_inj((c_u32(tc) / 16) as int, h1 as int);
                            lemma_hex_digit_inj((c_u32(tc) % 16) as int, h2 as int);
                            assert(c_u32(tc) == code);
                            assert(is_ctl(tc));
                            assert(tc != '\u{8}' && tc != '\t' && tc != '\n' && tc != '\u{c}'
                                && tc != '\r');
                            vstd::utf8::char_u32_cast(tc, c_u32(tc));
                            assert(c_u32('\u{8}') == 8 && c_u32('\t') == 9 && c_u32('\n') == 10
                                && c_u32('\u{c}') == 12 && c_u32('\r') == 13);
                            vstd::utf8::char_u32_cast('\u{8}', 8);
                            vstd::utf8::char_u32_cast('\t', 9);
                            vstd::utf8::char_u32_cast('\n', 10);
                            vstd::utf8::char_u32_cast('\u{c}', 12);
                            vstd::utf8::char_u32_cast('\r', 13);
                        }
                    }
                    return None;
                }
                decoded = code as char;
                adv = 6;
                proof {
                    assert(c_u32(decoded) == code);
                    assert(esc_char(decoded) =~= sv.subrange(pos as int, pos + 6)) by {
                        assert(is_ctl(decoded));
                        assert(decoded != '"' && decoded != '\\' && decoded != '\u{8}' && decoded
                            != '\t' && decoded != '\n' && decoded != '\u{c}' && decoded != '\r');
                        assert(esc_char(decoded) == seq!['\\', 'u', '0', '0', hex_digit(
                            ((code as u32) / 16) as int,
                        ), hex_digit(((code as u32) % 16) as int)]);
                        assert(hex_digit(((code as u32) / 16) as int) == sv[pos + 4]);
                        assert(hex_digit(((code as u32) % 16) as int) == sv[pos + 5]);
                    }
                }
            } else {
                proof {
                    assert forall|t: Seq<char>, rest: Seq<char>| sv.skip(i as int)
                        == #[trigger] (esc(t) + (seq!['"'] + rest)) implies false by {
                        let tc = t[res@.len() as int];
                        lemma_esc_char_props(tc);
                        assert(esc_char(tc)[1] == e);
                    }
                }
                return None;
            }
            proof {
                assert(esc_char(decoded) =~= sv.subrange(pos as int, pos + adv as int)) by {
                    if adv == 2 {
                        assert(sv[pos as int] == '\\');
                        assert(sv[pos + 1] == e);
                        assert(esc_char(decoded).len() == 2);
                        assert(esc_char(decoded)[0] == '\\' && esc_char(decoded)[1] == e);
                    }
                }
            }
            let ghost res0 = res@;
            res.push(decoded);
            pos = pos + adv;
            proof {
                lemma_esc_push(res0, decoded);
                assert(sv.subrange(i as int, pos as int) =~= sv.subrange(i as int, pos - adv)
                    + sv.subrange(pos - adv, pos as int));
                assert(sv.subrange(i as int, pos as int) == esc(res@));
            }
        } else {
            // a plain character stands for itself; a bare control character
            // never occurs in a well-formed escape
            if (c as u32) < 32 {
                proof {
                    assert forall|t: Seq<char>, rest: Seq<char>| sv.skip(i as int)
                        == #[trigger] (esc(t) + (seq!['"'] + rest)) implies false by {
                        lemma_mid(sv, i as int, pos as int, res@, t, rest);
                        if res@.len() == t.len() {
                            assert(sv[pos as int] == '"');
                            assert(c_u32('"') == 34);
                        } else {
                            let tc = t[res@.len() as int];
                            lemma_esc_char_props(tc);
                            if is_plain(tc) {
                                assert(sv[pos as int] == tc);
                            } else {
                                assert(sv[pos as int] == '\\');
                                assert(c_u32('\\') == 92);
                            }
                        }
                    }
                }
                return None;
            }
            let ghost res0 = res@;
            res.push(c);
            pos = pos + 1;
            proof {
                lemma_esc_push(res0, c);
                assert(is_plain(c));
                assert(esc_char(c) =~= sv.subrange(pos - 1, pos as int));
                assert(sv.subrange(i as int, pos as int) =~= sv.subrange(i as int, pos - 1)
                    + sv.subrange(pos - 1, pos as int));
                assert(sv.subrange(i as int, pos as int) == esc(res@));
            }
        }
    }
}

} // verus!
