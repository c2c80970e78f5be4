use vstd::prelude::*;

use crate::digits::dec_int;
use crate::digits::is_digit;
use crate::digits::lemma_dec_nat_digits;
use crate::escape::esc;
use crate::escape::esc_char;
use crate::escape::is_plain;
use crate::escape::lemma_esc_char_props;
use crate::json::bool_json;
use crate::json::item_json;
use crate::json::items_json;
use crate::json::list_json;
use crate::json::opt_ts_json;
use crate::json::rest_json;
use crate::model::ItemModel;
use crate::seqs::lemma_concat_assoc;

verus! {

/// An insignificant character of the storage format: space, tab, line
/// feed or carriage return outside string literals.
pub open spec fn json_ws(c: char) -> bool {
    ||| c == ' '
    ||| c == '\t'
    ||| c == '\n'
    ||| c == '\r'
}

/// Drops whitespace outside string literals and keeps everything else,
/// scanning with two state bits: inside a string, and just after a
/// backslash.
pub open spec fn scan_strip(s: Seq<char>, in_str: bool, esc_seen: bool) -> Seq<char>
    decreases s.len(),
{
    if s.len() == 0 {
        Seq::<char>::empty()
    } else {
        let c = s[0];
        let rest = s.skip(1);
        if in_str {
            if esc_seen {
                seq![c] + scan_strip(rest, true, false)
            } else if c == '\\' {
                seq![c] + scan_strip(rest, true, true)
            } else if c == '"' {
                seq![c] + scan_strip(rest, false, false)
            } else {
                seq![c] + scan_strip(rest, true, false)
            }
        } else {
            if json_ws(c) {
                scan_strip(rest, false, false)
            } else if c == '"' {
                seq![c] + scan_strip(rest, true, false)
            } else {
                seq![c] + scan_strip(rest, false, false)
            }
        }
    }
}

/// The scanner state once `s` has been read.
pub open spec fn state_after(s: Seq<char>, in_str: bool, esc_seen: bool) -> (bool, bool)
    decreases s.len(),
{
    if s.len() == 0 {
        (in_str, esc_seen)
    } else {
        let c = s[0];
        let rest = s.skip(1);
        if in_str {
            if esc_seen {
                state_after(rest, true, false)
            } else if c == '\\' {
                state_after(rest, true, true)
            } else if c == '"' {
                state_after(rest, false, false)
            } else {
                state_after(rest, true, false)
            }
        } else {
            if json_ws(c) {
                state_after(rest, false, false)
            } else if c == '"' {
                state_after(rest, true, false)
            } else {
                state_after(rest, false, false)
            }
        }
    }
}

/// A whole storage text with its insignificant whitespace removed.
pub open spec fn strip_ws(s: Seq<char>) -> Seq<char> {
    scan_strip(s, false, false)
}

/// Scanning a concatenation is scanning the first part, then the second
/// from where the first left the state.
pub proof fn lemma_scan_append(a: Seq<char>, b: Seq<char>, in_str: bool, esc_seen: bool)
    ensures
        ({
            let st = state_after(a, in_str, esc_seen);
            scan_strip(a + b, in_str, esc_seen) == scan_strip(a, in_str, esc_seen) + scan_strip(
                b,
                st.0,
                st.1,
            ) && state_after(a + b, in_str, esc_seen) == state_after(b, st.0, st.1)
        }),
    decreases a.len(),
{
    if a.len() == 0 {
        assert(a + b =~= b);
        assert(scan_strip(a, in_str, esc_seen) + scan_strip(b, in_str, esc_seen) =~= scan_strip(
            b,
            in_str,
            esc_seen,
        ));
    } else {
        let c = a[0];
        assert((a + b)[0] == c);
        assert((a + b).skip(1) =~= a.skip(1) + b);
        if in_str {
            if esc_seen {
                lemma_scan_append(a.skip(1), b, true, false);
            } else if c == '\\' {
                lemma_scan_append(a.skip(1), b, true, true);
            } else if c == '"' {
                lemma_scan_append(a.skip(1), b, false, false);
            } else {
                lemma_scan_append(a.skip(1), b, true, false);
            }
        } else {
            if json_ws(c) {
                lemma_scan_append(a.skip(1), b, false, false);
            } else if c == '"' {
                lemma_scan_append(a.skip(1), b, true, false);
            } else {
                lemma_scan_append(a.skip(1), b, false, false);
            }
        }
        let st = state_after(a, in_str, esc_seen);
        assert(scan_strip(a + b, in_str, esc_seen) =~= scan_strip(a, in_str, esc_seen)
            + scan_strip(b, st.0, st.1));
    }
}

/// A whitespace-free, quote-free, backslash-free piece passes through
/// the scanner outside a string and leaves it outside.
proof fn lemma_scan_plain(s: Seq<char>, in_str: bool, esc_seen: bool)
    requires
        forall|i: int|
            0 <= i < s.len() ==> !json_ws(#[trigger] s[i]) && s[i] != '"' && s[i] != '\\',
        !in_str,
        !esc_seen,
    ensures
        scan_strip(s, in_str, esc_seen) == s,
        state_after(s, in_str, esc_seen) == (false, false),
    decreases s.len(),
{
    if s.len() > 0 {
        assert(forall|i: int| 0 <= i < s.skip(1).len() ==> #[trigger] s.skip(1)[i] == s[i + 1]);
        lemma_scan_plain(s.skip(1), false, false);
        assert(scan_strip(s, in_str, esc_seen) =~= seq![s[0]] + s.skip(1));
        assert(seq![s[0]] + s.skip(1) =~= s);
    }
}

/// One escaped character inside a string is kept verbatim and leaves the
/// scanner inside the string.
proof fn lemma_scan_esc_char(c: char)
    ensures
        scan_strip(esc_char(c), true, false) == esc_char(c),
        state_after(esc_char(c), true, false) == (true, false),
{
    reveal_with_fuel(scan_strip, 8);
    reveal_with_fuel(state_after, 8);
    lemma_esc_char_props(c);
    let e = esc_char(c);
    if is_plain(c) {
        assert(e == seq![c]);
        assert(e.skip(1) =~= Seq::<char>::empty());
        assert(scan_strip(e, true, false) =~= e);
    } else if e.len() == 2 {
        assert(e[0] == '\\');
        assert(e.skip(1) =~= seq![e[1]]);
        assert(e.skip(1).skip(1) =~= Seq::<char>::empty());
        assert(scan_strip(e, true, false) =~= e);
    } else {
        assert(e.len() == 6);
        assert(e[0] == '\\');
        assert(e[1] == 'u' && e[2] == '0' && e[3] == '0');
        assert(e.skip(1) =~= seq![e[1], e[2], e[3], e[4], e[5]]);
        assert(e.skip(1).skip(1) =~= seq![e[2], e[3], e[4], e[5]]);
        assert(e.skip(1).skip(1).skip(1) =~= seq![e[3], e[4], e[5]]);
        assert(e.skip(1).skip(1).skip(1).skip(1) =~= seq![e[4], e[5]]);
        assert(e.skip(1).skip(1).skip(1).skip(1).skip(1) =~= seq![e[5]]);
        assert(e.skip(1).skip(1).skip(1).skip(1).skip(1).skip(1) =~= Seq::<char>::empty());
        assert(scan_strip(e, true, false) =~= e);
    }
}

/// An escaped text inside a string is kept verbatim, whitespace included,
/// and leaves the scanner inside the string.
proof fn lemma_scan_esc(t: Seq<char>)
    ensures
        scan_strip(esc(t), true, false) == esc(t),
        state_after(esc(t), true, false) == (true, false),
    decreases t.len(),
{
    if t.len() == 0 {
        assert(esc(t) =~= Seq::<char>::empty());
    } else {
        lemma_scan_esc_char(t[0]);
        lemma_scan_esc(t.skip(1));
        lemma_scan_append(esc_char(t[0]), esc(t.skip(1)), true, false);
    }
}

/// The canonical decimal form of an integer is whitespace-free and holds
/// no quote or backslash.
proof fn lemma_dec_int_plain(n: int)
    ensures
        forall|i: int|
            0 <= i < dec_int(n).len() ==> !json_ws(#[trigger] dec_int(n)[i]) && dec_int(n)[i]
                != '"' && dec_int(n)[i] != '\\',
{
    lemma_dec_nat_digits((if n < 0 {
        -n
    } else {
        n
    }) as nat);
    assert forall|i: int|
        0 <= i < dec_int(n).len() implies !json_ws(#[trigger] dec_int(n)[i]) && dec_int(n)[i]
        != '"' && dec_int(n)[i] != '\\' by {
        if n < 0 && i == 0 {
        } else {
            if n < 0 {
                assert(dec_int(n)[i] == dec_nat_of(n)[i - 1]);
            }
            assert(is_digit(dec_int(n)[i]));
        }
    }
}

/// The digits of the magnitude of `n`.
spec fn dec_nat_of(n: int) -> Seq<char> {
    crate::digits::dec_nat((if n < 0 {
        -n
    } else {
        n
    }) as nat)
}

proof fn lemma_scan_l1()
    ensures
        scan_strip("{\"id\":"@, false, false) == "{\"id\":"@,
        state_after("{\"id\":"@, false, false) == (false, false),
{
    reveal_strlit("{\"id\":");
    reveal_with_fuel(scan_strip, 2);
    reveal_with_fuel(state_after, 2);
    let p = "{\"id\":"@;
    assert(p.skip(6) =~= Seq::<char>::empty());
    assert(p.skip(5)[0] == ':');
    assert(p.skip(5).skip(1) =~= p.skip(6));
    assert(scan_strip(p.skip(5), false, false) =~= p.skip(5));
    assert(state_after(p.skip(5), false, false) == (false, false));
    assert(p.skip(4)[0] == '\"');
    assert(p.skip(4).skip(1) =~= p.skip(5));
    assert(scan_strip(p.skip(4), true, false) =~= p.skip(4));
    assert(state_after(p.skip(4), true, false) == (false, false));
    assert(p.skip(3)[0] == 'd');
    assert(p.skip(3).skip(1) =~= p.skip(4));
    assert(scan_strip(p.skip(3), true, false) =~= p.skip(3));
    assert(state_after(p.skip(3), true, false) == (false, false));
    assert(p.skip(2)[0] == 'i');
    assert(p.skip(2).skip(1) =~= p.skip(3));
    assert(scan_strip(p.skip(2), true, false) =~= p.skip(2));
    assert(state_after(p.skip(2), true, false) == (false, false));
    assert(p.skip(1)[0] == '\"');
    assert(p.skip(1).skip(1) =~= p.skip(2));
    assert(scan_strip(p.skip(1), false, false) =~= p.skip(1));
    assert(state_after(p.skip(1), false, false) == (false, false));
    assert(p.skip(0)[0] == '{');
    assert(p.skip(0).skip(1) =~= p.skip(1));
    assert(scan_strip(p.skip(0), false, false) =~= p.skip(0));
    assert(state_after(p.skip(0), false, false) == (false, false));
    assert(p.skip(0) =~= p);
}

proof fn lemma_scan_l2()
    ensures
        scan_strip(",\"text\":\""@, false, false) == ",\"text\":\""@,
        state_after(",\"text\":\""@, false, false) == (true, false),
{
    reveal_strlit(",\"text\":\"");
    reveal_with_fuel(scan_strip, 2);
    reveal_with_fuel(state_after, 2);
    let p = ",\"text\":\""@;
    assert(p.skip(9) =~= Seq::<char>::empty());
    assert(p.skip(8)[0] == '\"');
    assert(p.skip(8).skip(1) =~= p.skip(9));
    assert(scan_strip(p.skip(8), false, false) =~= p.skip(8));
    assert(state_after(p.skip(8), false, false) == (true, false));
    assert(p.skip(7)[0] == ':');
    assert(p.skip(7).skip(1) =~= p.skip(8));
    assert(scan_strip(p.skip(7), false, false) =~= p.skip(7));
    assert(state_after(p.skip(7), false, false) == (true, false));
    assert(p.skip(6)[0] == '\"');
    assert(p.skip(6).skip(1) =~= p.skip(7));
    assert(scan_strip(p.skip(6), true, false) =~= p.skip(6));
    assert(state_after(p.skip(6), true, false) == (true, false));
    assert(p.skip(5)[0] == 't');
    assert(p.skip(5).skip(1) =~= p.skip(6));
    assert(scan_strip(p.skip(5), true, false) =~= p.skip(5));
    assert(state_after(p.skip(5), true, false) == (true, false));
    assert(p.skip(4)[0] == 'x');
    assert(p.skip(4).skip(1) =~= p.skip(5));
    assert(scan_strip(p.skip(4), true, false) =~= p.skip(4));
    assert(state_after(p.skip(4), true, false) == (true, false));
    assert(p.skip(3)[0] == 'e');
    assert(p.skip(3).skip(1) =~= p.skip(4));
    assert(scan_strip(p.skip(3), true, false) =~= p.skip(3));
    assert(state_after(p.skip(3), true, false) == (true, false));
    assert(p.skip(2)[0] == 't');
    assert(p.skip(2).skip(1) =~= p.skip(3));
    assert(scan_strip(p.skip(2), true, false) =~= p.skip(2));
    assert(state_after(p.skip(2), true, false) == (true, false));
    assert(p.skip(1)[0] == '\"');
    assert(p.skip(1).skip(1) =~= p.skip(2));
    assert(scan_strip(p.skip(1), false, false) =~= p.skip(1));
    assert(state_after(p.skip(1), false, false) == (true, false));
    assert(p.skip(0)[0] == ',');
    assert(p.skip(0).skip(1) =~= p.skip(1));
    assert(scan_strip(p.skip(0), false, false) =~= p.skip(0));
    assert(state_after(p.skip(0), false, false) == (true, false));
    assert(p.skip(0) =~= p);
}

proof fn lemma_scan_l3()
    ensures
        scan_strip("\",\"done\":"@, true, false) == "\",\"done\":"@,
        state_after("\",\"done\":"@, true, false) == (false, false),
{
    reveal_strlit("\",\"done\":");
    reveal_with_fuel(scan_strip, 2);
    reveal_with_fuel(state_after, 2);
    let p = "\",\"done\":"@;
    assert(p.skip(9) =~= Seq::<char>::empty());
    assert(p.skip(8)[0] == ':');
    assert(p.skip(8).skip(1) =~= p.skip(9));
    assert(scan_strip(p.skip(8), false, false) =~= p.skip(8));
    assert(state_after(p.skip(8), false, false) == (false, false));
    assert(p.skip(7)[0] == '\"');
    assert(p.skip(7).skip(1) =~= p.skip(8));
    assert(scan_strip(p.skip(7), true, false) =~= p.skip(7));
    assert(state_after(p.skip(7), true, false) == (false, false));
    assert(p.skip(6)[0] == 'e');
    assert(p.skip(6).skip(1) =~= p.skip(7));
    assert(scan_strip(p.skip(6), true, false) =~= p.skip(6));
    assert(state_after(p.skip(6), true, false) == (false, false));
    assert(p.skip(5)[0] == 'n');
    assert(p.skip(5).skip(1) =~= p.skip(6));
    assert(scan_strip(p.skip(5), true, false) =~= p.skip(5));
    assert(state_after(p.skip(5), true, false) == (false, false));
    assert(p.skip(4)[0] == 'o');
    assert(p.skip(4).skip(1) =~= p.skip(5));
    assert(scan_strip(p.skip(4), true, false) =~= p.skip(4));
    assert(state_after(p.skip(4), true, false) == (false, false));
    assert(p.skip(3)[0] == 'd');
    assert(p.skip(3).skip(1) =~= p.skip(4));
    assert(scan_strip(p.skip(3), true, false) =~= p.skip(3));
    assert(state_after(p.skip(3), true, false) == (false, false));
    assert(p.skip(2)[0] == '\"');
    assert(p.skip(2).skip(1) =~= p.skip(3));
    assert(scan_strip(p.skip(2), false, false) =~= p.skip(2));
    assert(state_after(p.skip(2), false, false) == (false, false));
    assert(p.skip(1)[0] == ',');
    assert(p.skip(1).skip(1) =~= p.skip(2));
    assert(scan_strip(p.skip(1), false, false) =~= p.skip(1));
    assert(state_after(p.skip(1), false, false) == (false, false));
    assert(p.skip(0)[0] == '\"');
    assert(p.skip(0).skip(1) =~= p.skip(1));
    assert(scan_strip(p.skip(0), true, false) =~= p.skip(0));
    assert(state_after(p.skip(0), true, false) == (false, false));
    assert(p.skip(0) =~= p);
}

proof fn lemma_scan_l4()
    ensures
        scan_strip(",\"created_date\":"@, false, false) == ",\"created_date\":"@,
        state_after(",\"created_date\":"@, false, false) == (false, false),
{
    reveal_strlit(",\"created_date\":");
    reveal_with_fuel(scan_strip, 2);
    reveal_with_fuel(state_after, 2);
    let p = ",\"created_date\":"@;
    assert(p.skip(16) =~= Seq::<char>::empty());
    assert(p.skip(15)[0] == ':');
    assert(p.skip(15).skip(1) =~= p.skip(16));
    assert(scan_strip(p.skip(15), false, false) =~= p.skip(15));
    assert(state_after(p.skip(15), false, false) == (false, false));
    assert(p.skip(14)[0] == '\"');
    assert(p.skip(14).skip(1) =~= p.skip(15));
    assert(scan_strip(p.skip(14), true, false) =~= p.skip(14));
    assert(state_after(p.skip(14), true, false) == (false, false));
    assert(p.skip(13)[0] == 'e');
    assert(p.skip(13).skip(1) =~= p.skip(14));
    assert(scan_strip(p.skip(13), true, false) =~= p.skip(13));
    assert(state_after(p.skip(13), true, false) == (false, false));
    assert(p.skip(12)[0] == 't');
    assert(p.skip(12).skip(1) =~= p.skip(13));
    assert(scan_strip(p.skip(12), true, false) =~= p.skip(12));
    assert(state_after(p.skip(12), true, false) == (false, false));
    assert(p.skip(11)[0] == 'a');
    assert(p.skip(11).skip(1) =~= p.skip(12));
    assert(scan_strip(p.skip(11), true, false) =~= p.skip(11));
    assert(state_after(p.skip(11), true, false) == (false, false));
    assert(p.skip(10)[0] == 'd');
    assert(p.skip(10).skip(1) =~= p.skip(11));
    assert(scan_strip(p.skip(10), true, false) =~= p.skip(10));
    assert(state_after(p.skip(10), true, false) == (false, false));
    assert(p.skip(9)[0] == '_');
    assert(p.skip(9).skip(1) =~= p.skip(10));
    assert(scan_strip(p.skip(9), true, false) =~= p.skip(9));
    assert(state_after(p.skip(9), true, false) == (false, false));
    assert(p.skip(8)[0] == 'd');
    assert(p.skip(8).skip(1) =~= p.skip(9));
    assert(scan_strip(p.skip(8), true, false) =~= p.skip(8));
    assert(state_after(p.skip(8), true, false) == (false, false));
    assert(p.skip(7)[0] == 'e');
    assert(p.skip(7).skip(1) =~= p.skip(8));
    assert(scan_strip(p.skip(7), true, false) =~= p.skip(7));
    assert(state_after(p.skip(7), true, false) == (false, false));
    assert(p.skip(6)[0] == 't');
    assert(p.skip(6).skip(1) =~= p.skip(7));
    assert(scan_strip(p.skip(6), true, false) =~= p.skip(6));
    assert(state_after(p.skip(6), true, false) == (false, false));
    assert(p.skip(5)[0] == 'a');
    assert(p.skip(5).skip(1) =~= p.skip(6));
    assert(scan_strip(p.skip(5), true, false) =~= p.skip(5));
    assert(state_after(p.skip(5), true, false) == (false, false));
    assert(p.skip(4)[0] == 'e');
    assert(p.skip(4).skip(1) =~= p.skip(5));
    assert(scan_strip(p.skip(4), true, false) =~= p.skip(4));
    assert(state_after(p.skip(4), true, false) == (false, false));
    assert(p.skip(3)[0] == 'r');
    assert(p.skip(3).skip(1) =~= p.skip(4));
    assert(scan_strip(p.skip(3), true, false) =~= p.skip(3));
    assert(state_after(p.skip(3), true, false) == (false, false));
    assert(p.skip(2)[0] == 'c');
    assert(p.skip(2).skip(1) =~= p.skip(3));
    assert(scan_strip(p.skip(2), true, false) =~= p.skip(2));
    assert(state_after(p.skip(2), true, false) == (false, false));
    assert(p.skip(1)[0] == '\"');
    assert(p.skip(1).skip(1) =~= p.skip(2));
    assert(scan_strip(p.skip(1), false, false) =~= p.skip(1));
    assert(state_after(p.skip(1), false, false) == (false, false));
    assert(p.skip(0)[0] == ',');
    assert(p.skip(0).skip(1) =~= p.skip(1));
    assert(scan_strip(p.skip(0), false, false) =~= p.skip(0));
    assert(state_after(p.skip(0), false, false) == (false, false));
    assert(p.skip(0) =~= p);
}

proof fn lemma_scan_l5()
    ensures
        scan_strip(",\"completed_date\":"@, false, false) == ",\"completed_date\":"@,
        state_after(",\"completed_date\":"@, false, false) == (false, false),
{
    reveal_strlit(",\"completed_date\":");
    reveal_with_fuel(scan_strip, 2);
    reveal_with_fuel(state_after, 2);
    let p = ",\"completed_date\":"@;
    assert(p.skip(18) =~= Seq::<char>::empty());
    assert(p.skip(17)[0] == ':');
    assert(p.skip(17).skip(1) =~= p.skip(18));
    assert(scan_strip(p.skip(17), false, false) =~= p.skip(17));
    assert(state_after(p.skip(17), false, false) == (false, false));
    assert(p.skip(16)[0] == '\"');
    assert(p.skip(16).skip(1) =~= p.skip(17));
    assert(scan_strip(p.skip(16), true, false) =~= p.skip(16));
    assert(state_after(p.skip(16), true, false) == (false, false));
    assert(p.skip(15)[0] == 'e');
    assert(p.skip(15).skip(1) =~= p.skip(16));
    assert(scan_strip(p.skip(15), true, false) =~= p.skip(15));
    assert(state_after(p.skip(15), true, false) == (false, false));
    assert(p.skip(14)[0] == 't');
    assert(p.skip(14).skip(1) =~= p.skip(15));
    assert(scan_strip(p.skip(14), true, false) =~= p.skip(14));
    assert(state_after(p.skip(14), true, false) == (false, false));
    assert(p.skip(13)[0] == 'a');
    assert(p.skip(13).skip(1) =~= p.skip(14));
    assert(scan_strip(p.skip(13), true, false) =~= p.skip(13));
    assert(state_after(p.skip(13), true, false) == (false, false));
    assert(p.skip(12)[0] == 'd');
    assert(p.skip(12).skip(1) =~= p.skip(13));
    assert(scan_strip(p.skip(12), true, false) =~= p.skip(12));
    assert(state_after(p.skip(12), true, false) == (false, false));
    assert(p.skip(11)[0] == '_');
    assert(p.skip(11).skip(1) =~= p.skip(12));
    assert(scan_strip(p.skip(11), true, false) =~= p.skip(11));
    assert(state_after(p.skip(11), true, false) == (false, false));
    assert(p.skip(10)[0] == 'd');
    assert(p.skip(10).skip(1) =~= p.skip(11));
    assert(scan_strip(p.skip(10), true, false) =~= p.skip(10));
    assert(state_after(p.skip(10), true, false) == (false, false));
    assert(p.skip(9)[0] == 'e');
    assert(p.skip(9).skip(1) =~= p.skip(10));
    assert(scan_strip(p.skip(9), true, false) =~= p.skip(9));
    assert(state_after(p.skip(9), true, false) == (false, false));
    assert(p.skip(8)[0] == 't');
    assert(p.skip(8).skip(1) =~= p.skip(9));
    assert(scan_strip(p.skip(8), true, false) =~= p.skip(8));
    assert(state_after(p.skip(8), true, false) == (false, false));
    assert(p.skip(7)[0] == 'e');
    assert(p.skip(7).skip(1) =~= p.skip(8));
    assert(scan_strip(p.skip(7), true, false) =~= p.skip(7));
    assert(state_after(p.skip(7), true, false) == (false, false));
    assert(p.skip(6)[0] == 'l');
    assert(p.skip(6).skip(1) =~= p.skip(7));
    assert(scan_strip(p.skip(6), true, false) =~= p.skip(6));
    assert(state_after(p.skip(6), true, false) == (false, false));
    assert(p.skip(5)[0] == 'p');
    assert(p.skip(5).skip(1) =~= p.skip(6));
    assert(scan_strip(p.skip(5), true, false) =~= p.skip(5));
    assert(state_after(p.skip(5), true, false) == (false, false));
    assert(p.skip(4)[0] == 'm');
    assert(p.skip(4).skip(1) =~= p.skip(5));
    assert(scan_strip(p.skip(4), true, false) =~= p.skip(4));
    assert(state_after(p.skip(4), true, false) == (false, false));
    assert(p.skip(3)[0] == 'o');
    assert(p.skip(3).skip(1) =~= p.skip(4));
    assert(scan_strip(p.skip(3), true, false) =~= p.skip(3));
    assert(state_after(p.skip(3), true, false) == (false, false));
    assert(p.skip(2)[0] == 'c');
    assert(p.skip(2).skip(1) =~= p.skip(3));
    assert(scan_strip(p.skip(2), true, false) =~= p.skip(2));
    assert(state_after(p.skip(2), true, false) == (false, false));
    assert(p.skip(1)[0] == '\"');
    assert(p.skip(1).skip(1) =~= p.skip(2));
    assert(scan_strip(p.skip(1), false, false) =~= p.skip(1));
    assert(state_after(p.skip(1), false, false) == (false, false));
    assert(p.skip(0)[0] == ',');
    assert(p.skip(0).skip(1) =~= p.skip(1));
    assert(scan_strip(p.skip(0), false, false) =~= p.skip(0));
    assert(state_after(p.skip(0), false, false) == (false, false));
    assert(p.skip(0) =~= p);
}

/// The canonical form of a stored item passes through the scanner
/// unchanged, outside a string before and after.
proof fn lemma_scan_item(m: ItemModel)
    ensures
        scan_strip(item_json(m), false, false) == item_json(m),
        state_after(item_json(m), false, false) == (false, false),
{
    reveal_strlit("}");
    reveal_strlit("true");
    reveal_strlit("false");
    reveal_strlit("null");
    reveal_with_fuel(scan_strip, 3);
    reveal_with_fuel(state_after, 3);
    let l1 = "{\"id\":"@;
    let f_id = dec_int(m.id);
    let l2 = ",\"text\":\""@;
    let f_text = esc(m.text);
    let l3 = "\",\"done\":"@;
    let f_done = bool_json(m.done);
    let l4 = ",\"created_date\":"@;
    let f_cre = dec_int(m.created_date);
    let l5 = ",\"completed_date\":"@;
    let f_com = opt_ts_json(m.completed_date);
    let l6 = "}"@;
    lemma_scan_l1();
    lemma_scan_l2();
    lemma_scan_l3();
    lemma_scan_l4();
    lemma_scan_l5();
    assert(l6.skip(1) =~= Seq::<char>::empty());
    assert(scan_strip(l6, false, false) =~= l6);
    assert(state_after(l6, false, false) == (false, false));
    lemma_dec_int_plain(m.id);
    lemma_scan_plain(f_id, false, false);
    lemma_dec_int_plain(m.created_date);
    lemma_scan_plain(f_cre, false, false);
    assert forall|i: int|
        0 <= i < f_done.len() implies !json_ws(#[trigger] f_done[i]) && f_done[i] != '"'
        && f_done[i] != '\\' by {
        if m.done {
            assert(f_done == "true"@);
        } else {
            assert(f_done == "false"@);
        }
    }
    lemma_scan_plain(f_done, false, false);
    assert forall|i: int|
        0 <= i < f_com.len() implies !json_ws(#[trigger] f_com[i]) && f_com[i] != '"' && f_com[i]
        != '\\' by {
        match m.completed_date {
            Some(t) => {
                lemma_dec_int_plain(t);
            },
            None => {
                assert(f_com == "null"@);
            },
        }
    }
    lemma_scan_plain(f_com, false, false);
    lemma_scan_esc(m.text);
    // stitch the pieces left to right
    let a1 = l1;
    let a2 = a1 + f_id;
    let a3 = a2 + l2;
    let a4 = a3 + f_text;
    let a5 = a4 + l3;
    let a6 = a5 + f_done;
    let a7 = a6 + l4;
    let a8 = a7 + f_cre;
    let a9 = a8 + l5;
    let a10 = a9 + f_com;
    let a11 = a10 + l6;
    lemma_scan_append(a1, f_id, false, false);
    assert(scan_strip(a2, false, false) == a2 && state_after(a2, false, false) == (false, false));
    lemma_scan_append(a2, l2, false, false);
    assert(scan_strip(a3, false, false) == a3 && state_after(a3, false, false) == (true, false));
    lemma_scan_append(a3, f_text, false, false);
    assert(scan_strip(a4, false, false) == a4 && state_after(a4, false, false) == (true, false));
    lemma_scan_append(a4, l3, false, false);
    assert(scan_strip(a5, false, false) == a5 && state_after(a5, false, false) == (false, false));
    lemma_scan_append(a5, f_done, false, false);
    assert(scan_strip(a6, false, false) == a6 && state_after(a6, false, false) == (false, false));
    lemma_scan_append(a6, l4, false, false);
    assert(scan_strip(a7, false, false) == a7 && state_after(a7, false, false) == (false, false));
    lemma_scan_append(a7, f_cre, false, false);
    assert(scan_strip(a8, false, false) == a8 && state_after(a8, false, false) == (false, false));
    lemma_scan_append(a8, l5, false, false);
    assert(scan_strip(a9, false, false) == a9 && state_after(a9, false, false) == (false, false));
    lemma_scan_append(a9, f_com, false, false);
    assert(scan_strip(a10, false, false) == a10 && state_after(a10, false, false) == (false, false));
    lemma_scan_append(a10, l6, false, false);
    assert(scan_strip(a11, false, false) == a11 && state_after(a11, false, false) == (false, false));
    assert(item_json(m) == a11);
}

/// The comma-separated tail of a stored list passes through unchanged.
proof fn lemma_scan_rest(ms: Seq<ItemModel>)
    ensures
        scan_strip(rest_json(ms), false, false) == rest_json(ms),
        state_after(rest_json(ms), false, false) == (false, false),
    decreases ms.len(),
{
    if ms.len() == 0 {
        assert(rest_json(ms) =~= Seq::<char>::empty());
    } else {
        reveal_with_fuel(scan_strip, 3);
        reveal_with_fuel(state_after, 3);
        assert(seq![','].skip(1) =~= Seq::<char>::empty());
        assert(scan_strip(seq![','], false, false) =~= seq![',']);
        assert(state_after(seq![','], false, false) == (false, false));
        lemma_scan_item(ms[0]);
        lemma_scan_rest(ms.skip(1));
        lemma_scan_append(seq![','], item_json(ms[0]), false, false);
        assert(scan_strip(seq![','] + item_json(ms[0]), false, false) == seq![','] + item_json(
            ms[0],
        ));
        lemma_scan_append(seq![','] + item_json(ms[0]), rest_json(ms.skip(1)), false, false);
        lemma_concat_assoc(seq![','], item_json(ms[0]), rest_json(ms.skip(1)));
    }
}

/// The canonical storage text of a list contains no insignificant
/// whitespace: stripping leaves it unchanged. This is what lets a list
/// that was just saved be read back exactly: the reader strips first,
/// and the writer's output passes through untouched.
pub proof fn lemma_strip_ws_canonical(ms: Seq<ItemModel>)
    ensures
        strip_ws(list_json(ms)) == list_json(ms),
{
    reveal_with_fuel(scan_strip, 3);
    reveal_with_fuel(state_after, 3);
    assert(seq!['['].skip(1) =~= Seq::<char>::empty());
    assert(scan_strip(seq!['['], false, false) =~= seq!['[']);
    assert(state_after(seq!['['], false, false) == (false, false));
    assert(seq![']'].skip(1) =~= Seq::<char>::empty());
    assert(scan_strip(seq![']'], false, false) =~= seq![']']);
    let body = items_json(ms);
    assert(scan_strip(body, false, false) == body && state_after(body, false, false) == (
    false,
    false,
    )) by {
        if ms.len() == 0 {
            assert(body =~= Seq::<char>::empty());
        } else {
            lemma_scan_item(ms[0]);
            lemma_scan_rest(ms.skip(1));
            lemma_scan_append(item_json(ms[0]), rest_json(ms.skip(1)), false, false);
        }
    }
    lemma_scan_append(seq!['['], body, false, false);
    assert(scan_strip(seq!['['] + body, false, false) == seq!['['] + body);
    lemma_scan_append(seq!['['] + body, seq![']'], false, false);
}

/// Removes the whitespace that the storage format treats as
/// insignificant: any run of spaces, tabs or line breaks outside string
/// literals. Whitespace inside an item's text is content and stays.
pub fn strip_json_ws(s: &Vec<char>) -> (r: Vec<char>)
    ensures
        r@ == strip_ws(s@),
{
    let ghost sv = s@;
    let n = s.len();
    let mut out: Vec<char> = Vec::new();
    let mut in_str = false;
    let mut esc_seen = false;
    let mut k: usize = 0;
    proof {
        assert(sv.skip(0) =~= sv);
        assert(Seq::<char>::empty() + scan_strip(sv, false, false) =~= scan_strip(
            sv,
            false,
            false,
        ));
    }
    while k < n
        invariant
            k <= n,
            n == sv.len(),
            sv == s@,
            !in_str ==> !esc_seen,
            strip_ws(sv) == out@ + scan_strip(sv.skip(k as int), in_str, esc_seen),
        decreases n - k,
    {
        let c = s[k];
        let ghost k0 = k as int;
        let ghost in0 = in_str;
        let ghost esc0 = esc_seen;
        let ghost out0 = out@;
        proof {
            assert(sv.skip(k0)[0] == sv[k0]);
            assert(sv.skip(k0).skip(1) =~= sv.skip(k0 + 1));
        }
        if in_str {
            if esc_seen {
                out.push(c);
                esc_seen = false;
            } else if c == '\\' {
                out.push(c);
                esc_seen = true;
            } else if c == '"' {
                out.push(c);
                in_str = false;
            } else {
                out.push(c);
            }
        } else {
            if c == ' ' || c == '\t' || c == '\n' || c == '\r' {
                // dropped
            } else if c == '"' {
                out.push(c);
                in_str = true;
            } else {
                out.push(c);
            }
        }
        proof {
            if !in0 && json_ws(c) {
                assert(scan_strip(sv.skip(k0), in0, esc0) == scan_strip(
                    sv.skip(k0 + 1),
                    in_str,
                    esc_seen,
                ));
            } else {
                assert(scan_strip(sv.skip(k0), in0, esc0) == seq![c] + scan_strip(
                    sv.skip(k0 + 1),
                    in_str,
                    esc_seen,
                ));
                assert(out0 + (seq![c] + scan_strip(sv.skip(k0 + 1), in_str, esc_seen)) =~= (out0
                    + seq![c]) + scan_strip(sv.skip(k0 + 1), in_str, esc_seen));
            }
        }
        k = k + 1;
    }
    proof {
        assert(sv.skip(n as int) =~= Seq::<char>::empty());
        assert(out@ + scan_strip(sv.skip(n as int), in_str, esc_seen) =~= out@);
    }
    out
}

} // verus!
