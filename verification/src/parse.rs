use vstd::prelude::*;

use crate::chars::chars_to_string;
use crate::chars::str_to_chars;
use crate::digits::dec_int;
use crate::digits::is_digit;
use crate::digits::lemma_dec_nat_digits;
use crate::digits::parse_dec_i64;
use crate::escape::esc;
use crate::escape::parse_string_body;
use crate::json::bool_json;
use crate::json::item_json;
use crate::json::items_json;
use crate::json::list_json;
use crate::json::opt_ts_json;
use crate::json::rest_json;
use crate::model::ItemModel;
use crate::model::ToDoItem;
use crate::model::model_in_bounds;
use crate::model::models_in_bounds;
use crate::model::models_of;
use crate::seqs::lemma_split_at_prefix;
use crate::spaces::strip_json_ws;
use crate::spaces::strip_ws;

verus! {

/// Reading the stored list failed: once its whitespace is stripped, the
/// file does not hold the storage form of a todo list.
#[derive(Clone, Copy, Debug, PartialEq, Eq)]
pub struct ParseError {
    /// Position at or before which reading stopped making sense.
    pub at: usize,
}

/// A text that is the storage form of some in-bounds list.
pub open spec fn storage_ok(s: Seq<char>) -> bool {
    exists|ms: Seq<ItemModel>| models_in_bounds(ms) && s == #[trigger] list_json(ms)
}

/// A text that reads as some in-bounds list once its insignificant
/// whitespace is removed.
pub open spec fn json_ok(s: Seq<char>) -> bool {
    storage_ok(strip_ws(s))
}

spec fn o1(i: int) -> int {
    i + "{\"id\":"@.len()
}

spec fn o2(i: int, m: ItemModel) -> int {
    o1(i) + dec_int(m.id).len()
}

spec fn o3(i: int, m: ItemModel) -> int {
    o2(i, m) + ",\"text\":\""@.len()
}

spec fn o4(i: int, m: ItemModel) -> int {
    o3(i, m) + esc(m.text).len()
}

spec fn o5(i: int, m: ItemModel) -> int {
    o4(i, m) + "\",\"done\":"@.len()
}

spec fn o6(i: int, m: ItemModel) -> int {
    o5(i, m) + bool_json(m.done).len()
}

spec fn o7(i: int, m: ItemModel) -> int {
    o6(i, m) + ",\"created_date\":"@.len()
}

spec fn o8(i: int, m: ItemModel) -> int {
    o7(i, m) + dec_int(m.created_date).len()
}

spec fn o9(i: int, m: ItemModel) -> int {
    o8(i, m) + ",\"completed_date\":"@.len()
}

spec fn o10(i: int, m: ItemModel) -> int {
    o9(i, m) + opt_ts_json(m.completed_date).len()
}

spec fn o11(i: int, m: ItemModel) -> int {
    o10(i, m) + "}"@.len()
}

/// Where each field of a stored item sits when an item is written at `i`.
proof fn lemma_item_fields(sv: Seq<char>, i: int, m: ItemModel, rest: Seq<char>)
    requires
        0 <= i <= sv.len(),
        sv.skip(i) == item_json(m) + rest,
    ensures
        o11(i, m) == i + item_json(m).len(),
        o11(i, m) + rest.len() == sv.len(),
        sv.subrange(i, o1(i)) == "{\"id\":"@,
        sv.skip(o1(i)) == dec_int(m.id) + sv.skip(o2(i, m)),
        sv[o2(i, m)] == ',',
        sv.subrange(o2(i, m), o3(i, m)) == ",\"text\":\""@,
        sv.skip(o3(i, m)) == esc(m.text) + (seq!['"'] + sv.skip(o4(i, m) + 1)),
        sv.subrange(o4(i, m), o5(i, m)) == "\",\"done\":"@,
        sv.subrange(o5(i, m), o6(i, m)) == bool_json(m.done),
        sv.subrange(o6(i, m), o7(i, m)) == ",\"created_date\":"@,
        sv.skip(o7(i, m)) == dec_int(m.created_date) + sv.skip(o8(i, m)),
        sv[o8(i, m)] == ',',
        sv.subrange(o8(i, m), o9(i, m)) == ",\"completed_date\":"@,
        m.completed_date matches Some(t) ==> sv.skip(o9(i, m)) == dec_int(t) + sv.skip(o10(i, m))
            && sv[o10(i, m)] == '}' && sv[o9(i, m)] != 'n',
        m.completed_date is None ==> sv.subrange(o9(i, m), o10(i, m)) == "null"@ && sv[o9(i, m)]
            == 'n',
        sv.subrange(o10(i, m), o11(i, m)) == "}"@,
        sv.skip(o11(i, m)) == rest,
{
    reveal_strlit("{\"id\":");
    reveal_strlit(",\"text\":\"");
    reveal_strlit("\",\"done\":");
    reveal_strlit(",\"created_date\":");
    reveal_strlit(",\"completed_date\":");
    reveal_strlit("}");
    reveal_strlit("null");
    reveal_strlit("true");
    reveal_strlit("false");
    let l1 = "{\"id\":"@;
    let f_id = dec_int(m.id);
    let l2 = ",\"text\":\""@;
    let f_text = esc(m.text);
    let l3 = "\",\"done\":"@;
    let f_done = bool_json(m.done);
    let l4 = ",\"created_date\":"@;
    let f_cre = dec_int(m.created_date);
    let l5 = ",\"completed_date\":"@;
    let f_com = opt_ts_json(m.completed_date);
    let l6 = "}"@;
    assert(sv.skip(i) == l1 + (f_id + (l2 + (f_text + (l3 + (f_done + (l4 + (f_cre + (l5 + (f_com
        + (l6 + rest))))))))))) by {
        assert(item_json(m) + rest =~= l1 + (f_id + (l2 + (f_text + (l3 + (f_done + (l4 + (f_cre + (
        l5 + (f_com + (l6 + rest)))))))))));
    }
    lemma_split_at_prefix(sv, i, l1, f_id + (l2 + (f_text + (l3 + (f_done + (l4 + (f_cre + (l5 + (
    f_com + (l6 + rest))))))))));
    lemma_split_at_prefix(
        sv,
        o1(i),
        f_id,
        l2 + (f_text + (l3 + (f_done + (l4 + (f_cre + (l5 + (f_com + (l6 + rest)))))))),
    );
    lemma_split_at_prefix(
        sv,
        o2(i, m),
        l2,
        f_text + (l3 + (f_done + (l4 + (f_cre + (l5 + (f_com + (l6 + rest))))))),
    );
    lemma_split_at_prefix(
        sv,
        o3(i, m),
        f_text,
        l3 + (f_done + (l4 + (f_cre + (l5 + (f_com + (l6 + rest)))))),
    );
    lemma_split_at_prefix(sv, o4(i, m), l3, f_done + (l4 + (f_cre + (l5 + (f_com + (l6 + rest))))));
    lemma_split_at_prefix(sv, o5(i, m), f_done, l4 + (f_cre + (l5 + (f_com + (l6 + rest)))));
    lemma_split_at_prefix(sv, o6(i, m), l4, f_cre + (l5 + (f_com + (l6 + rest))));
    lemma_split_at_prefix(sv, o7(i, m), f_cre, l5 + (f_com + (l6 + rest)));
    lemma_split_at_prefix(sv, o8(i, m), l5, f_com + (l6 + rest));
    lemma_split_at_prefix(sv, o9(i, m), f_com, l6 + rest);
    lemma_split_at_prefix(sv, o10(i, m), l6, rest);
    // the boundary characters the scanner peeks at
    assert(sv[o2(i, m)] == ',') by {
        assert(sv.skip(o2(i, m))[0] == (l2 + (f_text + (l3 + (f_done + (l4 + (f_cre + (l5 + (f_com
            + (l6 + rest)))))))))[0]);
    }
    assert(sv[o8(i, m)] == ',') by {
        assert(sv.skip(o8(i, m))[0] == (l5 + (f_com + (l6 + rest)))[0]);
    }
    assert(sv.skip(o1(i)) == f_id + sv.skip(o2(i, m))) by {
        assert(sv.skip(o1(i)) =~= sv.subrange(o1(i), o2(i, m)) + sv.skip(o2(i, m)));
        assert(sv.subrange(o1(i), o2(i, m)) == f_id);
    }
    assert(sv.skip(o7(i, m)) == f_cre + sv.skip(o8(i, m))) by {
        assert(sv.skip(o7(i, m)) =~= sv.subrange(o7(i, m), o8(i, m)) + sv.skip(o8(i, m)));
        assert(sv.subrange(o7(i, m), o8(i, m)) == f_cre);
    }
    assert(sv.skip(o3(i, m)) == f_text + (seq!['"'] + sv.skip(o4(i, m) + 1))) by {
        assert(sv[o4(i, m)] == '"') by {
            assert(sv.skip(o4(i, m))[0] == l3[0]);
        }
        assert(sv.skip(o3(i, m)) =~= sv.subrange(o3(i, m), o4(i, m)) + (seq![sv[o4(i, m)]]
            + sv.skip(o4(i, m) + 1)));
        assert(sv.subrange(o3(i, m), o4(i, m)) == f_text);
    }
    match m.completed_date {
        Some(t) => {
            lemma_dec_nat_digits((if t < 0 {
                -t
            } else {
                t
            }) as nat);
            assert(sv.skip(o9(i, m)) == dec_int(t) + sv.skip(o10(i, m))) by {
                assert(sv.skip(o9(i, m)) =~= sv.subrange(o9(i, m), o10(i, m)) + sv.skip(o10(i, m)));
                assert(sv.subrange(o9(i, m), o10(i, m)) == f_com);
            }
            assert(sv[o10(i, m)] == '}') by {
                assert(sv.skip(o10(i, m))[0] == (l6 + rest)[0]);
            }
            assert(sv[o9(i, m)] != 'n') by {
                assert(sv.skip(o9(i, m))[0] == (f_com + (l6 + rest))[0]);
                assert(f_com[0] == dec_int(t)[0]);
                if t < 0 {
                } else {
                    assert(is_digit(dec_int(t)[0]));
                }
            }
        },
        None => {
            assert(sv[o9(i, m)] == 'n') by {
                assert(sv.skip(o9(i, m))[0] == (f_com + (l6 + rest))[0]);
            }
        },
    }
}

/// Matches the characters of `lit` at position `i`: returns the position
/// just past it exactly when the input carries `lit` there.
fn expect_lit(s: &Vec<char>, i: usize, lit: &str) -> (r: Option<usize>)
    requires
        i <= s@.len(),
    ensures
        r matches Some(j) ==> j as int == i + lit@.len() && j <= s@.len() && s@.subrange(
            i as int,
            j as int,
        ) == lit@,
        r is None ==> !(i + lit@.len() <= s@.len() && s@.subrange(i as int, i + lit@.len())
            == lit@),
{
    let pat = str_to_chars(lit);
    let n = s.len();
    if n - i < pat.len() {
        return None;
    }
    let mut k: usize = 0;
    while k < pat.len()
        invariant
            pat@ == lit@,
            k <= pat@.len(),
            n == s@.len(),
            i + pat@.len() <= n,
            forall|j: int| 0 <= j < k ==> s@[i + j] == pat@[j],
        decreases pat@.len() - k,
    {
        if s[i + k] != pat[k] {
            proof {
                if i + lit@.len() <= s@.len() && s@.subrange(i as int, i + lit@.len()) == lit@ {
                    assert(s@.subrange(i as int, i + lit@.len())[k as int] == s@[i + k]);
                    assert(false);
                }
            }
            return None;
        }
        k = k + 1;
    }
    proof {
        assert(s@.subrange(i as int, i + lit@.len()) =~= lit@);
    }
    Some(i + pat.len())
}

/// The leading fields of a stored item: id, text and done flag.
spec fn head_json(idv: int, text: Seq<char>, done: bool) -> Seq<char> {
    "{\"id\":"@ + dec_int(idv) + ",\"text\":\""@ + esc(text) + "\",\"done\":"@ + bool_json(done)
}

/// Reads the id, text and done fields of a stored item at position `i`.
#[verifier::rlimit(100)]
fn parse_item_head(s: &Vec<char>, i: usize) -> (r: Option<(i32, Vec<char>, bool, usize)>)
    requires
        i <= s@.len(),
    ensures
        r matches Some(p) ==> i < p.3 <= s@.len() && s@.subrange(i as int, p.3 as int) == head_json(
            p.0 as int,
            p.1@,
            p.2,
        ),
        forall|m: ItemModel, rest: Seq<char>|
            (model_in_bounds(m) && s@.skip(i as int) == #[trigger] (item_json(m) + rest)) ==> (
            r matches Some(p) && p.0 as int == m.id && p.1@ == m.text && p.2 == m.done
                && p.3 as int == o6(i as int, m)),
{
    let ghost sv = s@;
    let j1 = match expect_lit(s, i, "{\"id\":") {
        Some(j) => j,
        None => {
            proof {
                assert forall|m: ItemModel, rest: Seq<char>| (model_in_bounds(m) && sv.skip(
                    i as int,
                ) == #[trigger] (item_json(m) + rest)) implies false by {
                    lemma_item_fields(sv, i as int, m, rest);
                }
            }
            return None;
        },
    };
    let idp = match parse_dec_i64(s, j1) {
        Some(p) => p,
        None => {
            proof {
                assert forall|m: ItemModel, rest: Seq<char>| (model_in_bounds(m) && sv.skip(
                    i as int,
                ) == #[trigger] (item_json(m) + rest)) implies false by {
                    lemma_item_fields(sv, i as int, m, rest);
                    assert(sv.skip(j1 as int) == dec_int(m.id) + sv.skip(o2(i as int, m)));
                }
            }
            return None;
        },
    };
    let idv = idp.0;
    let j2 = idp.1;
    if idv < -2147483648i64 || idv > 2147483647i64 {
        proof {
            assert forall|m: ItemModel, rest: Seq<char>| (model_in_bounds(m) && sv.skip(i as int)
                == #[trigger] (item_json(m) + rest)) implies false by {
                lemma_item_fields(sv, i as int, m, rest);
                assert(sv.skip(j1 as int) == dec_int(m.id) + sv.skip(o2(i as int, m)));
            }
        }
        return None;
    }
    let id32: i32 = idv as i32;
    let j3 = match expect_lit(s, j2, ",\"text\":\"") {
        Some(j) => j,
        None => {
            proof {
                assert forall|m: ItemModel, rest: Seq<char>| (model_in_bounds(m) && sv.skip(
                    i as int,
                ) == #[trigger] (item_json(m) + rest)) implies false by {
                    lemma_item_fields(sv, i as int, m, rest);
                    assert(sv.skip(j1 as int) == dec_int(m.id) + sv.skip(o2(i as int, m)));
                    assert(j2 as int == o2(i as int, m));
                }
            }
            return None;
        },
    };
    let textp = match parse_string_body(s, j3) {
        Some(p) => p,
        None => {
            proof {
                assert forall|m: ItemModel, rest: Seq<char>| (model_in_bounds(m) && sv.skip(
                    i as int,
                ) == #[trigger] (item_json(m) + rest)) implies false by {
                    lemma_item_fields(sv, i as int, m, rest);
                    assert(sv.skip(j1 as int) == dec_int(m.id) + sv.skip(o2(i as int, m)));
                    assert(j3 as int == o3(i as int, m));
                }
            }
            return None;
        },
    };
    let tchars = textp.0;
    let j4 = textp.1;
    let j5 = match expect_lit(s, j4, "\",\"done\":") {
        Some(j) => j,
        None => {
            proof {
                assert forall|m: ItemModel, rest: Seq<char>| (model_in_bounds(m) && sv.skip(
                    i as int,
                ) == #[trigger] (item_json(m) + rest)) implies false by {
                    lemma_item_fields(sv, i as int, m, rest);
                    assert(sv.skip(j1 as int) == dec_int(m.id) + sv.skip(o2(i as int, m)));
                    assert(j3 as int == o3(i as int, m));
                    assert(j4 as int == o4(i as int, m));
                }
            }
            return None;
        },
    };
    let done_v: bool;
    let j6: usize;
    if let Some(j) = expect_lit(s, j5, "true") {
        done_v = true;
        j6 = j;
    } else if let Some(j) = expect_lit(s, j5, "false") {
        done_v = false;
        j6 = j;
    } else {
        proof {
            reveal_strlit("true");
            reveal_strlit("false");
            assert forall|m: ItemModel, rest: Seq<char>| (model_in_bounds(m) && sv.skip(i as int)
                == #[trigger] (item_json(m) + rest)) implies false by {
                lemma_item_fields(sv, i as int, m, rest);
                assert(sv.skip(j1 as int) == dec_int(m.id) + sv.skip(o2(i as int, m)));
                assert(j3 as int == o3(i as int, m));
                assert(j4 as int == o4(i as int, m));
                assert(j5 as int == o5(i as int, m));
            }
        }
        return None;
    }
    proof {
        reveal_strlit("true");
        reveal_strlit("false");
        assert forall|m: ItemModel, rest: Seq<char>| (model_in_bounds(m) && sv.skip(i as int)
            == #[trigger] (item_json(m) + rest)) implies j6 as int == o6(i as int, m) && done_v
            == m.done by {
            lemma_item_fields(sv, i as int, m, rest);
            assert(sv.skip(j1 as int) == dec_int(m.id) + sv.skip(o2(i as int, m)));
            assert(j3 as int == o3(i as int, m));
            assert(j4 as int == o4(i as int, m));
            assert(j5 as int == o5(i as int, m));
            let b = bool_json(m.done);
            assert(sv.subrange(o5(i as int, m), o6(i as int, m)) == b);
            if m.done {
                assert(b == "true"@);
                assert(sv.subrange(j5 as int, j5 + 4) == "true"@);
                if !done_v {
                    assert(false);
                }
            } else {
                assert(b == "false"@);
                assert(sv.subrange(j5 as int, j5 + 5) == "false"@);
                if done_v {
                    assert(sv.subrange(j5 as int, j6 as int)[0] == sv[j5 as int]);
                    assert(sv.subrange(j5 as int, j5 + 5)[0] == sv[j5 as int]);
                    assert(false);
                }
            }
        }
    }
    proof {
        reveal_strlit("true");
        reveal_strlit("false");
        assert(sv.subrange(i as int, j6 as int) =~= head_json(id32 as int, tchars@, done_v)) by {
            assert(sv.subrange(i as int, j6 as int) =~= sv.subrange(i as int, j1 as int)
                + sv.subrange(j1 as int, j2 as int) + sv.subrange(j2 as int, j3 as int)
                + sv.subrange(j3 as int, j4 as int) + sv.subrange(j4 as int, j5 as int)
                + sv.subrange(j5 as int, j6 as int));
        }
        assert forall|m: ItemModel, rest: Seq<char>| (model_in_bounds(m) && sv.skip(i as int)
            == #[trigger] (item_json(m) + rest)) implies id32 as int == m.id && tchars@ == m.text
            && done_v == m.done && j6 as int == o6(i as int, m) by {
            lemma_item_fields(sv, i as int, m, rest);
            assert(sv.skip(j1 as int) == dec_int(m.id) + sv.skip(o2(i as int, m)));
            assert(idv as int == m.id && j2 as int == o2(i as int, m));
            assert(j3 as int == o3(i as int, m));
            assert(sv.skip(j3 as int) == esc(m.text) + (seq!['"'] + sv.skip(o4(i as int, m) + 1)));
            assert(tchars@ == m.text && j4 as int == o4(i as int, m));
        }
    }
    return Some((id32, tchars, done_v, j6));
}

/// Everything `parse_item` needs to know, per candidate reading, about
/// the fields after the done flag.
spec fn tail_facts(sv: Seq<char>, i: int, m: ItemModel) -> bool {
    &&& o6(i, m) + ",\"created_date\":"@.len() == o7(i, m)
    &&& sv.subrange(o6(i, m), o7(i, m)) == ",\"created_date\":"@
    &&& sv.skip(o7(i, m)) == dec_int(m.created_date) + sv.skip(o8(i, m))
    &&& sv[o8(i, m)] == ','
    &&& sv.subrange(o8(i, m), o9(i, m)) == ",\"completed_date\":"@
    &&& (m.completed_date matches Some(t) ==> sv.skip(o9(i, m)) == dec_int(t) + sv.skip(
        o10(i, m),
    ) && sv[o10(i, m)] == '}' && sv[o9(i, m)] != 'n')
    &&& (m.completed_date is None ==> sv.subrange(o9(i, m), o10(i, m)) == "null"@ && sv[o9(
        i,
        m,
    )] == 'n')
    &&& sv.subrange(o10(i, m), o11(i, m)) == "}"@
    &&& o11(i, m) == i + item_json(m).len()
    &&& o11(i, m) <= sv.len()
}

/// Reads one stored item at position `i`.
///
/// On success the consumed characters are exactly the storage form of the
/// returned item; and whenever the input at `i` carries the storage form of
/// an in-bounds item, the parse succeeds and returns exactly that item.
#[verifier::rlimit(100)]
pub fn parse_item(s: &Vec<char>, i: usize) -> (r: Option<(ToDoItem, usize)>)
    requires
        i <= s@.len(),
    ensures
        r matches Some(p) ==> i < p.1 <= s@.len() && s@.subrange(i as int, p.1 as int) == item_json(
            p.0@,
        ) && model_in_bounds(p.0@),
        forall|m: ItemModel, rest: Seq<char>|
            (model_in_bounds(m) && s@.skip(i as int) == #[trigger] (item_json(m) + rest)) ==> (
            r matches Some(p) && p.0@ == m && p.1 as int == i + item_json(m).len()),
{
    let ghost sv = s@;
    proof {
        reveal_strlit("null");
    }
    let head = match parse_item_head(s, i) {
        Some(h) => h,
        None => {
            return None;
        },
    };
    let id32 = head.0;
    let tchars = head.1;
    let done_v = head.2;
    let j6 = head.3;
    proof {
        assert forall|m: ItemModel, rest: Seq<char>| (model_in_bounds(m) && sv.skip(i as int)
            == #[trigger] (item_json(m) + rest)) implies tail_facts(sv, i as int, m) by {
            lemma_item_fields(sv, i as int, m, rest);
        }
    }
    let j7 = match expect_lit(s, j6, ",\"created_date\":") {
        Some(j) => j,
        None => {
            return None;
        },
    };
    let crep = match parse_dec_i64(s, j7) {
        Some(p) => p,
        None => {
            proof {
                assert forall|m: ItemModel, rest: Seq<char>| (model_in_bounds(m) && sv.skip(
                    i as int,
                ) == #[trigger] (item_json(m) + rest)) implies false by {
                    assert(j7 as int == o7(i as int, m));
                    assert(sv.skip(j7 as int) == dec_int(m.created_date) + sv.skip(o8(i as int, m)));
                }
            }
            return None;
        },
    };
    let crev = crep.0;
    let j8 = crep.1;
    if crev < crate::model::TS_MIN || crev > crate::model::TS_MAX {
        proof {
            assert forall|m: ItemModel, rest: Seq<char>| (model_in_bounds(m) && sv.skip(i as int)
                == #[trigger] (item_json(m) + rest)) implies false by {
                assert(j7 as int == o7(i as int, m));
                assert(sv.skip(j7 as int) == dec_int(m.created_date) + sv.skip(o8(i as int, m)));
            }
        }
        return None;
    }
    let j9 = match expect_lit(s, j8, ",\"completed_date\":") {
        Some(j) => j,
        None => {
            proof {
                assert forall|m: ItemModel, rest: Seq<char>| (model_in_bounds(m) && sv.skip(
                    i as int,
                ) == #[trigger] (item_json(m) + rest)) implies false by {
                    assert(j7 as int == o7(i as int, m));
                    assert(sv.skip(j7 as int) == dec_int(m.created_date) + sv.skip(o8(i as int, m)));
                    assert(j8 as int == o8(i as int, m));
                }
            }
            return None;
        },
    };
    proof {
        assert forall|m: ItemModel, rest: Seq<char>| (model_in_bounds(m) && sv.skip(i as int)
            == #[trigger] (item_json(m) + rest)) implies j9 as int == o9(i as int, m)
            && crev as int == m.created_date by {
            assert(j7 as int == o7(i as int, m));
            assert(sv.skip(j7 as int) == dec_int(m.created_date) + sv.skip(o8(i as int, m)));
            assert(j8 as int == o8(i as int, m));
        }
    }
    let completed_v: Option<i64>;
    let j10: usize;
    if j9 < s.len() && s[j9] == 'n' {
        let j = match expect_lit(s, j9, "null") {
            Some(j) => j,
            None => {
                proof {
                    assert forall|m: ItemModel, rest: Seq<char>| (model_in_bounds(m) && sv.skip(
                        i as int,
                    ) == #[trigger] (item_json(m) + rest)) implies false by {
                        assert(m.completed_date is None);
                    }
                }
                return None;
            },
        };
        completed_v = None;
        j10 = j;
    } else {
        let comp = match parse_dec_i64(s, j9) {
            Some(p) => p,
            None => {
                proof {
                    assert forall|m: ItemModel, rest: Seq<char>| (model_in_bounds(m) && sv.skip(
                        i as int,
                    ) == #[trigger] (item_json(m) + rest)) implies false by {
                        assert(m.completed_date matches Some(t) ==> sv.skip(j9 as int) == dec_int(t)
                            + sv.skip(o10(i as int, m)));
                    }
                }
                return None;
            },
        };
        let compv = comp.0;
        if compv < crate::model::TS_MIN || compv > crate::model::TS_MAX {
            proof {
                assert forall|m: ItemModel, rest: Seq<char>| (model_in_bounds(m) && sv.skip(
                    i as int,
                ) == #[trigger] (item_json(m) + rest)) implies false by {
                    assert(m.completed_date matches Some(t) ==> sv.skip(j9 as int) == dec_int(t)
                        + sv.skip(o10(i as int, m)));
                }
            }
            return None;
        }
        completed_v = Some(compv);
        j10 = comp.1;
    }
    let j11 = match expect_lit(s, j10, "}") {
        Some(j) => j,
        None => {
            proof {
                assert forall|m: ItemModel, rest: Seq<char>| (model_in_bounds(m) && sv.skip(
                    i as int,
                ) == #[trigger] (item_json(m) + rest)) implies false by {
                    assert(m.completed_date matches Some(t) ==> sv.skip(j9 as int) == dec_int(t)
                        + sv.skip(o10(i as int, m)));
                    assert(j10 as int == o10(i as int, m));
                }
            }
            return None;
        },
    };
    let text = chars_to_string(&tchars);
    let it = ToDoItem {
        id: id32,
        text,
        done: done_v,
        created_date: crev,
        completed_date: completed_v,
    };
    proof {
        // the consumed span is exactly the storage form of the built item
        let mm = it@;
        assert(sv.subrange(i as int, j6 as int) == head_json(mm.id, mm.text, mm.done));
        assert(dec_int(mm.created_date) == sv.subrange(j7 as int, j8 as int));
        assert(opt_ts_json(mm.completed_date) == sv.subrange(j9 as int, j10 as int)) by {
            if completed_v is None {
                assert(sv.subrange(j9 as int, j10 as int) == "null"@);
            }
        }
        assert(sv.subrange(i as int, j11 as int) =~= item_json(mm)) by {
            assert(sv.subrange(i as int, j11 as int) =~= sv.subrange(i as int, j6 as int)
                + sv.subrange(j6 as int, j7 as int) + sv.subrange(j7 as int, j8 as int)
                + sv.subrange(j8 as int, j9 as int) + sv.subrange(j9 as int, j10 as int)
                + sv.subrange(j10 as int, j11 as int));
        }
        assert forall|m: ItemModel, rest: Seq<char>| (model_in_bounds(m) && sv.skip(i as int)
            == #[trigger] (item_json(m) + rest)) implies mm == m && j11 as int == i + item_json(
            m,
        ).len() by {
            match m.completed_date {
                Some(t) => {
                    assert(sv[o9(i as int, m)] != 'n');
                    assert(sv.skip(j9 as int) == dec_int(t) + sv.skip(o10(i as int, m)));
                    assert(completed_v matches Some(cv) && cv as int == t);
                },
                None => {
                    assert(sv[o9(i as int, m)] == 'n');
                    assert(completed_v is None);
                },
            }
            assert(j10 as int == o10(i as int, m));
            assert(j11 as int == o11(i as int, m));
        }
    }
    Some((it, j11))
}

/// A candidate reading of the whole input as a stored list.
spec fn list_hyp(sv: Seq<char>, ms: Seq<ItemModel>) -> bool {
    models_in_bounds(ms) && sv == list_json(ms)
}

/// The loop state just before an item is read: every candidate reading
/// agrees with what has been built and puts an item next.
spec fn inv_at(sv: Seq<char>, pos: int, built: Seq<ItemModel>) -> bool {
    forall|ms: Seq<ItemModel>|
        (models_in_bounds(ms) && sv == #[trigger] list_json(ms)) ==> (built.len() < ms.len()
            && built == ms.take(built.len() as int) && sv.skip(pos) == item_json(
            ms[built.len() as int],
        ) + (rest_json(ms.skip(built.len() as int + 1)) + seq![']']))
}

/// The loop state just after an item is read: every candidate reading
/// agrees with what has been built and puts the rest of the items next.
spec fn after_at(sv: Seq<char>, pos: int, built: Seq<ItemModel>) -> bool {
    forall|ms: Seq<ItemModel>|
        (models_in_bounds(ms) && sv == #[trigger] list_json(ms)) ==> (built.len() <= ms.len()
            && built == ms.take(built.len() as int) && sv.skip(pos) == rest_json(
            ms.skip(built.len() as int),
        ) + seq![']'])
}

proof fn lemma_list_step(
    sv: Seq<char>,
    prevpos: int,
    newpos: int,
    built0: Seq<ItemModel>,
    itm: ItemModel,
)
    requires
        0 <= prevpos <= sv.len(),
        inv_at(sv, prevpos, built0),
        forall|m: ItemModel, rest: Seq<char>|
            (model_in_bounds(m) && sv.skip(prevpos) == #[trigger] (item_json(m) + rest)) ==> (itm
                == m && newpos == prevpos + item_json(m).len()),
    ensures
        after_at(sv, newpos, built0.push(itm)),
{
    let built1 = built0.push(itm);
    let k = built0.len() as int;
    assert forall|ms: Seq<ItemModel>| (models_in_bounds(ms) && sv == #[trigger] list_json(
        ms,
    )) implies (built1.len() <= ms.len() && built1 == ms.take(built1.len() as int) && sv.skip(
        newpos,
    ) == rest_json(ms.skip(built1.len() as int)) + seq![']']) by {
        assert(model_in_bounds(ms[k]));
        assert(sv.skip(prevpos) == item_json(ms[k]) + (rest_json(ms.skip(k + 1)) + seq![']']));
        assert(itm == ms[k] && newpos == prevpos + item_json(ms[k]).len());
        assert(built1 =~= ms.take(k + 1));
        lemma_split_at_prefix(sv, prevpos, item_json(ms[k]), rest_json(ms.skip(k + 1)) + seq![']']);
    }
}

proof fn lemma_list_close(sv: Seq<char>, pos: int, built: Seq<ItemModel>)
    requires
        0 <= pos < sv.len(),
        after_at(sv, pos, built),
        sv[pos] == ']',
        pos + 1 == sv.len(),
    ensures
        forall|ms: Seq<ItemModel>|
            (models_in_bounds(ms) && sv == #[trigger] list_json(ms)) ==> built == ms,
{
    assert forall|ms: Seq<ItemModel>| (models_in_bounds(ms) && sv == #[trigger] list_json(
        ms,
    )) implies built == ms by {
        let k = built.len() as int;
        assert(sv.skip(pos) == rest_json(ms.skip(k)) + seq![']']);
        assert(rest_json(ms.skip(k)).len() == 0) by {
            assert(sv.skip(pos).len() == 1);
        }
        assert(ms.skip(k).len() == 0) by {
            if ms.skip(k).len() > 0 {
                assert(rest_json(ms.skip(k)).len() >= 1) by {
                    assert(rest_json(ms.skip(k))[0] == ',');
                }
            }
        }
        assert(ms =~= ms.take(k));
    }
}

proof fn lemma_list_not_closed(sv: Seq<char>, pos: int, built: Seq<ItemModel>)
    requires
        0 <= pos <= sv.len(),
        after_at(sv, pos, built),
        pos < sv.len() ==> sv[pos] == ']',
        pos < sv.len() ==> pos + 1 != sv.len(),
    ensures
        forall|ms: Seq<ItemModel>| !(models_in_bounds(ms) && sv == #[trigger] list_json(ms)),
{
    assert forall|ms: Seq<ItemModel>| !(models_in_bounds(ms) && sv == #[trigger] list_json(
        ms,
    )) by {
        if models_in_bounds(ms) && sv == list_json(ms) {
            let k = built.len() as int;
            assert(sv.skip(pos) == rest_json(ms.skip(k)) + seq![']']);
            assert(sv.skip(pos).len() >= 1);
            assert(pos < sv.len());
            assert(sv.skip(pos)[0] == ']');
            if ms.skip(k).len() > 0 {
                assert(rest_json(ms.skip(k))[0] == ',');
                assert(sv.skip(pos)[0] == ',');
                assert(false);
            } else {
                assert(rest_json(ms.skip(k)).len() == 0);
                assert(sv.skip(pos) =~= seq![']']);
                assert(pos + 1 == sv.len());
                assert(false);
            }
        }
    }
}

proof fn lemma_list_comma(sv: Seq<char>, pos: int, built: Seq<ItemModel>)
    requires
        0 <= pos < sv.len(),
        after_at(sv, pos, built),
        sv[pos] == ',',
    ensures
        inv_at(sv, pos + 1, built),
{
    let k = built.len() as int;
    assert forall|ms: Seq<ItemModel>| (models_in_bounds(ms) && sv == #[trigger] list_json(
        ms,
    )) implies (built.len() < ms.len() && built == ms.take(built.len() as int) && sv.skip(pos + 1)
        == item_json(ms[built.len() as int]) + (rest_json(ms.skip(built.len() as int + 1)) + seq![
        ']',
    ])) by {
        assert(sv.skip(pos) == rest_json(ms.skip(k)) + seq![']']);
        assert(ms.skip(k).len() > 0) by {
            if ms.skip(k).len() == 0 {
                assert(sv.skip(pos)[0] == ']');
            }
        }
        assert(rest_json(ms.skip(k)) == seq![','] + item_json(ms.skip(k)[0]) + rest_json(
            ms.skip(k).skip(1),
        ));
        assert(ms.skip(k)[0] == ms[k]);
        assert(ms.skip(k).skip(1) =~= ms.skip(k + 1));
        let tail = item_json(ms[k]) + (rest_json(ms.skip(k + 1)) + seq![']']);
        assert(sv.skip(pos) == seq![','] + tail) by {
            assert((seq![','] + item_json(ms[k]) + rest_json(ms.skip(k + 1))) + seq![']'] =~= seq![
                ',',
            ] + tail);
        }
        lemma_split_at_prefix(sv, pos, seq![','], tail);
    }
}

/// Also true when a candidate reading exists: the one that a failed item
/// parse rules out.
proof fn lemma_list_item_fail(sv: Seq<char>, pos: int, built: Seq<ItemModel>)
    requires
        0 <= pos <= sv.len(),
        inv_at(sv, pos, built),
        forall|m: ItemModel, rest: Seq<char>|
            !(model_in_bounds(m) && sv.skip(pos) == #[trigger] (item_json(m) + rest)),
    ensures
        forall|ms: Seq<ItemModel>| !(models_in_bounds(ms) && sv == #[trigger] list_json(ms)),
{
    assert forall|ms: Seq<ItemModel>| !(models_in_bounds(ms) && sv == #[trigger] list_json(
        ms,
    )) by {
        if models_in_bounds(ms) && sv == list_json(ms) {
            let k = built.len() as int;
            assert(model_in_bounds(ms[k]));
            assert(sv.skip(pos) == item_json(ms[k]) + (rest_json(ms.skip(k + 1)) + seq![']']));
            assert(false);
        }
    }
}

/// Reads a whole stored list.
///
/// The text is first stripped of whitespace outside string literals; the
/// read succeeds exactly when what remains is the storage form of an
/// in-bounds list, and then returns exactly the stored items. The
/// writer's output passes through the stripping untouched (see
/// `spaces::lemma_strip_ws_canonical`), so together with
/// `todo_list_to_json`, saving a list and loading it back yields the same
/// ids, texts, done flags and timestamps; a pretty-printed or hand-spaced
/// file reads as the same list as its compact form. Whitespace is removed
/// wherever it stands outside a string, so a stray space inside a number
/// also vanishes rather than being refused. Reordered fields or escapes
/// the writer never emits are not accepted.
#[verifier::rlimit(100)]
#[verifier::loop_isolation(false)]
pub fn parse_todo_list(s: &str) -> (r: Result<Vec<ToDoItem>, ParseError>)
    ensures
        r matches Ok(v) ==> strip_ws(s@) == list_json(models_of(v@)) && models_in_bounds(
            models_of(v@),
        ),
        forall|ms: Seq<ItemModel>|
            (models_in_bounds(ms) && strip_ws(s@) == #[trigger] list_json(ms)) ==> (r matches Ok(v)
                && models_of(v@) == ms),
        r is Ok <==> json_ok(s@),
{
    let raw = str_to_chars(s);
    let sc = strip_json_ws(&raw);
    let ghost sv = strip_ws(s@);
    let slen = sc.len();
    proof {
        reveal_strlit("{\"id\":");
        assert forall|ms: Seq<ItemModel>| (models_in_bounds(ms) && sv == #[trigger] list_json(
            ms,
        )) implies sv.len() >= 2 && sv[0] == '[' && (ms.len() > 0 ==> sv[1] == '{') && (ms.len()
            == 0 ==> sv.len() == 2) by {
            assert(sv[0] == (seq!['['] + items_json(ms) + seq![']'])[0]);
            if ms.len() > 0 {
                assert(items_json(ms)[0] == item_json(ms[0])[0]);
                assert(item_json(ms[0])[0] == "{\"id\":"@[0]);
                assert(sv[1] == (seq!['['] + items_json(ms) + seq![']'])[1]);
            } else {
                assert(items_json(ms).len() == 0);
            }
        }
    }
    if slen < 2 {
        return Err(ParseError { at: 0 });
    }
    if sc[0] != '[' {
        return Err(ParseError { at: 0 });
    }
    if sc[1] == ']' {
        if slen == 2 {
            let out: Vec<ToDoItem> = Vec::new();
            proof {
                assert(models_of(out@) =~= Seq::<ItemModel>::empty());
                assert(sv =~= list_json(models_of(out@)));
                assert forall|ms: Seq<ItemModel>| (models_in_bounds(ms) && sv
                    == #[trigger] list_json(ms)) implies models_of(out@) == ms by {
                    if ms.len() > 0 {
                        assert(sv[1] == '{');
                    }
                    assert(ms =~= models_of(out@));
                }
            }
            return Ok(out);
        }
        return Err(ParseError { at: 1 });
    }
    let mut items: Vec<ToDoItem> = Vec::new();
    let mut pos: usize = 1;
    proof {
        assert forall|ms: Seq<ItemModel>| (models_in_bounds(ms) && sv == #[trigger] list_json(
            ms,
        )) implies (models_of(items@).len() < ms.len() && models_of(items@) == ms.take(0)
            && sv.skip(1) == item_json(ms[0]) + (rest_json(ms.skip(1)) + seq![']'])) by {
            if ms.len() == 0 {
                assert(sv.len() == 2 && sv[1] == ']');
            }
            assert(models_of(items@) =~= ms.take(0));
            assert(sv.skip(1) =~= item_json(ms[0]) + (rest_json(ms.skip(1)) + seq![']']));
        }
        assert(inv_at(sv, 1, models_of(items@)));
    }
    loop
        invariant
            1 <= pos <= slen,
            sv.subrange(0, pos as int) == seq!['['] + items_json(models_of(items@)) + (if items@.len()
                == 0 {
                Seq::<char>::empty()
            } else {
                seq![',']
            }),
            models_in_bounds(models_of(items@)),
            inv_at(sv, pos as int, models_of(items@)),
        decreases slen - pos,
    {
        let ghost k = items@.len() as int;
        let itp = match parse_item(&sc, pos) {
            Some(p) => p,
            None => {
                proof {
                    lemma_list_item_fail(sv, pos as int, models_of(items@));
                }
                return Err(ParseError { at: pos });
            },
        };
        let ghost prevpos = pos as int;
        let it = itp.0;
        pos = itp.1;
        let ghost items0 = items@;
        items.push(it);
        proof {
            assert(models_of(items@) =~= models_of(items0).push(it@));
            crate::json::lemma_items_json_push(models_of(items0), it@);
            assert(sv.subrange(0, pos as int) =~= sv.subrange(0, prevpos) + sv.subrange(
                prevpos,
                pos as int,
            ));
            assert(sv.subrange(0, pos as int) == seq!['['] + items_json(models_of(items@)));
            lemma_list_step(sv, prevpos, pos as int, models_of(items0), it@);
        }
        if pos < slen && sc[pos] == ']' {
            if pos + 1 == slen {
                proof {
                    assert(sv.subrange(0, slen as int) =~= sv);
                    assert(sv =~= sv.subrange(0, pos as int) + seq![sv[pos as int]]);
                    assert(sv == list_json(models_of(items@)));
                    lemma_list_close(sv, pos as int, models_of(items@));
                }
                return Ok(items);
            }
            proof {
                lemma_list_not_closed(sv, pos as int, models_of(items@));
            }
            return Err(ParseError { at: pos });
        }
        if pos < slen && sc[pos] == ',' {
            pos = pos + 1;
            proof {
                assert(sv.subrange(0, pos as int) =~= sv.subrange(0, pos - 1) + seq![sv[pos - 1]]);
                lemma_list_comma(sv, pos - 1, models_of(items@));
            }
        } else {
            proof {
                assert forall|ms: Seq<ItemModel>| !(models_in_bounds(ms) && sv
                    == #[trigger] list_json(ms)) by {
                    if models_in_bounds(ms) && sv == list_json(ms) {
                        let kk = models_of(items@).len() as int;
                        assert(sv.skip(pos as int) == rest_json(ms.skip(kk)) + seq![']']);
                        if ms.skip(kk).len() > 0 {
                            assert(rest_json(ms.skip(kk))[0] == ',');
                            assert(sv.skip(pos as int)[0] == ',');
                            assert(sv[pos as int] == ',');
                            assert(false);
                        } else {
                            assert(rest_json(ms.skip(kk)).len() == 0);
                            assert(sv.skip(pos as int) =~= seq![']']);
                            assert(sv[pos as int] == ']');
                            assert(false);
                        }
                    }
                }
            }
            return Err(ParseError { at: pos });
        }
    }
}

} // verus!
