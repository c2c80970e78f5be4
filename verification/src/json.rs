use vstd::prelude::*;

use crate::chars::chars_to_string;
use crate::chars::str_to_chars;
use crate::digits::dec_int;
use crate::digits::push_dec_i64;
use crate::escape::esc;
use crate::escape::push_escaped;
use crate::model::ItemModel;
use crate::model::ToDoItem;
use crate::model::models_of;

verus! {

pub open spec fn bool_json(b: bool) -> Seq<char> {
    if b {
        "true"@
    } else {
        "false"@
    }
}

pub open spec fn opt_ts_json(o: Option<int>) -> Seq<char> {
    match o {
        Some(t) => dec_int(t),
        None => "null"@,
    }
}

/// The storage form of one item: a JSON object with the five fields in
/// fixed order and no spaces, as the whole list has always been written.
pub open spec fn item_json(m: ItemModel) -> Seq<char> {
    "{\"id\":"@ + dec_int(m.id) + ",\"text\":\""@ + esc(m.text) + "\",\"done\":"@ + bool_json(
        m.done,
    ) + ",\"created_date\":"@ + dec_int(m.created_date) + ",\"completed_date\":"@ + opt_ts_json(
        m.completed_date,
    ) + "}"@
}

/// The items after the first, each preceded by a comma.
pub open spec fn rest_json(ms: Seq<ItemModel>) -> Seq<char>
    decreases ms.len(),
{
    if ms.len() == 0 {
        Seq::<char>::empty()
    } else {
        seq![','] + item_json(ms[0]) + rest_json(ms.skip(1))
    }
}

pub open spec fn items_json(ms: Seq<ItemModel>) -> Seq<char> {
    if ms.len() == 0 {
        Seq::<char>::empty()
    } else {
        item_json(ms[0]) + rest_json(ms.skip(1))
    }
}

/// The storage form of a whole list: a JSON array of the items.
pub open spec fn list_json(ms: Seq<ItemModel>) -> Seq<char> {
    seq!['['] + items_json(ms) + seq![']']
}

pub proof fn lemma_rest_json_push(p: Seq<ItemModel>, m: ItemModel)
    ensures
        rest_json(p.push(m)) == rest_json(p) + (seq![','] + item_json(m)),
    decreases p.len(),
{
    reveal_with_fuel(rest_json, 2);
    if p.len() == 0 {
        assert(p.push(m)[0] == m);
        assert(p.push(m).skip(1) =~= Seq::<ItemModel>::empty());
        assert(rest_json(p.push(m)) =~= rest_json(p) + (seq![','] + item_json(m)));
    } else {
        assert(p.push(m)[0] == p[0]);
        assert(p.push(m).skip(1) =~= p.skip(1).push(m));
        lemma_rest_json_push(p.skip(1), m);
        assert(rest_json(p.push(m)) =~= rest_json(p) + (seq![','] + item_json(m)));
    }
}

pub proof fn lemma_items_json_push(p: Seq<ItemModel>, m: ItemModel)
    ensures
        p.len() == 0 ==> items_json(p.push(m)) == items_json(p) + item_json(m),
        p.len() > 0 ==> items_json(p.push(m)) == items_json(p) + (seq![','] + item_json(m)),
{
    if p.len() == 0 {
        assert(p.push(m)[0] == m);
        assert(p.push(m).skip(1) =~= Seq::<ItemModel>::empty());
        assert(items_json(p.push(m)) =~= items_json(p) + item_json(m));
    } else {
        assert(p.push(m)[0] == p[0]);
        assert(p.push(m).skip(1) =~= p.skip(1).push(m));
        lemma_rest_json_push(p.skip(1), m);
        assert(items_json(p.push(m)) =~= items_json(p) + (seq![','] + item_json(m)));
    }
}

fn push_lit(out: &mut Vec<char>, lit: &str)
    ensures
        final (out)@ == old(out)@ + lit@,
{
    let mut v = str_to_chars(lit);
    out.append(&mut v);
}

/// Appends the storage form of one item to `out`.
fn push_item_json(out: &mut Vec<char>, it: &ToDoItem)
    ensures
        final (out)@ == old(out)@ + item_json(it@),
{
    push_lit(out, "{\"id\":");
    push_dec_i64(out, it.id as i64);
    push_lit(out, ",\"text\":\"");
    let tchars = str_to_chars(it.text.as_str());
    push_escaped(out, &tchars);
    push_lit(out, "\",\"done\":");
    if it.done {
        push_lit(out, "true");
    } else {
        push_lit(out, "false");
    }
    push_lit(out, ",\"created_date\":");
    push_dec_i64(out, it.created_date);
    push_lit(out, ",\"completed_date\":");
    match it.completed_date {
        Some(t) => push_dec_i64(out, t),
        None => push_lit(out, "null"),
    }
    push_lit(out, "}");
    proof {
        assert(out@ =~= old(out)@ + item_json(it@));
    }
}

/// Writes the whole list in its storage form.
///
/// The result is exactly `list_json` of the items' models, so what this
/// writes is read back unchanged by `parse_todo_list`.
pub fn todo_list_to_json(list: &Vec<ToDoItem>) -> (r: String)
    ensures
        r@ == list_json(models_of(list@)),
{
    let ghost ms = models_of(list@);
    let mut out: Vec<char> = Vec::new();
    out.push('[');
    let mut k: usize = 0;
    while k < list.len()
        invariant
            k <= list@.len(),
            ms == models_of(list@),
            ms.len() == list@.len(),
            out@ == seq!['['] + items_json(ms.take(k as int)),
        decreases list@.len() - k,
    {
        let ghost pre = out@;
        if k > 0 {
            out.push(',');
        }
        push_item_json(&mut out, &list[k]);
        proof {
            assert(ms.take(k + 1) =~= ms.take(k as int).push(ms[k as int]));
            assert(ms[k as int] == list@[k as int]@);
            lemma_items_json_push(ms.take(k as int), ms[k as int]);
            if k > 0 {
                assert(ms.take(k as int).len() > 0);
                assert(out@ =~= seq!['['] + items_json(ms.take(k + 1)));
            } else {
                assert(out@ =~= seq!['['] + items_json(ms.take(k + 1)));
            }
        }
        k = k + 1;
    }
    proof {
        assert(ms.take(ms.len() as int) =~= ms);
    }
    out.push(']');
    proof {
        assert(out@ =~= list_json(ms));
    }
    chars_to_string(&out)
}

} // verus!
