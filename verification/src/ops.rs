use vstd::prelude::*;

use crate::json::list_json;
use crate::json::todo_list_to_json;
use crate::model::ItemModel;
use crate::model::TS_MAX;
use crate::model::TS_MIN;
use crate::model::ToDoItem;
use crate::model::model_in_bounds;
use crate::model::models_in_bounds;
use crate::model::models_of;
use crate::model::ts_in_range;
use crate::parse::parse_todo_list;
use crate::spaces::strip_ws;
use crate::parse::json_ok;
use crate::render::rendered;

verus! {

/// What `new_core` reports.
pub enum NewOutcome {
    /// The storage file does not exist: the user must run init first.
    NoStorage,
    /// The storage file does not hold a readable todo list.
    Corrupt,
    /// Every id up to the largest is taken: no new id can be assigned.
    IdOverflow,
    /// The item was appended under `id`; `contents` is the new storage text.
    Saved { id: i32, contents: String },
}

/// What `complete_core` reports.
pub enum CompleteOutcome {
    /// The storage file does not exist: the user must run init first.
    NoStorage,
    /// The storage file does not hold a readable todo list.
    Corrupt,
    /// No item with that id is still open.
    NotFound,
    /// The first open item with that id was completed; `text` is its text
    /// and `contents` the new storage text.
    Completed { text: String, contents: String },
}

/// What `list_core` reports.
pub enum ListOutcome {
    /// The storage file does not exist: the user must run init first.
    NoStorage,
    /// The storage file does not hold a readable todo list.
    Corrupt,
    /// The rendered lines, one per visible item.
    Lines(Vec<String>),
}

/// The largest id in the list, or zero for an empty list.
pub open spec fn max_id(ms: Seq<ItemModel>) -> int
    decreases ms.len(),
{
    if ms.len() == 0 {
        0
    } else if ms.len() == 1 {
        ms[0].id
    } else {
        let rest = max_id(ms.drop_last());
        if ms.last().id > rest {
            ms.last().id
        } else {
            rest
        }
    }
}

/// The model of a freshly added item.
pub open spec fn new_item_model(id: int, text: Seq<char>, now: int) -> ItemModel {
    ItemModel { id, text, done: false, created_date: now, completed_date: None }
}

/// The model of `m` once completed at time `now`.
pub open spec fn completed_model(m: ItemModel, now: int) -> ItemModel {
    ItemModel { done: true, completed_date: Some(now), ..m }
}

/// A freshly added item is well formed: open, with no completion date.
pub proof fn lemma_new_item_wf(id: int, text: Seq<char>, now: int)
    ensures
        new_item_model(id, text, now).wf(),
{
}

/// A completed item stays well formed: done, carrying its completion date.
pub proof fn lemma_completed_item_wf(m: ItemModel, now: int)
    ensures
        completed_model(m, now).wf(),
{
}

/// The item at `j` matches `id` and is still open.
pub open spec fn is_active(ms: Seq<ItemModel>, id: int, j: int) -> bool {
    0 <= j < ms.len() && ms[j].id == id && !ms[j].done
}

/// The items the list command shows: all of them, or the open ones.
pub open spec fn visible(ms: Seq<ItemModel>, all: bool) -> Seq<ItemModel>
    decreases ms.len(),
{
    if ms.len() == 0 {
        Seq::<ItemModel>::empty()
    } else {
        (if all || !ms[0].done {
            seq![ms[0]]
        } else {
            Seq::<ItemModel>::empty()
        }) + visible(ms.skip(1), all)
    }
}

/// Without the all flag, no completed item is ever shown.
pub proof fn lemma_visible_excludes_done(ms: Seq<ItemModel>)
    ensures
        forall|j: int|
            0 <= j < visible(ms, false).len() ==> !(#[trigger] visible(ms, false)[j]).done,
    decreases ms.len(),
{
    if ms.len() > 0 {
        lemma_visible_excludes_done(ms.skip(1));
        let head: Seq<ItemModel> = if !ms[0].done {
            seq![ms[0]]
        } else {
            Seq::<ItemModel>::empty()
        };
        assert(forall|j: int|
            0 <= j < visible(ms.skip(1), false).len() ==> (head + visible(ms.skip(1), false))[j
                + head.len()] == #[trigger] visible(ms.skip(1), false)[j]);
    }
}

proof fn lemma_visible_push(ms: Seq<ItemModel>, m: ItemModel, all: bool)
    ensures
        visible(ms.push(m), all) == visible(ms, all) + (if all || !m.done {
            seq![m]
        } else {
            Seq::<ItemModel>::empty()
        }),
    decreases ms.len(),
{
    reveal_with_fuel(visible, 3);
    let tail: Seq<ItemModel> = if all || !m.done {
        seq![m]
    } else {
        Seq::<ItemModel>::empty()
    };
    if ms.len() == 0 {
        assert(ms.push(m)[0] == m);
        assert(ms.push(m).skip(1) =~= Seq::<ItemModel>::empty());
        assert(visible(ms.push(m), all) =~= visible(ms, all) + tail);
    } else {
        assert(ms.push(m)[0] == ms[0]);
        assert(ms.push(m).skip(1) =~= ms.skip(1).push(m));
        lemma_visible_push(ms.skip(1), m, all);
        assert(visible(ms.push(m), all) =~= visible(ms, all) + tail);
    }
}

proof fn lemma_max_id_take(ms: Seq<ItemModel>, k: int)
    requires
        0 <= k < ms.len(),
    ensures
        k == 0 ==> max_id(ms.take(1)) == ms[0].id,
        k > 0 ==> max_id(ms.take(k + 1)) == if ms[k].id > max_id(ms.take(k)) {
            ms[k].id
        } else {
            max_id(ms.take(k))
        },
{
    if k == 0 {
        assert(ms.take(1)[0] == ms[0]);
    } else {
        assert(ms.take(k + 1).drop_last() =~= ms.take(k));
        assert(ms.take(k + 1).last() == ms[k]);
    }
}

/// Relies on chrono's `Utc::now` and `DateTime::timestamp`: the clock
/// reading, in Unix seconds. A chrono datetime always lies within the
/// range the storage format accepts, give or take the one-day margin,
/// which no real clock reading approaches.
#[verifier::external_body]
fn now_epoch_secs() -> (r: i64)
    ensures
        TS_MIN <= r <= TS_MAX,
{
    chrono::Utc::now().timestamp()
}

fn max_id_exec(list: &Vec<ToDoItem>) -> (r: i64)
    ensures
        r as int == max_id(models_of(list@)),
        -2147483648 <= r <= 2147483647,
{
    let ghost ms = models_of(list@);
    let mut m: i64 = 0;
    let mut k: usize = 0;
    proof {
        assert(ms.take(0) =~= Seq::<ItemModel>::empty());
    }
    while k < list.len()
        invariant
            k <= list@.len(),
            ms == models_of(list@),
            ms.len() == list@.len(),
            m as int == max_id(ms.take(k as int)),
            -2147483648 <= m <= 2147483647,
        decreases list@.len() - k,
    {
        let id = list[k].id;
        proof {
            assert(ms[k as int] == list@[k as int]@);
            lemma_max_id_take(ms, k as int);
        }
        if k == 0 {
            m = id as i64;
        } else if (id as i64) > m {
            m = id as i64;
        }
        k = k + 1;
    }
    proof {
        assert(ms.take(ms.len() as int) =~= ms);
    }
    m
}

/// Appends a new open item to the stored list.
///
/// Reports the missing or unreadable storage file as such; otherwise the
/// new item gets id `max + 1` over the stored ids (1 on an empty list),
/// the current time as its creation date, and the returned contents are
/// the stored list with exactly that item appended.
pub fn new_core(contents: &Option<String>, text: String) -> (r: NewOutcome)
    ensures
        contents is None <==> r is NoStorage,
        (contents matches Some(s) && !json_ok(s@)) <==> r is Corrupt,
        forall|ms: Seq<ItemModel>|
            (contents matches Some(s) && models_in_bounds(ms) && strip_ws(s@) == #[trigger] list_json(ms))
                ==> if max_id(ms) >= i32::MAX {
                r is IdOverflow
            } else {
                r matches NewOutcome::Saved { id, contents: c } && id as int == max_id(ms) + 1
                    && exists|now: int|
                    ts_in_range(now) && c@ == list_json(
                        ms.push(#[trigger] new_item_model(max_id(ms) + 1, text@, now)),
                    )
            },
{
    let s = match contents {
        Some(s) => s,
        None => {
            return NewOutcome::NoStorage;
        },
    };
    let mut list = match parse_todo_list(s.as_str()) {
        Ok(l) => l,
        Err(_) => {
            return NewOutcome::Corrupt;
        },
    };
    let ghost ms0 = models_of(list@);
    let maxid = max_id_exec(&list);
    if maxid >= 2147483647i64 {
        return NewOutcome::IdOverflow;
    }
    let id = (maxid + 1) as i32;
    let now = now_epoch_secs();
    let ghost textv = text@;
    let item = ToDoItem { id, text, done: false, created_date: now, completed_date: None };
    proof {
        assert(item@ == new_item_model(max_id(ms0) + 1, textv, now as int));
    }
    list.push(item);
    let out = todo_list_to_json(&list);
    proof {
        assert(models_of(list@) =~= ms0.push(new_item_model(max_id(ms0) + 1, textv, now as int)));
        assert(json_ok(s@));
    }
    NewOutcome::Saved { id, contents: out }
}

/// Marks the first open item carrying `id` as done.
///
/// Reports the missing or unreadable storage file as such, and an id with
/// no open item as not found; otherwise exactly one item changes: the
/// first open one with that id, which gets its done flag set and the
/// current time as its completion date.
#[verifier::loop_isolation(false)]
pub fn complete_core(contents: &Option<String>, id: i32) -> (r: CompleteOutcome)
    ensures
        contents is None <==> r is NoStorage,
        (contents matches Some(s) && !json_ok(s@)) <==> r is Corrupt,
        forall|ms: Seq<ItemModel>|
            (contents matches Some(s) && models_in_bounds(ms) && strip_ws(s@) == #[trigger] list_json(ms))
                ==> if exists|j: int| is_active(ms, id as int, j) {
                r matches CompleteOutcome::Completed { text, contents: c } && exists|k: int, now: int|
                    is_active(ms, id as int, k) && (forall|j: int|
                        0 <= j < k ==> !is_active(ms, id as int, j)) && text@ == ms[k].text
                        && ts_in_range(now) && c@ == list_json(
                        ms.update(k, #[trigger] completed_model(ms[k], now)),
                    )
            } else {
                r is NotFound
            },
{
    let s = match contents {
        Some(s) => s,
        None => {
            return CompleteOutcome::NoStorage;
        },
    };
    let mut list = match parse_todo_list(s.as_str()) {
        Ok(l) => l,
        Err(_) => {
            return CompleteOutcome::Corrupt;
        },
    };
    let ghost ms0 = models_of(list@);
    let mut k: usize = 0;
    while k < list.len()
        invariant
            k <= list@.len(),
            ms0 == models_of(list@),
            ms0.len() == list@.len(),
            forall|j: int| 0 <= j < k ==> !is_active(ms0, id as int, j),
        decreases list@.len() - k,
    {
        proof {
            assert(ms0[k as int] == list@[k as int]@);
        }
        if list[k].id == id && !list[k].done {
            let now = now_epoch_secs();
            let found = list.remove(k);
            let ghost ms_removed = list@;
            let new_it = ToDoItem {
                id: found.id,
                text: found.text,
                done: true,
                created_date: found.created_date,
                completed_date: Some(now),
            };
            let text_copy = new_it.text.clone();
            list.insert(k, new_it);
            proof {
                assert(models_of(list@) =~= ms0.update(
                    k as int,
                    completed_model(ms0[k as int], now as int),
                ));
                assert(json_ok(s@));
            }
            let out = todo_list_to_json(&list);
            return CompleteOutcome::Completed { text: text_copy, contents: out };
        }
        k = k + 1;
    }
    proof {
        assert(json_ok(s@));
        assert(forall|j: int| !is_active(ms0, id as int, j));
    }
    CompleteOutcome::NotFound
}

/// Every line matches the corresponding visible item.
pub open spec fn lines_match(ms: Seq<ItemModel>, lines: Seq<String>, all: bool, verbose: bool) -> bool {
    &&& lines.len() == visible(ms, all).len()
    &&& forall|j: int|
        0 <= j < lines.len() ==> rendered(visible(ms, all)[j], (#[trigger] lines[j])@, verbose)
}

/// Renders the stored list, one line per visible item.
///
/// Reports the missing or unreadable storage file as such; otherwise one
/// line is returned for each stored item, in order, skipping the completed
/// ones unless `all` is set.
pub fn list_core(contents: &Option<String>, all: bool, verbose: bool) -> (r: ListOutcome)
    ensures
        contents is None <==> r is NoStorage,
        (contents matches Some(s) && !json_ok(s@)) <==> r is Corrupt,
        forall|ms: Seq<ItemModel>|
            (contents matches Some(s) && models_in_bounds(ms) && strip_ws(s@) == #[trigger] list_json(ms))
                ==> (r matches ListOutcome::Lines(v) && lines_match(ms, v@, all, verbose)),
{
    let s = match contents {
        Some(s) => s,
        None => {
            return ListOutcome::NoStorage;
        },
    };
    let list = match parse_todo_list(s.as_str()) {
        Ok(l) => l,
        Err(_) => {
            return ListOutcome::Corrupt;
        },
    };
    let ghost ms0 = models_of(list@);
    let mut lines: Vec<String> = Vec::new();
    let mut k: usize = 0;
    proof {
        assert(ms0.take(0) =~= Seq::<ItemModel>::empty());
    }
    while k < list.len()
        invariant
            k <= list@.len(),
            ms0 == models_of(list@),
            ms0.len() == list@.len(),
            models_in_bounds(ms0),
            lines@.len() == visible(ms0.take(k as int), all).len(),
            forall|j: int|
                0 <= j < lines@.len() ==> rendered(
                    visible(ms0.take(k as int), all)[j],
                    (#[trigger] lines@[j])@,
                    verbose,
                ),
        decreases list@.len() - k,
    {
        proof {
            assert(ms0[k as int] == list@[k as int]@);
            assert(model_in_bounds(ms0[k as int]));
            assert(ms0.take(k + 1) =~= ms0.take(k as int).push(ms0[k as int]));
            lemma_visible_push(ms0.take(k as int), ms0[k as int], all);
        }
        let it = &list[k];
        if all || !it.done {
            let line = it.to_string(verbose);
            lines.push(line);
            proof {
                let vis1 = visible(ms0.take(k + 1), all);
                assert(vis1[vis1.len() - 1] == ms0[k as int]);
                assert(forall|j: int|
                    0 <= j < vis1.len() - 1 ==> vis1[j] == #[trigger] visible(
                        ms0.take(k as int),
                        all,
                    )[j]);
            }
        } else {
            proof {
                assert(visible(ms0.take(k + 1), all) =~= visible(ms0.take(k as int), all));
            }
        }
        k = k + 1;
    }
    proof {
        assert(ms0.take(ms0.len() as int) =~= ms0);
        assert(json_ok(s@));
    }
    ListOutcome::Lines(lines)
}

} // verus!
