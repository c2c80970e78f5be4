use vstd::prelude::*;

verus! {

/// Earliest timestamp (Unix epoch seconds) the library accepts in an item.
/// One day above the smallest second that a `chrono` UTC datetime can hold,
/// so that converting to any local time zone stays representable.
pub const TS_MIN: i64 = -8334601142400;

/// Latest timestamp (Unix epoch seconds) the library accepts in an item.
/// One day below the largest second that a `chrono` UTC datetime can hold.
pub const TS_MAX: i64 = 8210266790399;

pub open spec fn ts_in_range(t: int) -> bool {
    TS_MIN <= t <= TS_MAX
}

/// Mathematical model of one todo entry: the id as an unbounded integer,
/// the text as a sequence of characters, the completion flag, and the two
/// timestamps in Unix epoch seconds.
pub ghost struct ItemModel {
    pub id: int,
    pub text: Seq<char>,
    pub done: bool,
    pub created_date: int,
    pub completed_date: Option<int>,
}

impl ItemModel {
    /// The completion timestamp is present exactly when the item is done.
    pub open spec fn wf(self) -> bool {
        self.done <==> self.completed_date is Some
    }
}

/// One entry of the todo list.
pub struct ToDoItem {
    /// Id of the item, used to pick which item to complete.
    pub id: i32,
    /// Text describing the thing to do.
    pub text: String,
    /// Whether the item has been completed.
    pub done: bool,
    /// When the item was added, in Unix epoch seconds.
    pub created_date: i64,
    /// When the item was completed, in Unix epoch seconds.
    /// `Some` exactly once the item transitions to done.
    pub completed_date: Option<i64>,
}

impl View for ToDoItem {
    type V = ItemModel;

    open spec fn view(&self) -> ItemModel {
        ItemModel {
            id: self.id as int,
            text: self.text@,
            done: self.done,
            created_date: self.created_date as int,
            completed_date: match self.completed_date {
                Some(t) => Some(t as int),
                None => None,
            },
        }
    }
}

impl Clone for ToDoItem {
    fn clone(&self) -> (r: Self)
        ensures
            r@ == self@,
    {
        ToDoItem {
            id: self.id,
            text: self.text.clone(),
            done: self.done,
            created_date: self.created_date,
            completed_date: self.completed_date,
        }
    }
}

impl ToDoItem {
    /// Both timestamps lie in the range the storage format accepts.
    pub open spec fn dates_in_range(self) -> bool {
        &&& ts_in_range(self@.created_date)
        &&& match self@.completed_date {
            Some(t) => ts_in_range(t),
            None => true,
        }
    }
}

/// Bounds that every stored item satisfies: the id fits an `i32` and the
/// timestamps lie in the accepted range.
pub open spec fn model_in_bounds(m: ItemModel) -> bool {
    &&& i32::MIN <= m.id <= i32::MAX
    &&& ts_in_range(m.created_date)
    &&& match m.completed_date {
        Some(t) => ts_in_range(t),
        None => true,
    }
}

pub open spec fn models_in_bounds(ms: Seq<ItemModel>) -> bool {
    forall|i: int| 0 <= i < ms.len() ==> model_in_bounds(#[trigger] ms[i])
}

/// The models of a sequence of items.
pub open spec fn models_of(l: Seq<ToDoItem>) -> Seq<ItemModel> {
    l.map_values(|it: ToDoItem| it@)
}

} // verus!
