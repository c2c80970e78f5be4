pub mod chars;
pub mod digits;
pub mod escape;
pub mod json;
pub mod model;
pub mod ops;
pub mod parse;
pub mod render;
mod seqs;
pub mod spaces;

pub use json::todo_list_to_json;
pub use model::TS_MAX;
pub use model::TS_MIN;
pub use model::ToDoItem;
pub use ops::CompleteOutcome;
pub use ops::ListOutcome;
pub use ops::NewOutcome;
pub use ops::complete_core;
pub use ops::list_core;
pub use ops::new_core;
pub use parse::ParseError;
pub use parse::parse_todo_list;
