//! An in-memory todo list: items are appended with monotonically increasing
//! identifiers, marked done by identifier, and retrieved by a fuzzy search
//! that matches search words and tags as subsequences of the stored text.

pub mod matching;
pub mod text;
pub mod todo_list;

pub use text::Description;
pub use text::Index;
pub use text::SearchWord;
pub use text::Tag;
pub use todo_list::SearchParams;
pub use todo_list::TodoItem;
pub use todo_list::TodoList;
