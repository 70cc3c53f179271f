//! Choose-your-own-adventure books: the text formats of adventures and pages,
//! the dice expressions that drive their tests and conditions, and the rules
//! that move a player from page to page.

pub mod adventure;
pub mod dict;
pub mod editing;
pub mod evaluation;
pub mod game;
pub mod page_files;
pub mod keywords;
pub mod read_back;
pub mod tags;
pub mod text;
