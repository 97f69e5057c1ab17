//! An interactive input-acquisition library: prompt-and-validate primitives
//! that parse typed values (strings, numbers, booleans, delimited lists,
//! bounded choices, email addresses) out of lines of user input.
//!
//! The primitives here are pure: each takes the successive lines a user would
//! type and returns the first value that validates, or `None` when the lines
//! run out (the interactive front end then keeps asking). A terminal front
//! end drives them one line at a time.

pub mod email;
pub mod engine;
pub mod laws;
pub mod numbers;
pub mod parse;
pub mod text;

pub use email::get_email;
pub use engine::choice_prompt;
pub use engine::get_bool;
pub use engine::get_choice;
pub use engine::get_input;
pub use engine::get_list;
pub use engine::get_separator;
pub use parse::Parseable;
