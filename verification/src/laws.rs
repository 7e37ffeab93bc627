//! What holds of the library as a whole.

pub mod appends;
pub mod cuts;
pub mod edits;
pub mod formatting;
pub mod locality;
pub mod matches;
pub mod messages;
pub mod outcomes;
pub mod rows;
pub mod spans;
pub mod stored;
pub mod tables;
pub mod threads;
pub mod values;
pub mod wording;
pub mod writes;
