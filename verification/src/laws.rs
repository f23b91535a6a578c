//! Laws of the whole: what each operation is for, said of its inputs and its results.

pub mod building;
pub mod carrying;
pub mod changes;
pub mod edits;
pub mod inheritance;
pub mod profiles;
pub mod reading;
pub mod requests;
pub mod saying;
pub mod steps;
pub mod telling;
pub mod texts;
pub mod values;
