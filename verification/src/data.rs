//! Plain records for the tabular film dataset that lives beside the
//! toolchain; reading the dataset's files is left to the surrounding program.
use vstd::prelude::*;

verus! {

/// One film: its identifier, its title, and its genre labels.
pub struct Movie {
    pub id: u32,
    pub title: String,
    pub genres: Vec<String>,
}

} // verus!
