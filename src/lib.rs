//! Discovery of the forks of a hosted repository that are not yet remotes of a
//! local checkout, with default choices for which one to add and under what name.

pub mod error;
pub mod forks;
pub mod input_getter;
pub mod json;
pub mod local;
pub mod provider;
pub mod repo;
pub mod text;
pub mod url;
