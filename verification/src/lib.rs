//! Templates, feeds and page rendering for the renderling website.
use vstd::prelude::*;

pub mod text;
pub mod date;
pub mod feed;
pub mod html;
pub mod md;
pub mod site;
pub mod config;

pub use site::{Site, SiteError};

verus! {

} // verus!
