//! A static-site-generation library: it turns an ordered ledger of walked
//! directory entries and rendered markup documents into final HTML pages,
//! rewriting intra-site links and injecting a per-page table of contents.

pub mod errors;
pub mod ledger;
pub mod links;
pub mod toc;
pub mod paths;
pub mod site;
pub mod templates;
pub mod text;
