//! Verified core of a web gateway to an accounting back office: session
//! bookkeeping, parsing of search strings and person names, reading the
//! back office's HTML pages, and the paging decisions of its handlers.

pub mod api;
pub mod assoc;
pub mod html;
pub mod socket;
pub mod text;
