//! A read-it-later link tracker: links with comments and tags, a queue of
//! links to read, and an archive of links that were read.

pub mod datamodel;
pub mod laws;
pub mod model;
