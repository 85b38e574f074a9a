//! Engine for a constrained markdown dialect: parsing into a hierarchical
//! document tree and rendering that tree as minified HTML, together with the
//! pure pieces of the surrounding site machinery (URL path sanitizing, sitemap
//! footer generation, and the HTML document shell).

pub mod ast;
pub mod escape;
pub mod html_writer;
pub mod laws;
pub mod parse_spec;
pub mod parser;
pub mod router;
pub mod server;
pub mod text;
