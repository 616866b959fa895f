//! A board-description compiler: merges declarative board fragments into
//! one document, builds a validated board model from it, and renders build
//! artifacts for two embedded-firmware ecosystems.
//!
//! - `doc`: the declarative document tree and the fragment merger.
//! - `schema`: the merged document checked and turned into the typed model.
//! - `model`: the board model both backends read.
//! - `ariel`: the first backend — a board support package.
//! - `riot`: the second backend — a directory of headers and Makefiles
//!   per board.
//! - `krate`, `laze`: the generated package manifest and build description.
//! - `filemap`: the generated files, and the reconciler that maps them onto
//!   a destination.
//! - `pin`: the symbolic pin name parser.
//! - `kvmap`, `strutil`: sorted maps, sets and text underpinnings.

pub mod ariel;
pub mod doc;
pub mod filemap;
pub mod krate;
pub mod kvmap;
pub mod laze;
pub mod model;
pub mod pin;
pub mod riot;
pub mod schema;
pub mod strutil;
