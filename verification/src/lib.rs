//! Reading of Bruker Nanoscope `.001` force-profile files.

pub mod channel;
pub mod io;
pub mod lines;
pub mod metadata;
pub mod numbers;
pub mod pattern;
pub mod sections;
pub mod text;

pub use io::NanoscopeFile;
