//! Path comments for source files: the first line of a file names the
//! file's path, behind the comment prefix that belongs to its extension.
//!
//! [`annotate::annotate`] decides, from the text of a file, whether the
//! file already begins with its comment line and what is to be written if
//! it does not. Reading and writing files is left to the caller.
pub mod annotate;
pub mod lines;
pub mod path;
pub mod style;
pub mod text;
