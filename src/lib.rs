//! Repository scanning core: file discovery filtering, language tallying,
//! dominant-language selection and file-subset selection.

pub mod api;
pub mod cmd;
pub mod dirs;
pub mod guesslang;
