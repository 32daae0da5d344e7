pub mod directory_listing;
pub mod file_selection;
pub mod language_detection;
pub mod scribe;
pub mod util;
