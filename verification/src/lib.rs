pub mod api;
pub mod decks;
pub mod filter;
pub mod known;
pub mod note;
pub mod parse_file;
pub mod scanner;
pub mod sync;
pub mod template;
pub mod text;
pub mod watch;

pub use note::Note;
