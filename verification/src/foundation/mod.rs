pub mod dirs;
pub mod disk;
pub mod fmt;
pub mod names;
pub mod path;
pub mod text;
pub mod thread;
pub mod time;
