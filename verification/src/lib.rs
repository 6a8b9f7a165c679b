pub mod app;
pub mod background;
pub mod format;
pub mod system;
pub mod text;
