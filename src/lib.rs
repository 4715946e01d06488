pub mod divide;
pub mod docs;
pub mod engine;
pub mod forest;
pub mod history;
pub mod keymap;
pub mod language;
pub mod location;
pub mod pane;
pub mod runtime;
pub mod style;
pub mod text;
