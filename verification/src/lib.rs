pub mod cache;
pub mod commands;
pub mod filesystem;
pub mod hexcode;
pub mod ocr;
pub mod paths;
pub mod text;
pub mod ui;
pub mod video;
