pub mod config;
pub mod nvim;
pub mod popup_menu;
pub mod settings;
pub mod ui_model;
