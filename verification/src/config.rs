use vstd::prelude::*;

verus! {

/// User-facing app settings, as read from `config.toml`.
pub struct AppConfig {
    pub prefer_dark_theme: bool,
    pub show_header_bar: bool,
    pub window_decorations: bool,
    pub font: Option<String>,
}

impl AppConfig {
    /// The documented defaults: dark theme, header bar and window decorations
    /// on, and no font of its own (the GNOME monospace font is followed).
    pub open spec fn is_default(&self) -> bool {
        &&& self.prefer_dark_theme
        &&& self.show_header_bar
        &&& self.window_decorations
        &&& self.font is None
    }
}

impl Default for AppConfig {
    fn default() -> (c: AppConfig)
        ensures
            c.is_default(),
    {
        AppConfig { prefer_dark_theme: true, show_header_bar: true, window_decorations: true, font: None }
    }
}

} // verus!
