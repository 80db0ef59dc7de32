use neovim_gtk_ui::config::AppConfig;
use neovim_gtk_ui::settings::{FontAction, FontSource, State};

#[test]
fn new_state_has_the_default_font_source() {
    let state = State::new();
    assert!(state.font_source == FontSource::Default);
}

#[test]
fn config_font_wins_at_start_up() {
    let mut state = State::new();
    assert!(state.init(Some("Monospace 12")) == FontAction::UseConfigFont);
    assert!(state.font_source == FontSource::Config);
    // A later GNOME change leaves the config font alone.
    assert!(!state.monospace_font_changed());
    assert!(state.font_source == FontSource::Config);
}

#[test]
fn without_config_font_the_gnome_font_is_followed() {
    let mut state = State::new();
    assert!(state.init(None) == FontAction::UseGnomeFont);
    assert!(state.font_source == FontSource::Gnome);
    assert!(state.monospace_font_changed());
    assert!(state.font_source == FontSource::Gnome);
}

#[test]
fn rpc_font_survives_gnome_changes() {
    let mut state = State::new();
    state.set_font_source(FontSource::Rpc);
    assert!(state.init(None) == FontAction::Keep);
    for _ in 0..5 {
        assert!(!state.monospace_font_changed());
        assert!(state.font_source == FontSource::Rpc);
    }
}

#[test]
fn update_font_respects_pinned_sources() {
    let mut state = State::new();
    state.set_font_source(FontSource::Config);
    assert!(!state.update_font());
    assert!(state.font_source == FontSource::Config);
    state.set_font_source(FontSource::Default);
    assert!(state.update_font());
    assert!(state.font_source == FontSource::Gnome);
}

#[test]
fn app_config_defaults() {
    let config = AppConfig::default();
    assert!(config.prefer_dark_theme);
    assert!(config.show_header_bar);
    assert!(config.window_decorations);
    assert!(config.font.is_none());
}
