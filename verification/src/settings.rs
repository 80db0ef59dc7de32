use vstd::prelude::*;

verus! {

/// Where the editor font currently comes from.
#[derive(PartialEq, Eq, Structural)]
pub enum FontSource {
    Rpc,
    Config,
    Gnome,
    Default,
}

/// A font set over RPC or in `config.toml` takes priority over the GNOME
/// monospace font.
pub open spec fn pinned(src: FontSource) -> bool {
    src == FontSource::Rpc || src == FontSource::Config
}

/// The font source after the GNOME monospace font changed.
pub open spec fn after_gnome_change(src: FontSource) -> FontSource {
    if pinned(src) { src } else { FontSource::Gnome }
}

/// The font source after `n` changes of the GNOME monospace font.
pub open spec fn after_gnome_changes(src: FontSource, n: nat) -> FontSource
    decreases n,
{
    if n == 0 { src } else { after_gnome_change(after_gnome_changes(src, (n - 1) as nat)) }
}

/// A font set over RPC or in `config.toml` survives any number of GNOME font
/// changes; otherwise the GNOME font takes over at the first change and stays.
pub proof fn law_pinned_font_survives(src: FontSource, n: nat)
    ensures
        pinned(src) ==> after_gnome_changes(src, n) == src,
        !pinned(src) && n > 0 ==> after_gnome_changes(src, n) == FontSource::Gnome,
    decreases n,
{
    if n > 0 {
        law_pinned_font_survives(src, (n - 1) as nat);
    }
}

/// What the caller must do to the shell's font.
#[derive(PartialEq, Eq, Structural)]
pub enum FontAction {
    /// Use the font from `config.toml`.
    UseConfigFont,
    /// Use the GNOME monospace font.
    UseGnomeFont,
    /// Leave the font alone.
    Keep,
}

/// The font-source state behind the settings: which source set the font.
pub struct State {
    pub font_source: FontSource,
}

impl State {
    pub fn new() -> (s: State)
        ensures
            s.font_source == FontSource::Default,
    {
        State { font_source: FontSource::Default }
    }

    /// Follows the GNOME font unless the font is pinned by RPC or the config.
    /// Returns whether the GNOME font must be applied.
    pub fn update_font(&mut self) -> (apply: bool)
        ensures
            apply == !pinned(old(self).font_source),
            apply ==> final(self).font_source == FontSource::Gnome,
            !apply ==> final(self).font_source == old(self).font_source,
    {
        if self.font_source == FontSource::Rpc || self.font_source == FontSource::Config {
            return false;
        }
        self.font_source = FontSource::Gnome;
        true
    }

    /// Start-up: a font from `config.toml` wins; without one the GNOME font is
    /// followed unless something already pinned the font.
    pub fn init(&mut self, config_font: Option<&str>) -> (action: FontAction)
        ensures
            config_font is Some ==> action == FontAction::UseConfigFont && final(self).font_source == FontSource::Config,
            config_font is None && pinned(old(self).font_source) ==> action == FontAction::Keep
                && final(self).font_source == old(self).font_source,
            config_font is None && !pinned(old(self).font_source) ==> action == FontAction::UseGnomeFont
                && final(self).font_source == FontSource::Gnome,
    {
        match config_font {
            Some(_) => {
                self.font_source = FontSource::Config;
                FontAction::UseConfigFont
            },
            None => {
                if self.update_font() {
                    FontAction::UseGnomeFont
                } else {
                    FontAction::Keep
                }
            },
        }
    }

    /// The GNOME monospace font changed; returns whether to apply it.
    pub fn monospace_font_changed(&mut self) -> (apply: bool)
        ensures
            apply == !pinned(old(self).font_source),
            final(self).font_source == after_gnome_change(old(self).font_source),
    {
        if !(self.font_source == FontSource::Rpc || self.font_source == FontSource::Config) {
            self.update_font()
        } else {
            false
        }
    }

    pub fn set_font_source(&mut self, src: FontSource)
        ensures
            final(self).font_source == src,
    {
        self.font_source = src;
    }
}

} // verus!
