# neovim-gtk-ui

The model behind a GTK front end for Neovim, verified with Verus.

`src/` is the library, and every function in it carries a contract that
Verus proves:

- `ui_model` holds the grid that Neovim draws into. It covers the lines and
  cells, the dirty ranges and how they widen to whole shaping items, ASCII
  words and double-width characters, scrolling and resizing, the styled text
  of a line with its style runs, and how shaped items are bound to cells.
- `nvim::handler` routes Neovim's notifications and requests, coalesces
  redraw batches until the GTK idle callback takes them, and decodes a batch
  into handler calls.
- `settings` tracks where the editor font comes from. A font set over RPC or
  in `config.toml` wins over the GNOME monospace font.
- `config` holds the settings of `config.toml`, with their defaults.
- `popup_menu` holds handles to completion entries that always point at an
  existing entry.

A style run takes its colours from the cell's own highlight. No highlight
map stands between them, so no default colours are filled in and no reverse
video is applied when the styled text is built.

Public `law_*` proof functions state properties that span several calls,
such as a scroll followed by the opposite scroll, or resizing twice.

`app/` is ordinary Rust that Verus does not see. It covers GTK, GIO and Pango,
the TOML file on disk, and the Neovim RPC handler. It makes the outside calls
and leaves the decisions to the library. `tokio` is a dependency only so that
`app/` can name the writer type of the Neovim RPC handler.
