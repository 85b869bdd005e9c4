# fresh-gui-app

The decisions of the fresh-gui desktop host, as a Verus library with proved
contracts, and the command-line program around it.

`src/` is the library. Every function there is verified by Verus against its
`requires`/`ensures`; the calls into std and outside crates that Verus
cannot read are wrappers whose `requires`/`ensures` Verus takes on trust, each
with a doc comment naming the outside function it calls.

| module | what it decides |
| --- | --- |
| `text`, `strs` | character-sequence helpers and their specifications |
| `connect`, `osc7`, `paths` | backend URLs and tokens, shell working-directory reports, daemon path syntax |
| `launch`, `cli` | what `fresh-gui [TARGET]` opens, the daemon search order and session steps, argument checks |
| `explorer`, `listing`, `file_icons` | explorer selection, drag and paste sources, cached listings, row glyphs |
| `rail`, `tab_chrome`, `panels`, `chrome` | workspace rail text, tab close scopes and menus, tab labels, theme mode |
| `restore`, `workspace` | restoring and saving a workspace's tabs, split layouts, PTY output batching |
| `terminal`, `pointer` | the terminal screen (`TermScreen`: PTY bytes parsed by `alacritty_terminal`, replies, OSC 52 copies, rows as spans, selection, cursor), key and mouse encoding, key chords, pointer selection and wheel, paste framing, palette colors, grid spans, box drawing |
| `markdown`, `preview`, `editor`, `log_highlight` | markdown inline parsing and preview blocks, editor links and languages, log token styles |
| `diff`, `git_tree` | the split diff view, the source-control tree and its path index |
| `shortkeys`, `copilot`, `ade`, `icon` | config shortkeys, Copilot CLI replies, backend requests, the launcher entry |
| `host`, `client_config` | how the window reacts to each daemon event (status line, restore sequencing, request bookkeeping), the local `ui` settings overlay and the client config text it comes from |

Laws that relate several functions are public proof functions, for example
`diff::diff_script_is_complete_and_longest`,
`restore::restore_accounts_for_live_ptys`,
`workspace::saved_tabs_are_distinct`,
`osc7::split_osc7_report_matches_one_chunk`,
`diff::split_rows_show_both_texts`,
`diff::changed_rows_show_different_lines`,
`host::explorer_and_git_follow_a_moved_root` and
`terminal::spans_preserve_grid_columns`.

`tests/` exercises the library from outside. `app/` is the `fresh-gui`
binary: argument parsing, logging, the daemon's processes and files, and
the floating-point contrast adjustment of terminal colors, and reading the
local client config file.
The window itself needs the GPUI host and the fresh-gui protocol client,
which this workspace does not contain; `app/host.rs` says so at the points
where the program would hand over to them.
