//! Verified core of the fresh-gui desktop host: connect-string parsing,
//! path display rules, explorer selection, terminal input encoding and
//! the other decisions the window makes.

pub mod text;
pub mod escapes;
pub mod connect;
pub mod osc7;
pub mod paths;
pub mod rail;
pub mod strs;
pub mod explorer;
pub mod tab_chrome;
pub mod terminal;
pub mod launch;
pub mod restore;
pub mod icon;
pub mod ade;
pub mod markdown;
pub mod diff;
pub mod editor;
pub mod log_highlight;
pub mod listing;
pub mod cli;
pub mod shortkeys;
pub mod file_icons;
pub mod copilot;
pub mod workspace;
pub mod git_tree;
pub mod panels;
pub mod chrome;
pub mod pointer;
pub mod preview;
pub mod host;
pub mod client_config;
