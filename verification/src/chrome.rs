//! Window chrome settings that are not pixel arithmetic: which theme a
//! configured mode selects.

use vstd::prelude::*;

use crate::text::{chars_of, eq_chars, lower_ascii, lower_chars, trim, trim_str};

verus! {

/// The theme the window follows.
#[derive(Clone, Copy, Debug, PartialEq, Eq, Structural)]
pub enum ThemeChoice {
    Dark,
    Light,
    /// Follow the operating system's appearance.
    System,
}

/// A configured `theme` value, trimmed and compared without ASCII case:
/// `dark` and `light` pick that theme; anything else follows the system.
pub open spec fn theme_choice_spec(mode: Seq<char>) -> ThemeChoice {
    let m = lower_ascii(trim(mode));
    if m == "dark"@ {
        ThemeChoice::Dark
    } else if m == "light"@ {
        ThemeChoice::Light
    } else {
        ThemeChoice::System
    }
}

pub fn theme_choice(mode: &str) -> (r: ThemeChoice)
    ensures
        r == theme_choice_spec(mode@),
{
    let m = lower_chars(&trim_str(mode));
    if eq_chars(&m, &chars_of("dark")) {
        ThemeChoice::Dark
    } else if eq_chars(&m, &chars_of("light")) {
        ThemeChoice::Light
    } else {
        ThemeChoice::System
    }
}

} // verus!
