use fresh_gui_app::chrome::{theme_choice, ThemeChoice};

#[test]
fn configured_theme_modes_ignore_case_and_spaces() {
    assert_eq!(theme_choice("dark"), ThemeChoice::Dark);
    assert_eq!(theme_choice(" Light "), ThemeChoice::Light);
    assert_eq!(theme_choice("DARK"), ThemeChoice::Dark);
    assert_eq!(theme_choice("system"), ThemeChoice::System);
    assert_eq!(theme_choice(""), ThemeChoice::System);
    assert_eq!(theme_choice("solarized"), ThemeChoice::System);
}
