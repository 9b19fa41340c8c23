use code_reader::ui::theme::{Rgb, Theme};

#[test]
fn default_theme_is_the_dark_one() {
    let theme = Theme::default();
    assert_eq!(theme.background_color, Rgb { r: 30, g: 30, b: 30 });
    assert_eq!(theme.text_color, Rgb { r: 220, g: 220, b: 220 });
    assert_eq!(theme.accent_color, Rgb { r: 75, g: 135, b: 220 });
    assert_eq!(theme.sidebar_background, Rgb { r: 37, g: 37, b: 38 });
    assert_eq!(theme.editor_background, Rgb { r: 30, g: 30, b: 30 });
}
