use retained_ui::ctx::Ctx;
use retained_ui::fonts::{to_wide_name, FontFamilyId, Fonts, DEFAULT_FAMILY};

#[test]
fn query_registers_once() {
    let mut fonts = Fonts::new();
    assert_eq!(fonts.query("Roboto", true), Some(FontFamilyId(0)));
    assert_eq!(fonts.query("Arial", true), Some(FontFamilyId(1)));
    assert_eq!(fonts.query("Roboto", false), Some(FontFamilyId(0)));
    assert_eq!(fonts.query("Missing", false), None);
    assert_eq!(fonts.find("Missing"), None);
    assert_eq!(fonts.find("Arial"), Some(FontFamilyId(1)));
}

#[test]
fn wide_name_is_terminated() {
    let mut fonts = Fonts::new();
    let id = fonts.query("Ab", true).unwrap();
    assert_eq!(fonts.font_name_utf16(id), &vec![0x41u16, 0x62, 0]);
    assert_eq!(fonts.font_data(id).name_utf8, "Ab");
    assert_eq!(to_wide_name("é😀"), vec![0xE9u16, 0xD83D, 0xDE00, 0]);
}

#[test]
fn ctx_starts_with_default_family() {
    let mut ctx = Ctx::new();
    assert_eq!(FontFamilyId::default(), FontFamilyId(DEFAULT_FAMILY));
    assert_eq!(ctx.font_query("Tahoma", false), Some(FontFamilyId(DEFAULT_FAMILY)));
    assert_eq!(ctx.font_query("Roboto", true), Some(FontFamilyId(1)));
}
