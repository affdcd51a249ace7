use refer_lib::settings::{resolve_settings, SettingsStore};

#[test]
fn default_settings_are_light_english() {
    let s = SettingsStore::default();
    assert_eq!(s.theme, "light");
    assert_eq!(s.language, "en");
}

#[test]
fn missing_fields_fall_back_to_defaults() {
    let s = resolve_settings(None, None);
    assert_eq!(s.theme, "light");
    assert_eq!(s.language, "en");
}

#[test]
fn stored_fields_are_kept() {
    let s = resolve_settings(Some("dark".to_string()), Some("ru".to_string()));
    assert_eq!(s.theme, "dark");
    assert_eq!(s.language, "ru");
}

#[test]
fn fields_fall_back_one_by_one() {
    let s = resolve_settings(Some("dark".to_string()), None);
    assert_eq!(s.theme, "dark");
    assert_eq!(s.language, "en");
    let t = resolve_settings(None, Some("de".to_string()));
    assert_eq!(t.theme, "light");
    assert_eq!(t.language, "de");
}
