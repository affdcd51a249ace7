use refer_lib::ui::{select_locale, toggled_theme};

#[test]
fn light_toggles_to_dark() {
    assert_eq!(toggled_theme("light"), "dark");
}

#[test]
fn dark_toggles_to_light() {
    assert_eq!(toggled_theme("dark"), "light");
}

#[test]
fn unrecognized_theme_toggles_to_light() {
    assert_eq!(toggled_theme("sepia"), "light");
}

fn locales(codes: &[&str]) -> Vec<String> {
    codes.iter().map(|c| c.to_string()).collect()
}

#[test]
fn stored_language_is_selected_when_offered() {
    let all = locales(&["en", "ru", "de"]);
    assert_eq!(select_locale(&all, "ru"), Some(1));
}

#[test]
fn unknown_language_falls_back_to_english() {
    let all = locales(&["ru", "en", "de"]);
    assert_eq!(select_locale(&all, "fr"), Some(1));
}

#[test]
fn without_english_the_first_locale_wins() {
    let all = locales(&["ru", "de"]);
    assert_eq!(select_locale(&all, "fr"), Some(0));
}

#[test]
fn empty_locale_list_selects_nothing() {
    let all: Vec<String> = Vec::new();
    assert_eq!(select_locale(&all, "en"), None);
}

#[test]
fn first_occurrence_is_chosen() {
    let all = locales(&["de", "ru", "ru"]);
    assert_eq!(select_locale(&all, "ru"), Some(1));
}
