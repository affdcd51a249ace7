use vstd::prelude::*;
use vstd::string::StringExecFns;

verus! {

/// A theme and interface-language pair, as persisted by the settings store.
pub struct SettingsStore {
    pub theme: String,
    pub language: String,
}

impl Default for SettingsStore {
    /// The settings used when nothing was stored yet: light theme, English.
    fn default() -> (r: Self)
        ensures
            r.theme@ == "light"@,
            r.language@ == "en"@,
    {
        SettingsStore { theme: String::from_str("light"), language: String::from_str("en") }
    }
}

/// Settings read back from storage, with each missing or unreadable field
/// replaced by its default: `"light"` for the theme, `"en"` for the language.
pub fn resolve_settings(theme: Option<String>, language: Option<String>) -> (r: SettingsStore)
    ensures
        r.theme@ == (match theme {
            Some(t) => t@,
            None => "light"@,
        }),
        r.language@ == (match language {
            Some(l) => l@,
            None => "en"@,
        }),
{
    let theme = match theme {
        Some(t) => t,
        None => String::from_str("light"),
    };
    let language = match language {
        Some(l) => l,
        None => String::from_str("en"),
    };
    SettingsStore { theme, language }
}

} // verus!
