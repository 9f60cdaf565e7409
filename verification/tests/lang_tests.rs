use classic_games_collection::lang::{fmt, lang_from_locale, lang_of_lowercase, ui, Lang};

#[test]
fn detect_lang() {
    assert_eq!(lang_from_locale("zh_CN.UTF-8"), Lang::Zh);
    assert_eq!(lang_from_locale("zh_TW.UTF-8"), Lang::Zh);
    assert_eq!(lang_from_locale("en_US.UTF-8"), Lang::En);
    assert_eq!(lang_from_locale("C"), Lang::En);
}

#[test]
fn ui_tables_consistent() {
    assert_eq!(ui(Lang::Zh).best_fmt.matches("{}").count(), 2);
    assert_eq!(ui(Lang::En).best_fmt.matches("{}").count(), 2);
    assert_eq!(ui(Lang::Zh).record_fmt.matches("{}").count(), 3);
    assert_eq!(ui(Lang::En).record_fmt.matches("{}").count(), 3);
}

#[test]
fn locale_case_does_not_matter() {
    assert_eq!(lang_from_locale("ZH_cn"), Lang::Zh);
    assert_eq!(lang_of_lowercase("xzh"), Lang::Zh);
    assert_eq!(lang_of_lowercase("z_h"), Lang::En);
    assert_eq!(lang_of_lowercase(""), Lang::En);
}

#[test]
fn fmt_fills_in_order() {
    let args = vec!["100".to_string(), "bob".to_string()];
    assert_eq!(fmt("Best {} ({})", &args), "Best 100 (bob)");
    assert_eq!(fmt("{}-{}-{}", &args), "100-bob-");
    assert_eq!(fmt("no holes", &args), "no holes");
    assert_eq!(fmt("{{}}", &args), "{100}");
    assert_eq!(fmt("{", &args), "{");
}

#[test]
fn tables_pick_language() {
    assert_eq!(ui(Lang::En).quit, "Quit");
    assert_eq!(ui(Lang::Zh).quit, "退出");
    assert_eq!(ui(Lang::En).gomoku_help.len(), 3);
    assert_eq!(ui(Lang::Zh).tetris_help[4], "ESC/Q      暂停");
}

#[test]
fn arguments_past_the_last_placeholder_are_unused() {
    let args = vec!["x".to_string(), "y".to_string(), "z".to_string()];
    assert_eq!(fmt("a{}b", &args), "axb");
    assert_eq!(fmt("{}{}", &args), "xy");
}
