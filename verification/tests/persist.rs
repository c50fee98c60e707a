use clicky::persist::{
    decide_save_action, get_save_file_name_with_appropriate_extension, has_day_rolled_over,
    restored_time_today, time_since_midnight, SaveAction, TextGenerationSettings,
};
use clicky::timing::StopWatchReadout;

#[test]
fn save_data_format() {
    let settings = TextGenerationSettings {
        contains_numbers: false,
        contains_suffixes: true,
        contains_enclosers: false,
        contains_capital_letters: true,
    };
    assert_eq!(
        get_save_file_name_with_appropriate_extension(settings),
        "clicky_save_data_suf_cap.json"
    );
}

#[test]
fn file_names_list_the_kinds_switched_on() {
    let all = TextGenerationSettings::default();
    assert_eq!(
        get_save_file_name_with_appropriate_extension(all),
        "clicky_save_data_num_suf_enc_cap.json"
    );
    let none = TextGenerationSettings {
        contains_numbers: false,
        contains_suffixes: false,
        contains_enclosers: false,
        contains_capital_letters: false,
    };
    assert_eq!(get_save_file_name_with_appropriate_extension(none), "clicky_save_data.json");
    let some = TextGenerationSettings {
        contains_numbers: true,
        contains_suffixes: false,
        contains_enclosers: true,
        contains_capital_letters: false,
    };
    assert_eq!(get_save_file_name_with_appropriate_extension(some), "clicky_save_data_num_enc.json");
}

#[test]
fn default_settings_switch_everything_on() {
    let s = TextGenerationSettings::default();
    assert!(s.contains_numbers && s.contains_suffixes && s.contains_enclosers && s.contains_capital_letters);
}

#[test]
fn save_action_follows_the_dates() {
    assert_eq!(decide_save_action(100, 100, 100), SaveAction::OverwriteLastRecord);
    assert_eq!(decide_save_action(99, 100, 100), SaveAction::AppendRecord);
    assert_eq!(decide_save_action(99, 100, 99), SaveAction::AppendRecordForNewDay);
    assert_eq!(decide_save_action(100, 100, 99), SaveAction::AppendRecordForNewDay);
    assert!(has_day_rolled_over(99, 100));
    assert!(!has_day_rolled_over(100, 100));
}

#[test]
fn the_time_of_a_new_day_is_the_time_since_midnight() {
    let r = time_since_midnight(3_723);
    assert_eq!((r.hours(), r.minutes(), r.seconds(), r.milliseconds()), (1, 2, 3, 0));
}

#[test]
fn restored_time_is_kept_only_on_the_same_day() {
    let t = StopWatchReadout::from_millis(61_000);
    let r = restored_time_today(5, 5, t);
    assert_eq!(r.to_milliseconds(), 61_000);
    let r = restored_time_today(4, 5, t);
    assert_eq!(r.to_milliseconds(), 0);
}

#[test]
fn every_setting_has_a_save_file_of_its_own() {
    let mut names: Vec<String> = Vec::new();
    for bits in 0..16u8 {
        let settings = TextGenerationSettings {
            contains_numbers: bits & 1 != 0,
            contains_suffixes: bits & 2 != 0,
            contains_enclosers: bits & 4 != 0,
            contains_capital_letters: bits & 8 != 0,
        };
        let name = get_save_file_name_with_appropriate_extension(settings);
        assert_ne!(name, "clicky_temp_data.json");
        assert_ne!(name, "clicky_config.txt");
        assert!(!names.contains(&name), "{name}");
        names.push(name);
    }
    assert_eq!(names[0], "clicky_save_data.json");
    assert_eq!(names[15], "clicky_save_data_num_suf_enc_cap.json");
}
