//! Prompt settings, the names of the files that sessions are saved to, and
//! the rules that decide how a finished session is merged into the saved
//! records and what is restored from them.
use vstd::prelude::*;
use crate::timing::{StopWatchReadout, split_millis};

verus! {

/// Which kinds of characters a generated prompt may hold besides words.
#[derive(Debug, Clone, Copy, PartialEq, Eq, Structural)]
pub struct TextGenerationSettings {
    /// Runs of digits.
    pub contains_numbers: bool,
    /// Punctuation after words: `.`, `,`, `;`, `?`, `!`.
    pub contains_suffixes: bool,
    /// Bracket pairs and quotes around parts of the text.
    pub contains_enclosers: bool,
    /// A capital at the start and after each full stop.
    pub contains_capital_letters: bool,
}

impl TextGenerationSettings {
    /// Every kind of character switched on.
    pub fn default() -> (s: Self)
        ensures
            s.contains_numbers,
            s.contains_suffixes,
            s.contains_enclosers,
            s.contains_capital_letters,
    {
        Self {
            contains_numbers: true,
            contains_suffixes: true,
            contains_enclosers: true,
            contains_capital_letters: true,
        }
    }
}

/// `s` when `b` holds, else nothing.
pub open spec fn part_if(b: bool, s: Seq<char>) -> Seq<char> {
    if b {
        s
    } else {
        Seq::empty()
    }
}

/// The save file name for `settings`: `clicky_save_data`, then `_num`,
/// `_suf`, `_enc` and `_cap` for the kinds switched on, in that order, then
/// `.json`.
pub open spec fn save_file_name(settings: TextGenerationSettings) -> Seq<char> {
    "clicky_save_data"@ + part_if(settings.contains_numbers, "_num"@) + part_if(
        settings.contains_suffixes,
        "_suf"@,
    ) + part_if(settings.contains_enclosers, "_enc"@) + part_if(
        settings.contains_capital_letters,
        "_cap"@,
    ) + ".json"@
}

/// The name of the file that records sessions typed with `text_generation_settings`.
pub fn get_save_file_name_with_appropriate_extension(
    text_generation_settings: TextGenerationSettings,
) -> (file_name: String)
    ensures
        file_name@ == save_file_name(text_generation_settings),
{
    let mut file_name = String::from_str("clicky_save_data");
    if text_generation_settings.contains_numbers {
        file_name.append("_num");
    }
    if text_generation_settings.contains_suffixes {
        file_name.append("_suf");
    }
    if text_generation_settings.contains_enclosers {
        file_name.append("_enc");
    }
    if text_generation_settings.contains_capital_letters {
        file_name.append("_cap");
    }
    file_name.append(".json");
    assert(file_name@ =~= save_file_name(text_generation_settings));
    file_name
}

/// The settings that a save file name was made with, read back from the
/// second character of each part after `clicky_save_data`.
pub open spec fn settings_from_name(n: Seq<char>) -> TextGenerationSettings {
    let num = n[17] == 'n';
    let p1: int = if num {
        20
    } else {
        16
    };
    let suf = n[p1 + 1] == 's';
    let p2: int = if suf {
        p1 + 4
    } else {
        p1
    };
    let enc = n[p2 + 1] == 'e';
    let p3: int = if enc {
        p2 + 4
    } else {
        p2
    };
    let cap = n[p3 + 1] == 'c';
    TextGenerationSettings {
        contains_numbers: num,
        contains_suffixes: suf,
        contains_enclosers: enc,
        contains_capital_letters: cap,
    }
}

/// Each of the sixteen settings has a save file of its own, and none of them
/// is the session's temporary file `clicky_temp_data.json` or the settings
/// file `clicky_config.txt`.
pub proof fn law_save_file_names_distinct(s1: TextGenerationSettings, s2: TextGenerationSettings)
    ensures
        save_file_name(s1) == save_file_name(s2) <==> s1 == s2,
        save_file_name(s1) != "clicky_temp_data.json"@,
        save_file_name(s1) != "clicky_config.txt"@,
{
    reveal_strlit("clicky_save_data");
    reveal_strlit("_num");
    reveal_strlit("_suf");
    reveal_strlit("_enc");
    reveal_strlit("_cap");
    reveal_strlit(".json");
    reveal_strlit("clicky_temp_data.json");
    reveal_strlit("clicky_config.txt");
    assert(settings_from_name(save_file_name(s1)) == s1);
    assert(settings_from_name(save_file_name(s2)) == s2);
    let n = save_file_name(s1);
    assert(n.len() >= 21);
    assert(n[7] == 's');
    assert("clicky_temp_data.json"@[7] == 't');
    assert("clicky_config.txt"@.len() == 17);
}

/// Whether the day has changed since the session started (days are counted
/// from a fixed epoch, for instance by `NaiveDate::num_days_from_ce`).
pub fn has_day_rolled_over(date_at_start_of_session: i32, today: i32) -> (rolled: bool)
    ensures
        rolled == (date_at_start_of_session != today),
{
    date_at_start_of_session != today
}

/// How a finished session is merged into the saved records.
#[derive(Debug, Clone, Copy, PartialEq, Eq, Structural)]
pub enum SaveAction {
    /// Overwrite the last record, which is of today: its time, and each
    /// speed that is not zero.
    OverwriteLastRecord,
    /// The day changed during the session: append a record dated today
    /// whose time is the time since midnight.
    AppendRecordForNewDay,
    /// Append the session's record as it is.
    AppendRecord,
}

/// The action for saving a session that started on `date_at_start_of_session`
/// when the last saved record is dated `last_record_date` and it is now
/// `today`.
pub open spec fn save_action(last_record_date: i32, today: i32, date_at_start_of_session: i32) -> SaveAction {
    if last_record_date == today && date_at_start_of_session == today {
        SaveAction::OverwriteLastRecord
    } else if date_at_start_of_session != today {
        SaveAction::AppendRecordForNewDay
    } else {
        SaveAction::AppendRecord
    }
}

/// Decides how a finished session is merged into saved records that end
/// with a record dated `last_record_date`: a session of the same day as the
/// last record overwrites it; a session that ran past midnight starts a
/// record for the new day; any other is appended.
pub fn decide_save_action(
    last_record_date: i32,
    today: i32,
    date_at_start_of_session: i32,
) -> (action: SaveAction)
    ensures
        action == save_action(last_record_date, today, date_at_start_of_session),
{
    if last_record_date == today && !has_day_rolled_over(date_at_start_of_session, today) {
        SaveAction::OverwriteLastRecord
    } else if has_day_rolled_over(date_at_start_of_session, today) {
        SaveAction::AppendRecordForNewDay
    } else {
        SaveAction::AppendRecord
    }
}

/// The time recorded for a new day that began during a session: the time
/// since midnight, to the second.
pub fn time_since_midnight(seconds_from_midnight: u32) -> (r: StopWatchReadout)
    ensures
        r@ == split_millis(seconds_from_midnight as nat * 1000),
{
    StopWatchReadout::from_millis(seconds_from_midnight as u128 * 1000)
}

/// The time typed today that a session restores from the last saved record:
/// the record's time when the record is of today, else none.
pub fn restored_time_today(
    last_record_date: i32,
    today: i32,
    last_record_time: StopWatchReadout,
) -> (r: StopWatchReadout)
    ensures
        last_record_date == today ==> r@ == last_record_time@,
        last_record_date != today ==> r@ == (0u128, 0u128, 0u128, 0u128),
{
    if last_record_date == today {
        last_record_time
    } else {
        StopWatchReadout::new()
    }
}

/// A save overwrites the last record only when that record is of today
/// and the session began today; a session that ran past midnight always
/// starts a record of its own.
pub proof fn law_overwrite_only_today(last_record_date: i32, today: i32, date_at_start_of_session: i32)
    ensures
        save_action(last_record_date, today, date_at_start_of_session)
            == SaveAction::OverwriteLastRecord ==> last_record_date == today
            && date_at_start_of_session == today,
        date_at_start_of_session != today ==> save_action(
            last_record_date,
            today,
            date_at_start_of_session,
        ) == SaveAction::AppendRecordForNewDay,
{
}

} // verus!
