use clicky::persist::TextGenerationSettings;
use clicky::prng::Lcrng;
use clicky::text_gen::{capitalised_word, generate_typing_prompt, get_word_at, WordTable};

const DATASET_TOTAL_CF: u64 = 114_000_000;

/// A small table holding the entries that the lookups below expect.
fn word_table() -> WordTable {
    let entries: Vec<(String, u64, u64)> = vec![
        ("the".to_string(), DATASET_TOTAL_CF, 113_998_149),
        ("football".to_string(), 113_998_149, 113_930_514),
        ("of".to_string(), 113_930_514, 961_416),
        ("gentle".to_string(), 961_416, 945_551),
        ("and".to_string(), 945_551, 15_000),
        ("bits".to_string(), 15_000, 0),
    ];
    WordTable::new(entries).expect("the table is well formed")
}

#[test]
fn access_word_list_with_max_valid_frequency() {
    let words = word_table();
    assert_eq!(get_word_at(&words, DATASET_TOTAL_CF), "the");
    assert_eq!(get_word_at(&words, 15000), "bits");
    assert_eq!(get_word_at(&words, 1), "bits");
    assert_eq!(get_word_at(&words, 952_626), "gentle"); //"gentle", 961416, 945551
    assert_eq!(get_word_at(&words, 113_940_121), "football"); // "football", 113_998_149, 113_930_514),
}

#[test]
fn thresholds_at_range_bounds_select_the_lower_entry() {
    let words = word_table();
    assert_eq!(get_word_at(&words, 945_551), "and");
    assert_eq!(get_word_at(&words, 945_552), "gentle");
    assert_eq!(get_word_at(&words, 113_998_149), "football");
    assert_eq!(get_word_at(&words, 113_998_150), "the");
    assert_eq!(words.total(), DATASET_TOTAL_CF);
    assert_eq!(words.len(), 6);
}

#[test]
fn malformed_tables_are_refused() {
    let gap = vec![("a".to_string(), 10, 5), ("b".to_string(), 4, 0)];
    assert!(WordTable::new(gap).is_none());
    let not_from_zero = vec![("a".to_string(), 10, 5), ("b".to_string(), 5, 1)];
    assert!(WordTable::new(not_from_zero).is_none());
    let empty_word = vec![("".to_string(), 10, 0)];
    assert!(WordTable::new(empty_word).is_none());
    let not_ascii = vec![("caf\u{e9}".to_string(), 10, 0)];
    assert!(WordTable::new(not_ascii).is_none());
    let empty_range = vec![("a".to_string(), 10, 10), ("b".to_string(), 10, 0)];
    assert!(WordTable::new(empty_range).is_none());
    assert!(WordTable::new(Vec::new()).is_none());
    let one = vec![("a".to_string(), 1, 0)];
    assert!(WordTable::new(one).is_some());
}

#[test]
fn capitalised_word_raises_the_first_letter() {
    assert_eq!(capitalised_word("hello"), "Hello");
    assert_eq!(capitalised_word("Hello"), "Hello");
    assert_eq!(capitalised_word("x"), "X");
    assert_eq!(capitalised_word("1st"), "1st");
}

fn all_on() -> TextGenerationSettings {
    TextGenerationSettings::default()
}

fn all_off() -> TextGenerationSettings {
    TextGenerationSettings {
        contains_numbers: false,
        contains_suffixes: false,
        contains_enclosers: false,
        contains_capital_letters: false,
    }
}

#[test]
fn prompts_have_three_line_ends_the_last_at_the_end() {
    let words = word_table();
    for seed in 0..300u64 {
        let mut g = Lcrng::new(seed);
        let (text, _closing, ends) = generate_typing_prompt(&mut g, None, &all_on(), &words);
        assert!(!text.is_empty());
        assert_eq!(ends.len(), 3);
        assert!(1 <= ends[0] && ends[0] < ends[1] && ends[1] < ends[2]);
        assert_eq!(ends[2], text.len());
        assert!(text.is_ascii());
        assert_eq!(text.chars().count(), text.len());
    }
}

#[test]
fn prompts_are_determined_by_the_generator_state() {
    let words = word_table();
    let mut g1 = Lcrng::new(99);
    let mut g2 = Lcrng::new(99);
    let a = generate_typing_prompt(&mut g1, None, &all_on(), &words);
    let b = generate_typing_prompt(&mut g2, None, &all_on(), &words);
    assert_eq!(a, b);
    assert_eq!(g1.next(), g2.next());
}

#[test]
fn plain_prompts_are_words_and_underscores() {
    let words = word_table();
    for seed in 0..200u64 {
        let mut g = Lcrng::new(seed);
        let (text, closing, _) = generate_typing_prompt(&mut g, None, &all_off(), &words);
        assert!(closing.is_none());
        assert!(text.chars().all(|c| c.is_ascii_lowercase() || c == '_'), "{text}");
        let parts: Vec<&str> = text.split('_').collect();
        assert_eq!(parts.len(), 30);
        for w in parts.windows(2) {
            assert_ne!(w[0], w[1]);
        }
    }
}

#[test]
fn the_first_word_is_capitalised_when_capitals_are_on() {
    let words = word_table();
    let settings = TextGenerationSettings {
        contains_numbers: false,
        contains_suffixes: false,
        contains_enclosers: false,
        contains_capital_letters: true,
    };
    let mut g = Lcrng::new(5);
    let (text, _, _) = generate_typing_prompt(&mut g, None, &settings, &words);
    assert!(text.chars().next().unwrap().is_ascii_uppercase());
    assert!(text.chars().skip(1).all(|c| c.is_ascii_lowercase() || c == '_'));
}

#[test]
fn an_owed_closing_mark_is_kept_without_enclosers() {
    let words = word_table();
    let mut g = Lcrng::new(11);
    let (text, closing, _) =
        generate_typing_prompt(&mut g, Some(")".to_string()), &all_off(), &words);
    assert_eq!(closing, Some(")".to_string()));
    assert!(!text.contains(')'));
}

#[test]
fn brackets_pair_up_across_a_prompt() {
    let words = word_table();
    let mut saw_bracket = false;
    for seed in 0..300u64 {
        let mut g = Lcrng::new(seed);
        let (text, closing, _) = generate_typing_prompt(&mut g, None, &all_on(), &words);
        let opens = text.chars().filter(|c| "([{<".contains(*c)).count();
        let closes = text.chars().filter(|c| ")]}>".contains(*c)).count();
        saw_bracket |= opens > 0;
        assert!(opens == closes || opens == closes + 1, "{text}");
        if let Some(c) = &closing {
            assert!([")", "]", "}", "\"", ">"].contains(&c.as_str()));
        }
    }
    assert!(saw_bracket);
}

/// Reads the marks of `text` from the left, starting with `owed`: `None`
/// if a mark comes out of place, else the mark owed at the end.
fn scan_marks(text: &str, owed: Option<char>) -> Option<Option<char>> {
    let mut owed = owed;
    for c in text.chars() {
        let opening = "([{\"<".contains(c);
        let closing = ")]}\">".contains(c);
        if !opening && !closing {
            continue;
        }
        if owed == Some(c) {
            owed = None;
        } else if owed.is_none() && opening {
            owed = Some(match c {
                '(' => ')',
                '[' => ']',
                '{' => '}',
                '<' => '>',
                other => other,
            });
        } else {
            return None;
        }
    }
    Some(owed)
}

#[test]
fn marks_open_and_close_in_turn_across_prompts() {
    let words = word_table();
    let mut g = Lcrng::new(2024);
    let mut closing: Option<String> = None;
    let mut saw_mark = false;
    for _ in 0..200 {
        let owed = closing.as_ref().map(|c| c.chars().next().unwrap());
        let (text, next, _) = generate_typing_prompt(&mut g, closing.clone(), &all_on(), &words);
        saw_mark |= text.chars().any(|c| "([{\"<".contains(c));
        let expected = next.as_ref().map(|c| c.chars().next().unwrap());
        assert_eq!(scan_marks(&text, owed), Some(expected), "{text}");
        if let Some(c) = &next {
            assert_eq!(c.chars().count(), 1);
        }
        closing = next;
    }
    assert!(saw_mark);
}

#[test]
fn a_prompt_moves_the_generator_at_least_thirty_steps() {
    let words = word_table();
    for seed in 0..40u64 {
        let mut g = Lcrng::new(seed);
        let _ = generate_typing_prompt(&mut g, None, &all_on(), &words);
        let after = g.next();
        let mut shadow = Lcrng::new(seed);
        let mut steps = 0u64;
        loop {
            steps += 1;
            if shadow.next() == after {
                break;
            }
            assert!(steps < 1_000_000);
        }
        assert!(steps >= 31, "seed {seed}: {steps}");
    }
}

#[test]
fn a_prompt_from_the_top_of_the_state_space_is_whole() {
    // A state whose next state is 2^64 - 1024: the first threshold drawn is
    // the table's total, which selects the first entry.
    let a: u64 = 0x5D588B656C078965;
    let mut inv: u64 = 1;
    for _ in 0..6 {
        inv = inv.wrapping_mul(2u64.wrapping_sub(a.wrapping_mul(inv)));
    }
    let prev = (u64::MAX - 1023).wrapping_sub(0x00269EC3).wrapping_mul(inv);
    let words = word_table();
    let mut g = Lcrng::new(prev);
    let (text, _, ends) = generate_typing_prompt(&mut g, None, &all_on(), &words);
    assert!(text.starts_with("The"));
    assert_eq!(ends.len(), 3);
    assert!(1 <= ends[0] && ends[0] < ends[1] && ends[1] < ends[2]);
    assert_eq!(ends[2], text.len());
}
