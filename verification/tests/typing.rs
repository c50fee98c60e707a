use clicky::persist::TextGenerationSettings;
use clicky::rendering::{split_lines, LineProgress};
use clicky::typing::{
    advance_ring_index, apply_settings_shortcut, handle_key, interval_statistics,
    is_interval_history_full, KeyOutcome, KeyPress, Modifiers, TypingProgress,
};

fn letters(s: &str) -> Vec<char> {
    s.chars().collect()
}

fn counts(p: &TypingProgress) -> (usize, usize) {
    (p.correct(), p.wrong())
}

#[test]
fn right_characters_advance_and_wrong_ones_block() {
    let text = letters("ab_c");
    let mut p = TypingProgress::new(text.len());
    assert!(p.type_char('a', text[0], false));
    assert_eq!(counts(&p), (1, 0));
    assert!(!p.type_char('x', text[1], false));
    assert_eq!(counts(&p), (1, 1));
    // While a wrong character is pending, the right one counts as wrong.
    assert!(!p.type_char('b', text[1], false));
    assert_eq!(counts(&p), (1, 2));
    p.backspace(&text, false);
    p.backspace(&text, false);
    assert_eq!(counts(&p), (1, 0));
    assert!(p.type_char('b', text[1], false));
    // A space types an underscore.
    assert!(p.type_char(' ', text[2], false));
    assert!(p.type_char('c', text[3], false));
    assert_eq!(counts(&p), (4, 0));
    assert!(p.is_complete());
}

#[test]
fn shift_accepts_the_lower_case_of_a_capital() {
    let mut p = TypingProgress::new(3);
    assert!(p.type_char('h', 'H', true));
    assert!(!p.type_char('h', 'H', false));
    assert_eq!(counts(&p), (1, 1));
}

#[test]
fn wrong_characters_stop_at_the_end_of_the_prompt() {
    let mut p = TypingProgress::new(2);
    p.type_char('x', 'a', false);
    p.type_char('x', 'a', false);
    p.type_char('x', 'a', false);
    assert_eq!(counts(&p), (0, 2));
}

#[test]
fn ctrl_backspace_removes_back_to_the_last_underscore() {
    let text = letters("one_two_three");
    let mut p = TypingProgress::new(text.len());
    for i in 0..10 {
        assert!(p.type_char(text[i], text[i], false));
    }
    // "one_two_th" typed: back to just after the underscore at 7.
    p.backspace(&text, true);
    assert_eq!(counts(&p), (8, 0));
    // Right after an underscore: at least one character goes.
    p.backspace(&text, true);
    assert_eq!(counts(&p), (7, 0));
    // No underscore after the first character: everything goes.
    let text2 = letters("abcdef");
    let mut q = TypingProgress::new(6);
    for i in 0..4 {
        q.type_char(text2[i], text2[i], false);
    }
    q.type_char('z', text2[4], false);
    q.backspace(&text2, true);
    assert_eq!(counts(&q), (0, 0));
}

#[test]
fn backspace_with_nothing_typed_does_nothing() {
    let text = letters("abc");
    let mut p = TypingProgress::new(3);
    p.backspace(&text, true);
    p.backspace(&text, false);
    assert_eq!(counts(&p), (0, 0));
    assert_eq!(p.text_length(), 3);
}

#[test]
fn shortcuts_toggle_one_setting() {
    let s = TextGenerationSettings::default();
    let t = apply_settings_shortcut(s, 'n');
    assert!(!t.contains_numbers && t.contains_suffixes && t.contains_enclosers && t.contains_capital_letters);
    let t = apply_settings_shortcut(t, 'n');
    assert_eq!(t, s);
    assert!(!apply_settings_shortcut(s, 's').contains_suffixes);
    assert!(!apply_settings_shortcut(s, 'c').contains_capital_letters);
    assert!(!apply_settings_shortcut(s, 'e').contains_enclosers);
    assert_eq!(apply_settings_shortcut(s, 'r'), s);
}

#[test]
fn interval_history_and_statistics() {
    let mut h = [0u128; 50];
    assert!(!is_interval_history_full(h));
    assert_eq!(interval_statistics(h), Some((0, 1)));
    for i in 0..50 {
        h[i] = 100 + i as u128;
    }
    assert!(is_interval_history_full(h));
    assert_eq!(interval_statistics(h), Some((50, 100 * 50 + 49 * 50 / 2)));
    h[3] = 0;
    assert!(!is_interval_history_full(h));
    assert_eq!(interval_statistics(h), Some((49, 100 * 50 + 49 * 50 / 2 - 103)));
    h[0] = u128::MAX;
    assert_eq!(interval_statistics(h), None);
}

#[test]
fn ring_indices_wrap() {
    assert_eq!(advance_ring_index(0, 50), 1);
    assert_eq!(advance_ring_index(49, 50), 0);
    assert_eq!(advance_ring_index(60, 50), 11);
    assert_eq!(advance_ring_index(7, 1), 0);
}

#[test]
fn lines_show_correct_then_wrong_characters() {
    let lines = split_lines(&[10, 20, 30], 12, 11);
    assert_eq!(
        lines,
        vec![
            LineProgress { start: 0, end: 10, correct: 10, wrong: 0 },
            LineProgress { start: 10, end: 20, correct: 2, wrong: 8 },
            LineProgress { start: 20, end: 30, correct: 0, wrong: 3 },
        ]
    );
    assert_eq!(split_lines(&[], 5, 5), vec![]);
    let lines = split_lines(&[4, 4, 9], 0, 0);
    assert_eq!(lines[1], LineProgress { start: 4, end: 4, correct: 0, wrong: 0 });
}

#[test]
fn lines_show_every_typed_character_they_cover() {
    let ends = [7usize, 15, 15, 26];
    for correct in 0..30usize {
        for wrong in 0..30usize {
            let lines = split_lines(&ends, correct, wrong);
            let shown_correct: usize = lines.iter().map(|l| l.correct).sum();
            let shown_wrong: usize = lines.iter().map(|l| l.wrong).sum();
            assert_eq!(shown_correct, correct.min(26));
            assert_eq!(shown_wrong, wrong.min(26 - correct.min(26)));
        }
    }
}

#[test]
fn keys_are_answered_by_kind() {
    let text = letters("ab_cd");
    let mut p = TypingProgress::new(text.len());
    let mut s = TextGenerationSettings::default();
    let typed = |c: char, m: Modifiers| KeyPress::Character { input: c, modifiers: m };

    assert_eq!(handle_key(&mut p, &mut s, &text, 'a', typed('a', Modifiers::Plain)), KeyOutcome::Typed { advanced: true });
    assert_eq!(handle_key(&mut p, &mut s, &text, 'b', typed('x', Modifiers::Shift)), KeyOutcome::Typed { advanced: false });
    assert_eq!(counts(&p), (1, 1));
    assert_eq!(handle_key(&mut p, &mut s, &text, 'b', KeyPress::Backspace { ctrl: false }), KeyOutcome::Stay);
    assert_eq!(counts(&p), (1, 0));
    // Other modifiers and other keys change nothing.
    assert_eq!(handle_key(&mut p, &mut s, &text, 'b', typed('b', Modifiers::Other)), KeyOutcome::Stay);
    assert_eq!(handle_key(&mut p, &mut s, &text, 'b', KeyPress::Other), KeyOutcome::Stay);
    assert_eq!(counts(&p), (1, 0));
    assert_eq!(s, TextGenerationSettings::default());
    // Alt switches a setting, or resets with `r`.
    assert_eq!(handle_key(&mut p, &mut s, &text, 'b', typed('e', Modifiers::Alt)), KeyOutcome::Regenerate);
    assert!(!s.contains_enclosers && s.contains_numbers);
    assert_eq!(handle_key(&mut p, &mut s, &text, 'b', typed('r', Modifiers::Alt)), KeyOutcome::ResetAndRegenerate);
    assert!(!s.contains_enclosers);
    assert_eq!(handle_key(&mut p, &mut s, &text, 'b', KeyPress::Insert), KeyOutcome::Regenerate);
    assert_eq!(handle_key(&mut p, &mut s, &text, 'b', KeyPress::Escape), KeyOutcome::Quit);
    assert_eq!(counts(&p), (1, 0));
}
