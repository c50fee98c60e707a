//! The bookkeeping of a typing session: how keystrokes move the counts of
//! correctly and wrongly typed characters, the keyboard shortcuts that switch
//! prompt settings, and the integer parts of the speed measurement.
use vstd::prelude::*;
use crate::persist::TextGenerationSettings;

verus! {

/// Keystroke intervals kept for the speed measurement.
pub const INTERVAL_HISTORY_LENGTH: usize = 50;

/// `a - b`, or zero when `b` is larger.
pub open spec fn saturating_sub(a: int, b: int) -> int {
    if a > b {
        a - b
    } else {
        0
    }
}

/// The position of the last `_` among the first `n` characters of `s`, or
/// zero when there is none.
pub open spec fn last_underscore(s: Seq<char>, n: int) -> int
    decreases n,
{
    if n <= 0 {
        0
    } else if s[n - 1] == '_' {
        n - 1
    } else {
        last_underscore(s, n - 1)
    }
}

/// The characters that one backspace removes when `committed` characters
/// have been typed: one, or with Ctrl back to just after the last `_` (at
/// least one), or all of them when no `_` lies after the first character.
pub open spec fn backspace_count(letters: Seq<char>, committed: int, ctrl: bool) -> int {
    if !ctrl {
        1
    } else {
        let index = last_underscore(letters, committed);
        if index != 0 {
            if committed - index - 1 > 1 {
                committed - index - 1
            } else {
                1
            }
        } else {
            committed
        }
    }
}

/// The counts `(correct, wrong)` after a backspace: the removed characters
/// come off the wrong ones first, then off the correct ones.
pub open spec fn after_backspace(letters: Seq<char>, correct: int, wrong: int, ctrl: bool) -> (
    int,
    int,
) {
    let committed = correct + wrong;
    if committed == 0 {
        (correct, wrong)
    } else {
        let n = backspace_count(letters, committed, ctrl);
        (
            if n > wrong {
                saturating_sub(correct, n - wrong)
            } else {
                correct
            },
            saturating_sub(wrong, n),
        )
    }
}

/// `c` with `A` to `Z` lowered to `a` to `z`.
pub open spec fn ascii_lower(c: char) -> char {
    if 'A' <= c <= 'Z' {
        ((c as u32) + 32) as char
    } else {
        c
    }
}

/// Whether `input` types the expected character `next`: the character
/// itself, a space for `_`, or with Shift the lower case of `next`.
pub open spec fn types_next(input: char, next: char, shift: bool) -> bool {
    (input == ' ' && next == '_') || (shift && input == ascii_lower(next)) || input == next
}

/// The counts `(correct, wrong)` after `input` is typed where `next` is
/// expected, and whether it advanced the correct count: a right character
/// counts only while no wrong one is pending; any other character counts as
/// wrong while the prompt has room.
pub open spec fn after_typed(
    input: char,
    next: char,
    shift: bool,
    correct: int,
    wrong: int,
    text_length: int,
) -> (int, int, bool) {
    if types_next(input, next, shift) && wrong == 0 {
        (
            if correct + 1 < text_length {
                correct + 1
            } else {
                text_length
            },
            wrong,
            true,
        )
    } else if correct + wrong < text_length {
        (correct, wrong + 1, false)
    } else {
        (correct, wrong, false)
    }
}

/// The counts of typed characters in a prompt of `text_length` characters.
pub struct TypingProgress {
    correct: usize,
    wrong: usize,
    text_length: usize,
}

impl View for TypingProgress {
    /// `(correct, wrong, text_length)`.
    type V = (int, int, int);

    closed spec fn view(&self) -> (int, int, int) {
        (self.correct as int, self.wrong as int, self.text_length as int)
    }
}

/// The counts never exceed the prompt.
pub open spec fn progress_in_bounds(v: (int, int, int)) -> bool {
    0 <= v.0 && 0 <= v.1 && v.0 + v.1 <= v.2 <= usize::MAX
}

/// `char::to_ascii_lowercase`.
fn to_ascii_lowercase(c: char) -> (l: char)
    ensures
        l == ascii_lower(c),
{
    if 'A' <= c && c <= 'Z' {
        let b = (c as u32) + 32;
        let b8 = b as u8;
        b8 as char
    } else {
        c
    }
}

impl TypingProgress {
    #[verifier::type_invariant]
    spec fn in_bounds(&self) -> bool {
        self.correct + self.wrong <= self.text_length
    }

    /// Nothing typed yet in a prompt of `text_length` characters.
    pub fn new(text_length: usize) -> (p: Self)
        ensures
            p@ == (0int, 0int, text_length as int),
    {
        TypingProgress { correct: 0, wrong: 0, text_length }
    }

    /// The characters typed correctly, from the start of the prompt.
    pub fn correct(&self) -> (n: usize)
        ensures
            n == self@.0,
            progress_in_bounds(self@),
    {
        proof {
            use_type_invariant(self);
        }
        self.correct
    }

    /// The wrong characters typed after the correct ones.
    pub fn wrong(&self) -> (n: usize)
        ensures
            n == self@.1,
            progress_in_bounds(self@),
    {
        proof {
            use_type_invariant(self);
        }
        self.wrong
    }

    /// The length of the prompt.
    pub fn text_length(&self) -> (n: usize)
        ensures
            n == self@.2,
            progress_in_bounds(self@),
    {
        proof {
            use_type_invariant(self);
        }
        self.text_length
    }

    /// Whether the whole prompt has been typed correctly.
    pub fn is_complete(&self) -> (b: bool)
        ensures
            b == (self@.0 >= self@.2),
    {
        self.correct >= self.text_length
    }

    /// A backspace, with Ctrl (`ctrl`) or without, over the prompt
    /// `letters`.
    pub fn backspace(&mut self, letters: &[char], ctrl: bool)
        requires
            letters@.len() == old(self)@.2,
        ensures
            (final(self)@.0, final(self)@.1) == after_backspace(
                letters@,
                old(self)@.0,
                old(self)@.1,
                ctrl,
            ),
            final(self)@.2 == old(self)@.2,
            progress_in_bounds(final(self)@),
    {
        proof {
            use_type_invariant(&*self);
        }
        let currently_committed_characters = self.correct + self.wrong;
        if currently_committed_characters != 0 {
            let backspace_count: usize;
            if ctrl {
                let index = last_underscore_exec(letters, currently_committed_characters);
                if index != 0 {
                    let n = currently_committed_characters - index - 1;
                    backspace_count = if n > 1 {
                        n
                    } else {
                        1
                    };
                } else {
                    backspace_count = currently_committed_characters;
                }
            } else {
                backspace_count = 1;
            }
            let mut correct = self.correct;
            if backspace_count > self.wrong {
                correct = correct.saturating_sub(backspace_count - self.wrong);
            }
            let wrong = self.wrong.saturating_sub(backspace_count);
            self.correct = correct;
            self.wrong = wrong;
        }
        proof {
            use_type_invariant(&*self);
        }
    }

    /// `input` typed, with Shift (`shift`) or without, where `next` is the
    /// expected character; whether it advanced the correct count.
    pub fn type_char(&mut self, input: char, next: char, shift: bool) -> (advanced: bool)
        ensures
            (final(self)@.0, final(self)@.1, advanced) == after_typed(
                input,
                next,
                shift,
                old(self)@.0,
                old(self)@.1,
                old(self)@.2,
            ),
            final(self)@.2 == old(self)@.2,
            progress_in_bounds(final(self)@),
    {
        proof {
            use_type_invariant(&*self);
        }
        let matches = (input == ' ' && next == '_') || (shift && input == to_ascii_lowercase(next))
            || input == next;
        if matches && self.wrong == 0 {
            // `min(correct + 1, text_length)`, without the overflow.
            self.correct = if self.correct < self.text_length {
                self.correct + 1
            } else {
                self.text_length
            };
            proof {
                use_type_invariant(&*self);
            }
            true
        } else {
            if self.correct + self.wrong < self.text_length {
                self.wrong = self.wrong + 1;
            }
            proof {
                use_type_invariant(&*self);
            }
            false
        }
    }
}

/// The position of the last `_` among the first `n` letters, or zero.
fn last_underscore_exec(letters: &[char], n: usize) -> (index: usize)
    requires
        n <= letters@.len(),
    ensures
        index == last_underscore(letters@, n as int),
        index < n || index == 0,
{
    let mut i = n;
    while i > 0
        invariant
            i <= n <= letters@.len(),
            last_underscore(letters@, n as int) == last_underscore(letters@, i as int),
        decreases i,
    {
        if letters[i - 1] == '_' {
            return i - 1;
        }
        i = i - 1;
    }
    0
}

/// The settings after the shortcut Alt+`key`: `n` switches digits, `s`
/// punctuation, `c` capitals and `e` brackets; other keys change nothing.
pub fn apply_settings_shortcut(settings: TextGenerationSettings, key: char) -> (s:
    TextGenerationSettings)
    ensures
        s.contains_numbers == (settings.contains_numbers != (key == 'n')),
        s.contains_suffixes == (settings.contains_suffixes != (key == 's')),
        s.contains_capital_letters == (settings.contains_capital_letters != (key == 'c')),
        s.contains_enclosers == (settings.contains_enclosers != (key == 'e')),
        s == shortcut_settings(settings, key),
{
    let mut s = settings;
    if key == 'n' {
        s.contains_numbers = !s.contains_numbers;
    } else if key == 's' {
        s.contains_suffixes = !s.contains_suffixes;
    } else if key == 'c' {
        s.contains_capital_letters = !s.contains_capital_letters;
    } else if key == 'e' {
        s.contains_enclosers = !s.contains_enclosers;
    }
    s
}

/// The settings after the shortcut Alt+`key`.
pub open spec fn shortcut_settings(settings: TextGenerationSettings, key: char) -> TextGenerationSettings {
    TextGenerationSettings {
        contains_numbers: settings.contains_numbers != (key == 'n'),
        contains_suffixes: settings.contains_suffixes != (key == 's'),
        contains_enclosers: settings.contains_enclosers != (key == 'e'),
        contains_capital_letters: settings.contains_capital_letters != (key == 'c'),
    }
}

/// The modifier keys held with a character key, as the session tells them
/// apart: none, Shift alone, Alt alone, or any other combination.
#[derive(Debug, Clone, Copy, PartialEq, Eq, Structural)]
pub enum Modifiers {
    Plain,
    Shift,
    Alt,
    Other,
}

/// A key released on the keyboard.
#[derive(Debug, Clone, Copy, PartialEq, Eq, Structural)]
pub enum KeyPress {
    /// Escape.
    Escape,
    /// Backspace, with or without Control held.
    Backspace { ctrl: bool },
    /// Insert.
    Insert,
    /// A character key and the modifiers held with it.
    Character { input: char, modifiers: Modifiers },
    /// Any other key.
    Other,
}

/// What the session does next after a key.
#[derive(Debug, Clone, Copy, PartialEq, Eq, Structural)]
pub enum KeyOutcome {
    /// End the session.
    Quit,
    /// Draw a new prompt.
    Regenerate,
    /// Clear the temporary records, reload the saved ones, and draw a new
    /// prompt.
    ResetAndRegenerate,
    /// A character was typed; `advanced` tells whether it was the right one,
    /// so that its interval is measured.
    Typed { advanced: bool },
    /// Nothing more to do.
    Stay,
}

/// Answers a key: Escape quits; Backspace removes typed characters (back to
/// the last underscore with Control); Insert asks for a new prompt; Alt+`r`
/// asks for a reset, and Alt with another key switches a setting and asks
/// for a new prompt; a character alone or with Shift is typed against
/// `next`, the next character of the prompt; anything else changes nothing.
pub fn handle_key(
    progress: &mut TypingProgress,
    settings: &mut TextGenerationSettings,
    letters: &[char],
    next: char,
    key: KeyPress,
) -> (outcome: KeyOutcome)
    requires
        letters@.len() == old(progress)@.2,
    ensures
        final(progress)@.2 == old(progress)@.2,
        progress_in_bounds(final(progress)@),
        match key {
            KeyPress::Escape => outcome == KeyOutcome::Quit && final(progress)@ == old(progress)@
                && *final(settings) == *old(settings),
            KeyPress::Backspace { ctrl } => outcome == KeyOutcome::Stay && (
                final(progress)@.0,
                final(progress)@.1,
            ) == after_backspace(letters@, old(progress)@.0, old(progress)@.1, ctrl)
                && *final(settings) == *old(settings),
            KeyPress::Insert => outcome == KeyOutcome::Regenerate && final(progress)@ == old(
                progress,
            )@ && *final(settings) == *old(settings),
            KeyPress::Character { input, modifiers } => match modifiers {
                Modifiers::Alt => final(progress)@ == old(progress)@ && if input == 'r' {
                    outcome == KeyOutcome::ResetAndRegenerate && *final(settings) == *old(settings)
                } else {
                    outcome == KeyOutcome::Regenerate && *final(settings) == shortcut_settings(
                        *old(settings),
                        input,
                    )
                },
                Modifiers::Plain | Modifiers::Shift => *final(settings) == *old(settings) && (
                    outcome is Typed && (final(progress)@.0, final(progress)@.1, outcome->advanced)
                        == after_typed(
                        input,
                        next,
                        modifiers == Modifiers::Shift,
                        old(progress)@.0,
                        old(progress)@.1,
                        old(progress)@.2,
                    )),
                Modifiers::Other => outcome == KeyOutcome::Stay && final(progress)@ == old(
                    progress,
                )@ && *final(settings) == *old(settings),
            },
            KeyPress::Other => outcome == KeyOutcome::Stay && final(progress)@ == old(progress)@
                && *final(settings) == *old(settings),
        },
{
    proof {
        use_type_invariant(&*progress);
    }
    match key {
        KeyPress::Escape => KeyOutcome::Quit,
        KeyPress::Backspace { ctrl } => {
            progress.backspace(letters, ctrl);
            KeyOutcome::Stay
        },
        KeyPress::Insert => KeyOutcome::Regenerate,
        KeyPress::Character { input, modifiers } => match modifiers {
            Modifiers::Alt => {
                if input == 'r' {
                    KeyOutcome::ResetAndRegenerate
                } else {
                    *settings = apply_settings_shortcut(*settings, input);
                    KeyOutcome::Regenerate
                }
            },
            Modifiers::Plain | Modifiers::Shift => {
                let shift = match modifiers {
                    Modifiers::Shift => true,
                    _ => false,
                };
                let advanced = progress.type_char(input, next, shift);
                KeyOutcome::Typed { advanced }
            },
            Modifiers::Other => KeyOutcome::Stay,
        },
        KeyPress::Other => KeyOutcome::Stay,
    }
}

/// The next slot of a ring buffer of `length` slots.
pub fn advance_ring_index(index: usize, length: usize) -> (next: usize)
    requires
        length > 0,
        index < usize::MAX,
    ensures
        next == (index + 1) % (length as int),
        next < length,
{
    (index + 1) % length
}

/// Whether every slot of the interval history holds an interval.
pub fn is_interval_history_full(interval_history: [u128; 50]) -> (full: bool)
    ensures
        full == (forall|i: int| 0 <= i < 50 ==> interval_history@[i] != 0),
{
    let mut i: usize = 0;
    while i < INTERVAL_HISTORY_LENGTH
        invariant
            i <= 50,
            forall|j: int| 0 <= j < i ==> interval_history@[j] != 0,
        decreases 50 - i,
    {
        if interval_history[i] == 0 {
            return false;
        }
        i = i + 1;
    }
    true
}

/// The number of non-zero entries of `s`.
pub open spec fn count_nonzero(s: Seq<u128>) -> nat
    decreases s.len(),
{
    if s.len() == 0 {
        0
    } else {
        count_nonzero(s.drop_last()) + if s.last() != 0 {
            1nat
        } else {
            0nat
        }
    }
}

/// The sum of the entries of `s`.
pub open spec fn sum(s: Seq<u128>) -> nat
    decreases s.len(),
{
    if s.len() == 0 {
        0
    } else {
        sum(s.drop_last()) + s.last() as nat
    }
}

/// The integer parts of the current speed: the number of recorded
/// intervals and their total in nanoseconds (at least one), or `None` when
/// the total does not fit in a `u128`. The speed in words per minute is
/// `60e9 * count / (total * 5)`.
pub fn interval_statistics(interval_rolling_buffer: [u128; 50]) -> (stats: Option<(usize, u128)>)
    ensures
        stats is Some <==> sum(interval_rolling_buffer@) <= u128::MAX,
        stats matches Some((count, total)) ==> {
            &&& count == count_nonzero(interval_rolling_buffer@)
            &&& total == if sum(interval_rolling_buffer@) == 0 {
                1
            } else {
                sum(interval_rolling_buffer@)
            }
        },
{
    let mut count: usize = 0;
    let mut total: u128 = 0;
    let mut i: usize = 0;
    let ghost s = interval_rolling_buffer@;
    while i < INTERVAL_HISTORY_LENGTH
        invariant
            s == interval_rolling_buffer@,
            s.len() == 50,
            i <= 50,
            count == count_nonzero(s.subrange(0, i as int)),
            count <= i,
            total == sum(s.subrange(0, i as int)),
        decreases 50 - i,
    {
        assert(s.subrange(0, i + 1).drop_last() =~= s.subrange(0, i as int));
        let x = interval_rolling_buffer[i];
        if x != 0 {
            count = count + 1;
        }
        match total.checked_add(x) {
            Some(t) => {
                total = t;
            },
            None => {
                proof {
                    lemma_sum_prefix_monotone(s, i + 1, 50);
                    assert(s.subrange(0, 50) =~= s);
                }
                return None;
            },
        }
        i = i + 1;
    }
    assert(s.subrange(0, 50) =~= s);
    if total == 0 {
        Some((count, 1))
    } else {
        Some((count, total))
    }
}

/// Sums of longer prefixes are no smaller.
proof fn lemma_sum_prefix_monotone(s: Seq<u128>, i: int, j: int)
    requires
        0 <= i <= j <= s.len(),
    ensures
        sum(s.subrange(0, i)) <= sum(s.subrange(0, j)),
    decreases j - i,
{
    if i < j {
        lemma_sum_prefix_monotone(s, i, j - 1);
        assert(s.subrange(0, j).drop_last() =~= s.subrange(0, j - 1));
    }
}

/// A backspace never adds typed characters and keeps the counts within the
/// prompt.
pub proof fn law_backspace_shrinks(letters: Seq<char>, correct: int, wrong: int, ctrl: bool)
    requires
        0 <= correct,
        0 <= wrong,
        correct + wrong <= letters.len(),
    ensures
        0 <= after_backspace(letters, correct, wrong, ctrl).0 <= correct,
        0 <= after_backspace(letters, correct, wrong, ctrl).1 <= wrong,
{
}

/// Typing a character keeps the counts within the prompt.
pub proof fn law_typing_in_bounds(
    input: char,
    next: char,
    shift: bool,
    correct: int,
    wrong: int,
    text_length: int,
)
    requires
        0 <= correct,
        0 <= wrong,
        correct + wrong <= text_length,
    ensures
        ({
            let r = after_typed(input, next, shift, correct, wrong, text_length);
            0 <= r.0 && 0 <= r.1 && r.0 + r.1 <= text_length
        }),
{
}

/// While a wrong character is pending, no keystroke advances the correct
/// count.
pub proof fn law_wrong_blocks_progress(
    input: char,
    next: char,
    shift: bool,
    correct: int,
    wrong: int,
    text_length: int,
)
    requires
        wrong > 0,
    ensures
        after_typed(input, next, shift, correct, wrong, text_length).0 == correct,
        !after_typed(input, next, shift, correct, wrong, text_length).2,
{
}

/// With no wrong character pending, the expected character advances the
/// correct count by one until the prompt is complete.
pub proof fn law_right_character_advances(
    input: char,
    next: char,
    shift: bool,
    correct: int,
    text_length: int,
)
    requires
        types_next(input, next, shift),
        0 <= correct < text_length,
    ensures
        after_typed(input, next, shift, correct, 0, text_length) == (correct + 1, 0int, true),
{
}

/// A backspace after wrong characters removes wrong ones first: correct
/// characters go only when more are removed than are wrong.
pub proof fn law_backspace_removes_wrong_first(
    letters: Seq<char>,
    correct: int,
    wrong: int,
    ctrl: bool,
)
    requires
        0 <= correct,
        0 < wrong,
        backspace_count(letters, correct + wrong, ctrl) <= wrong,
    ensures
        after_backspace(letters, correct, wrong, ctrl).0 == correct,
{
}

/// A key advances the prompt exactly when no wrong character is pending and
/// it is the expected character itself, a space where `_` is expected, or,
/// with Shift, the lower-case letter of an expected capital. It then adds
/// one correct character (none once the prompt is complete); any other key
/// adds one wrong character while the prompt has room.
pub proof fn law_typed_key_is_judged_by_the_expected_character(
    input: char,
    next: char,
    shift: bool,
    correct: int,
    wrong: int,
    text_length: int,
)
    requires
        progress_in_bounds((correct, wrong, text_length)),
    ensures
        ({
            let r = after_typed(input, next, shift, correct, wrong, text_length);
            let right = input == next || (input == ' ' && next == '_') || (shift && 'A' <= next
                <= 'Z' && input as u32 == next as u32 + 32);
            &&& r.2 <==> (right && wrong == 0)
            &&& r.2 ==> r.1 == wrong && r.0 == if correct < text_length {
                correct + 1
            } else {
                text_length
            }
            &&& !r.2 ==> r.0 == correct && r.1 == if correct + wrong < text_length {
                wrong + 1
            } else {
                wrong
            }
        }),
{
    if shift && 'A' <= next <= 'Z' {
        let l = ascii_lower(next);
        assert(l == ((next as u32) + 32) as char);
        assert(l as u32 == next as u32 + 32);
        assert(input == l <==> input as u32 == next as u32 + 32);
    } else if shift {
        assert(ascii_lower(next) == next);
    }
}

/// A backspace removes `n = backspace_count` typed characters in all (or
/// all of them, if fewer are typed), taking the wrong ones first and then
/// correct ones; with nothing typed it changes nothing.
pub proof fn law_backspace_removes_its_count(letters: Seq<char>, correct: int, wrong: int, ctrl: bool)
    requires
        correct >= 0,
        wrong >= 0,
    ensures
        ({
            let (c2, w2) = after_backspace(letters, correct, wrong, ctrl);
            let n = backspace_count(letters, correct + wrong, ctrl);
            &&& correct + wrong == 0 ==> c2 == correct && w2 == wrong
            &&& !ctrl ==> n == 1
            &&& correct + wrong > 0 ==> {
                &&& n >= 1
                &&& (correct + wrong) - (c2 + w2) == if n < correct + wrong {
                    n
                } else {
                    correct + wrong
                }
                &&& w2 == if wrong > n {
                    wrong - n
                } else {
                    0
                }
                &&& 0 <= c2 <= correct
            }
        }),
{
}

/// What `last_underscore` finds: a position before `n` holding `_`, or
/// zero; no `_` lies after it before `n`.
proof fn lemma_last_underscore(s: Seq<char>, n: int)
    requires
        1 <= n <= s.len(),
    ensures
        0 <= last_underscore(s, n) < n,
        last_underscore(s, n) != 0 ==> s[last_underscore(s, n)] == '_',
        forall|j: int| last_underscore(s, n) < j < n ==> s[j] != '_',
    decreases n,
{
    if s[n - 1] == '_' {
        assert(last_underscore(s, n) == n - 1);
    } else if n > 1 {
        assert(last_underscore(s, n) == last_underscore(s, n - 1));
        lemma_last_underscore(s, n - 1);
    } else {
        assert(last_underscore(s, 0) == 0);
        assert(last_underscore(s, 1) == 0);
    }
}

/// Ctrl+Backspace over `committed` typed characters keeps a prefix: when it
/// removes more than one character, the kept prefix is empty or ends in an
/// `_`, and no `_` after the first character lies among the removed ones;
/// it removes one character only when just one is typed or an `_` is among
/// the last two typed.
pub proof fn law_ctrl_backspace_back_to_underscore(letters: Seq<char>, committed: int)
    requires
        1 <= committed <= letters.len(),
    ensures
        ({
            let n = backspace_count(letters, committed, true);
            let k = committed - n;
            &&& 0 <= k < committed
            &&& n >= 2 && k > 0 ==> letters[k - 1] == '_'
            &&& n >= 2 ==> forall|j: int| k <= j < committed && j >= 1 ==> letters[j] != '_'
            &&& n == 1 ==> committed == 1 || letters[committed - 1] == '_' || letters[committed
                - 2] == '_'
        }),
{
    lemma_last_underscore(letters, committed);
}

} // verus!
