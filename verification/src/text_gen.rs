//! Typing prompts: words drawn by frequency from a cumulative-frequency
//! table, mixed with punctuation, bracket pairs and runs of digits.
use vstd::prelude::*;
use vstd::utf8::{is_ascii_chars, encode_utf8};
use crate::prng::{Lcrng, lcg_step, draw_value, valid_range};
use crate::persist::TextGenerationSettings;
use crate::decimal::{decimal, push_char, push_zero_padded};

verus! {

/// One table entry as `(word, upper, lower)`: the word is drawn for the
/// thresholds `t` with `lower < t <= upper`.
pub type WordEntryView = (Seq<char>, u64, u64);

/// Whether `t` is a well-formed word table: at least one entry; each word
/// non-empty ASCII; each range non-empty; the ranges descend without gaps,
/// each entry's `lower` being the next entry's `upper`; the last range
/// starts at zero.
#[verifier::opaque]
pub open spec fn table_wf(t: Seq<WordEntryView>) -> bool {
    &&& t.len() >= 1
    &&& forall|i: int| 0 <= i < t.len() ==> (#[trigger] t[i]).2 < t[i].1
    &&& forall|i: int| 0 <= i < t.len() ==> (#[trigger] t[i]).0.len() >= 1
    &&& forall|i: int| 0 <= i < t.len() ==> is_ascii_chars((#[trigger] t[i]).0)
    &&& forall|i: int| 0 <= i < t.len() - 1 ==> (#[trigger] t[i]).2 == t[i + 1].1
    &&& t[t.len() - 1].2 == 0
}

/// The largest threshold that the table covers: its first `upper`.
pub open spec fn table_total(t: Seq<WordEntryView>) -> u64 {
    t[0].1
}

/// Whether entry `i` is drawn for threshold `x`.
pub open spec fn covers(t: Seq<WordEntryView>, i: int, x: int) -> bool {
    0 <= i < t.len() && t[i].2 < x <= t[i].1
}

/// The index of the entry drawn for threshold `x`.
pub open spec fn index_for(t: Seq<WordEntryView>, x: int) -> int {
    choose|i: int| covers(t, i, x)
}

/// The word drawn for threshold `x`.
pub open spec fn word_for(t: Seq<WordEntryView>, x: int) -> Seq<char> {
    t[index_for(t, x)].0
}

/// In a well-formed table, a later range lies wholly below an earlier one.
pub proof fn lemma_table_descending(t: Seq<WordEntryView>, i: int, j: int)
    requires
        table_wf(t),
        0 <= i < j < t.len(),
    ensures
        t[j].1 <= t[i].2,
        t[i].2 < t[i].1,
        t[j].2 < t[j].1,
    decreases j - i,
{
    reveal(table_wf);
    if j > i + 1 {
        lemma_table_descending(t, i, j - 1);
        assert(t[j - 1].2 == t[j].1);
        assert(t[j - 1].2 < t[j - 1].1);
    }
}

/// In a well-formed table every threshold from 1 to the total is covered by
/// exactly one entry.
pub proof fn lemma_table_covers(t: Seq<WordEntryView>, x: int)
    requires
        table_wf(t),
        1 <= x <= table_total(t),
    ensures
        covers(t, index_for(t, x), x),
        forall|j: int| covers(t, j, x) ==> j == index_for(t, x),
{
    reveal(table_wf);
    lemma_covered_from(t, 0, x);
    let i = index_for(t, x);
    assert forall|j: int| covers(t, j, x) implies j == i by {
        if j < i {
            lemma_table_descending(t, j, i);
        } else if i < j {
            lemma_table_descending(t, i, j);
        }
    }
}

proof fn lemma_covered_from(t: Seq<WordEntryView>, k: int, x: int)
    requires
        table_wf(t),
        0 <= k < t.len(),
        1 <= x <= t[k].1,
    ensures
        exists|i: int| covers(t, i, x),
    decreases t.len() - k,
{
    reveal(table_wf);
    if x > t[k].2 {
        assert(covers(t, k, x));
    } else {
        assert(k < t.len() - 1);
        assert(t[k].2 == t[k + 1].1);
        lemma_covered_from(t, k + 1, x);
    }
}

/// A cumulative-frequency table of words.
pub struct WordTable {
    entries: Vec<(String, u64, u64)>,
}

/// The view of one stored entry.
pub open spec fn entry_view(e: (String, u64, u64)) -> WordEntryView {
    (e.0@, e.1, e.2)
}

impl View for WordTable {
    type V = Seq<WordEntryView>;

    closed spec fn view(&self) -> Seq<WordEntryView> {
        self.entries@.map_values(|e: (String, u64, u64)| entry_view(e))
    }
}

impl WordTable {
    #[verifier::type_invariant]
    spec fn wf(&self) -> bool {
        table_wf(self@)
    }

    /// The table of `entries`, each `(word, upper, lower)`, when they form a
    /// well-formed table ([`table_wf`]).
    pub fn new(entries: Vec<(String, u64, u64)>) -> (t: Option<Self>)
        ensures
            t is Some <==> table_wf(entries@.map_values(|e: (String, u64, u64)| entry_view(e))),
            t matches Some(t) ==> t@ == entries@.map_values(
                |e: (String, u64, u64)| entry_view(e),
            ),
    {
        let ghost v = entries@.map_values(|e: (String, u64, u64)| entry_view(e));
        let n = entries.len();
        if n == 0 {
            proof {
                    reveal(table_wf);
                }
                return None;
        }
        let mut i: usize = 0;
        while i < n
            invariant
                n == entries@.len() == v.len(),
                v == entries@.map_values(|e: (String, u64, u64)| entry_view(e)),
                i <= n,
                forall|j: int| 0 <= j < i ==> (#[trigger] v[j]).2 < v[j].1,
                forall|j: int| 0 <= j < i ==> (#[trigger] v[j]).0.len() >= 1,
                forall|j: int| 0 <= j < i ==> is_ascii_chars((#[trigger] v[j]).0),
                forall|j: int| 0 <= j < i && j < n - 1 ==> (#[trigger] v[j]).2 == v[j + 1].1,
            decreases n - i,
        {
            let e = &entries[i];
            assert(v[i as int] == entry_view(entries@[i as int]));
            if !(e.2 < e.1) {
                proof {
                    reveal(table_wf);
                }
                return None;
            }
            if e.0.as_str().unicode_len() == 0 {
                proof {
                    reveal(table_wf);
                }
                return None;
            }
            if !e.0.is_ascii() {
                proof {
                    reveal(table_wf);
                }
                return None;
            }
            if i + 1 < n {
                assert(v[i + 1] == entry_view(entries@[i + 1]));
                if e.2 != entries[i + 1].1 {
                    proof {
                    reveal(table_wf);
                }
                return None;
                }
            }
            i = i + 1;
        }
        assert(v[n - 1] == entry_view(entries@[n - 1]));
        if entries[n - 1].2 != 0 {
            proof {
                    reveal(table_wf);
                }
                return None;
        }
        proof {
            reveal(table_wf);
        }
        Some(WordTable { entries })
    }

    /// The largest threshold the table covers.
    pub fn total(&self) -> (total: u64)
        ensures
            total == table_total(self@),
            total >= 1,
            table_wf(self@),
    {
        proof {
            use_type_invariant(self);
            reveal(table_wf);
            assert(self@[0] == entry_view(self.entries@[0]));
        }
        self.entries[0].1
    }

    /// The number of entries.
    pub fn len(&self) -> (n: usize)
        ensures
            n == self@.len(),
            table_wf(self@),
    {
        proof {
            use_type_invariant(self);
        }
        self.entries.len()
    }
}

/// The word of the entry whose range `lower < t <= upper` holds the
/// threshold, found by binary search over the descending ranges.
pub fn get_word_at(words: &WordTable, random_frequency_threshold: u64) -> (word: &str)
    requires
        1 <= random_frequency_threshold <= table_total(words@),
    ensures
        word@ == word_for(words@, random_frequency_threshold as int),
        covers(words@, index_for(words@, random_frequency_threshold as int), random_frequency_threshold as int),
        word@ == words@[index_for(words@, random_frequency_threshold as int)].0,
{
    proof {
        use_type_invariant(words);
        lemma_table_covers(words@, random_frequency_threshold as int);
    }
    let x = random_frequency_threshold;
    let ghost target = index_for(words@, x as int);
    let mut lo: usize = 0;
    let mut hi: usize = words.entries.len();
    while lo < hi
        invariant
            table_wf(words@),
            words@.len() == words.entries@.len(),
            covers(words@, target, x as int),
            1 <= x <= table_total(words@),
            x == random_frequency_threshold,
            lo <= target < hi <= words@.len(),
            target == index_for(words@, x as int),
        decreases hi - lo,
    {
        let mid = lo + (hi - lo) / 2;
        let probe = &words.entries[mid];
        assert(words@[mid as int] == entry_view(words.entries@[mid as int]));
        let upper_limit = probe.1;
        let lower_limit = probe.2;
        if upper_limit < x {
            proof {
                if target >= mid as int {
                    if target > mid {
                        lemma_table_descending(words@, mid as int, target);
                    }
                    assert(false);
                }
            }
            hi = mid;
        } else if lower_limit >= x {
            proof {
                if target <= mid as int {
                    if target < mid {
                        lemma_table_descending(words@, target, mid as int);
                    }
                    assert(false);
                }
            }
            lo = mid + 1;
        } else {
            proof {
                assert(covers(words@, mid as int, x as int));
                lemma_table_covers(words@, x as int);
                assert(mid == target);
                assert(words@[mid as int].0 == probe.0@);
            }
            let w = probe.0.as_str();
            assert(w@ == words@[target].0);

            return w;
        }
    }
    proof {
        assert(false);
    }
    words.entries[0].0.as_str()
}

/// `c` with `a` to `z` raised to `A` to `Z`.
pub open spec fn ascii_upper(c: char) -> char {
    if 'a' <= c <= 'z' {
        ((c as u32) - 32) as char
    } else {
        c
    }
}

/// `word` with its first character raised to a capital.
pub open spec fn capitalised(word: Seq<char>) -> Seq<char> {
    seq![ascii_upper(word[0])] + word.subrange(1, word.len() as int)
}

/// `char::to_ascii_uppercase`.
fn to_ascii_uppercase(c: char) -> (u: char)
    ensures
        u == ascii_upper(c),
{
    if 'a' <= c && c <= 'z' {
        let b = (c as u32) - 32;
        proof {
            assert(0x41 <= b <= 0x5A);
        }
        let b8 = b as u8;
        b8 as char
    } else {
        c
    }
}

/// `word` with its first character raised to a capital; the rest is kept.
pub fn capitalised_word(word: &str) -> (capitalised_word: String)
    requires
        word@.len() >= 1,
        word@[0] <= '\u{7f}',
    ensures
        capitalised_word@ == capitalised(word@),
{
    let first = to_ascii_uppercase(word.get_char(0));
    let mut capitalised_word = String::new();
    crate::decimal::push_char(&mut capitalised_word, first);
    let rest = word.substring_char(1, word.unicode_len());
    capitalised_word.append(rest);
    assert(capitalised_word@ =~= capitalised(word@));
    capitalised_word
}


/// Words on one prompt.
pub const MAX_WORDS_PER_SCREEN: usize = 30;

/// Most digits in one run of digits.
pub const MAX_DIGITS_TO_GENERATE: u64 = 8;

/// Words on one line of a prompt.
pub const MAX_WORDS_PER_LINE: usize = 10;

/// Share, in percent, of the pieces after the first that are words.
pub const WORD_OCCURENCE_PERCENT: u8 = 70;

/// Share, in percent, of punctuation pieces, when they are switched on.
pub const SUFFIX_OCCURENCE_PERCENT: u8 = 10;

/// Share, in percent, of bracket pieces, when they are switched on.
pub const ENCLOSER_OCCURENCE_PERCENT: u8 = 15;

/// Share, in percent, of digit runs, when they are switched on.
pub const NUMBER_OCCURENCE_PERCENT: u8 = 5;

/// Pieces that must pass after a punctuation mark or bracket before the next.
pub const MIN_INTERVAL_BETWEEN_SPECIAL_CHARS: u64 = 5;

/// The punctuation marks `.`, `,`, `;`, `?`, `!` by index.
pub open spec fn suffix_char(i: int) -> char {
    if i == 0 {
        '.'
    } else if i == 1 {
        ','
    } else if i == 2 {
        ';'
    } else if i == 3 {
        '?'
    } else {
        '!'
    }
}

/// The opening marks `(`, `[`, `{`, `"`, `<` by index.
pub open spec fn opening_char(i: int) -> char {
    if i == 0 {
        '('
    } else if i == 1 {
        '['
    } else if i == 2 {
        '{'
    } else if i == 3 {
        '"'
    } else {
        '<'
    }
}

/// The closing marks `)`, `]`, `}`, `"`, `>`, paired by index with the
/// opening marks.
pub open spec fn closing_char(i: int) -> char {
    if i == 0 {
        ')'
    } else if i == 1 {
        ']'
    } else if i == 2 {
        '}'
    } else if i == 3 {
        '"'
    } else {
        '>'
    }
}

/// Whether `c` is an opening mark.
pub open spec fn is_opening(c: char) -> bool {
    c == '(' || c == '[' || c == '{' || c == '"' || c == '<'
}

/// Whether `c` is a closing mark.
pub open spec fn is_closing(c: char) -> bool {
    c == ')' || c == ']' || c == '}' || c == '"' || c == '>'
}

/// The upper end of the rolls that give a word.
pub open spec fn word_cf() -> int {
    70
}

/// The upper end of the rolls that give a punctuation mark.
pub open spec fn suffix_cf(s: TextGenerationSettings) -> int {
    word_cf() + if s.contains_suffixes {
        10int
    } else {
        0int
    }
}

/// The upper end of the rolls that give a bracket.
pub open spec fn encloser_cf(s: TextGenerationSettings) -> int {
    suffix_cf(s) + if s.contains_enclosers {
        15int
    } else {
        0int
    }
}

/// The upper end of all rolls: the rolls that give digits end here.
pub open spec fn total_cf(s: TextGenerationSettings) -> int {
    encloser_cf(s) + if s.contains_numbers {
        5int
    } else {
        0int
    }
}

/// The state of prompt generation between two pieces.
pub struct PromptState {
    /// The generator's state.
    pub seed: u64,
    /// The text so far.
    pub text: Seq<char>,
    /// The closing mark that the text still owes, if any.
    pub closing: Option<Seq<char>>,
    /// Whether the next word starts with a capital.
    pub capitalise_next: bool,
    /// Pieces since the last punctuation mark or bracket.
    pub interval: nat,
    /// The last word added, as the table holds it.
    pub last_word: Seq<char>,
    /// The byte offsets at which the lines after the first start.
    pub line_ends: Seq<usize>,
}

/// One draw from `start..=end` from generator state `seed`: the new state
/// and the value.
#[verifier::opaque]
pub open spec fn spec_draw(seed: u64, start: u64, end: u64) -> (u64, u64) {
    let r = lcg_step(seed);
    (r, draw_value(r, start, end) as u64)
}

/// A drawn value lies in its range.
pub proof fn lemma_draw_in_range(seed: u64, start: u64, end: u64)
    requires
        start <= end,
    ensures
        start <= spec_draw(seed, start, end).1 <= end,
{
    reveal(spec_draw);
    let r = lcg_step(seed);
    assert(start <= draw_value(r, start, end) <= end);
}

/// A threshold drawn from `1..=total` and the word it selects.
#[verifier::opaque]
pub open spec fn spec_draw_word(seed: u64, t: Seq<WordEntryView>) -> (u64, Seq<char>) {
    let (s, x) = spec_draw(seed, 1, table_total(t));
    (s, word_for(t, x as int))
}

/// Draws again while the word equals `last`, at most `fuel` times.
pub open spec fn spec_avoid_repeat(
    seed: u64,
    word: Seq<char>,
    last: Seq<char>,
    t: Seq<WordEntryView>,
    fuel: nat,
) -> (u64, Seq<char>)
    decreases fuel,
{
    if word != last || fuel == 0 {
        (seed, word)
    } else {
        let (s, w) = spec_draw_word(seed, t);
        spec_avoid_repeat(s, w, last, t, (fuel - 1) as nat)
    }
}

/// Appends `count` drawn digits (each drawn from `0..=9` and written in
/// decimal) to `text`.
pub open spec fn spec_digits(seed: u64, count: nat, text: Seq<char>) -> (u64, Seq<char>)
    decreases count,
{
    if count == 0 {
        (seed, text)
    } else {
        let (s, d) = spec_draw(seed, 0, 9);
        spec_digits(s, (count - 1) as nat, text + decimal(d as nat))
    }
}

/// Whether a word after `text` is set off by an underscore: unless the text
/// ends in an opening mark, or it ends in a mark that both opens and closes
/// and no closing mark is owed.
pub open spec fn needs_separator(text: Seq<char>, closing: Option<Seq<char>>) -> bool {
    let c = text.last();
    !is_opening(c) || (is_closing(c) && closing is None)
}

/// A word piece: an underscore where [`needs_separator`] says so, then a
/// word unlike the last one, with a capital after a full stop.
pub open spec fn spec_word_piece(
    st: PromptState,
    settings: TextGenerationSettings,
    t: Seq<WordEntryView>,
) -> PromptState {
    let (s1, w1) = spec_draw_word(st.seed, t);
    let text1 = if needs_separator(st.text, st.closing) {
        st.text.push('_')
    } else {
        st.text
    };
    let (s2, w) = spec_avoid_repeat(s1, w1, st.last_word, t, u64::MAX as nat);
    let cap = st.capitalise_next && settings.contains_capital_letters;
    PromptState {
        seed: s2,
        text: text1 + if cap {
            capitalised(w)
        } else {
            w
        },
        closing: st.closing,
        capitalise_next: if cap {
            false
        } else {
            st.capitalise_next
        },
        interval: st.interval,
        last_word: w,
        line_ends: st.line_ends,
    }
}

/// A punctuation piece: a drawn mark, when enough pieces have passed since
/// the last mark; a full stop asks for a capital next.
pub open spec fn spec_suffix_piece(st: PromptState, settings: TextGenerationSettings) -> PromptState {
    if st.interval > 5 {
        let (s, i) = spec_draw(st.seed, 0, 4);
        PromptState {
            seed: s,
            text: st.text.push(suffix_char(i as int)),
            closing: st.closing,
            capitalise_next: if i == 0 && settings.contains_capital_letters {
                true
            } else {
                st.capitalise_next
            },
            interval: 0,
            last_word: st.last_word,
            line_ends: st.line_ends,
        }
    } else {
        st
    }
}

/// A bracket piece: the owed closing mark, when enough pieces have passed;
/// or, when none is owed, an underscore and a drawn opening mark, whose
/// closing mark is then owed.
pub open spec fn spec_encloser_piece(st: PromptState) -> PromptState {
    match st.closing {
        Some(cc) => if st.interval > 5 {
            PromptState {
                seed: st.seed,
                text: st.text + cc,
                closing: None,
                capitalise_next: st.capitalise_next,
                interval: 0,
                last_word: st.last_word,
                line_ends: st.line_ends,
            }
        } else {
            st
        },
        None => {
            let (s, i) = spec_draw(st.seed, 0, 4);
            PromptState {
                seed: s,
                text: st.text.push('_').push(opening_char(i as int)),
                closing: Some(seq![closing_char(i as int)]),
                capitalise_next: st.capitalise_next,
                interval: 0,
                last_word: st.last_word,
                line_ends: st.line_ends,
            }
        },
    }
}

/// A digit piece: an underscore and a drawn number of drawn digits.
pub open spec fn spec_number_piece(st: PromptState) -> PromptState {
    let (s, n) = spec_draw(st.seed, 1, 8);
    let (s2, text) = spec_digits(s, n as nat, st.text.push('_'));
    PromptState {
        seed: s2,
        text: text,
        closing: st.closing,
        capitalise_next: st.capitalise_next,
        interval: st.interval,
        last_word: st.last_word,
        line_ends: st.line_ends,
    }
}

/// One piece of the prompt: a roll from `1..=total_cf` picks a word,
/// punctuation, a bracket or digits; after every tenth piece the byte
/// length of the text marks a line end.
pub open spec fn spec_piece(
    st: PromptState,
    word_count: nat,
    settings: TextGenerationSettings,
    t: Seq<WordEntryView>,
) -> PromptState {
    let (s, roll64) = spec_draw(st.seed, 1, total_cf(settings) as u64);
    let roll = roll64 as u8;
    let st1 = PromptState {
        seed: s,
        text: st.text,
        closing: st.closing,
        capitalise_next: st.capitalise_next,
        interval: st.interval + 1,
        last_word: st.last_word,
        line_ends: st.line_ends,
    };
    let st2 = if 1 <= roll && roll <= word_cf() {
        spec_word_piece(st1, settings, t)
    } else if word_cf() < roll && roll <= suffix_cf(settings) {
        spec_suffix_piece(st1, settings)
    } else if suffix_cf(settings) < roll && roll <= encloser_cf(settings) {
        spec_encloser_piece(st1)
    } else {
        spec_number_piece(st1)
    };
    if word_count % 10 == 0 {
        PromptState {
            seed: st2.seed,
            text: st2.text,
            closing: st2.closing,
            capitalise_next: st2.capitalise_next,
            interval: st2.interval,
            last_word: st2.last_word,
            line_ends: st2.line_ends.push(encode_utf8(st2.text).len() as usize),
        }
    } else {
        st2
    }
}

/// The pieces numbered `word_count` to 30.
pub open spec fn spec_pieces_from(
    st: PromptState,
    word_count: nat,
    settings: TextGenerationSettings,
    t: Seq<WordEntryView>,
) -> PromptState
    decreases 31 - word_count,
{
    if word_count > 30 {
        st
    } else {
        spec_pieces_from(spec_piece(st, word_count, settings, t), word_count + 1, settings, t)
    }
}

/// The first piece: a drawn word, with a capital if capitals are on.
pub open spec fn spec_first_word(
    seed: u64,
    closing: Option<Seq<char>>,
    settings: TextGenerationSettings,
    t: Seq<WordEntryView>,
) -> PromptState {
    let (s, w) = spec_draw_word(seed, t);
    PromptState {
        seed: s,
        text: if settings.contains_capital_letters {
            capitalised(w)
        } else {
            w
        },
        closing: closing,
        capitalise_next: false,
        interval: 0,
        last_word: w,
        line_ends: Seq::empty(),
    }
}

/// The whole prompt generated from generator state `seed` with the owed
/// closing mark `closing`: the first word, then pieces 2 to 30.
pub open spec fn typing_prompt(
    seed: u64,
    closing: Option<Seq<char>>,
    settings: TextGenerationSettings,
    t: Seq<WordEntryView>,
) -> PromptState {
    spec_pieces_from(spec_first_word(seed, closing, settings, t), 2, settings, t)
}

/// The view of an optional string.
pub open spec fn opt_view(o: Option<String>) -> Option<Seq<char>> {
    match o {
        Some(s) => Some(s@),
        None => None,
    }
}

/// Whether `out` is the prompt of `st`, the generator having moved to `seed`.
pub open spec fn prompt_is(out: (String, Option<String>, Vec<usize>), seed: u64, st: PromptState) -> bool {
    &&& out.0@ == st.text
    &&& opt_view(out.1) == st.closing
    &&& out.2@ == st.line_ends
    &&& seed == st.seed
}

/// The words of a well-formed table are non-empty ASCII.
pub proof fn lemma_word_in_table(t: Seq<WordEntryView>, x: int)
    requires
        table_wf(t),
        1 <= x <= table_total(t),
    ensures
        word_for(t, x).len() >= 1,
        is_ascii_chars(word_for(t, x)),
{
    lemma_table_covers(t, x);
    reveal(table_wf);
    let i = index_for(t, x);
    assert(t[i].0.len() >= 1);
    assert(is_ascii_chars(t[i].0));
}

/// A drawn word is a word of the table, so non-empty ASCII.
pub proof fn lemma_drawn_word_ascii(seed: u64, t: Seq<WordEntryView>)
    requires
        table_wf(t),
    ensures
        spec_draw_word(seed, t).1.len() >= 1,
        is_ascii_chars(spec_draw_word(seed, t).1),
{
    reveal(spec_draw_word);
    reveal(table_wf);
    lemma_draw_in_range(seed, 1, table_total(t));
    let (s, x) = spec_draw(seed, 1, table_total(t));
    lemma_word_in_table(t, x as int);
}

fn suffix_char_exec(i: u64) -> (c: char)
    ensures
        c == suffix_char(i as int),
{
    if i == 0 {
        '.'
    } else if i == 1 {
        ','
    } else if i == 2 {
        ';'
    } else if i == 3 {
        '?'
    } else {
        '!'
    }
}

fn opening_char_exec(i: u64) -> (c: char)
    ensures
        c == opening_char(i as int),
{
    if i == 0 {
        '('
    } else if i == 1 {
        '['
    } else if i == 2 {
        '{'
    } else if i == 3 {
        '"'
    } else {
        '<'
    }
}

fn closing_char_exec(i: u64) -> (c: char)
    ensures
        c == closing_char(i as int),
{
    if i == 0 {
        ')'
    } else if i == 1 {
        ']'
    } else if i == 2 {
        '}'
    } else if i == 3 {
        '"'
    } else {
        '>'
    }
}

fn is_opening_exec(c: char) -> (b: bool)
    ensures
        b == is_opening(c),
{
    c == '(' || c == '[' || c == '{' || c == '"' || c == '<'
}

fn is_closing_exec(c: char) -> (b: bool)
    ensures
        b == is_closing(c),
{
    c == ')' || c == ']' || c == '}' || c == '"' || c == '>'
}

/// One draw from `start..=end`; see [`spec_draw`].
fn draw(prng: &mut Lcrng, start: u64, end: u64) -> (v: u64)
    requires
        valid_range(start, end),
    ensures
        spec_draw(old(prng).state(), start, end) == (final(prng).state(), v),
        start <= v <= end,
        final(prng).start_seed() == old(prng).start_seed(),
{
    proof {
        reveal(spec_draw);
    }
    prng.number_in_range_inclusive(start, end)
}

/// Draws a threshold and looks up its word.
fn draw_word(prng: &mut Lcrng, words: &WordTable) -> (w: String)
    ensures
        spec_draw_word(old(prng).state(), words@) == (final(prng).state(), w@),
        w@.len() >= 1,
        is_ascii_chars(w@),
        final(prng).start_seed() == old(prng).start_seed(),
{
    proof {
        reveal(spec_draw_word);
    }
    let total = words.total();
    proof {
        lemma_drawn_word_ascii(prng.state(), words@);
    }
    let x = draw(prng, 1, total);
    String::from_str(get_word_at(words, x))
}

/// Draws again while `word` equals `last`, at most `u64::MAX` times.
fn avoid_repeat(prng: &mut Lcrng, word: String, last: &String, words: &WordTable) -> (w: String)
    requires
        word@.len() >= 1,
        is_ascii_chars(word@),
    ensures
        spec_avoid_repeat(old(prng).state(), word@, last@, words@, u64::MAX as nat) == (
            final(prng).state(),
            w@,
        ),
        w@.len() >= 1,
        is_ascii_chars(w@),
        final(prng).start_seed() == old(prng).start_seed(),
{
    let ghost seed0 = prng.state();
    let ghost word0 = word@;
    let mut w = word;
    let mut redraws: u64 = 0;
    while w == *last && redraws < u64::MAX
        invariant
            spec_avoid_repeat(seed0, word0, last@, words@, u64::MAX as nat) == spec_avoid_repeat(
                prng.state(),
                w@,
                last@,
                words@,
                (u64::MAX - redraws) as nat,
            ),
            w@.len() >= 1,
            is_ascii_chars(w@),
            seed0 == old(prng).state(),
            word0 == word@,
            prng.start_seed() == old(prng).start_seed(),
        decreases u64::MAX - redraws,
    {
        w = draw_word(prng, words);
        redraws = redraws + 1;
    }
    w
}

/// Appends `count` drawn digits to `text`.
fn push_digits(prng: &mut Lcrng, text: &mut String, count: u64)
    ensures
        spec_digits(old(prng).state(), count as nat, old(text)@) == (final(prng).state(), final(text)@),
        final(text)@.len() >= old(text)@.len(),
        final(prng).start_seed() == old(prng).start_seed(),
{
    let ghost seed0 = prng.state();
    let ghost text0 = text@;
    let mut i: u64 = 0;
    while i < count
        invariant
            i <= count,
            seed0 == old(prng).state(),
            text0 == old(text)@,
            text@.len() >= text0.len(),
            spec_digits(seed0, count as nat, text0) == spec_digits(
                prng.state(),
                (count - i) as nat,
                text@,
            ),
            prng.start_seed() == old(prng).start_seed(),
        decreases count - i,
    {
        let d = draw(prng, 0, 9);
        push_zero_padded(text, d as u128, 0);
        i = i + 1;
    }
}

/// The exec state of prompt generation; see [`PromptState`].
struct PromptBuilder {
    text: String,
    closing: Option<String>,
    capitalise_next: bool,
    interval: u64,
    last_word: String,
    line_ends: Vec<usize>,
}

impl PromptBuilder {
    spec fn model(&self, seed: u64) -> PromptState {
        PromptState {
            seed: seed,
            text: self.text@,
            closing: opt_view(self.closing),
            capitalise_next: self.capitalise_next,
            interval: self.interval as nat,
            last_word: self.last_word@,
            line_ends: self.line_ends@,
        }
    }

    fn word_piece(self, prng: &mut Lcrng, settings: &TextGenerationSettings, words: &WordTable) -> (r:
        PromptBuilder)
        requires
            self.text@.len() >= 1,
        ensures
            spec_word_piece(self.model(old(prng).state()), *settings, words@) == r.model(
                final(prng).state(),
            ),
            r.text@.len() >= 1,
            r.interval == self.interval,
            final(prng).start_seed() == old(prng).start_seed(),
    {
        let PromptBuilder { mut text, closing, capitalise_next, interval, last_word, line_ends } =
            self;
        let w1 = draw_word(prng, words);
        let n = text.as_str().unicode_len();
        let last = text.as_str().get_char(n - 1);
        let not_opening = !is_opening_exec(last);
        let closing_last = is_closing_exec(last) && closing.is_none();
        if not_opening || closing_last {
            push_char(&mut text, '_');
        }
        let w = avoid_repeat(prng, w1, &last_word, words);
        let mut capitalise_next = capitalise_next;
        if capitalise_next && settings.contains_capital_letters {
            let c = capitalised_word(w.as_str());
            text.append(c.as_str());
            capitalise_next = false;
        } else {
            text.append(w.as_str());
        }
        PromptBuilder { text, closing, capitalise_next, interval, last_word: w, line_ends }
    }

    fn suffix_piece(self, prng: &mut Lcrng, settings: &TextGenerationSettings) -> (r: PromptBuilder)
        requires
            self.text@.len() >= 1,
        ensures
            spec_suffix_piece(self.model(old(prng).state()), *settings) == r.model(
                final(prng).state(),
            ),
            r.text@.len() >= 1,
            r.interval <= self.interval,
            final(prng).start_seed() == old(prng).start_seed(),
    {
        if self.interval > MIN_INTERVAL_BETWEEN_SPECIAL_CHARS {
            let i = draw(prng, 0, 4);
            let PromptBuilder { mut text, closing, capitalise_next, interval, last_word, line_ends } =
                self;
            push_char(&mut text, suffix_char_exec(i));
            let mut capitalise_next = capitalise_next;
            if i == 0 && settings.contains_capital_letters {
                capitalise_next = true;
            }
            PromptBuilder { text, closing, capitalise_next, interval: 0, last_word, line_ends }
        } else {
            self
        }
    }

    fn encloser_piece(self, prng: &mut Lcrng) -> (r: PromptBuilder)
        requires
            self.text@.len() >= 1,
        ensures
            spec_encloser_piece(self.model(old(prng).state())) == r.model(final(prng).state()),
            r.text@.len() >= 1,
            r.interval <= self.interval,
            final(prng).start_seed() == old(prng).start_seed(),
    {
        let PromptBuilder { mut text, closing, capitalise_next, interval, last_word, line_ends } =
            self;
        match closing {
            Some(cc) => {
                if interval > MIN_INTERVAL_BETWEEN_SPECIAL_CHARS {
                    text.append(cc.as_str());
                    PromptBuilder {
                        text,
                        closing: None,
                        capitalise_next,
                        interval: 0,
                        last_word,
                        line_ends,
                    }
                } else {
                    PromptBuilder {
                        text,
                        closing: Some(cc),
                        capitalise_next,
                        interval,
                        last_word,
                        line_ends,
                    }
                }
            },
            None => {
                push_char(&mut text, '_');
                let index = draw(prng, 0, 4);
                push_char(&mut text, opening_char_exec(index));
                let mut cc = String::new();
                push_char(&mut cc, closing_char_exec(index));
                assert(cc@ =~= seq![closing_char(index as int)]);
                PromptBuilder {
                    text,
                    closing: Some(cc),
                    capitalise_next,
                    interval: 0,
                    last_word,
                    line_ends,
                }
            },
        }
    }

    fn number_piece(self, prng: &mut Lcrng) -> (r: PromptBuilder)
        requires
            self.text@.len() >= 1,
        ensures
            spec_number_piece(self.model(old(prng).state())) == r.model(final(prng).state()),
            r.text@.len() >= 1,
            r.interval == self.interval,
            final(prng).start_seed() == old(prng).start_seed(),
    {
        let PromptBuilder { mut text, closing, capitalise_next, interval, last_word, line_ends } =
            self;
        push_char(&mut text, '_');
        let digits_to_generate = draw(prng, 1, MAX_DIGITS_TO_GENERATE);
        push_digits(prng, &mut text, digits_to_generate);
        PromptBuilder { text, closing, capitalise_next, interval, last_word, line_ends }
    }

    fn piece(
        self,
        prng: &mut Lcrng,
        word_count: usize,
        settings: &TextGenerationSettings,
        words: &WordTable,
    ) -> (r: PromptBuilder)
        requires
            self.text@.len() >= 1,
            self.interval < 100,
        ensures
            spec_piece(self.model(old(prng).state()), word_count as nat, *settings, words@)
                == r.model(final(prng).state()),
            r.text@.len() >= 1,
            r.interval <= self.interval + 1,
            final(prng).start_seed() == old(prng).start_seed(),
    {
        let suffix_occurence_percentage: u8 = if settings.contains_suffixes {
            SUFFIX_OCCURENCE_PERCENT
        } else {
            0
        };
        let encloser_occurence_percentage: u8 = if settings.contains_enclosers {
            ENCLOSER_OCCURENCE_PERCENT
        } else {
            0
        };
        let number_occurence_percentage: u8 = if settings.contains_numbers {
            NUMBER_OCCURENCE_PERCENT
        } else {
            0
        };
        let word_cf: u8 = WORD_OCCURENCE_PERCENT;
        let suffix_cf: u8 = word_cf + suffix_occurence_percentage;
        let encloser_cf: u8 = suffix_cf + encloser_occurence_percentage;
        let total_cf: u8 = encloser_cf + number_occurence_percentage;
        let roll64 = draw(prng, 1, total_cf as u64);
        let char_kind_roll = roll64 as u8;
        let PromptBuilder { text, closing, capitalise_next, interval, last_word, line_ends } = self;
        let b1 = PromptBuilder {
            text,
            closing,
            capitalise_next,
            interval: interval + 1,
            last_word,
            line_ends,
        };
        // The roll lies in `1..=total_cf`, so one of the four kinds applies.
        let b2 = if 1 <= char_kind_roll && char_kind_roll <= word_cf {
            b1.word_piece(prng, settings, words)
        } else if word_cf < char_kind_roll && char_kind_roll <= suffix_cf {
            b1.suffix_piece(prng, settings)
        } else if suffix_cf < char_kind_roll && char_kind_roll <= encloser_cf {
            b1.encloser_piece(prng)
        } else {
            b1.number_piece(prng)
        };
        if word_count % MAX_WORDS_PER_LINE == 0 {
            let PromptBuilder {
                text,
                closing,
                capitalise_next,
                interval,
                last_word,
                mut line_ends,
            } = b2;
            // The index corresponds to the first character on the next line.
            let len = text.as_str().len();
            line_ends.push(len);
            PromptBuilder { text, closing, capitalise_next, interval, last_word, line_ends }
        } else {
            b2
        }
    }
}

/// The prompt, generated from the generator's state, the closing mark still
/// owed from the last prompt, the settings and the word table: the text, the
/// closing mark it now owes, and the byte offsets at which its second and
/// later lines start.
pub fn generate_typing_prompt(
    prng: &mut Lcrng,
    maybe_closing_char: Option<String>,
    text_gen_settings: &TextGenerationSettings,
    words: &WordTable,
) -> (out: (String, Option<String>, Vec<usize>))
    ensures
        prompt_is(
            out,
            final(prng).state(),
            typing_prompt(
                old(prng).state(),
                opt_view(maybe_closing_char),
                *text_gen_settings,
                words@,
            ),
        ),
        final(prng).start_seed() == old(prng).start_seed(),
{
    let ghost seed0 = prng.state();
    let ghost closing0 = opt_view(maybe_closing_char);
    let settings = text_gen_settings;
    let first = draw_word(prng, words);
    let text = if settings.contains_capital_letters {
        capitalised_word(first.as_str())
    } else {
        String::from_str(first.as_str())
    };
    let mut b = PromptBuilder {
        text,
        closing: maybe_closing_char,
        capitalise_next: false,
        interval: 0,
        last_word: first,
        line_ends: Vec::new(),
    };
    assert(b.model(prng.state()) == spec_first_word(seed0, closing0, *settings, words@));
    let mut word_count: usize = 2;
    while word_count <= MAX_WORDS_PER_SCREEN
        invariant
            2 <= word_count <= 31,
            b.interval < word_count,
            b.text@.len() >= 1,
            typing_prompt(seed0, closing0, *settings, words@) == spec_pieces_from(
                b.model(prng.state()),
                word_count as nat,
                *settings,
                words@,
            ),
            seed0 == old(prng).state(),
            closing0 == opt_view(maybe_closing_char),
            prng.start_seed() == old(prng).start_seed(),
        decreases 31 - word_count,
    {
        b = b.piece(prng, word_count, settings, words);
        word_count = word_count + 1;
    }
    (b.text, b.closing, b.line_ends)
}

} // verus!
