//! What every generated prompt satisfies: its line ends and non-empty lines,
//! its ASCII text, how its brackets pair up and the closing mark it owes, no
//! word twice in a row, how far it moves the generator, and the entry that
//! the largest threshold selects.
use vstd::prelude::*;
use vstd::utf8::{encode_utf8, encode_scalar, is_ascii_chars, is_ascii_chars_encode_utf8};
use crate::persist::TextGenerationSettings;
use crate::prng::{lcg_step, lcg_iterate};
use crate::text_gen::{
    PromptState,
    WordEntryView,
    table_wf,
    table_total,
    covers,
    index_for,
    word_for,
    lemma_table_covers,
    lemma_draw_in_range,
    lemma_drawn_word_ascii,
    ascii_upper,
    spec_draw,
    spec_draw_word,
    spec_avoid_repeat,
    spec_digits,
    spec_word_piece,
    spec_suffix_piece,
    spec_encloser_piece,
    spec_number_piece,
    spec_piece,
    spec_pieces_from,
    spec_first_word,
    typing_prompt,
    prompt_is,
    opt_view,
    needs_separator,
    capitalised,
    is_opening,
    is_closing,
    suffix_char,
    opening_char,
    closing_char,
    word_cf,
    suffix_cf,
    encloser_cf,
    total_cf,
};

verus! {

/// The UTF-8 encoding of a concatenation is the concatenation of the
/// encodings.
pub proof fn lemma_encode_concat(a: Seq<char>, b: Seq<char>)
    ensures
        encode_utf8(a + b) == encode_utf8(a) + encode_utf8(b),
    decreases a.len(),
{
    if a.len() == 0 {
        assert(a + b =~= b);
        assert(encode_utf8(a) =~= Seq::<u8>::empty());
        assert(encode_utf8(a) + encode_utf8(b) =~= encode_utf8(b));
    } else {
        assert((a + b).drop_first() =~= a.drop_first() + b);
        assert((a + b)[0] == a[0]);
        lemma_encode_concat(a.drop_first(), b);
        assert(encode_utf8(a + b) == encode_scalar((a + b)[0] as u32) + encode_utf8((a + b).drop_first()));
        assert(encode_utf8(a) == encode_scalar(a[0] as u32) + encode_utf8(a.drop_first()));
        assert(encode_utf8(a + b) =~= encode_utf8(a) + encode_utf8(b));
    }
}

/// A longer text encodes to at least as many bytes as its prefix.
pub proof fn lemma_encode_prefix_len(a: Seq<char>, b: Seq<char>)
    requires
        a.is_prefix_of(b),
    ensures
        encode_utf8(a).len() <= encode_utf8(b).len(),
{
    let rest = b.subrange(a.len() as int, b.len() as int);
    assert(b =~= a + rest);
    lemma_encode_concat(a, rest);
}

proof fn lemma_prefix_append(a: Seq<char>, extra: Seq<char>)
    ensures
        a.is_prefix_of(a + extra),
{
    assert((a + extra).subrange(0, a.len() as int) =~= a);
}

proof fn lemma_prefix_push(a: Seq<char>, c: char)
    ensures
        a.is_prefix_of(a.push(c)),
{
    assert(a.push(c).subrange(0, a.len() as int) =~= a);
}

proof fn lemma_prefix_trans(a: Seq<char>, b: Seq<char>, c: Seq<char>)
    requires
        a.is_prefix_of(b),
        b.is_prefix_of(c),
    ensures
        a.is_prefix_of(c),
{
    assert(c.subrange(0, a.len() as int) =~= b.subrange(0, a.len() as int));
}

/// Digits only extend the text.
proof fn lemma_digits_extend(seed: u64, count: nat, text: Seq<char>)
    ensures
        text.is_prefix_of(spec_digits(seed, count, text).1),
    decreases count,
{
    lemma_prefix_trans_refl(text);
    if count > 0 {
        let (s, d) = spec_draw(seed, 0, 9);
        let t2 = text + crate::decimal::decimal(d as nat);
        lemma_digits_extend(s, (count - 1) as nat, t2);
        lemma_prefix_append(text, crate::decimal::decimal(d as nat));
        lemma_prefix_trans(text, t2, spec_digits(s, (count - 1) as nat, t2).1);
    }
}

proof fn lemma_prefix_trans_refl(a: Seq<char>)
    ensures
        a.is_prefix_of(a),
{
    assert(a.subrange(0, a.len() as int) =~= a);
}

/// Whether `c` is a closing mark owed by a generated prompt: none, the mark
/// `c0` owed before it, or one of the five closing marks.
pub open spec fn owed_mark_ok(c: Option<Seq<char>>, c0: Option<Seq<char>>) -> bool {
    c is None || c == c0 || exists|i: int| 0 <= i <= 4 && c == Some(seq![closing_char(i)])
}

/// What one piece does apart from its line end: the text only grows, the
/// line ends stay, and the owed mark stays a valid one (and stays the same
/// when brackets are off).
spec fn piece_core_ok(
    st: PromptState,
    st2: PromptState,
    c0: Option<Seq<char>>,
    settings: TextGenerationSettings,
) -> bool {
    &&& st.text.is_prefix_of(st2.text)
    &&& st2.line_ends == st.line_ends
    &&& owed_mark_ok(st.closing, c0) ==> owed_mark_ok(st2.closing, c0)
    &&& !settings.contains_enclosers ==> st2.closing == st.closing
}

proof fn lemma_piece_core(
    st: PromptState,
    word_count: nat,
    settings: TextGenerationSettings,
    t: Seq<WordEntryView>,
    c0: Option<Seq<char>>,
)
    ensures
        ({
            let st2 = spec_piece(st, word_count, settings, t);
            &&& st.text.is_prefix_of(st2.text)
            &&& owed_mark_ok(st.closing, c0) ==> owed_mark_ok(st2.closing, c0)
            &&& !settings.contains_enclosers ==> st2.closing == st.closing
            &&& st2.line_ends == if word_count % 10 == 0 {
                st.line_ends.push(encode_utf8(st2.text).len() as usize)
            } else {
                st.line_ends
            }
        }),
{
    let (s, roll64) = spec_draw(st.seed, 1, total_cf(settings) as u64);
    let roll = roll64 as u8;
    let st1 = PromptState {
        seed: s,
        text: st.text,
        closing: st.closing,
        capitalise_next: st.capitalise_next,
        interval: st.interval + 1,
        last_word: st.last_word,
        line_ends: st.line_ends,
    };
    lemma_prefix_trans_refl(st.text);
    if 1 <= roll && roll <= word_cf() {
        let r = spec_word_piece(st1, settings, t);
        let (s1, w1) = spec_draw_word(st1.seed, t);
        let text1 = if needs_separator(st1.text, st1.closing) {
            st1.text.push('_')
        } else {
            st1.text
        };
        lemma_prefix_push(st1.text, '_');
        let (s2, w) = spec_avoid_repeat(s1, w1, st1.last_word, t, u64::MAX as nat);
        let extra = if st1.capitalise_next && settings.contains_capital_letters {
            capitalised(w)
        } else {
            w
        };
        lemma_prefix_append(text1, extra);
        lemma_prefix_trans(st.text, text1, r.text);
        assert(piece_core_ok(st, r, c0, settings));
    } else if word_cf() < roll && roll <= suffix_cf(settings) {
        let r = spec_suffix_piece(st1, settings);
        if st1.interval > 5 {
            let (s2, i) = spec_draw(st1.seed, 0, 4);
            lemma_prefix_push(st.text, suffix_char(i as int));
        }
        assert(piece_core_ok(st, r, c0, settings));
    } else if suffix_cf(settings) < roll && roll <= encloser_cf(settings) {
        assert(settings.contains_enclosers);
        let r = spec_encloser_piece(st1);
        match st1.closing {
            Some(cc) => {
                lemma_prefix_append(st.text, cc);
            },
            None => {
                lemma_draw_in_range(st1.seed, 0, 4);
                let (s2, i) = spec_draw(st1.seed, 0, 4);
                lemma_prefix_push(st.text, '_');
                lemma_prefix_push(st.text.push('_'), opening_char(i as int));
                lemma_prefix_trans(st.text, st.text.push('_'), st.text.push('_').push(opening_char(i as int)));
                assert(0 <= i <= 4 && r.closing == Some(seq![closing_char(i as int)]));
            },
        }
        assert(piece_core_ok(st, r, c0, settings));
    } else {
        let r = spec_number_piece(st1);
        let (s2, n) = spec_draw(st1.seed, 1, 8);
        lemma_prefix_push(st.text, '_');
        lemma_digits_extend(s2, n as nat, st.text.push('_'));
        lemma_prefix_trans(st.text, st.text.push('_'), r.text);
        assert(piece_core_ok(st, r, c0, settings));
    }
}

/// What holds between pieces, before piece `word_count`.
spec fn pieces_inv(st: PromptState, word_count: nat, c0: Option<Seq<char>>, settings: TextGenerationSettings) -> bool {
    let len = encode_utf8(st.text).len();
    &&& st.line_ends.len() == (word_count - 1) / 10
    &&& word_count >= 11 && (word_count - 1) % 10 == 0 ==> st.line_ends.last() == len as usize
    &&& len <= usize::MAX ==> (forall|i: int, j: int|
        0 <= i <= j < st.line_ends.len() ==> st.line_ends[i] <= st.line_ends[j])
    &&& len <= usize::MAX ==> (forall|i: int| 0 <= i < st.line_ends.len() ==> st.line_ends[i] <= len)
    &&& owed_mark_ok(st.closing, c0)
    &&& !settings.contains_enclosers ==> st.closing == c0
}

proof fn lemma_pieces_from(
    st: PromptState,
    word_count: nat,
    settings: TextGenerationSettings,
    t: Seq<WordEntryView>,
    c0: Option<Seq<char>>,
)
    requires
        2 <= word_count <= 31,
        pieces_inv(st, word_count, c0, settings),
    ensures
        pieces_inv(spec_pieces_from(st, word_count, settings, t), 31, c0, settings),
    decreases 31 - word_count,
{
    if word_count <= 30 {
        let st2 = spec_piece(st, word_count, settings, t);
        lemma_piece_core(st, word_count, settings, t, c0);
        lemma_encode_prefix_len(st.text, st2.text);
        let len1 = encode_utf8(st.text).len();
        let len2 = encode_utf8(st2.text).len();
        assert(len1 <= len2);
        assert(pieces_inv(st2, word_count + 1, c0, settings)) by {
            if word_count % 10 == 0 {
                assert(st2.line_ends.last() == len2 as usize);
                if len2 <= usize::MAX {
                    assert forall|i: int, j: int|
                        0 <= i <= j < st2.line_ends.len() implies st2.line_ends[i]
                        <= st2.line_ends[j] by {
                        if j == st2.line_ends.len() - 1 {
                            if i < j {
                                assert(st2.line_ends[i] == st.line_ends[i]);
                            }
                        } else {
                            assert(st2.line_ends[i] == st.line_ends[i]);
                            assert(st2.line_ends[j] == st.line_ends[j]);
                        }
                    }
                    assert forall|i: int| 0 <= i < st2.line_ends.len() implies st2.line_ends[i]
                        <= len2 by {
                        if i < st.line_ends.len() {
                            assert(st2.line_ends[i] == st.line_ends[i]);
                        }
                    }
                }
            }
        }
        lemma_pieces_from(st2, word_count + 1, settings, t, c0);
    }
}

/// Every generated prompt ends three lines, the last at the end of its text
/// (in bytes); the line ends ascend and lie within the text.
pub proof fn law_prompt_line_ends(
    seed: u64,
    closing: Option<Seq<char>>,
    settings: TextGenerationSettings,
    t: Seq<WordEntryView>,
)
    ensures
        ({
            let st = typing_prompt(seed, closing, settings, t);
            let len = encode_utf8(st.text).len();
            &&& st.line_ends.len() == 3
            &&& st.line_ends[2] == len as usize
            &&& len <= usize::MAX ==> st.line_ends[0] <= st.line_ends[1] <= st.line_ends[2]
        }),
{
    let st0 = spec_first_word(seed, closing, settings, t);
    lemma_pieces_from(st0, 2, settings, t, closing);
    let st = typing_prompt(seed, closing, settings, t);
    assert(st.line_ends.last() == st.line_ends[2]);
}

/// The closing mark that a prompt leaves owed is none, the one owed before
/// it, or one of `)`, `]`, `}`, `"`, `>`; without brackets it is the one
/// owed before.
pub proof fn law_prompt_owed_mark(
    seed: u64,
    closing: Option<Seq<char>>,
    settings: TextGenerationSettings,
    t: Seq<WordEntryView>,
)
    ensures
        owed_mark_ok(typing_prompt(seed, closing, settings, t).closing, closing),
        !settings.contains_enclosers ==> typing_prompt(seed, closing, settings, t).closing
            == closing,
{
    let st0 = spec_first_word(seed, closing, settings, t);
    lemma_pieces_from(st0, 2, settings, t, closing);
}

/// Whether an owed mark is absent or not empty.
pub open spec fn owed_mark_nonempty(c: Option<Seq<char>>) -> bool {
    match c {
        Some(cc) => cc.len() >= 1,
        None => true,
    }
}

/// A non-empty text encodes to at least one byte.
proof fn lemma_encode_nonempty(a: Seq<char>)
    requires
        a.len() >= 1,
    ensures
        encode_utf8(a).len() >= 1,
{
    assert(encode_utf8(a) == encode_scalar(a[0] as u32) + encode_utf8(a.drop_first()));
}

/// A text that strictly extends another encodes to strictly more bytes.
proof fn lemma_encode_longer(a: Seq<char>, b: Seq<char>)
    requires
        a.is_prefix_of(b),
        a.len() < b.len(),
    ensures
        encode_utf8(a).len() < encode_utf8(b).len(),
{
    let rest = b.subrange(a.len() as int, b.len() as int);
    assert(b =~= a + rest);
    lemma_encode_concat(a, rest);
    lemma_encode_nonempty(rest);
}

/// A capitalised word is as long as the word.
proof fn lemma_capitalised_len(w: Seq<char>)
    requires
        w.len() >= 1,
    ensures
        capitalised(w).len() == w.len(),
{
}

/// What one piece adds: either the text grows, or it stays as it was while
/// the count of pieces since the last mark grows by one and stays at most
/// five. The owed mark stays absent or non-empty.
proof fn lemma_piece_growth(
    st: PromptState,
    word_count: nat,
    settings: TextGenerationSettings,
    t: Seq<WordEntryView>,
)
    requires
        table_wf(t),
        owed_mark_nonempty(st.closing),
    ensures
        ({
            let st2 = spec_piece(st, word_count, settings, t);
            &&& owed_mark_nonempty(st2.closing)
            &&& st2.text.len() > st.text.len() || (st2.text == st.text && st2.interval
                == st.interval + 1 && st2.interval <= 5)
        }),
{
    let (s, roll64) = spec_draw(st.seed, 1, total_cf(settings) as u64);
    let roll = roll64 as u8;
    let st1 = PromptState {
        seed: s,
        text: st.text,
        closing: st.closing,
        capitalise_next: st.capitalise_next,
        interval: st.interval + 1,
        last_word: st.last_word,
        line_ends: st.line_ends,
    };
    if 1 <= roll && roll <= word_cf() {
        let (s1, w1) = spec_draw_word(st1.seed, t);
        lemma_drawn_word_ascii(st1.seed, t);
        lemma_kept_word_ascii(s1, w1, st1.last_word, t, u64::MAX as nat);
        let (s2, w) = spec_avoid_repeat(s1, w1, st1.last_word, t, u64::MAX as nat);
        lemma_capitalised_len(w);
    } else if word_cf() < roll && roll <= suffix_cf(settings) {
    } else if suffix_cf(settings) < roll && roll <= encloser_cf(settings) {
    } else {
        let (s2, n) = spec_draw(st1.seed, 1, 8);
        lemma_digits_extend(s2, n as nat, st.text.push('_'));
    }
}

/// What holds between pieces, before piece `word_count`, of a prompt whose
/// lines are not empty: the line ends so far strictly ascend, and since the
/// last one either the text has grown or every piece left it as it was.
spec fn growth_inv(st: PromptState, word_count: nat) -> bool {
    let len = encode_utf8(st.text).len();
    &&& st.line_ends.len() == (word_count - 1) / 10
    &&& len >= 1
    &&& owed_mark_nonempty(st.closing)
    &&& len <= usize::MAX ==> (forall|i: int, j: int|
        0 <= i < j < st.line_ends.len() ==> #[trigger] st.line_ends[i] < #[trigger] st.line_ends[j])
    &&& len <= usize::MAX ==> (forall|i: int|
        0 <= i < st.line_ends.len() ==> 1 <= #[trigger] st.line_ends[i] <= len)
    &&& len <= usize::MAX && st.line_ends.len() > 0 ==> (st.line_ends.last() < len || st.interval
        >= (word_count - 1) % 10)
}

proof fn lemma_pieces_grow(
    st: PromptState,
    word_count: nat,
    settings: TextGenerationSettings,
    t: Seq<WordEntryView>,
)
    requires
        2 <= word_count <= 31,
        table_wf(t),
        growth_inv(st, word_count),
    ensures
        growth_inv(spec_pieces_from(st, word_count, settings, t), 31),
    decreases 31 - word_count,
{
    if word_count <= 30 {
        let st2 = spec_piece(st, word_count, settings, t);
        lemma_piece_core(st, word_count, settings, t, st.closing);
        lemma_piece_growth(st, word_count, settings, t);
        lemma_encode_prefix_len(st.text, st2.text);
        let grown = st2.text.len() > st.text.len();
        if grown {
            lemma_encode_longer(st.text, st2.text);
        } else {
            assert(st2.text =~= st.text);
        }
        let len1 = encode_utf8(st.text).len();
        let len2 = encode_utf8(st2.text).len();
        assert(growth_inv(st2, word_count + 1)) by {
            if len2 <= usize::MAX {
                assert(len1 <= usize::MAX);
                if word_count % 10 == 0 {
                    assert(st2.line_ends == st.line_ends.push(len2 as usize));
                    if st.line_ends.len() > 0 {
                        assert(st.line_ends.last() < len2);
                        assert forall|i: int| 0 <= i < st.line_ends.len() implies #[trigger] st.line_ends[i] < len2 by {
                            if i < st.line_ends.len() - 1 {
                                assert(st.line_ends[i] < st.line_ends[st.line_ends.len() - 1]);
                            }
                        }
                    }
                    assert forall|i: int, j: int| 0 <= i < j < st2.line_ends.len() implies #[trigger] st2.line_ends[i] < #[trigger] st2.line_ends[j] by {
                        if j == st2.line_ends.len() - 1 {
                            assert(st2.line_ends[i] == st.line_ends[i]);
                        } else {
                            assert(st2.line_ends[i] == st.line_ends[i]);
                            assert(st2.line_ends[j] == st.line_ends[j]);
                        }
                    }
                    assert forall|i: int| 0 <= i < st2.line_ends.len() implies 1 <= #[trigger] st2.line_ends[i] <= len2 by {
                        if i < st.line_ends.len() {
                            assert(st2.line_ends[i] == st.line_ends[i]);
                        }
                    }
                } else {
                    assert(st2.line_ends == st.line_ends);
                }
            }
        }
        lemma_pieces_grow(st2, word_count + 1, settings, t);
    }
}

/// No line of a prompt is empty: its line ends are positive and strictly
/// ascend, given a table of non-empty words and an owed mark that is absent
/// or not empty. (A run of pieces that adds nothing is at most five long,
/// and a line holds ten pieces.)
pub proof fn law_prompt_lines_not_empty(
    seed: u64,
    closing: Option<Seq<char>>,
    settings: TextGenerationSettings,
    t: Seq<WordEntryView>,
)
    requires
        table_wf(t),
        owed_mark_nonempty(closing),
    ensures
        ({
            let st = typing_prompt(seed, closing, settings, t);
            encode_utf8(st.text).len() <= usize::MAX ==> 1 <= st.line_ends[0] < st.line_ends[1]
                < st.line_ends[2]
        }),
{
    lemma_drawn_word_ascii(seed, t);
    let (s, w) = spec_draw_word(seed, t);
    lemma_capitalised_len(w);
    let st0 = spec_first_word(seed, closing, settings, t);
    lemma_encode_nonempty(st0.text);
    lemma_pieces_grow(st0, 2, settings, t);
    law_prompt_line_ends(seed, closing, settings, t);
    let st = typing_prompt(seed, closing, settings, t);
    if encode_utf8(st.text).len() <= usize::MAX {
        assert(st.line_ends[0] < st.line_ends[1]);
        assert(st.line_ends[1] < st.line_ends[2]);
        assert(1 <= st.line_ends[0]);
    }
}

/// Whether the generator reaches state `y` from state `x` in at least `n`
/// steps.
pub open spec fn steps_at_least(x: u64, y: u64, n: nat) -> bool {
    exists|k: nat| k >= n && #[trigger] lcg_iterate(x, k) == y
}

/// `a` steps and then `b` steps are `a + b` steps.
proof fn lemma_iterate_add(x: u64, a: nat, b: nat)
    ensures
        lcg_iterate(lcg_iterate(x, a), b) == lcg_iterate(x, a + b),
    decreases b,
{
    if b > 0 {
        lemma_iterate_add(x, a, (b - 1) as nat);
        assert((a + b - 1) as nat == a + (b - 1) as nat);
    }
}

proof fn lemma_steps_trans(x: u64, y: u64, z: u64, a: nat, b: nat)
    requires
        steps_at_least(x, y, a),
        steps_at_least(y, z, b),
    ensures
        steps_at_least(x, z, a + b),
{
    let k1 = choose|k: nat| k >= a && #[trigger] lcg_iterate(x, k) == y;
    let k2 = choose|k: nat| k >= b && #[trigger] lcg_iterate(y, k) == z;
    lemma_iterate_add(x, k1, k2);
    assert(lcg_iterate(x, k1 + k2) == z);
}

proof fn lemma_steps_refl(x: u64)
    ensures
        steps_at_least(x, x, 0),
{
    assert(lcg_iterate(x, 0) == x);
}

/// A draw moves the generator by one step.
proof fn lemma_draw_steps(seed: u64, start: u64, end: u64)
    ensures
        steps_at_least(seed, spec_draw(seed, start, end).0, 1),
{
    reveal(spec_draw);
    assert(lcg_iterate(seed, 0) == seed);
    assert(lcg_iterate(seed, 1) == lcg_step(seed));
}

proof fn lemma_draw_word_steps(seed: u64, t: Seq<WordEntryView>)
    ensures
        steps_at_least(seed, spec_draw_word(seed, t).0, 1),
{
    reveal(spec_draw_word);
    lemma_draw_steps(seed, 1, table_total(t));
}

proof fn lemma_avoid_repeat_steps(
    seed: u64,
    word: Seq<char>,
    last: Seq<char>,
    t: Seq<WordEntryView>,
    fuel: nat,
)
    ensures
        steps_at_least(seed, spec_avoid_repeat(seed, word, last, t, fuel).0, 0),
    decreases fuel,
{
    if word != last || fuel == 0 {
        lemma_steps_refl(seed);
    } else {
        let (s, w) = spec_draw_word(seed, t);
        lemma_draw_word_steps(seed, t);
        lemma_avoid_repeat_steps(s, w, last, t, (fuel - 1) as nat);
        lemma_steps_trans(seed, s, spec_avoid_repeat(s, w, last, t, (fuel - 1) as nat).0, 1, 0);
    }
}

proof fn lemma_digits_steps(seed: u64, count: nat, text: Seq<char>)
    ensures
        steps_at_least(seed, spec_digits(seed, count, text).0, 0),
    decreases count,
{
    if count == 0 {
        lemma_steps_refl(seed);
    } else {
        let (s, d) = spec_draw(seed, 0, 9);
        let t2 = text + crate::decimal::decimal(d as nat);
        lemma_draw_steps(seed, 0, 9);
        lemma_digits_steps(s, (count - 1) as nat, t2);
        lemma_steps_trans(seed, s, spec_digits(s, (count - 1) as nat, t2).0, 1, 0);
    }
}

/// A piece moves the generator by at least the one step of its roll.
proof fn lemma_piece_steps(
    st: PromptState,
    word_count: nat,
    settings: TextGenerationSettings,
    t: Seq<WordEntryView>,
)
    ensures
        steps_at_least(st.seed, spec_piece(st, word_count, settings, t).seed, 1),
{
    let (s, roll64) = spec_draw(st.seed, 1, total_cf(settings) as u64);
    let roll = roll64 as u8;
    let st1 = PromptState {
        seed: s,
        text: st.text,
        closing: st.closing,
        capitalise_next: st.capitalise_next,
        interval: st.interval + 1,
        last_word: st.last_word,
        line_ends: st.line_ends,
    };
    lemma_draw_steps(st.seed, 1, total_cf(settings) as u64);
    let st2 = spec_piece(st, word_count, settings, t);
    assert(steps_at_least(s, st2.seed, 0)) by {
        lemma_steps_refl(s);
        if 1 <= roll && roll <= word_cf() {
            let (s1, w1) = spec_draw_word(s, t);
            lemma_draw_word_steps(s, t);
            lemma_avoid_repeat_steps(s1, w1, st1.last_word, t, u64::MAX as nat);
            lemma_steps_trans(s, s1, st2.seed, 1, 0);
        } else if word_cf() < roll && roll <= suffix_cf(settings) {
            lemma_draw_steps(s, 0, 4);
        } else if suffix_cf(settings) < roll && roll <= encloser_cf(settings) {
            lemma_draw_steps(s, 0, 4);
        } else {
            let (s2, n) = spec_draw(s, 1, 8);
            lemma_draw_steps(s, 1, 8);
            lemma_digits_steps(s2, n as nat, st.text.push('_'));
            lemma_steps_trans(s, s2, st2.seed, 1, 0);
        }
    }
    lemma_steps_trans(st.seed, s, st2.seed, 1, 0);
}

proof fn lemma_pieces_steps(
    st: PromptState,
    word_count: nat,
    settings: TextGenerationSettings,
    t: Seq<WordEntryView>,
)
    requires
        word_count <= 31,
    ensures
        steps_at_least(st.seed, spec_pieces_from(st, word_count, settings, t).seed, (31
            - word_count) as nat),
    decreases 31 - word_count,
{
    if word_count > 30 {
        lemma_steps_refl(st.seed);
    } else {
        let st2 = spec_piece(st, word_count, settings, t);
        lemma_piece_steps(st, word_count, settings, t);
        lemma_pieces_steps(st2, word_count + 1, settings, t);
        lemma_steps_trans(
            st.seed,
            st2.seed,
            spec_pieces_from(st2, word_count + 1, settings, t).seed,
            1,
            (31 - (word_count + 1)) as nat,
        );
    }
}

/// A prompt moves the generator on by at least thirty steps: one draw for
/// the first word and one roll for each of the twenty-nine pieces after it.
pub proof fn law_prompt_advances_generator(
    seed: u64,
    closing: Option<Seq<char>>,
    settings: TextGenerationSettings,
    t: Seq<WordEntryView>,
)
    ensures
        steps_at_least(seed, typing_prompt(seed, closing, settings, t).seed, 30),
{
    let st0 = spec_first_word(seed, closing, settings, t);
    lemma_draw_word_steps(seed, t);
    lemma_pieces_steps(st0, 2, settings, t);
    lemma_steps_trans(seed, st0.seed, typing_prompt(seed, closing, settings, t).seed, 1, 29);
}

/// Prompts generated from generators in the same state, with the same owed
/// mark, settings and table, are the same prompt, and leave the generators
/// in the same state.
pub proof fn law_same_state_same_prompt(
    out1: (String, Option<String>, Vec<usize>),
    out2: (String, Option<String>, Vec<usize>),
    after1: u64,
    after2: u64,
    seed: u64,
    closing: Option<Seq<char>>,
    settings: TextGenerationSettings,
    t: Seq<WordEntryView>,
)
    requires
        prompt_is(out1, after1, typing_prompt(seed, closing, settings, t)),
        prompt_is(out2, after2, typing_prompt(seed, closing, settings, t)),
    ensures
        out1.0@ == out2.0@,
        opt_view(out1.1) == opt_view(out2.1),
        out1.2@ == out2.2@,
        after1 == after2,
{
}

/// Whether `c` is a bracket or quote mark, opening or closing.
pub open spec fn is_mark(c: char) -> bool {
    is_opening(c) || is_closing(c)
}

/// The closing partner of an opening mark.
pub open spec fn partner(c: char) -> char {
    if c == '(' {
        ')'
    } else if c == '[' {
        ']'
    } else if c == '{' {
        '}'
    } else if c == '<' {
        '>'
    } else {
        c
    }
}

/// Reads one character, given the mark owed so far (`None` once a mark came
/// out of place): a closing mark must be the one owed and settles it; an
/// opening mark may come only when none is owed, and makes its partner owed.
pub open spec fn scan_step(owed: Option<Option<char>>, c: char) -> Option<Option<char>> {
    match owed {
        None => None,
        Some(o) => if !is_mark(c) {
            Some(o)
        } else if o == Some(c) {
            Some(None)
        } else if o is None && is_opening(c) {
            Some(Some(partner(c)))
        } else {
            None
        },
    }
}

/// Reads `text` from the left, starting with the mark `owed`: the mark owed
/// at the end, or `None` if a mark came out of place.
pub open spec fn scan_marks(text: Seq<char>, owed: Option<char>) -> Option<Option<char>>
    decreases text.len(),
{
    if text.len() == 0 {
        Some(owed)
    } else {
        scan_step(scan_marks(text.drop_last(), owed), text.last())
    }
}

/// The character of an owed closing mark.
pub open spec fn owed_char(c: Option<Seq<char>>) -> Option<char> {
    match c {
        Some(cc) => Some(cc[0]),
        None => None,
    }
}

/// Whether an owed mark is none or one of the five closing marks.
pub open spec fn single_closing(c: Option<Seq<char>>) -> bool {
    c is None || exists|i: int| 0 <= i <= 4 && c == Some(seq![closing_char(i)])
}

/// Whether no word of the table holds a bracket or quote mark.
pub open spec fn words_plain(t: Seq<WordEntryView>) -> bool {
    forall|i: int, j: int|
        0 <= i < t.len() && 0 <= j < t[i].0.len() ==> !is_mark(#[trigger] t[i].0[j])
}

/// Whether `w` holds no bracket or quote mark.
pub open spec fn plain(w: Seq<char>) -> bool {
    forall|j: int| 0 <= j < w.len() ==> !is_mark(#[trigger] w[j])
}

proof fn lemma_scan_push(text: Seq<char>, c: char, owed: Option<char>)
    ensures
        scan_marks(text.push(c), owed) == scan_step(scan_marks(text, owed), c),
{
    assert(text.push(c).drop_last() =~= text);
}

/// Text without marks leaves the owed mark as it was.
proof fn lemma_scan_plain(text: Seq<char>, w: Seq<char>, owed: Option<char>)
    requires
        plain(w),
    ensures
        scan_marks(text + w, owed) == scan_marks(text, owed),
    decreases w.len(),
{
    if w.len() == 0 {
        assert(text + w =~= text);
    } else {
        let w1 = w.drop_last();
        assert(plain(w1)) by {
            assert forall|j: int| 0 <= j < w1.len() implies !is_mark(#[trigger] w1[j]) by {
                assert(w1[j] == w[j]);
            }
        }
        lemma_scan_plain(text, w1, owed);
        assert(text + w =~= (text + w1).push(w.last()));
        lemma_scan_push(text + w1, w.last(), owed);
        assert(!is_mark(w[w.len() - 1]));
    }
}

proof fn lemma_capitalised_plain(w: Seq<char>)
    requires
        w.len() >= 1,
        plain(w),
    ensures
        plain(capitalised(w)),
{
    let c = capitalised(w);
    assert forall|j: int| 0 <= j < c.len() implies !is_mark(#[trigger] c[j]) by {
        if j == 0 {
            assert(!is_mark(w[0]));
        } else {
            assert(c[j] == w[j]);
        }
    }
}

/// A drawn word holds no marks.
proof fn lemma_drawn_word_plain(seed: u64, t: Seq<WordEntryView>)
    requires
        table_wf(t),
        words_plain(t),
    ensures
        plain(spec_draw_word(seed, t).1),
{
    reveal(spec_draw_word);
    reveal(table_wf);
    lemma_draw_in_range(seed, 1, table_total(t));
    let (s, x) = spec_draw(seed, 1, table_total(t));
    lemma_table_covers(t, x as int);
    let i = index_for(t, x as int);
    let w = spec_draw_word(seed, t).1;
    assert(w == t[i].0);
    assert forall|j: int| 0 <= j < w.len() implies !is_mark(#[trigger] w[j]) by {
        assert(!is_mark(t[i].0[j]));
    }
}

proof fn lemma_kept_word_plain(seed: u64, word: Seq<char>, last: Seq<char>, t: Seq<WordEntryView>, fuel: nat)
    requires
        table_wf(t),
        words_plain(t),
        plain(word),
    ensures
        plain(spec_avoid_repeat(seed, word, last, t, fuel).1),
    decreases fuel,
{
    if word == last && fuel > 0 {
        lemma_drawn_word_plain(seed, t);
        let (s, w) = spec_draw_word(seed, t);
        lemma_kept_word_plain(s, w, last, t, (fuel - 1) as nat);
    }
}

proof fn lemma_digits_marks(seed: u64, count: nat, text: Seq<char>, owed: Option<char>)
    ensures
        scan_marks(spec_digits(seed, count, text).1, owed) == scan_marks(text, owed),
    decreases count,
{
    if count > 0 {
        let (s, d) = spec_draw(seed, 0, 9);
        let digits = crate::decimal::decimal(d as nat);
        crate::decimal::lemma_decimal_digits(d as nat);
        assert(plain(digits)) by {
            assert forall|j: int| 0 <= j < digits.len() implies !is_mark(#[trigger] digits[j]) by {
                assert(crate::decimal::is_digit(digits[j]));
            }
        }
        lemma_scan_plain(text, digits, owed);
        lemma_digits_marks(s, (count - 1) as nat, text + digits, owed);
    }
}

/// What holds of a prompt's text between pieces: read from the left from the
/// mark owed before the prompt, its marks are all in place and leave owed the
/// mark that the state owes, which is none or one closing mark.
spec fn marks_inv(st: PromptState, c0: Option<Seq<char>>) -> bool {
    &&& scan_marks(st.text, owed_char(c0)) == Some(owed_char(st.closing))
    &&& single_closing(st.closing)
}

proof fn lemma_piece_marks(
    st: PromptState,
    word_count: nat,
    settings: TextGenerationSettings,
    t: Seq<WordEntryView>,
    c0: Option<Seq<char>>,
)
    requires
        table_wf(t),
        words_plain(t),
        marks_inv(st, c0),
    ensures
        marks_inv(spec_piece(st, word_count, settings, t), c0),
{
    let o = owed_char(c0);
    let (s, roll64) = spec_draw(st.seed, 1, total_cf(settings) as u64);
    let roll = roll64 as u8;
    let st1 = PromptState {
        seed: s,
        text: st.text,
        closing: st.closing,
        capitalise_next: st.capitalise_next,
        interval: st.interval + 1,
        last_word: st.last_word,
        line_ends: st.line_ends,
    };
    lemma_scan_push(st.text, '_', o);
    if 1 <= roll && roll <= word_cf() {
        let (s1, w1) = spec_draw_word(st1.seed, t);
        lemma_drawn_word_plain(st1.seed, t);
        lemma_drawn_word_ascii(st1.seed, t);
        lemma_kept_word_plain(s1, w1, st1.last_word, t, u64::MAX as nat);
        lemma_kept_word_ascii(s1, w1, st1.last_word, t, u64::MAX as nat);
        let (s2, w) = spec_avoid_repeat(s1, w1, st1.last_word, t, u64::MAX as nat);
        lemma_capitalised_plain(w);
        let text1 = if needs_separator(st1.text, st1.closing) {
            st1.text.push('_')
        } else {
            st1.text
        };
        lemma_scan_plain(text1, w, o);
        lemma_scan_plain(text1, capitalised(w), o);
    } else if word_cf() < roll && roll <= suffix_cf(settings) {
        if st1.interval > 5 {
            let (s2, i) = spec_draw(st1.seed, 0, 4);
            lemma_scan_push(st.text, suffix_char(i as int), o);
        }
    } else if suffix_cf(settings) < roll && roll <= encloser_cf(settings) {
        match st1.closing {
            Some(cc) => {
                if st1.interval > 5 {
                    let j = choose|j: int| 0 <= j <= 4 && st.closing == Some(seq![closing_char(j)]);
                    assert(st.text + cc =~= st.text.push(closing_char(j)));
                    lemma_scan_push(st.text, closing_char(j), o);
                }
            },
            None => {
                lemma_draw_in_range(st1.seed, 0, 4);
                let (s2, i) = spec_draw(st1.seed, 0, 4);
                lemma_scan_push(st.text.push('_'), opening_char(i as int), o);
                assert(partner(opening_char(i as int)) == closing_char(i as int));
                assert(seq![closing_char(i as int)][0] == closing_char(i as int));
            },
        }
    } else {
        let (s2, n) = spec_draw(st1.seed, 1, 8);
        lemma_digits_marks(s2, n as nat, st.text.push('_'), o);
    }
}

proof fn lemma_pieces_marks(
    st: PromptState,
    word_count: nat,
    settings: TextGenerationSettings,
    t: Seq<WordEntryView>,
    c0: Option<Seq<char>>,
)
    requires
        table_wf(t),
        words_plain(t),
        marks_inv(st, c0),
    ensures
        marks_inv(spec_pieces_from(st, word_count, settings, t), c0),
    decreases 31 - word_count,
{
    if word_count <= 30 {
        lemma_piece_marks(st, word_count, settings, t, c0);
        lemma_pieces_marks(spec_piece(st, word_count, settings, t), word_count + 1, settings, t, c0);
    }
}

/// Whether the roll of the piece that starts at `st` picks a bracket piece.
pub open spec fn is_encloser_roll(st: PromptState, settings: TextGenerationSettings) -> bool {
    let (s, roll64) = spec_draw(st.seed, 1, total_cf(settings) as u64);
    let roll = roll64 as u8;
    suffix_cf(settings) < roll && roll <= encloser_cf(settings)
}

/// The characters that the piece starting at `st` adds as a bracket piece:
/// what it appends to the text when its roll picks a bracket piece, else
/// nothing.
pub open spec fn piece_marks(
    st: PromptState,
    word_count: nat,
    settings: TextGenerationSettings,
    t: Seq<WordEntryView>,
) -> Seq<char> {
    if is_encloser_roll(st, settings) {
        let st2 = spec_piece(st, word_count, settings, t);
        st2.text.subrange(st.text.len() as int, st2.text.len() as int)
    } else {
        Seq::empty()
    }
}

/// The characters that the bracket pieces numbered `word_count` to 30 add,
/// in order.
pub open spec fn marks_from(
    st: PromptState,
    word_count: nat,
    settings: TextGenerationSettings,
    t: Seq<WordEntryView>,
) -> Seq<char>
    decreases 31 - word_count,
{
    if word_count > 30 {
        Seq::empty()
    } else {
        piece_marks(st, word_count, settings, t) + marks_from(
            spec_piece(st, word_count, settings, t),
            word_count + 1,
            settings,
            t,
        )
    }
}

/// The characters that the bracket pieces of a prompt add, in order (the
/// first piece is a word and adds none).
pub open spec fn prompt_marks(
    seed: u64,
    closing: Option<Seq<char>>,
    settings: TextGenerationSettings,
    t: Seq<WordEntryView>,
) -> Seq<char> {
    marks_from(spec_first_word(seed, closing, settings, t), 2, settings, t)
}

/// One piece: the marks it adds move the owed mark from the state's to the
/// next state's, in place; other pieces leave the owed mark as it was.
proof fn lemma_piece_added_marks(
    st: PromptState,
    word_count: nat,
    settings: TextGenerationSettings,
    t: Seq<WordEntryView>,
    acc: Seq<char>,
    o: Option<char>,
)
    requires
        single_closing(st.closing),
        scan_marks(acc, o) == Some(owed_char(st.closing)),
    ensures
        single_closing(spec_piece(st, word_count, settings, t).closing),
        scan_marks(acc + piece_marks(st, word_count, settings, t), o) == Some(
            owed_char(spec_piece(st, word_count, settings, t).closing),
        ),
{
    let st2 = spec_piece(st, word_count, settings, t);
    let (s, roll64) = spec_draw(st.seed, 1, total_cf(settings) as u64);
    let roll = roll64 as u8;
    let st1 = PromptState {
        seed: s,
        text: st.text,
        closing: st.closing,
        capitalise_next: st.capitalise_next,
        interval: st.interval + 1,
        last_word: st.last_word,
        line_ends: st.line_ends,
    };
    if is_encloser_roll(st, settings) {
        assert(st2.text == spec_encloser_piece(st1).text);
        assert(st2.closing == spec_encloser_piece(st1).closing);
        let added = st2.text.subrange(st.text.len() as int, st2.text.len() as int);
        match st.closing {
            Some(cc) => {
                if st1.interval > 5 {
                    let j = choose|j: int| 0 <= j <= 4 && st.closing == Some(seq![closing_char(j)]);
                    assert(added =~= seq![closing_char(j)]);
                    assert(acc + added =~= acc.push(closing_char(j)));
                    lemma_scan_push(acc, closing_char(j), o);
                } else {
                    assert(added =~= Seq::<char>::empty());
                    assert(acc + added =~= acc);
                }
            },
            None => {
                lemma_draw_in_range(st1.seed, 0, 4);
                let (s2, i) = spec_draw(st1.seed, 0, 4);
                assert(added =~= seq!['_', opening_char(i as int)]);
                assert(acc + added =~= acc.push('_').push(opening_char(i as int)));
                lemma_scan_push(acc, '_', o);
                lemma_scan_push(acc.push('_'), opening_char(i as int), o);
                assert(partner(opening_char(i as int)) == closing_char(i as int));
                assert(seq![closing_char(i as int)][0] == closing_char(i as int));
            },
        }
    } else {
        assert(acc + Seq::<char>::empty() =~= acc);
        assert(st2.closing == st.closing);
    }
}

proof fn lemma_added_marks_from(
    st: PromptState,
    word_count: nat,
    settings: TextGenerationSettings,
    t: Seq<WordEntryView>,
    acc: Seq<char>,
    o: Option<char>,
)
    requires
        single_closing(st.closing),
        scan_marks(acc, o) == Some(owed_char(st.closing)),
    ensures
        single_closing(spec_pieces_from(st, word_count, settings, t).closing),
        scan_marks(acc + marks_from(st, word_count, settings, t), o) == Some(
            owed_char(spec_pieces_from(st, word_count, settings, t).closing),
        ),
    decreases 31 - word_count,
{
    if word_count > 30 {
        assert(acc + marks_from(st, word_count, settings, t) =~= acc);
    } else {
        let p = piece_marks(st, word_count, settings, t);
        let st2 = spec_piece(st, word_count, settings, t);
        lemma_piece_added_marks(st, word_count, settings, t, acc, o);
        lemma_added_marks_from(st2, word_count + 1, settings, t, acc + p, o);
        assert(acc + marks_from(st, word_count, settings, t) =~= (acc + p) + marks_from(
            st2,
            word_count + 1,
            settings,
            t,
        ));
    }
}

/// The brackets and quotes that a prompt adds pair up, whatever its words
/// hold. Read in order from the mark owed before the prompt, the marks that
/// its bracket pieces add open a mark only when none is owed, and its
/// partner is then owed; they close a mark only when it is the one owed,
/// and none is then owed; the mark owed at the end is the one the prompt
/// returns, none or one closing mark. This holds for an owed mark that is
/// none or one closing mark.
pub proof fn law_prompt_added_marks_pair(
    seed: u64,
    closing: Option<Seq<char>>,
    settings: TextGenerationSettings,
    t: Seq<WordEntryView>,
)
    requires
        single_closing(closing),
    ensures
        scan_marks(prompt_marks(seed, closing, settings, t), owed_char(closing)) == Some(
            owed_char(typing_prompt(seed, closing, settings, t).closing),
        ),
        single_closing(typing_prompt(seed, closing, settings, t).closing),
{
    let st0 = spec_first_word(seed, closing, settings, t);
    assert(scan_marks(Seq::<char>::empty(), owed_char(closing)) == Some(owed_char(closing)));
    lemma_added_marks_from(st0, 2, settings, t, Seq::empty(), owed_char(closing));
    assert(Seq::<char>::empty() + prompt_marks(seed, closing, settings, t) =~= prompt_marks(
        seed,
        closing,
        settings,
        t,
    ));
}

/// Brackets and quotes pair up in the whole text when the words hold none.
/// Read from the left, starting from the mark owed before the prompt, a
/// prompt's text opens a mark only when none is
/// owed, and its partner is then owed; it closes a mark only when that mark
/// is the one owed, and none is then owed; the mark owed at the end is the
/// one the prompt returns, none or one closing mark. This holds for tables
/// whose words hold no such marks, and an owed mark that is none or one
/// closing mark.
pub proof fn law_prompt_marks_pair(
    seed: u64,
    closing: Option<Seq<char>>,
    settings: TextGenerationSettings,
    t: Seq<WordEntryView>,
)
    requires
        table_wf(t),
        words_plain(t),
        single_closing(closing),
    ensures
        scan_marks(typing_prompt(seed, closing, settings, t).text, owed_char(closing)) == Some(
            owed_char(typing_prompt(seed, closing, settings, t).closing),
        ),
        single_closing(typing_prompt(seed, closing, settings, t).closing),
{
    lemma_drawn_word_plain(seed, t);
    lemma_drawn_word_ascii(seed, t);
    let (s, w) = spec_draw_word(seed, t);
    lemma_capitalised_plain(w);
    let st0 = spec_first_word(seed, closing, settings, t);
    lemma_scan_plain(Seq::empty(), st0.text, owed_char(closing));
    assert(Seq::<char>::empty() + st0.text =~= st0.text);
    lemma_pieces_marks(st0, 2, settings, t, closing);
}

/// A punctuation piece adds one of `.`, `,`, `;`, `?`, `!` when more than
/// five pieces have passed since the last mark, and then starts that count
/// again; otherwise it changes nothing. A
/// full stop asks for a capital on the next word when capitals are on; any
/// other mark leaves that request as it was.
pub proof fn law_full_stop_asks_for_a_capital(st: PromptState, settings: TextGenerationSettings)
    ensures
        ({
            let st2 = spec_suffix_piece(st, settings);
            let added = st2.text.len() == st.text.len() + 1;
            &&& st2.text == st.text ==> st2 == st
            &&& added <==> st.interval > 5
            &&& added ==> st2.interval == 0
            &&& st2.text == st.text || (added && st2.text.subrange(0, st.text.len() as int)
                == st.text && (st2.text.last() == '.' || st2.text.last() == ','
                || st2.text.last() == ';' || st2.text.last() == '?' || st2.text.last() == '!'))
            &&& added && st2.text.last() == '.' ==> st2.capitalise_next == (st.capitalise_next
                || settings.contains_capital_letters)
            &&& added && st2.text.last() != '.' ==> st2.capitalise_next == st.capitalise_next
            &&& st2.closing == st.closing
        }),
{
    let st2 = spec_suffix_piece(st, settings);
    if st.interval > 5 {
        let (s, i) = spec_draw(st.seed, 0, 4);
        assert(st2.text.subrange(0, st.text.len() as int) =~= st.text);
        assert(st2.text.last() == suffix_char(i as int));
        assert(st2.text != st.text);
    }
}

/// A word piece appends an underscore and then a table word, except right
/// after an opening mark (a quote that settles the owed mark counts as a
/// closing one, and is followed by an underscore). When a capital was asked
/// for and capitals are on, the word's first letter is raised to a capital
/// and the request is settled; otherwise the word is added as it is.
pub proof fn law_word_piece_separates_and_capitalises(
    st: PromptState,
    settings: TextGenerationSettings,
    t: Seq<WordEntryView>,
)
    requires
        table_wf(t),
        st.text.len() >= 1,
    ensures
        ({
            let st2 = spec_word_piece(st, settings, t);
            let w = st2.last_word;
            let last = st.text.last();
            let sep = !(last == '(' || last == '[' || last == '{' || last == '<' || last == '"')
                || (last == '"' && st.closing is None);
            let start: int = if sep {
                st.text.len() + 1int
            } else {
                st.text.len() as int
            };
            let cap = st.capitalise_next && settings.contains_capital_letters;
            &&& w.len() >= 1
            &&& st2.text.len() == start + w.len()
            &&& st2.text.subrange(0, st.text.len() as int) == st.text
            &&& sep ==> st2.text[st.text.len() as int] == '_'
            &&& forall|i: int| 1 <= i < w.len() ==> st2.text[start + i] == w[i]
            &&& !cap ==> st2.text[start] == w[0]
            &&& cap && 'a' <= w[0] <= 'z' ==> st2.text[start] as u32 == w[0] as u32 - 32
            &&& cap && !('a' <= w[0] <= 'z') ==> st2.text[start] == w[0]
            &&& st2.capitalise_next == (st.capitalise_next && !cap)
            &&& st2.closing == st.closing
        }),
{
    let st2 = spec_word_piece(st, settings, t);
    let (s1, w1) = spec_draw_word(st.seed, t);
    lemma_drawn_word_ascii(st.seed, t);
    lemma_kept_word_ascii(s1, w1, st.last_word, t, u64::MAX as nat);
    let w = st2.last_word;
    let text1 = if needs_separator(st.text, st.closing) {
        st.text.push('_')
    } else {
        st.text
    };
    let cap = st.capitalise_next && settings.contains_capital_letters;
    let shown = if cap {
        capitalised(w)
    } else {
        w
    };
    assert(st2.text == text1 + shown);
    assert(shown.len() == w.len());
    assert(st2.text.subrange(0, st.text.len() as int) =~= st.text);
    if cap {
        assert(shown[0] == ascii_upper(w[0]));
        if 'a' <= w[0] <= 'z' {
            assert(ascii_upper(w[0]) as u32 == w[0] as u32 - 32);
        }
        assert forall|i: int| 1 <= i < w.len() implies shown[i] == w[i] by {}
    }
}

/// `count` drawn digits: the text gains exactly `count` characters, each an
/// ASCII digit.
proof fn lemma_digits_shape(seed: u64, count: nat, text: Seq<char>)
    ensures
        spec_digits(seed, count, text).1.len() == text.len() + count,
        spec_digits(seed, count, text).1.subrange(0, text.len() as int) == text,
        forall|i: int|
            text.len() <= i < text.len() + count ==> crate::decimal::is_digit(
                #[trigger] spec_digits(seed, count, text).1[i],
            ),
    decreases count,
{
    let r = spec_digits(seed, count, text).1;
    if count == 0 {
        assert(r.subrange(0, text.len() as int) =~= text);
    } else {
        let (s, d) = spec_draw(seed, 0, 9);
        lemma_draw_in_range(seed, 0, 9);
        let ds = crate::decimal::decimal(d as nat);
        assert(ds == seq![crate::decimal::digit_char(d as nat)]);
        crate::decimal::law_digit_char_is_ascii_digit(d as nat);
        let t2 = text + ds;
        lemma_digits_shape(s, (count - 1) as nat, t2);
        assert(r.subrange(0, text.len() as int) =~= r.subrange(0, t2.len() as int).subrange(
            0,
            text.len() as int,
        ));
        assert(r[text.len() as int] == t2[text.len() as int]);
    }
}

/// A digit piece appends an underscore and then one to eight ASCII digits.
pub proof fn law_number_piece_adds_one_to_eight_digits(st: PromptState)
    ensures
        ({
            let st2 = spec_number_piece(st);
            let n = st2.text.len() - st.text.len() - 1;
            &&& 1 <= n <= 8
            &&& st2.text.subrange(0, st.text.len() as int) == st.text
            &&& st2.text[st.text.len() as int] == '_'
            &&& forall|i: int|
                st.text.len() < i < st2.text.len() ==> crate::decimal::is_digit(#[trigger] st2.text[i])
            &&& st2.closing == st.closing
            &&& st2.capitalise_next == st.capitalise_next
        }),
{
    let (s, n) = spec_draw(st.seed, 1, 8);
    lemma_draw_in_range(st.seed, 1, 8);
    let t1 = st.text.push('_');
    lemma_digits_shape(s, n as nat, t1);
    let st2 = spec_number_piece(st);
    assert(st2.text.subrange(0, t1.len() as int)[st.text.len() as int] == '_');
    assert(st2.text.subrange(0, st.text.len() as int) =~= t1.subrange(0, st.text.len() as int));
}

/// The first piece is a table word, its first letter raised to a capital
/// when capitals are on; nothing is owed beyond the mark owed before.
pub proof fn law_first_word_is_capitalised(
    seed: u64,
    closing: Option<Seq<char>>,
    settings: TextGenerationSettings,
    t: Seq<WordEntryView>,
)
    requires
        table_wf(t),
    ensures
        ({
            let st = spec_first_word(seed, closing, settings, t);
            let w = st.last_word;
            &&& w.len() >= 1
            &&& st.text.len() == w.len()
            &&& st.text.subrange(1, w.len() as int) == w.subrange(1, w.len() as int)
            &&& settings.contains_capital_letters && 'a' <= w[0] <= 'z' ==> st.text[0] as u32
                == w[0] as u32 - 32
            &&& !(settings.contains_capital_letters && 'a' <= w[0] <= 'z') ==> st.text[0] == w[0]
            &&& st.closing == closing
            &&& st.line_ends.len() == 0
        }),
{
    lemma_drawn_word_ascii(seed, t);
    let st = spec_first_word(seed, closing, settings, t);
    let w = st.last_word;
    if settings.contains_capital_letters {
        assert(st.text[0] == ascii_upper(w[0]));
        if 'a' <= w[0] <= 'z' {
            assert(ascii_upper(w[0]) as u32 == w[0] as u32 - 32);
        }
    }
    assert(st.text.subrange(1, w.len() as int) =~= w.subrange(1, w.len() as int));
}

/// The largest threshold, the table's total, selects the first entry.
pub proof fn law_total_selects_first_entry(t: Seq<WordEntryView>)
    requires
        table_wf(t),
    ensures
        word_for(t, table_total(t) as int) == t[0].0,
{
    reveal(table_wf);
    assert(covers(t, 0, table_total(t) as int));
    lemma_table_covers(t, table_total(t) as int);
}

/// Whether each of `n` successive word draws from `seed` selects `last`.
pub open spec fn draws_repeat(seed: u64, last: Seq<char>, t: Seq<WordEntryView>, n: nat) -> bool
    decreases n,
{
    if n == 0 {
        true
    } else {
        let (s, w) = spec_draw_word(seed, t);
        w == last && draws_repeat(s, last, t, (n - 1) as nat)
    }
}

/// A word is not followed by itself: the word kept after redrawing differs
/// from the last one, unless the first draw and every one of the `fuel`
/// redraws selected it.
pub proof fn law_no_repeated_word(
    seed: u64,
    word: Seq<char>,
    last: Seq<char>,
    t: Seq<WordEntryView>,
    fuel: nat,
)
    ensures
        spec_avoid_repeat(seed, word, last, t, fuel).1 == last ==> word == last && draws_repeat(
            seed,
            last,
            t,
            fuel,
        ),
    decreases fuel,
{
    if word == last && fuel > 0 {
        let (s, w) = spec_draw_word(seed, t);
        law_no_repeated_word(s, w, last, t, (fuel - 1) as nat);
    }
}

/// Whether an owed mark is absent or ASCII.
pub open spec fn ascii_or_none(c: Option<Seq<char>>) -> bool {
    match c {
        Some(cc) => is_ascii_chars(cc),
        None => true,
    }
}

proof fn lemma_ascii_concat(a: Seq<char>, b: Seq<char>)
    requires
        is_ascii_chars(a),
        is_ascii_chars(b),
    ensures
        is_ascii_chars(a + b),
{
    assert forall|i: int| 0 <= i < (a + b).len() implies '\0' <= #[trigger] (a + b)[i] <= '\u{7f}' by {
        if i < a.len() {
            assert((a + b)[i] == a[i]);
        } else {
            assert((a + b)[i] == b[i - a.len()]);
        }
    }
}

proof fn lemma_ascii_push(a: Seq<char>, c: char)
    requires
        is_ascii_chars(a),
        c <= '\u{7f}',
    ensures
        is_ascii_chars(a.push(c)),
{
    assert forall|i: int| 0 <= i < a.push(c).len() implies '\0' <= #[trigger] a.push(c)[i] <= '\u{7f}' by {
        if i < a.len() {
            assert(a.push(c)[i] == a[i]);
        }
    }
}

proof fn lemma_capitalised_ascii(w: Seq<char>)
    requires
        w.len() >= 1,
        is_ascii_chars(w),
    ensures
        is_ascii_chars(capitalised(w)),
{
    assert(w[0] <= '\u{7f}');
    let rest = w.subrange(1, w.len() as int);
    assert forall|i: int| 0 <= i < rest.len() implies '\0' <= #[trigger] rest[i] <= '\u{7f}' by {
        assert(rest[i] == w[i + 1]);
    }
    lemma_ascii_concat(seq![ascii_upper(w[0])], rest);
}

proof fn lemma_kept_word_ascii(seed: u64, word: Seq<char>, last: Seq<char>, t: Seq<WordEntryView>, fuel: nat)
    requires
        table_wf(t),
        word.len() >= 1,
        is_ascii_chars(word),
    ensures
        spec_avoid_repeat(seed, word, last, t, fuel).1.len() >= 1,
        is_ascii_chars(spec_avoid_repeat(seed, word, last, t, fuel).1),
    decreases fuel,
{
    if word == last && fuel > 0 {
        lemma_drawn_word_ascii(seed, t);
        let (s, w) = spec_draw_word(seed, t);
        lemma_kept_word_ascii(s, w, last, t, (fuel - 1) as nat);
    }
}

proof fn lemma_digits_ascii(seed: u64, count: nat, text: Seq<char>)
    requires
        is_ascii_chars(text),
    ensures
        is_ascii_chars(spec_digits(seed, count, text).1),
    decreases count,
{
    if count > 0 {
        let (s, d) = spec_draw(seed, 0, 9);
        let digits = crate::decimal::decimal(d as nat);
        crate::decimal::lemma_decimal_digits(d as nat);
        assert forall|i: int| 0 <= i < digits.len() implies '\0' <= #[trigger] digits[i] <= '\u{7f}' by {
            assert(crate::decimal::is_digit(digits[i]));
        }
        lemma_ascii_concat(text, digits);
        lemma_digits_ascii(s, (count - 1) as nat, text + digits);
    }
}

proof fn lemma_piece_ascii(
    st: PromptState,
    word_count: nat,
    settings: TextGenerationSettings,
    t: Seq<WordEntryView>,
)
    requires
        table_wf(t),
        is_ascii_chars(st.text),
        ascii_or_none(st.closing),
    ensures
        is_ascii_chars(spec_piece(st, word_count, settings, t).text),
        ascii_or_none(spec_piece(st, word_count, settings, t).closing),
{
    let (s, roll64) = spec_draw(st.seed, 1, total_cf(settings) as u64);
    let roll = roll64 as u8;
    let st1 = PromptState {
        seed: s,
        text: st.text,
        closing: st.closing,
        capitalise_next: st.capitalise_next,
        interval: st.interval + 1,
        last_word: st.last_word,
        line_ends: st.line_ends,
    };
    if 1 <= roll && roll <= word_cf() {
        let (s1, w1) = spec_draw_word(st1.seed, t);
        lemma_drawn_word_ascii(st1.seed, t);
        lemma_ascii_push(st.text, '_');
        let text1 = if needs_separator(st1.text, st1.closing) {
            st1.text.push('_')
        } else {
            st1.text
        };
        lemma_kept_word_ascii(s1, w1, st1.last_word, t, u64::MAX as nat);
        let (s2, w) = spec_avoid_repeat(s1, w1, st1.last_word, t, u64::MAX as nat);
        lemma_capitalised_ascii(w);
        lemma_ascii_concat(text1, capitalised(w));
        lemma_ascii_concat(text1, w);
    } else if word_cf() < roll && roll <= suffix_cf(settings) {
        if st1.interval > 5 {
            let (s2, i) = spec_draw(st1.seed, 0, 4);
            lemma_ascii_push(st.text, suffix_char(i as int));
        }
    } else if suffix_cf(settings) < roll && roll <= encloser_cf(settings) {
        match st1.closing {
            Some(cc) => {
                lemma_ascii_concat(st.text, cc);
            },
            None => {
                let (s2, i) = spec_draw(st1.seed, 0, 4);
                lemma_ascii_push(st.text, '_');
                lemma_ascii_push(st.text.push('_'), opening_char(i as int));
                assert(is_ascii_chars(seq![closing_char(i as int)]));
            },
        }
    } else {
        let (s2, n) = spec_draw(st1.seed, 1, 8);
        lemma_ascii_push(st.text, '_');
        lemma_digits_ascii(s2, n as nat, st.text.push('_'));
    }
}

proof fn lemma_pieces_ascii(
    st: PromptState,
    word_count: nat,
    settings: TextGenerationSettings,
    t: Seq<WordEntryView>,
)
    requires
        table_wf(t),
        is_ascii_chars(st.text),
        ascii_or_none(st.closing),
    ensures
        is_ascii_chars(spec_pieces_from(st, word_count, settings, t).text),
        ascii_or_none(spec_pieces_from(st, word_count, settings, t).closing),
    decreases 31 - word_count,
{
    if word_count <= 30 {
        lemma_piece_ascii(st, word_count, settings, t);
        let st2 = spec_piece(st, word_count, settings, t);
        lemma_pieces_ascii(st2, word_count + 1, settings, t);
    }
}

/// A prompt is ASCII text (given an ASCII owed mark), so its byte offsets
/// are its character positions: its line ends count characters.
pub proof fn law_prompt_is_ascii(
    seed: u64,
    closing: Option<Seq<char>>,
    settings: TextGenerationSettings,
    t: Seq<WordEntryView>,
)
    requires
        table_wf(t),
        ascii_or_none(closing),
    ensures
        is_ascii_chars(typing_prompt(seed, closing, settings, t).text),
        encode_utf8(typing_prompt(seed, closing, settings, t).text).len() == typing_prompt(
            seed,
            closing,
            settings,
            t,
        ).text.len(),
        ascii_or_none(typing_prompt(seed, closing, settings, t).closing),
{
    lemma_drawn_word_ascii(seed, t);
    let (s, w) = spec_draw_word(seed, t);
    lemma_capitalised_ascii(w);
    let st0 = spec_first_word(seed, closing, settings, t);
    lemma_pieces_ascii(st0, 2, settings, t);
    is_ascii_chars_encode_utf8(typing_prompt(seed, closing, settings, t).text);
}

} // verus!
