//! How the prompt is laid out on screen: its lines, and how many characters
//! of each show as typed correctly and typed wrongly.
use vstd::prelude::*;

verus! {

/// One line of the prompt: the bytes `start..end` of the text, whose first
/// `correct` characters show as correct and the `wrong` after them as wrong.
#[derive(Debug, Clone, Copy, PartialEq, Eq, Structural)]
pub struct LineProgress {
    /// The first byte of the line.
    pub start: usize,
    /// The byte after the line.
    pub end: usize,
    /// Characters of the line shown as correct.
    pub correct: usize,
    /// Characters of the line shown as wrong, after the correct ones.
    pub wrong: usize,
}

/// Whether the line ends never decrease.
pub open spec fn ascending(s: Seq<usize>) -> bool {
    forall|i: int, j: int| 0 <= i <= j < s.len() ==> s[i] <= s[j]
}

/// The lines ending at `ends`, the first starting at `start`: the correct
/// characters fill the lines in order, and the wrong ones follow them on the
/// room that is left.
pub open spec fn lines_from(ends: Seq<usize>, start: usize, correct: nat, wrong: nat) -> Seq<
    LineProgress,
>
    decreases ends.len(),
{
    if ends.len() == 0 {
        Seq::empty()
    } else {
        let end = ends[0];
        let len = end - start;
        let c = if correct < len {
            correct
        } else {
            len as nat
        };
        let w = if (len - c) < wrong {
            (len - c) as nat
        } else {
            wrong
        };
        seq![LineProgress { start, end, correct: c as usize, wrong: w as usize }] + lines_from(
            ends.drop_first(),
            end,
            (correct - c) as nat,
            (wrong - w) as nat,
        )
    }
}

/// The lines of a prompt that ends its lines at `line_indices`, with
/// `correct_character_count` characters typed correctly and
/// `wrong_character_count` wrongly after them.
pub fn split_lines(
    line_indices: &[usize],
    correct_character_count: usize,
    wrong_character_count: usize,
) -> (lines: Vec<LineProgress>)
    requires
        ascending(line_indices@),
    ensures
        lines@ == lines_from(
            line_indices@,
            0,
            correct_character_count as nat,
            wrong_character_count as nat,
        ),
{
    let mut lines: Vec<LineProgress> = Vec::new();
    let mut previous_index: usize = 0;
    let mut correct_characters_left = correct_character_count;
    let mut wrong_characters_left = wrong_character_count;
    let mut i: usize = 0;
    let ghost all = line_indices@;
    assert(all.skip(0) =~= all);
    assert(lines@ + lines_from(all, 0, correct_character_count as nat, wrong_character_count as nat)
        =~= lines_from(all, 0, correct_character_count as nat, wrong_character_count as nat));
    while i < line_indices.len()
        invariant
            all == line_indices@,
            ascending(all),
            i <= all.len(),
            i > 0 ==> previous_index == all[i - 1],
            i == 0 ==> previous_index == 0,
            lines@ + lines_from(
                all.skip(i as int),
                previous_index,
                correct_characters_left as nat,
                wrong_characters_left as nat,
            ) == lines_from(all, 0, correct_character_count as nat, wrong_character_count as nat),
        decreases all.len() - i,
    {
        let current_index = line_indices[i];
        proof {
            if i > 0 {
                assert(all[i - 1] <= all[i as int]);
            }
            assert(all.skip(i as int)[0] == current_index);
            assert(all.skip(i as int).drop_first() =~= all.skip(i + 1));
        }
        let line_length = current_index - previous_index;
        let correct_characters_on_line = if correct_characters_left < line_length {
            correct_characters_left
        } else {
            line_length
        };
        let untyped_characters = line_length - correct_characters_on_line;
        let wrong_characters_on_line = if untyped_characters < wrong_characters_left {
            untyped_characters
        } else {
            wrong_characters_left
        };
        correct_characters_left -= correct_characters_on_line;
        wrong_characters_left -= wrong_characters_on_line;
        let line = LineProgress {
            start: previous_index,
            end: current_index,
            correct: correct_characters_on_line,
            wrong: wrong_characters_on_line,
        };
        let ghost before = lines@;
        lines.push(line);
        assert(lines@ =~= before + seq![line]);
        previous_index = current_index;
        i = i + 1;
    }
    assert(all.skip(i as int) =~= Seq::<usize>::empty());
    assert(lines@ + Seq::<LineProgress>::empty() =~= lines@);
    lines
}

/// The characters shown as correct over all lines.
pub open spec fn shown_correct(lines: Seq<LineProgress>) -> nat
    decreases lines.len(),
{
    if lines.len() == 0 {
        0
    } else {
        lines[0].correct as nat + shown_correct(lines.drop_first())
    }
}

/// The characters shown as wrong over all lines.
pub open spec fn shown_wrong(lines: Seq<LineProgress>) -> nat
    decreases lines.len(),
{
    if lines.len() == 0 {
        0
    } else {
        lines[0].wrong as nat + shown_wrong(lines.drop_first())
    }
}

/// The smaller of two numbers.
pub open spec fn min_nat(a: nat, b: nat) -> nat {
    if a < b {
        a
    } else {
        b
    }
}

/// The lines show every typed character that the lines cover: as many
/// correct characters as were typed, up to the characters the lines hold,
/// and as many wrong ones as were typed, up to the room after the correct
/// ones.
pub proof fn law_lines_show_typed_characters(ends: Seq<usize>, start: usize, correct: nat, wrong: nat)
    requires
        ascending(ends),
        ends.len() > 0 ==> start <= ends[0],
    ensures
        ({
            let covered: nat = if ends.len() == 0 {
                0
            } else {
                (ends.last() - start) as nat
            };
            let lines = lines_from(ends, start, correct, wrong);
            &&& shown_correct(lines) == min_nat(correct, covered)
            &&& shown_wrong(lines) == min_nat(wrong, (covered - min_nat(correct, covered)) as nat)
        }),
    decreases ends.len(),
{
    if ends.len() > 0 {
        let end = ends[0];
        let len = (end - start) as nat;
        let c = min_nat(correct, len);
        let w = min_nat((len - c) as nat, wrong);
        let rest = ends.drop_first();
        assert(ascending(rest));
        if rest.len() > 0 {
            assert(ends[0] <= ends[1]);
            assert(rest.last() == ends.last());
        }
        law_lines_show_typed_characters(rest, end, (correct - c) as nat, (wrong - w) as nat);
        let lines = lines_from(ends, start, correct, wrong);
        assert(lines.drop_first() == lines_from(rest, end, (correct - c) as nat, (wrong - w) as nat));
        assert(ends.last() >= end) by {
            assert(ends[0] <= ends[ends.len() - 1]);
        }
    }
}

} // verus!
