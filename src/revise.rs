//! Proposed edits to one line of a block, their scores and their effect.
use vstd::prelude::*;
use crate::glyph::{closing_char, is_corner, is_vertical_border};
use crate::line::{byte_len, width, width_of_prefix, AnalyzedLine, LineKind};
use crate::text::{
    chars_of, push_prefix, push_spaces, spaces, string_from, texts, trim_end, trimmed_end_len,
};

verus! {

/// A proposed edit to one line.
#[derive(Debug, Clone, Copy)]
pub enum Revision {
    /// Insert spaces before the closing border to move it right.
    PadBeforeSuffixBorder { line_idx: usize, spaces_to_add: usize, target_column: usize },
    /// Append a border at the target column to a line that lacks one.
    AddSuffixBorder { line_idx: usize, border_char: char, target_column: usize },
}

/// Score in hundredths of padding a line by `n` columns: 80, less ten per
/// column up to fifty, plus twenty on a strong line.
pub open spec fn pad_score(n: nat, strong: bool) -> nat {
    let penalty: nat = if 10 * n < 50 { 10 * n } else { 50 };
    let bonus: nat = if strong { 20 } else { 0 };
    (80 + bonus - penalty) as nat
}

/// Score in hundredths of adding a border: 70 on a strong line, 60 otherwise.
pub open spec fn add_score(strong: bool) -> nat {
    if strong { 70 } else { 60 }
}

/// `s` with `n` spaces put before its closing border, where it still has one.
pub open spec fn pad_text(s: Seq<char>, n: nat) -> Seq<char> {
    let t = trim_end(s);
    if t.len() > 0 && closing_char(t.last()) {
        t.drop_last() + spaces(n) + seq![t.last()]
    } else {
        s
    }
}

/// `s` without trailing white space, padded to column `target`, then `c`.
pub open spec fn add_text(s: Seq<char>, target: nat, c: char) -> Seq<char> {
    let t = trim_end(s);
    let pad: nat = if target > width(t) { (target - width(t)) as nat } else { 0 };
    t + spaces(pad) + seq![c]
}

impl Revision {
    pub open spec fn line(self) -> usize {
        match self {
            Revision::PadBeforeSuffixBorder { line_idx, .. } => line_idx,
            Revision::AddSuffixBorder { line_idx, .. } => line_idx,
        }
    }

    /// The score of this revision on a line of kind `kind`.
    pub open spec fn score_on(self, kind: LineKind) -> nat {
        match self {
            Revision::PadBeforeSuffixBorder { spaces_to_add, .. } => pad_score(
                spaces_to_add as nat,
                kind == LineKind::Strong,
            ),
            Revision::AddSuffixBorder { .. } => add_score(kind == LineKind::Strong),
        }
    }

    /// The line `s` once this revision is applied to it.
    pub open spec fn revised(self, s: Seq<char>) -> Seq<char> {
        match self {
            Revision::PadBeforeSuffixBorder { spaces_to_add, .. } => pad_text(
                s,
                spaces_to_add as nat,
            ),
            Revision::AddSuffixBorder { border_char, target_column, .. } => add_text(
                s,
                target_column as nat,
                border_char,
            ),
        }
    }

    /// Score in hundredths; higher means more confidence that the edit is right.
    /// `analyzed` holds the block's lines, the first of them at `block_start`.
    pub fn score(&self, analyzed: &[AnalyzedLine], block_start: usize) -> (r: u64)
        requires
            block_start <= self.line(),
            self.line() - block_start < analyzed@.len(),
        ensures
            r == self.score_on(analyzed@[self.line() - block_start].kind),
    {
        match self {
            Revision::PadBeforeSuffixBorder { line_idx, spaces_to_add, .. } => {
                let line = &analyzed[*line_idx - block_start];
                let penalty: u64 = if *spaces_to_add < 5 {
                    10 * (*spaces_to_add as u64)
                } else {
                    50
                };
                let bonus: u64 = if line.kind == LineKind::Strong { 20 } else { 0 };
                80 + bonus - penalty
            },
            Revision::AddSuffixBorder { line_idx, .. } => {
                let line = &analyzed[*line_idx - block_start];
                if line.kind == LineKind::Strong {
                    70
                } else {
                    60
                }
            },
        }
    }

    /// Applies this revision to its line of `lines`.
    pub fn apply(&self, lines: &mut Vec<String>)
        requires
            self.line() < old(lines)@.len(),
        ensures
            texts(final(lines)@) == texts(old(lines)@).update(
                self.line() as int,
                self.revised(old(lines)@[self.line() as int]@),
            ),
    {
        let idx = match self {
            Revision::PadBeforeSuffixBorder { line_idx, .. } => *line_idx,
            Revision::AddSuffixBorder { line_idx, .. } => *line_idx,
        };
        // the byte length bounds the number of characters
        let _ = byte_len(lines[idx].as_str());
        let cs = chars_of(lines[idx].as_str());
        let n = trimmed_end_len(&cs);
        let ghost s = cs@;
        let ghost t = s.take(n as int);
        match self {
            Revision::PadBeforeSuffixBorder { spaces_to_add, .. } => {
                if n > 0 && (is_vertical_border(cs[n - 1]) || is_corner(cs[n - 1])) {
                    let mut out: Vec<char> = Vec::new();
                    push_prefix(&mut out, &cs, n - 1);
                    push_spaces(&mut out, *spaces_to_add);
                    out.push(cs[n - 1]);
                    assert(s.take(n - 1) =~= t.drop_last());
                    assert(out@ =~= t.drop_last() + spaces(*spaces_to_add as nat) + seq![t.last()]);
                    let new_line = string_from(&out);
                    lines.set(idx, new_line);
                }
            },
            Revision::AddSuffixBorder { border_char, target_column, .. } => {
                let w = width_of_prefix(&cs, n);
                let pad: usize = if *target_column > w { *target_column - w } else { 0 };
                let mut out: Vec<char> = Vec::new();
                push_prefix(&mut out, &cs, n);
                push_spaces(&mut out, pad);
                out.push(*border_char);
                assert(out@ =~= t + spaces(pad as nat) + seq![*border_char]);
                let new_line = string_from(&out);
                lines.set(idx, new_line);
            },
        }
        assert(texts(lines@) =~= texts(old(lines)@).update(
            idx as int,
            self.revised(old(lines)@[idx as int]@),
        ));
    }
}

} // verus!
