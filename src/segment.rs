//! Grouping of boxy lines into diagram blocks.
use vstd::prelude::*;
use crate::line::{classify_line, kind_of, LineKind};
use crate::text::texts;

verus! {

/// Confidence, in hundredths, that a block must reach to be corrected by default.
pub const MIN_CONFIDENCE: u64 = 30;

/// A run of lines `[start, end)` taken as one diagram.
#[derive(Debug, Clone, Copy, PartialEq, Eq, Structural)]
pub struct DiagramBlock {
    /// First line of the block.
    pub start: usize,
    /// One past the last line of the block.
    pub end: usize,
    /// Confidence that the block is a diagram, in hundredths (0 to 100), rounded down.
    pub confidence: u64,
    /// Number of strong lines in the block.
    pub strong_lines: usize,
    /// Number of weak lines in the block.
    pub weak_lines: usize,
}

impl DiagramBlock {
    pub open spec fn view(self) -> (int, int, nat) {
        (self.start as int, self.end as int, self.confidence as nat)
    }

    /// The confidence as a percentage rounded to the nearest whole, halves up.
    pub fn confidence_percent(&self) -> (r: u64)
        requires
            self.start <= self.end,
        ensures
            r == rounded_confidence_of(
                self.strong_lines as nat,
                self.weak_lines as nat,
                (self.end - self.start) as nat,
            ),
    {
        let strong = self.strong_lines as u128;
        let total = strong + self.weak_lines as u128;
        if total == 0 {
            return 0;
        }
        let len = self.end - self.start;
        let bonus: u64 = if len < 2 { 10 * len as u64 } else { 20 };
        let r128 = (160 * strong + total) / (2 * total);
        proof {
            let st = strong as int;
            let tt = total as int;
            assert((160 * st + tt) / (2 * tt) <= 160) by (nonlinear_arith)
                requires
                    0 <= st,
                    tt > 0,
                    st <= 2 * tt,
            ;
        }
        let sum = r128 as u64 + bonus;
        if sum > 100 { 100 } else { sum }
    }
}

/// `confidence_of` rounded to the nearest whole instead of down.
pub open spec fn rounded_confidence_of(strong: nat, weak: nat, len: nat) -> nat {
    if strong + weak == 0 {
        0
    } else {
        let bonus: nat = if 10 * len < 20 { 10 * len } else { 20 };
        let c = (160 * strong + (strong + weak)) / (2 * (strong + weak)) + bonus;
        if c > 100 { 100 } else { c }
    }
}

/// The kind of each line.
pub open spec fn kinds_of(ts: Seq<Seq<char>>) -> Seq<LineKind> {
    Seq::new(ts.len(), |j: int| kind_of(ts[j]))
}

/// Number of lines of kind `k` in `s`.
pub open spec fn count_kind(s: Seq<LineKind>, k: LineKind) -> nat
    decreases s.len(),
{
    if s.len() == 0 {
        0
    } else {
        count_kind(s.drop_last(), k) + if s.last() == k { 1nat } else { 0nat }
    }
}

/// One of the three lines after `at` is boxy.
pub open spec fn boxy_ahead(kinds: Seq<LineKind>, at: int) -> bool {
    exists|j: int| at < j <= at + 3 && j < kinds.len() && (#[trigger] kinds[j]).boxy()
}

/// Where a block that has reached `end`, after `gap` blank lines, stops growing.
/// Boxy lines extend it; one blank line in a row is tolerated; a line without
/// box pieces is taken in only right after a non-blank line and with a boxy
/// line among the three after it.
pub open spec fn extend_end(kinds: Seq<LineKind>, end: int, gap: nat) -> int
    decreases kinds.len() - end,
{
    if end < 0 || end >= kinds.len() {
        end
    } else {
        match kinds[end] {
            LineKind::Strong | LineKind::Weak => extend_end(kinds, end + 1, 0),
            LineKind::Blank => if gap >= 1 {
                end
            } else {
                extend_end(kinds, end + 1, 1)
            },
            LineKind::Plain => if gap == 0 && boxy_ahead(kinds, end) {
                extend_end(kinds, end + 1, gap)
            } else {
                end
            },
        }
    }
}

/// `end` moved back over blank lines, not below `start`.
pub open spec fn trim_blanks(kinds: Seq<LineKind>, start: int, end: int) -> int
    decreases end - start,
{
    if end > start && 0 < end <= kinds.len() && kinds[end - 1] == LineKind::Blank {
        trim_blanks(kinds, start, end - 1)
    } else {
        end
    }
}

/// Confidence in hundredths: `80 * strong / (strong + weak)`, plus a bonus
/// of ten per line up to twenty, at most one hundred; zero with no boxy line.
pub open spec fn confidence_of(strong: nat, weak: nat, len: nat) -> nat {
    if strong + weak == 0 {
        0
    } else {
        let bonus: nat = if 10 * len < 20 { 10 * len } else { 20 };
        let c = (80 * strong) / (strong + weak) + bonus;
        if c > 100 { 100 } else { c }
    }
}

/// The blocks found by scanning `kinds` from line `i`, as `(start, end, confidence)`.
pub open spec fn blocks_from(kinds: Seq<LineKind>, i: int, all: bool) -> Seq<(int, int, nat)>
    decreases kinds.len() - i,
{
    if i < 0 || i >= kinds.len() {
        Seq::empty()
    } else if !kinds[i].boxy() {
        blocks_from(kinds, i + 1, all)
    } else {
        let end = trim_blanks(kinds, i, extend_end(kinds, i + 1, 0));
        if end <= i || end > kinds.len() {
            Seq::empty()
        } else {
            let sub = kinds.subrange(i, end);
            let conf = confidence_of(
                count_kind(sub, LineKind::Strong),
                count_kind(sub, LineKind::Weak),
                (end - i) as nat,
            );
            let rest = blocks_from(kinds, end, all);
            if all || conf >= MIN_CONFIDENCE {
                seq![(i, end, conf)] + rest
            } else {
                rest
            }
        }
    }
}

pub open spec fn block_views(b: Seq<DiagramBlock>) -> Seq<(int, int, nat)> {
    b.map_values(|x: DiagramBlock| x.view())
}

proof fn lemma_extend_end_bounds(kinds: Seq<LineKind>, end: int, gap: nat)
    requires
        0 <= end <= kinds.len(),
    ensures
        end <= extend_end(kinds, end, gap) <= kinds.len(),
    decreases kinds.len() - end,
{
    if end < kinds.len() {
        match kinds[end] {
            LineKind::Strong | LineKind::Weak => lemma_extend_end_bounds(kinds, end + 1, 0),
            LineKind::Blank => if gap < 1 {
                lemma_extend_end_bounds(kinds, end + 1, 1)
            },
            LineKind::Plain => if gap == 0 && boxy_ahead(kinds, end) {
                lemma_extend_end_bounds(kinds, end + 1, gap)
            },
        }
    }
}

fn kinds_of_lines(lines: &[String]) -> (k: Vec<LineKind>)
    ensures
        k@ == kinds_of(texts(lines@)),
{
    let mut k: Vec<LineKind> = Vec::new();
    let mut i: usize = 0;
    while i < lines.len()
        invariant
            i <= lines@.len(),
            k@ == kinds_of(texts(lines@)).take(i as int),
        decreases lines@.len() - i,
    {
        k.push(classify_line(lines[i].as_str()));
        i += 1;
        assert(k@ =~= kinds_of(texts(lines@)).take(i as int));
    }
    assert(k@ =~= kinds_of(texts(lines@)));
    k
}

proof fn lemma_count_step(s: Seq<LineKind>, lo: int, hi: int, k: LineKind)
    requires
        0 <= lo <= hi < s.len(),
    ensures
        count_kind(s.subrange(lo, hi + 1), k) == count_kind(s.subrange(lo, hi), k) + if s[hi]
            == k {
            1nat
        } else {
            0nat
        },
{
    assert(s.subrange(lo, hi + 1).drop_last() =~= s.subrange(lo, hi));
}

/// The diagram blocks of `lines`, in order; with `all_blocks` unset only those
/// whose confidence reaches `MIN_CONFIDENCE`.
pub fn find_diagram_blocks(lines: &[String], all_blocks: bool) -> (r: Vec<DiagramBlock>)
    ensures
        block_views(r@) == blocks_from(kinds_of(texts(lines@)), 0, all_blocks),
        forall|j: int|
            0 <= j < r@.len() ==> (#[trigger] r@[j]).strong_lines == count_kind(
                kinds_of(texts(lines@)).subrange(r@[j].start as int, r@[j].end as int),
                LineKind::Strong,
            ) && r@[j].weak_lines == count_kind(
                kinds_of(texts(lines@)).subrange(r@[j].start as int, r@[j].end as int),
                LineKind::Weak,
            ),
{
    let kinds = kinds_of_lines(lines);
    let ghost kv = kinds@;
    let n = kinds.len();
    let mut blocks: Vec<DiagramBlock> = Vec::new();
    let mut i: usize = 0;
    while i < n
        invariant
            n == kv.len(),
            kinds@ == kv,
            i <= n,
            blocks_from(kv, 0, all_blocks) == block_views(blocks@) + blocks_from(kv, i as int, all_blocks),
            forall|j: int|
                0 <= j < blocks@.len() ==> (#[trigger] blocks@[j]).strong_lines == count_kind(
                    kv.subrange(blocks@[j].start as int, blocks@[j].end as int),
                    LineKind::Strong,
                ) && blocks@[j].weak_lines == count_kind(
                    kv.subrange(blocks@[j].start as int, blocks@[j].end as int),
                    LineKind::Weak,
                ),
        decreases n - i,
    {
        if !kinds[i].is_boxy() {
            i += 1;
        } else {
            let start = i;
            let mut end: usize = i + 1;
            let mut strong: usize = if kinds[i] == LineKind::Strong { 1 } else { 0 };
            let mut weak: usize = if kinds[i] == LineKind::Weak { 1 } else { 0 };
            let mut gap: usize = 0;
            let mut stop = false;
            let ghost e = extend_end(kv, i + 1, 0);
            proof {
                lemma_count_step(kv, i as int, i as int, LineKind::Strong);
                lemma_count_step(kv, i as int, i as int, LineKind::Weak);
                lemma_extend_end_bounds(kv, i + 1, 0);
            }
            while end < n && !stop
                invariant
                    n == kv.len(),
                    kinds@ == kv,
                    start == i < end <= n,
                    gap <= 1,
                    stop ==> extend_end(kv, end as int, gap as nat) == end,
                    extend_end(kv, end as int, gap as nat) == e,
                    strong == count_kind(kv.subrange(start as int, end as int), LineKind::Strong),
                    weak == count_kind(kv.subrange(start as int, end as int), LineKind::Weak),
                    strong + weak <= end - start,
                    strong + weak >= 1,
                decreases n - end + if stop { 0int } else { 1int },
            {
                proof {
                    lemma_count_step(kv, start as int, end as int, LineKind::Strong);
                    lemma_count_step(kv, start as int, end as int, LineKind::Weak);
                }
                match kinds[end] {
                    LineKind::Strong => {
                        strong += 1;
                        gap = 0;
                        end += 1;
                    },
                    LineKind::Weak => {
                        weak += 1;
                        gap = 0;
                        end += 1;
                    },
                    LineKind::Blank => {
                        if gap >= 1 {
                            stop = true;
                        } else {
                            gap = 1;
                            end += 1;
                        }
                    },
                    LineKind::Plain => {
                        let ahead = (n - end > 1 && kinds[end + 1].is_boxy()) || (n - end > 2
                            && kinds[end + 2].is_boxy()) || (n - end > 3 && kinds[end + 3].is_boxy());
                        proof {
                            if boxy_ahead(kv, end as int) {
                                let j = choose|j: int|
                                    end < j <= end + 3 && j < kv.len() && (#[trigger] kv[j]).boxy();
                                assert(ahead);
                            }
                        }
                        if gap == 0 && ahead {
                            end += 1;
                        } else {
                            stop = true;
                        }
                    },
                }
            }
            let ghost t = trim_blanks(kv, start as int, end as int);
            while end > start + 1 && kinds[end - 1] == LineKind::Blank
                invariant
                    n == kv.len(),
                    kinds@ == kv,
                    start == i < end <= n,
                    trim_blanks(kv, start as int, end as int) == t,
                    strong == count_kind(kv.subrange(start as int, end as int), LineKind::Strong),
                    weak == count_kind(kv.subrange(start as int, end as int), LineKind::Weak),
                    strong + weak <= n,
                    strong + weak >= 1,
                    kv[start as int].boxy(),
                decreases end,
            {
                proof {
                    lemma_count_step(kv, start as int, end - 1, LineKind::Strong);
                    lemma_count_step(kv, start as int, end - 1, LineKind::Weak);
                }
                end -= 1;
            }
            proof {
                assert(end == trim_blanks(kv, i as int, extend_end(kv, i + 1, 0)));
            }
            let total = strong + weak;
            let len = end - start;
            let bonus: u64 = if len < 2 { 10 * len as u64 } else { 20 };
            let r128 = (80 * (strong as u128)) / (total as u128);
            proof {
                let st = strong as int;
                let tt = total as int;
                assert((80 * st) / tt <= 80) by (nonlinear_arith)
                    requires
                        0 <= st <= tt,
                        tt > 0,
                ;
            }
            let ratio: u64 = r128 as u64;
            let sum = ratio + bonus;
            let confidence: u64 = if sum > 100 { 100 } else { sum };
            if all_blocks || confidence >= MIN_CONFIDENCE {
                blocks.push(DiagramBlock { start, end, confidence, strong_lines: strong, weak_lines: weak });
            }
            i = end;
        }
    }
    blocks
}

/// A block without a strong line scores below `MIN_CONFIDENCE`, whatever its
/// length and number of weak lines.
pub proof fn lemma_weak_block_below_threshold(weak: nat, len: nat)
    ensures
        confidence_of(0, weak, len) < MIN_CONFIDENCE,
{
}

/// Without the `all` flag every block found holds at least one strong line:
/// blocks made only of weak lines are dropped.
pub proof fn lemma_default_blocks_hold_strong_line(kinds: Seq<LineKind>, i: int)
    ensures
        forall|j: int|
            0 <= j < blocks_from(kinds, i, false).len() ==> count_kind(
                kinds.subrange(
                    (#[trigger] blocks_from(kinds, i, false)[j]).0,
                    blocks_from(kinds, i, false)[j].1,
                ),
                LineKind::Strong,
            ) > 0,
    decreases kinds.len() - i,
{
    if 0 <= i < kinds.len() {
        if !kinds[i].boxy() {
            lemma_default_blocks_hold_strong_line(kinds, i + 1);
            assert(blocks_from(kinds, i, false) == blocks_from(kinds, i + 1, false));
        } else {
            let end = trim_blanks(kinds, i, extend_end(kinds, i + 1, 0));
            if !(i < end <= kinds.len()) {
                assert(blocks_from(kinds, i, false).len() == 0);
            } else {
                let sub = kinds.subrange(i, end);
                let rest = blocks_from(kinds, end, false);
                lemma_default_blocks_hold_strong_line(kinds, end);
                if count_kind(sub, LineKind::Strong) == 0 {
                    lemma_weak_block_below_threshold(
                        count_kind(sub, LineKind::Weak),
                        (end - i) as nat,
                    );
                    assert(blocks_from(kinds, i, false) == rest);
                } else {
                    let bs = blocks_from(kinds, i, false);
                    let conf = confidence_of(
                        count_kind(sub, LineKind::Strong),
                        count_kind(sub, LineKind::Weak),
                        (end - i) as nat,
                    );
                    if conf >= MIN_CONFIDENCE {
                        assert(bs == seq![(i, end, conf)] + rest);
                        assert forall|j: int| 0 <= j < bs.len() implies count_kind(
                            kinds.subrange((#[trigger] bs[j]).0, bs[j].1),
                            LineKind::Strong,
                        ) > 0 by {
                            if j > 0 {
                                assert(bs[j] == rest[j - 1]);
                            }
                        }
                    } else {
                        assert(bs == rest);
                    }
                }
            }
        }
    }
}

/// The blocks found from line `i` on lie within the text, each non-empty, in
/// order and without overlap.
pub proof fn lemma_blocks_ordered(kinds: Seq<LineKind>, i: int, all: bool)
    requires
        0 <= i,
    ensures
        forall|j: int|
            0 <= j < blocks_from(kinds, i, all).len() ==> i <= (#[trigger] blocks_from(
                kinds,
                i,
                all,
            )[j]).0 < blocks_from(kinds, i, all)[j].1 <= kinds.len(),
        forall|j: int|
            0 <= j < blocks_from(kinds, i, all).len() - 1 ==> (#[trigger] blocks_from(
                kinds,
                i,
                all,
            )[j]).1 <= blocks_from(kinds, i, all)[j + 1].0,
    decreases kinds.len() - i,
{
    if 0 <= i < kinds.len() {
        if !kinds[i].boxy() {
            lemma_blocks_ordered(kinds, i + 1, all);
            assert(blocks_from(kinds, i, all) == blocks_from(kinds, i + 1, all));
        } else {
            let end = trim_blanks(kinds, i, extend_end(kinds, i + 1, 0));
            if !(i < end <= kinds.len()) {
                assert(blocks_from(kinds, i, all).len() == 0);
            } else {
                lemma_blocks_ordered(kinds, end, all);
                let rest = blocks_from(kinds, end, all);
                let bs = blocks_from(kinds, i, all);
                let sub = kinds.subrange(i, end);
                let conf = confidence_of(
                    count_kind(sub, LineKind::Strong),
                    count_kind(sub, LineKind::Weak),
                    (end - i) as nat,
                );
                if all || conf >= MIN_CONFIDENCE {
                    assert(bs == seq![(i, end, conf)] + rest);
                    assert forall|j: int| 0 <= j < bs.len() - 1 implies (#[trigger] bs[j]).1
                        <= bs[j + 1].0 by {
                        assert(bs[j + 1] == rest[j]);
                        if j > 0 {
                            assert(bs[j] == rest[j - 1]);
                        }
                    }
                    assert forall|j: int| 0 <= j < bs.len() implies i <= (#[trigger] bs[j]).0
                        < bs[j].1 <= kinds.len() by {
                        if j > 0 {
                            assert(bs[j] == rest[j - 1]);
                        }
                    }
                } else {
                    assert(bs == rest);
                }
            }
        }
    }
}

} // verus!
