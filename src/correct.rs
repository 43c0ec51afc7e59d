//! The correction loop: revisions proposed on a snapshot of each block and
//! applied until the block settles or the iteration budget runs out.
use vstd::prelude::*;
use crate::glyph::{detect_vertical_border, dominant_border};
use crate::line::{analyze_line, border_of, expand, expand_tabs, kind_of, AnalyzedLine};
use crate::revise::Revision;
use crate::segment::{
    block_views, blocks_from, find_diagram_blocks, kinds_of, lemma_blocks_ordered, DiagramBlock,
};
use crate::text::{joined, texts};

verus! {

/// Settings of a correction run.
pub struct Config {
    /// Most iterations spent on one block.
    pub max_iters: usize,
    /// Lowest score, in hundredths, at which a revision is applied.
    pub min_score: u64,
    /// Columns between tab stops.
    pub tab_width: usize,
    /// Correct every block found, whatever its confidence.
    pub all_blocks: bool,
    /// Whether progress is to be reported; the correction itself ignores it.
    pub verbose: bool,
}

/// What a correction run found and did.
#[derive(Debug)]
pub struct Stats {
    /// Number of blocks corrected.
    pub blocks_found: usize,
    /// Number of blocks where at least one revision was applied.
    pub blocks_modified: usize,
    /// Revisions applied over all blocks.
    pub total_revisions: usize,
    /// Not accumulated over blocks, and left at zero: the iterations of each
    /// block are in `outcomes`.
    pub iterations: usize,
    /// The blocks corrected, in order.
    pub blocks: Vec<DiagramBlock>,
    /// What correcting each of `blocks` did.
    pub outcomes: Vec<BlockOutcome>,
}

/// What correcting one block did.
#[derive(Debug)]
pub struct BlockOutcome {
    /// Revisions applied in all.
    pub revisions: usize,
    /// Revisions applied in each iteration, in order.
    pub applied: Vec<usize>,
    /// Whether the block settled: an iteration found no revision worth applying.
    pub converged: bool,
}

/// The rightmost closing border column among `b`'s lines, if any has one.
pub open spec fn target_of(b: Seq<Seq<char>>) -> Option<nat>
    decreases b.len(),
{
    if b.len() == 0 {
        None
    } else {
        let prev = target_of(b.drop_last());
        match border_of(b.last()) {
            None => prev,
            Some((col, _)) => match prev {
                None => Some(col),
                Some(p) => Some(if p >= col { p } else { col }),
            },
        }
    }
}

/// The revision proposed for line `s`, number `idx`, toward column `t`: padding
/// where its border stands left of `t`, a new border `bc` where a boxy line has none.
pub open spec fn proposal(s: Seq<char>, idx: usize, t: usize, bc: char) -> Option<Revision> {
    match border_of(s) {
        Some((col, _)) => if col < t {
            Some(
                Revision::PadBeforeSuffixBorder {
                    line_idx: idx,
                    spaces_to_add: (t - col) as usize,
                    target_column: t,
                },
            )
        } else {
            None
        },
        None => if kind_of(s).boxy() {
            Some(Revision::AddSuffixBorder { line_idx: idx, border_char: bc, target_column: t })
        } else {
            None
        },
    }
}

/// The proposals for the lines of `b`, numbered from `start`, that score at least `min`.
pub open spec fn accepted(b: Seq<Seq<char>>, start: int, t: usize, bc: char, min: nat) -> Seq<
    Revision,
>
    decreases b.len(),
{
    if b.len() == 0 {
        Seq::empty()
    } else {
        let prev = accepted(b.drop_last(), start, t, bc, min);
        match proposal(b.last(), (start + b.len() - 1) as usize, t, bc) {
            Some(r) => if r.score_on(kind_of(b.last())) >= min {
                prev.push(r)
            } else {
                prev
            },
            None => prev,
        }
    }
}

/// `b`, numbered from `start`, with `revs` applied one after another.
pub open spec fn apply_revs(b: Seq<Seq<char>>, revs: Seq<Revision>, start: int) -> Seq<Seq<char>>
    decreases revs.len(),
{
    if revs.len() == 0 {
        b
    } else {
        let p = apply_revs(b, revs.drop_last(), start);
        let k = revs.last().line() - start;
        if 0 <= k < p.len() {
            p.update(k, revs.last().revised(p[k]))
        } else {
            p
        }
    }
}

/// Correction of block `b`, numbered from `start`, in at most `fuel` iterations:
/// the final lines, the number of revisions applied in each iteration, and
/// whether an iteration found nothing to apply.
pub open spec fn settle(b: Seq<Seq<char>>, start: int, min: nat, fuel: nat) -> (
    Seq<Seq<char>>,
    Seq<nat>,
    bool,
)
    decreases fuel,
{
    if fuel == 0 {
        (b, Seq::empty(), false)
    } else {
        match target_of(b) {
            None => (b, Seq::empty(), false),
            Some(t) => {
                let revs = accepted(b, start, t as usize, dominant_border(joined(b)), min);
                if revs.len() == 0 {
                    (b, Seq::empty(), true)
                } else {
                    let r = settle(apply_revs(b, revs, start), start, min, (fuel - 1) as nat);
                    (r.0, seq![revs.len()] + r.1, r.2)
                }
            },
        }
    }
}

pub open spec fn sum(s: Seq<nat>) -> nat
    decreases s.len(),
{
    if s.len() == 0 {
        0
    } else {
        sum(s.drop_last()) + s.last()
    }
}

pub open spec fn counts(v: Seq<usize>) -> Seq<nat> {
    v.map_values(|x: usize| x as nat)
}

/// `v` with the lines from `start` on replaced by `b`.
pub open spec fn splice(v: Seq<Seq<char>>, start: int, b: Seq<Seq<char>>) -> Seq<Seq<char>> {
    v.take(start) + b + v.skip(start + b.len())
}

proof fn lemma_accepted_bounds(b: Seq<Seq<char>>, start: int, t: usize, bc: char, min: nat)
    requires
        0 <= start,
        start + b.len() <= usize::MAX,
    ensures
        accepted(b, start, t, bc, min).len() <= b.len(),
        forall|i: int|
            0 <= i < accepted(b, start, t, bc, min).len() ==> start <= (#[trigger] accepted(
                b,
                start,
                t,
                bc,
                min,
            )[i]).line() < start + b.len(),
    decreases b.len(),
{
    if b.len() > 0 {
        lemma_accepted_bounds(b.drop_last(), start, t, bc, min);
    }
}

proof fn lemma_apply_revs_len(b: Seq<Seq<char>>, revs: Seq<Revision>, start: int)
    ensures
        apply_revs(b, revs, start).len() == b.len(),
    decreases revs.len(),
{
    if revs.len() > 0 {
        lemma_apply_revs_len(b, revs.drop_last(), start);
    }
}

pub(crate) proof fn lemma_settle_shape(b: Seq<Seq<char>>, start: int, min: nat, fuel: nat)
    requires
        0 <= start,
        start + b.len() <= usize::MAX,
    ensures
        settle(b, start, min, fuel).0.len() == b.len(),
        sum(settle(b, start, min, fuel).1) <= fuel * b.len(),
    decreases fuel,
{
    if fuel > 0 {
        if let Some(t) = target_of(b) {
            let revs = accepted(b, start, t as usize, dominant_border(joined(b)), min);
            if revs.len() > 0 {
                let nb = apply_revs(b, revs, start);
                lemma_apply_revs_len(b, revs, start);
                lemma_settle_shape(nb, start, min, (fuel - 1) as nat);
                let r = settle(nb, start, min, (fuel - 1) as nat);
                lemma_sum_prepend(revs.len(), r.1);
                lemma_accepted_bounds(b, start, t as usize, dominant_border(joined(b)), min);
                assert(fuel * b.len() == (fuel - 1) * b.len() + b.len()) by (nonlinear_arith);
            }
        }
    }
}

proof fn lemma_sum_prepend(x: nat, s: Seq<nat>)
    ensures
        sum(seq![x] + s) == x + sum(s),
    decreases s.len(),
{
    if s.len() == 0 {
        assert(seq![x] + s =~= seq![x]);
        assert(seq![x].drop_last() =~= Seq::<nat>::empty());
        assert(sum(seq![x]) == sum(Seq::<nat>::empty()) + x);
    } else {
        assert((seq![x] + s).drop_last() =~= seq![x] + s.drop_last());
        assert((seq![x] + s).last() == s.last());
        lemma_sum_prepend(x, s.drop_last());
    }
}

/// Copies of the lines `[start, end)`.
fn snapshot(lines: &Vec<String>, start: usize, end: usize) -> (snap: Vec<String>)
    requires
        start <= end <= lines@.len(),
    ensures
        texts(snap@) == texts(lines@).subrange(start as int, end as int),
{
    let mut snap: Vec<String> = Vec::new();
    let mut k: usize = start;
    while k < end
        invariant
            start <= k <= end <= lines@.len(),
            snap@.len() == k - start,
            texts(snap@) == texts(lines@).subrange(start as int, k as int),
        decreases end - k,
    {
        let copy = lines[k].clone();
        assert(copy@ == lines@[k as int]@);
        snap.push(copy);
        k += 1;
        assert(texts(snap@) =~= texts(lines@).subrange(start as int, k as int));
    }
    snap
}

/// The analysis of each line of `snap`.
fn analyze_all(snap: &Vec<String>) -> (a: Vec<AnalyzedLine>)
    ensures
        a@.len() == snap@.len(),
        forall|j: int| 0 <= j < a@.len() ==> (#[trigger] a@[j]).describes(snap@[j]@),
{
    let mut a: Vec<AnalyzedLine> = Vec::new();
    let mut j: usize = 0;
    while j < snap.len()
        invariant
            j <= snap@.len(),
            a@.len() == j,
            forall|i: int| 0 <= i < j ==> (#[trigger] a@[i]).describes(snap@[i]@),
        decreases snap@.len() - j,
    {
        a.push(analyze_line(snap[j].as_str()));
        j += 1;
    }
    a
}

/// The rightmost closing border column among the analyzed lines of `b`.
fn target_column(a: &Vec<AnalyzedLine>, Ghost(b): Ghost<Seq<Seq<char>>>) -> (r: Option<usize>)
    requires
        a@.len() == b.len(),
        forall|j: int| 0 <= j < a@.len() ==> (#[trigger] a@[j]).describes(b[j]),
    ensures
        match r {
            Some(t) => target_of(b) == Some(t as nat),
            None => target_of(b) is None,
        },
{
    let mut best: Option<usize> = None;
    let mut j: usize = 0;
    while j < a.len()
        invariant
            j <= a@.len() == b.len(),
            forall|i: int| 0 <= i < a@.len() ==> (#[trigger] a@[i]).describes(b[i]),
            match best {
                Some(t) => target_of(b.take(j as int)) == Some(t as nat),
                None => target_of(b.take(j as int)) is None,
            },
        decreases a@.len() - j,
    {
        assert(b.take(j + 1).drop_last() =~= b.take(j as int));
        assert(a@[j as int].describes(b[j as int]));
        match a[j].suffix_border {
            Some(border) => {
                best = match best {
                    None => Some(border.column),
                    Some(p) => Some(if p >= border.column { p } else { border.column }),
                };
            },
            None => {},
        }
        j += 1;
    }
    assert(b.take(b.len() as int) =~= b);
    best
}

/// The revisions proposed for the analyzed lines of `b`, numbered from
/// `start`, that score at least `min`.
fn accepted_revisions(
    a: &Vec<AnalyzedLine>,
    start: usize,
    t: usize,
    bc: char,
    min: u64,
    Ghost(b): Ghost<Seq<Seq<char>>>,
) -> (r: Vec<Revision>)
    requires
        a@.len() == b.len(),
        start + b.len() <= usize::MAX,
        forall|j: int| 0 <= j < a@.len() ==> (#[trigger] a@[j]).describes(b[j]),
    ensures
        r@ == accepted(b, start as int, t, bc, min as nat),
{
    let mut r: Vec<Revision> = Vec::new();
    let mut j: usize = 0;
    while j < a.len()
        invariant
            j <= a@.len() == b.len(),
            start + b.len() <= usize::MAX,
            forall|i: int| 0 <= i < a@.len() ==> (#[trigger] a@[i]).describes(b[i]),
            r@ == accepted(b.take(j as int), start as int, t, bc, min as nat),
        decreases a@.len() - j,
    {
        let ghost bj = b.take(j + 1);
        assert(bj.drop_last() =~= b.take(j as int));
        assert(a@[j as int].describes(b[j as int]));
        let proposed = match a[j].suffix_border {
            Some(border) => if border.column < t {
                Some(
                    Revision::PadBeforeSuffixBorder {
                        line_idx: start + j,
                        spaces_to_add: t - border.column,
                        target_column: t,
                    },
                )
            } else {
                None
            },
            None => if a[j].kind.is_boxy() {
                Some(Revision::AddSuffixBorder { line_idx: start + j, border_char: bc, target_column: t })
            } else {
                None
            },
        };
        assert(proposed == proposal(bj.last(), (start + bj.len() - 1) as usize, t, bc));
        match proposed {
            Some(rev) => {
                if rev.score(a.as_slice(), start) >= min {
                    r.push(rev);
                }
            },
            None => {},
        }
        j += 1;
    }
    assert(b.take(b.len() as int) =~= b);
    r
}

/// Applies `revs`, in order, to the lines of `lines` that hold `b` from `start` on.
fn apply_all(
    lines: &mut Vec<String>,
    revs: &Vec<Revision>,
    start: usize,
    Ghost(b): Ghost<Seq<Seq<char>>>,
)
    requires
        start + b.len() <= old(lines)@.len(),
        texts(old(lines)@).subrange(start as int, start + b.len()) == b,
        forall|i: int|
            0 <= i < revs@.len() ==> start <= (#[trigger] revs@[i]).line() < start + b.len(),
    ensures
        texts(final(lines)@) == splice(texts(old(lines)@), start as int, apply_revs(b, revs@, start as int)),
{
    let ghost v = texts(lines@);
    let mut k: usize = 0;
    proof {
        assert(revs@.take(0) =~= Seq::<Revision>::empty());
        assert(splice(v, start as int, b) =~= v);
    }
    while k < revs.len()
        invariant
            k <= revs@.len(),
            lines@.len() == v.len(),
            start + b.len() <= v.len(),
            v.subrange(start as int, start + b.len()) == b,
            forall|i: int|
                0 <= i < revs@.len() ==> start <= (#[trigger] revs@[i]).line() < start + b.len(),
            texts(lines@) == splice(v, start as int, apply_revs(b, revs@.take(k as int), start as int)),
            apply_revs(b, revs@.take(k as int), start as int).len() == b.len(),
        decreases revs@.len() - k,
    {
        let ghost p = apply_revs(b, revs@.take(k as int), start as int);
        let rev = revs[k];
        assert(revs@[k as int].line() < start + b.len());
        assert(texts(lines@)[rev.line() as int] == p[rev.line() - start]);
        rev.apply(lines);
        assert(revs@.take(k + 1).drop_last() =~= revs@.take(k as int));
        k += 1;
        assert(texts(lines@) =~= splice(v, start as int, apply_revs(b, revs@.take(k as int), start as int)));
    }
    assert(revs@.take(revs@.len() as int) =~= revs@);
}

/// Corrects the lines `[block.start, block.end)` of `lines`: each iteration
/// analyzes a snapshot of the block, aligns closing borders on the rightmost
/// one, and applies the revisions that score at least `config.min_score`; it
/// stops when the block has no border, when nothing is worth applying, or
/// after `config.max_iters` iterations. Lines outside the block are untouched.
pub fn correct_block(lines: &mut Vec<String>, block: &DiagramBlock, config: &Config) -> (out:
    BlockOutcome)
    requires
        block.start <= block.end <= old(lines)@.len(),
        config.max_iters * (block.end - block.start) <= usize::MAX,
    ensures
        ({
            let r = settle(
                texts(old(lines)@).subrange(block.start as int, block.end as int),
                block.start as int,
                config.min_score as nat,
                config.max_iters as nat,
            );
            &&& texts(final(lines)@) == splice(texts(old(lines)@), block.start as int, r.0)
            &&& counts(out.applied@) == r.1
            &&& out.converged == r.2
            &&& out.revisions == sum(r.1)
        }),
{
    let start = block.start;
    let end = block.end;
    let max = config.max_iters;
    let ghost min = config.min_score as nat;
    let ghost v = texts(lines@);
    let ghost blen = (end - start) as nat;
    let ghost fin = settle(v.subrange(start as int, end as int), start as int, min, max as nat);
    let mut it: usize = 0;
    let mut total: usize = 0;
    let mut applied: Vec<usize> = Vec::new();
    let mut converged = false;
    let mut done = false;
    proof {
        assert(splice(v, start as int, v.subrange(start as int, end as int)) =~= v);
        assert(counts(applied@) + fin.1 =~= fin.1);
    }
    while it < max && !done
        invariant
            start <= end <= lines@.len() == v.len(),
            blen == end - start,
            max * blen <= usize::MAX,
            it <= max,
            min == config.min_score as nat,
            texts(lines@) == splice(v, start as int, texts(lines@).subrange(start as int, end as int)),
            !done ==> !converged,
            !done ==> fin == ({
                let r = settle(
                    texts(lines@).subrange(start as int, end as int),
                    start as int,
                    min,
                    (max - it) as nat,
                );
                (r.0, counts(applied@) + r.1, r.2)
            }),
            done ==> fin == (
                texts(lines@).subrange(start as int, end as int),
                counts(applied@),
                converged,
            ),
            total == sum(counts(applied@)),
            total <= it * blen,
        decreases max - it + if done { 0int } else { 1int },
    {
        let ghost cur = texts(lines@).subrange(start as int, end as int);
        let snap = snapshot(lines, start, end);
        let analyzed = analyze_all(&snap);
        match target_column(&analyzed, Ghost(cur)) {
            None => {
                done = true;
                assert(counts(applied@) + Seq::<nat>::empty() =~= counts(applied@));
            },
            Some(t) => {
                let bc = detect_vertical_border(snap.as_slice());
                let revs = accepted_revisions(&analyzed, start, t, bc, config.min_score, Ghost(cur));
                proof {
                    lemma_accepted_bounds(cur, start as int, t, bc, min);
                }
                if revs.len() == 0 {
                    done = true;
                    converged = true;
                    assert(counts(applied@) + Seq::<nat>::empty() =~= counts(applied@));
                } else {
                    let ghost before = texts(lines@);
                    apply_all(lines, &revs, start, Ghost(cur));
                    proof {
                        let nb = apply_revs(cur, revs@, start as int);
                        lemma_apply_revs_len(cur, revs@, start as int);
                        assert(texts(lines@).subrange(start as int, end as int) =~= nb);
                        assert(texts(lines@) =~= splice(v, start as int, nb));
                        let r = settle(nb, start as int, min, (max - it - 1) as nat);
                        assert(counts(applied@.push(revs.len())) =~= counts(applied@).push(
                            revs@.len(),
                        ));
                        assert(counts(applied@).push(revs@.len()) + r.1 =~= counts(applied@) + (
                        seq![revs@.len()] + r.1));
                        assert(counts(applied@.push(revs.len())).drop_last() =~= counts(applied@));
                        assert((it + 1) * blen == it * blen + blen) by (nonlinear_arith);
                        assert((it + 1) * blen <= max * blen) by (nonlinear_arith)
                            requires
                                it < max,
                        ;
                    }
                    total = total + revs.len();
                    applied.push(revs.len());
                    it += 1;
                }
            },
        }
    }
    proof {
        if !done {
            assert(counts(applied@) + Seq::<nat>::empty() =~= counts(applied@));
        }
    }
    BlockOutcome { revisions: total, applied, converged }
}

/// Each line of `ts` with its tabs expanded.
pub open spec fn expanded(ts: Seq<Seq<char>>, w: nat) -> Seq<Seq<char>> {
    Seq::new(ts.len(), |i: int| expand(ts[i], w))
}

/// Correction of the blocks `bs` of `v`, one after another: the final lines,
/// and for each block the revisions of each iteration and whether it settled.
pub open spec fn correct_all(v: Seq<Seq<char>>, bs: Seq<(int, int, nat)>, min: nat, fuel: nat) -> (
    Seq<Seq<char>>,
    Seq<(Seq<nat>, bool)>,
)
    decreases bs.len(),
{
    if bs.len() == 0 {
        (v, Seq::empty())
    } else {
        let p = correct_all(v, bs.drop_last(), min, fuel);
        let b = bs.last();
        let r = settle(p.0.subrange(b.0, b.1), b.0, min, fuel);
        (splice(p.0, b.0, r.0), p.1.push((r.1, r.2)))
    }
}

/// Number of blocks with at least one revision.
pub open spec fn modified_count(os: Seq<(Seq<nat>, bool)>) -> nat
    decreases os.len(),
{
    if os.len() == 0 {
        0
    } else {
        modified_count(os.drop_last()) + if sum(os.last().0) > 0 { 1nat } else { 0nat }
    }
}

/// Revisions over all blocks.
pub open spec fn revisions_total(os: Seq<(Seq<nat>, bool)>) -> nat
    decreases os.len(),
{
    if os.len() == 0 {
        0
    } else {
        revisions_total(os.drop_last()) + sum(os.last().0)
    }
}

/// The full correction of `ts` under `config`: tabs expanded, blocks found,
/// and each block corrected in order.
pub open spec fn correction(ts: Seq<Seq<char>>, config: Config) -> (
    Seq<Seq<char>>,
    Seq<(Seq<nat>, bool)>,
) {
    let e = expanded(ts, config.tab_width as nat);
    correct_all(
        e,
        blocks_from(kinds_of(e), 0, config.all_blocks),
        config.min_score as nat,
        config.max_iters as nat,
    )
}

proof fn lemma_correct_all_len(v: Seq<Seq<char>>, bs: Seq<(int, int, nat)>, min: nat, fuel: nat)
    requires
        forall|j: int| 0 <= j < bs.len() ==> 0 <= (#[trigger] bs[j]).0 <= bs[j].1 <= v.len(),
        v.len() <= usize::MAX,
    ensures
        correct_all(v, bs, min, fuel).0.len() == v.len(),
        correct_all(v, bs, min, fuel).1.len() == bs.len(),
    decreases bs.len(),
{
    if bs.len() > 0 {
        lemma_correct_all_len(v, bs.drop_last(), min, fuel);
        let p = correct_all(v, bs.drop_last(), min, fuel);
        let b = bs.last();
        lemma_settle_shape(p.0.subrange(b.0, b.1), b.0, min, fuel);
    }
}

/// Each line of `lines` with its tabs expanded.
fn expand_all(lines: &Vec<String>, tab_width: usize) -> (buf: Vec<String>)
    requires
        tab_width > 0,
    ensures
        texts(buf@) == expanded(texts(lines@), tab_width as nat),
{
    let ghost e = expanded(texts(lines@), tab_width as nat);
    let mut buf: Vec<String> = Vec::new();
    let mut i: usize = 0;
    while i < lines.len()
        invariant
            tab_width > 0,
            i <= lines@.len(),
            buf@.len() == i,
            e == expanded(texts(lines@), tab_width as nat),
            texts(buf@) == e.take(i as int),
        decreases lines@.len() - i,
    {
        buf.push(expand_tabs(lines[i].as_str(), tab_width));
        i += 1;
        assert(texts(buf@) =~= e.take(i as int));
    }
    assert(texts(buf@) =~= e);
    buf
}

/// The blocks `bs` lie within `n` lines, in order and without overlap.
pub open spec fn ordered_within(bs: Seq<(int, int, nat)>, n: nat) -> bool {
    &&& forall|j: int| 0 <= j < bs.len() ==> 0 <= (#[trigger] bs[j]).0 < bs[j].1 <= n
    &&& forall|j: int| 0 <= j < bs.len() - 1 ==> (#[trigger] bs[j]).1 <= bs[j + 1].0
}

/// Outcomes `os` agree with the spec outcomes `c`.
pub open spec fn outcomes_match(os: Seq<BlockOutcome>, c: Seq<(Seq<nat>, bool)>) -> bool {
    &&& os.len() == c.len()
    &&& forall|k: int|
        0 <= k < c.len() ==> counts((#[trigger] os[k]).applied@) == c[k].0 && os[k].converged
            == c[k].1 && os[k].revisions == sum(c[k].0)
}

/// Corrects `blocks` of `buf` in order; returns the outcomes, the number of
/// blocks modified and the number of revisions.
fn correct_blocks(buf: &mut Vec<String>, blocks: &Vec<DiagramBlock>, config: &Config) -> (r: (
    Vec<BlockOutcome>,
    usize,
    usize,
))
    requires
        ordered_within(block_views(blocks@), old(buf)@.len() as nat),
        config.max_iters * old(buf)@.len() <= usize::MAX,
    ensures
        ({
            let c = correct_all(
                texts(old(buf)@),
                block_views(blocks@),
                config.min_score as nat,
                config.max_iters as nat,
            );
            &&& texts(final(buf)@) == c.0
            &&& outcomes_match(r.0@, c.1)
            &&& r.1 == modified_count(c.1)
            &&& r.2 == revisions_total(c.1)
        }),
{
    let ghost e = texts(buf@);
    let ghost bs = block_views(blocks@);
    let ghost min = config.min_score as nat;
    let ghost fuel = config.max_iters as nat;
    let n_lines = buf.len();
    let ghost n = n_lines as nat;
    let mut outcomes: Vec<BlockOutcome> = Vec::new();
    let mut modified: usize = 0;
    let mut total: usize = 0;
    let mut prev_end: usize = 0;
    let mut k: usize = 0;
    proof {
        assert(bs.take(0) =~= Seq::<(int, int, nat)>::empty());
    }
    while k < blocks.len()
        invariant
            k <= blocks@.len() == bs.len(),
            bs == block_views(blocks@),
            n == e.len(),
            n <= usize::MAX,
            buf@.len() == n,
            config.max_iters * n <= usize::MAX,
            min == config.min_score as nat,
            fuel == config.max_iters as nat,
            ordered_within(bs, n as nat),
            k > 0 ==> prev_end == bs[k - 1].1,
            k == 0 ==> prev_end == 0,
            prev_end <= n,
            texts(buf@) == correct_all(e, bs.take(k as int), min, fuel).0,
            outcomes_match(outcomes@, correct_all(e, bs.take(k as int), min, fuel).1),
            modified == modified_count(correct_all(e, bs.take(k as int), min, fuel).1),
            total == revisions_total(correct_all(e, bs.take(k as int), min, fuel).1),
            total <= config.max_iters * prev_end,
            modified <= k,
        decreases bs.len() - k,
    {
        let ghost p = correct_all(e, bs.take(k as int), min, fuel);
        let ghost b = bs[k as int];
        proof {
            assert(block_views(blocks@)[k as int] == blocks@[k as int].view());
            if k > 0 {
                assert(bs[k - 1].1 <= bs[k as int].0);
            }
            let ms = config.max_iters as int;
            let len = (b.1 - b.0) as int;
            assert(ms * len <= ms * (n as int)) by (nonlinear_arith)
                requires
                    0 <= len <= n,
                    ms >= 0,
            ;
            assert(bs.take(k + 1).drop_last() =~= bs.take(k as int));
            assert(bs.take(k + 1).last() == b);
            assert forall|j: int| 0 <= j < k implies 0 <= (#[trigger] bs.take(k as int)[j]).0 <= bs.take(
                k as int,
            )[j].1 <= e.len() by {
                assert(bs.take(k as int)[j] == bs[j]);
            }
            lemma_correct_all_len(e, bs.take(k as int), min, fuel);
        }
        let outcome = correct_block(buf, &blocks[k], config);
        proof {
            lemma_settle_shape(p.0.subrange(b.0, b.1), b.0, min, fuel);
            assert(texts(buf@).len() == buf@.len());
            let ms = config.max_iters as int;
            assert(ms * prev_end + ms * (b.1 - b.0) <= ms * b.1) by (nonlinear_arith)
                requires
                    prev_end <= b.0 <= b.1,
                    ms >= 0,
            ;
            assert(ms * b.1 <= ms * n) by (nonlinear_arith)
                requires
                    b.1 <= n,
                    ms >= 0,
            ;
        }
        let rev = outcome.revisions;
        if rev > 0 {
            modified = modified + 1;
        }
        total = total + rev;
        prev_end = blocks[k].end;
        outcomes.push(outcome);
        k += 1;
        proof {
            let q = correct_all(e, bs.take(k as int), min, fuel);
            let sr = settle(p.0.subrange(b.0, b.1), b.0, min, fuel);
            assert(q.1 == p.1.push((sr.1, sr.2)));
            assert(q.1.drop_last() =~= p.1);
            assert(q.1.last() == (sr.1, sr.2));
            assert(rev == sum(sr.1));
            assert forall|j: int| 0 <= j < k implies counts((#[trigger] outcomes@[j]).applied@)
                == q.1[j].0 && outcomes@[j].converged == q.1[j].1 && outcomes@[j].revisions == sum(
                q.1[j].0,
            ) by {
                if j < k - 1 {
                    assert(q.1[j] == p.1[j]);
                }
            }
        }
    }
    proof {
        assert(bs.take(bs.len() as int) =~= bs);
    }
    (outcomes, modified, total)
}

/// Corrects every diagram block of `lines`: expands tabs, finds the blocks
/// (only the confident ones unless `config.all_blocks`), and corrects each in
/// turn. Returns the corrected lines and what was done.
pub fn correct_lines(lines: Vec<String>, config: &Config) -> (r: (Vec<String>, Stats))
    requires
        config.tab_width > 0,
        config.max_iters * lines@.len() <= usize::MAX,
    ensures
        ({
            let e = expanded(texts(lines@), config.tab_width as nat);
            let bs = blocks_from(kinds_of(e), 0, config.all_blocks);
            let c = correction(texts(lines@), *config);
            &&& texts(r.0@) == c.0
            &&& block_views(r.1.blocks@) == bs
            &&& r.1.blocks_found == bs.len()
            &&& outcomes_match(r.1.outcomes@, c.1)
            &&& r.1.blocks_modified == modified_count(c.1)
            &&& r.1.total_revisions == revisions_total(c.1)
            &&& r.1.iterations == 0
        }),
{
    let mut buf = expand_all(&lines, config.tab_width);
    let ghost e = texts(buf@);
    let blocks = find_diagram_blocks(buf.as_slice(), config.all_blocks);
    proof {
        lemma_blocks_ordered(kinds_of(e), 0, config.all_blocks);
    }
    let (outcomes, modified, total) = correct_blocks(&mut buf, &blocks, config);
    let stats = Stats {
        blocks_found: blocks.len(),
        blocks_modified: modified,
        total_revisions: total,
        iterations: 0,
        blocks,
        outcomes,
    };
    (buf, stats)
}

/// Once a block has settled, correcting its result again, with any
/// iteration budget, finds no revision worth applying and changes nothing.
pub proof fn lemma_settled_block_is_fixed_point(
    b: Seq<Seq<char>>,
    start: int,
    min: nat,
    fuel: nat,
    again: nat,
)
    requires
        settle(b, start, min, fuel).2,
    ensures
        settle(settle(b, start, min, fuel).0, start, min, again).0 == settle(b, start, min, fuel).0,
        settle(settle(b, start, min, fuel).0, start, min, again).1.len() == 0,
    decreases fuel,
{
    if fuel > 0 {
        if let Some(t) = target_of(b) {
            let revs = accepted(b, start, t as usize, dominant_border(joined(b)), min);
            if revs.len() > 0 {
                lemma_settled_block_is_fixed_point(
                    apply_revs(b, revs, start),
                    start,
                    min,
                    (fuel - 1) as nat,
                    again,
                );
            }
        }
    }
}

} // verus!
