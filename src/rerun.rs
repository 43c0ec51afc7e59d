//! Correcting text that has already been corrected changes nothing.
use vstd::prelude::*;
use crate::correct::{
    accepted, apply_revs, correct_all, correction, expanded, modified_count, revisions_total,
    settle, splice, sum, target_of,
};
use crate::glyph::{box_char, closing_char, dominant_border, is_first_most_frequent, vertical_char};
use crate::line::{box_count, expand, kind_of, lemma_expand_no_tabs, LineKind};
use crate::revise::{add_text, pad_text, Revision};
use crate::segment::{
    blocks_from, boxy_ahead, confidence_of, count_kind, extend_end, kinds_of, lemma_blocks_ordered,
    trim_blanks, MIN_CONFIDENCE,
};
use crate::text::{joined, trim, trim_end, white_space};

verus! {

/// No tab in `s`.
pub open spec fn tab_free(s: Seq<char>) -> bool {
    forall|i: int| 0 <= i < s.len() ==> s[i] != '\t'
}

/// Two kinds fall in the same class: blank, plain, or boxy.
pub open spec fn same_class(a: LineKind, b: LineKind) -> bool {
    a == b || (a.boxy() && b.boxy())
}

/// `b2` has the lines of `b`, each in the same class, and tab free where `b`'s was.
pub open spec fn keeps_shape(b: Seq<Seq<char>>, b2: Seq<Seq<char>>) -> bool {
    &&& b2.len() == b.len()
    &&& forall|i: int|
        0 <= i < b.len() ==> same_class(kind_of(#[trigger] b2[i]), kind_of(b[i])) && (tab_free(
            b[i],
        ) ==> tab_free(b2[i]))
}

proof fn lemma_expand_tab_free(s: Seq<char>, w: nat)
    requires
        tab_free(s),
    ensures
        expand(s, w) == s,
    decreases s.len(),
{
    if s.len() > 0 {
        lemma_expand_tab_free(s.drop_last(), w);
        assert(s.last() == s[s.len() - 1]);
        assert(s.drop_last().push(s.last()) =~= s);
    }
}

proof fn lemma_trim_shape(s: Seq<char>)
    ensures
        exists|m: int, n: int|
            0 <= m <= n <= s.len() && trim(s) == s.subrange(m, n) && (forall|i: int|
                0 <= i < m ==> white_space(#[trigger] s[i])) && (forall|i: int|
                n <= i < s.len() ==> white_space(#[trigger] s[i])),
{
    crate::line::lemma_trim_end_shape(s);
    let e = trim_end(s);
    crate::line::lemma_trim_start_shape(e);
    let n = e.len() as int;
    let m = e.len() - trim(s).len();
    assert(trim(s) =~= s.subrange(m, n));
    assert forall|i: int| 0 <= i < m implies white_space(#[trigger] s[i]) by {
        assert(e[i] == s[i]);
    }
}

proof fn lemma_box_count_pos(s: Seq<char>, k: int)
    requires
        0 <= k < s.len(),
        box_char(s[k]),
    ensures
        box_count(s) > 0,
    decreases s.len(),
{
    if k < s.len() - 1 {
        lemma_box_count_pos(s.drop_last(), k);
    }
}

/// A line holding a box piece that is not white space is boxy.
proof fn lemma_box_piece_makes_boxy(s: Seq<char>, k: int)
    requires
        0 <= k < s.len(),
        box_char(s[k]),
        !white_space(s[k]),
    ensures
        kind_of(s).boxy(),
{
    lemma_trim_shape(s);
    let (m, n) = choose|m: int, n: int|
        0 <= m <= n <= s.len() && trim(s) == s.subrange(m, n) && (forall|i: int|
            0 <= i < m ==> white_space(#[trigger] s[i])) && (forall|i: int|
            n <= i < s.len() ==> white_space(#[trigger] s[i]));
    assert(m <= k < n);
    assert(trim(s)[k - m] == s[k]);
    lemma_box_count_pos(trim(s), k - m);
}

proof fn lemma_closing_not_space(c: char)
    requires
        closing_char(c),
    ensures
        box_char(c),
        !white_space(c),
        c != '\t',
{
}

/// A revision keeps a boxy line boxy, and a tab-free one tab free.
proof fn lemma_revised_keeps(r: Revision, s: Seq<char>)
    requires
        kind_of(s).boxy(),
        r matches Revision::AddSuffixBorder { border_char, .. } ==> vertical_char(border_char),
    ensures
        kind_of(r.revised(s)).boxy(),
        tab_free(s) ==> tab_free(r.revised(s)),
{
    let t = trim_end(s);
    crate::line::lemma_trim_end_shape(s);
    match r {
        Revision::PadBeforeSuffixBorder { spaces_to_add, .. } => {
            if t.len() > 0 && closing_char(t.last()) {
                let x = pad_text(s, spaces_to_add as nat);
                let c = t.last();
                lemma_closing_not_space(c);
                assert(x[x.len() - 1] == c);
                lemma_box_piece_makes_boxy(x, x.len() - 1);
                if tab_free(s) {
                    assert forall|i: int| 0 <= i < x.len() implies x[i] != '\t' by {
                        if i < t.len() - 1 {
                            assert(x[i] == s[i]);
                        }
                    }
                }
            }
        },
        Revision::AddSuffixBorder { border_char, target_column, .. } => {
            let x = add_text(s, target_column as nat, border_char);
            lemma_closing_not_space(border_char);
            assert(x[x.len() - 1] == border_char);
            lemma_box_piece_makes_boxy(x, x.len() - 1);
            if tab_free(s) {
                assert forall|i: int| 0 <= i < x.len() implies x[i] != '\t' by {
                    if i < t.len() {
                        assert(x[i] == s[i]);
                    }
                }
            }
        },
    }
}

proof fn lemma_dominant_is_vertical(s: Seq<char>)
    ensures
        vertical_char(dominant_border(s)),
{
    if exists|k: int| is_first_most_frequent(s, k) {
        let k = choose|k: int| is_first_most_frequent(s, k);
        assert(vertical_char(s[k]));
    }
}

/// Every accepted revision is for a boxy line of `b`, and one that adds a border adds `bc`.
proof fn lemma_accepted_targets_boxy(b: Seq<Seq<char>>, start: int, t: usize, bc: char, min: nat)
    requires
        0 <= start,
        start + b.len() <= usize::MAX,
    ensures
        forall|i: int|
            0 <= i < accepted(b, start, t, bc, min).len() ==> {
                let r = #[trigger] accepted(b, start, t, bc, min)[i];
                &&& start <= r.line() < start + b.len()
                &&& kind_of(b[r.line() - start]).boxy()
                &&& (r matches Revision::AddSuffixBorder { border_char, .. } ==> border_char == bc)
            },
    decreases b.len(),
{
    if b.len() > 0 {
        lemma_accepted_targets_boxy(b.drop_last(), start, t, bc, min);
        let prev = accepted(b.drop_last(), start, t, bc, min);
        let acc = accepted(b, start, t, bc, min);
        assert forall|i: int| 0 <= i < acc.len() implies {
            let r = #[trigger] acc[i];
            &&& start <= r.line() < start + b.len()
            &&& kind_of(b[r.line() - start]).boxy()
            &&& (r matches Revision::AddSuffixBorder { border_char, .. } ==> border_char == bc)
        } by {
            if i < prev.len() {
                assert(acc[i] == prev[i]);
                assert(b.drop_last()[acc[i].line() - start] == b[acc[i].line() - start]);
            }
        }
    }
}

proof fn lemma_apply_revs_keeps(b: Seq<Seq<char>>, revs: Seq<Revision>, start: int, bc: char)
    requires
        vertical_char(bc),
        forall|i: int|
            0 <= i < revs.len() ==> {
                let r = #[trigger] revs[i];
                &&& start <= r.line() < start + b.len()
                &&& kind_of(b[r.line() - start]).boxy()
                &&& (r matches Revision::AddSuffixBorder { border_char, .. } ==> border_char == bc)
            },
    ensures
        keeps_shape(b, apply_revs(b, revs, start)),
    decreases revs.len(),
{
    if revs.len() == 0 {
    } else {
        let pre = revs.drop_last();
        assert forall|i: int| 0 <= i < pre.len() implies {
            let r = #[trigger] pre[i];
            &&& start <= r.line() < start + b.len()
            &&& kind_of(b[r.line() - start]).boxy()
            &&& (r matches Revision::AddSuffixBorder { border_char, .. } ==> border_char == bc)
        } by {
            assert(pre[i] == revs[i]);
        }
        lemma_apply_revs_keeps(b, pre, start, bc);
        let p = apply_revs(b, pre, start);
        let r = revs.last();
        assert(r == revs[revs.len() - 1]);
        let k = r.line() - start;
        lemma_revised_keeps(r, p[k]);
        let q = apply_revs(b, revs, start);
        assert forall|i: int| 0 <= i < b.len() implies same_class(kind_of(#[trigger] q[i]), kind_of(b[i]))
            && (tab_free(b[i]) ==> tab_free(q[i])) by {
            if i != k {
                assert(q[i] == p[i]);
            }
        }
    }
}

/// Correcting a block keeps the class of each line, and tab-free lines tab free.
proof fn lemma_settle_keeps(b: Seq<Seq<char>>, start: int, min: nat, fuel: nat)
    requires
        0 <= start,
        start + b.len() <= usize::MAX,
    ensures
        keeps_shape(b, settle(b, start, min, fuel).0),
    decreases fuel,
{
    if fuel > 0 {
        if let Some(t) = target_of(b) {
            let bc = dominant_border(joined(b));
            let revs = accepted(b, start, t as usize, bc, min);
            if revs.len() > 0 {
                lemma_dominant_is_vertical(joined(b));
                lemma_accepted_targets_boxy(b, start, t as usize, bc, min);
                lemma_apply_revs_keeps(b, revs, start, bc);
                let nb = apply_revs(b, revs, start);
                lemma_settle_keeps(nb, start, min, (fuel - 1) as nat);
                let f = settle(nb, start, min, (fuel - 1) as nat).0;
                assert forall|i: int| 0 <= i < b.len() implies same_class(
                    kind_of(#[trigger] f[i]),
                    kind_of(b[i]),
                ) && (tab_free(b[i]) ==> tab_free(f[i])) by {
                    assert(same_class(kind_of(f[i]), kind_of(nb[i])));
                    assert(same_class(kind_of(nb[i]), kind_of(b[i])));
                }
            }
        }
    }
}

/// A block that stopped before its budget ran out is left as it is by a second correction.
proof fn lemma_early_stop_is_fixed_point(b: Seq<Seq<char>>, start: int, min: nat, fuel: nat, again: nat)
    requires
        settle(b, start, min, fuel).1.len() < fuel,
    ensures
        settle(settle(b, start, min, fuel).0, start, min, again).0 == settle(b, start, min, fuel).0,
        settle(settle(b, start, min, fuel).0, start, min, again).1.len() == 0,
    decreases fuel,
{
    if let Some(t) = target_of(b) {
        let revs = accepted(b, start, t as usize, dominant_border(joined(b)), min);
        if revs.len() > 0 {
            lemma_early_stop_is_fixed_point(
                apply_revs(b, revs, start),
                start,
                min,
                (fuel - 1) as nat,
                again,
            );
        }
    }
}

/// Some block of `bs` covers line `p`.
pub open spec fn covered(bs: Seq<(int, int, nat)>, p: int) -> bool {
    exists|m: int| 0 <= m < bs.len() && (#[trigger] bs[m]).0 <= p < bs[m].1
}

/// Some block of `bs` spans exactly `[start, end)`.
pub open spec fn has_span(bs: Seq<(int, int, nat)>, start: int, end: int) -> bool {
    exists|m: int| 0 <= m < bs.len() && (#[trigger] bs[m]).0 == start && bs[m].1 == end
}

pub open spec fn classes_agree(k1: Seq<LineKind>, k2: Seq<LineKind>) -> bool {
    &&& k1.len() == k2.len()
    &&& forall|p: int| 0 <= p < k1.len() ==> same_class(#[trigger] k2[p], k1[p])
}

proof fn lemma_extend_end_by_class(k1: Seq<LineKind>, k2: Seq<LineKind>, end: int, gap: nat)
    requires
        classes_agree(k1, k2),
    ensures
        extend_end(k1, end, gap) == extend_end(k2, end, gap),
    decreases k1.len() - end,
{
    if 0 <= end < k1.len() {
        assert(same_class(k2[end], k1[end]));
        assert(boxy_ahead(k1, end) == boxy_ahead(k2, end)) by {
            if boxy_ahead(k1, end) {
                let j = choose|j: int| end < j <= end + 3 && j < k1.len() && (#[trigger] k1[j]).boxy();
                assert(same_class(k2[j], k1[j]));
            }
            if boxy_ahead(k2, end) {
                let j = choose|j: int| end < j <= end + 3 && j < k2.len() && (#[trigger] k2[j]).boxy();
                assert(same_class(k2[j], k1[j]));
            }
        }
        match k1[end] {
            LineKind::Strong | LineKind::Weak => lemma_extend_end_by_class(k1, k2, end + 1, 0),
            LineKind::Blank => if gap < 1 {
                lemma_extend_end_by_class(k1, k2, end + 1, 1)
            },
            LineKind::Plain => if gap == 0 && boxy_ahead(k1, end) {
                lemma_extend_end_by_class(k1, k2, end + 1, gap)
            },
        }
    }
}

proof fn lemma_trim_blanks_by_class(k1: Seq<LineKind>, k2: Seq<LineKind>, start: int, end: int)
    requires
        classes_agree(k1, k2),
    ensures
        trim_blanks(k1, start, end) == trim_blanks(k2, start, end),
    decreases end - start,
{
    if end > start && 0 < end <= k1.len() {
        assert(same_class(k2[end - 1], k1[end - 1]));
        lemma_trim_blanks_by_class(k1, k2, start, end - 1);
    }
}

/// Rescanning kinds of the same classes, that differ only on lines inside
/// blocks of the first scan, finds only spans that the first scan found.
proof fn lemma_rescan_spans(k1: Seq<LineKind>, k2: Seq<LineKind>, i: int, all: bool)
    requires
        0 <= i,
        classes_agree(k1, k2),
        forall|p: int|
            i <= p < k1.len() && k1[p] != k2[p] ==> covered(blocks_from(k1, i, all), p),
    ensures
        forall|j: int|
            0 <= j < blocks_from(k2, i, all).len() ==> has_span(
                blocks_from(k1, i, all),
                (#[trigger] blocks_from(k2, i, all)[j]).0,
                blocks_from(k2, i, all)[j].1,
            ),
    decreases k1.len() - i,
{
    let b1 = blocks_from(k1, i, all);
    let b2 = blocks_from(k2, i, all);
    if 0 <= i < k1.len() {
        assert(same_class(k2[i], k1[i]));
        if !k1[i].boxy() {
            assert(b1 == blocks_from(k1, i + 1, all));
            assert(b2 == blocks_from(k2, i + 1, all));
            lemma_rescan_spans(k1, k2, i + 1, all);
        } else {
            lemma_extend_end_by_class(k1, k2, i + 1, 0);
            let e0 = extend_end(k1, i + 1, 0);
            lemma_trim_blanks_by_class(k1, k2, i, e0);
            let end = trim_blanks(k1, i, e0);
            if i < end <= k1.len() {
                let sub1 = k1.subrange(i, end);
                let sub2 = k2.subrange(i, end);
                let c1 = confidence_of(
                    count_kind(sub1, LineKind::Strong),
                    count_kind(sub1, LineKind::Weak),
                    (end - i) as nat,
                );
                let c2 = confidence_of(
                    count_kind(sub2, LineKind::Strong),
                    count_kind(sub2, LineKind::Weak),
                    (end - i) as nat,
                );
                let r1 = blocks_from(k1, end, all);
                let r2 = blocks_from(k2, end, all);
                lemma_blocks_ordered(k1, end, all);
                let kept1 = all || c1 >= MIN_CONFIDENCE;
                if kept1 {
                    assert(b1 == seq![(i, end, c1)] + r1);
                } else {
                    assert(b1 == r1);
                    assert(sub1 =~= sub2) by {
                        assert forall|q: int| 0 <= q < sub1.len() implies sub1[q] == sub2[q] by {
                            if k1[i + q] != k2[i + q] {
                                let m = choose|m: int|
                                    0 <= m < r1.len() && (#[trigger] r1[m]).0 <= i + q < r1[m].1;
                            }
                        }
                    }
                }
                assert forall|p: int|
                    end <= p < k1.len() && k1[p] != k2[p] implies covered(r1, p) by {
                    let m = choose|m: int| 0 <= m < b1.len() && (#[trigger] b1[m]).0 <= p < b1[m].1;
                    if kept1 {
                        if m > 0 {
                            assert(b1[m] == r1[m - 1]);
                        }
                    }
                }
                lemma_rescan_spans(k1, k2, end, all);
                assert forall|j: int| 0 <= j < b2.len() implies has_span(
                    b1,
                    (#[trigger] b2[j]).0,
                    b2[j].1,
                ) by {
                    let kept2 = all || c2 >= MIN_CONFIDENCE;
                    let rj = if kept2 { j - 1 } else { j };
                    if kept2 {
                        assert(b2 == seq![(i, end, c2)] + r2);
                    } else {
                        assert(b2 == r2);
                    }
                    if kept2 && j == 0 {
                        assert(kept1);
                        assert(b1[0].0 == i && b1[0].1 == end);
                    } else {
                        assert(b2[j] == r2[rj]);
                        let m = choose|m: int|
                            0 <= m < r1.len() && (#[trigger] r1[m]).0 == r2[rj].0 && r1[m].1 == r2[rj].1;
                        if kept1 {
                            assert(b1[m + 1] == r1[m]);
                        } else {
                            assert(b1[m] == r1[m]);
                        }
                    }
                }
            } else {
                assert(b2.len() == 0);
            }
        }
    }
}

proof fn lemma_pairwise_ordered(bs: Seq<(int, int, nat)>, j: int, k: int)
    requires
        forall|x: int| 0 <= x < bs.len() ==> (#[trigger] bs[x]).0 < bs[x].1,
        forall|x: int| 0 <= x < bs.len() - 1 ==> (#[trigger] bs[x]).1 <= bs[x + 1].0,
        0 <= j < k < bs.len(),
    ensures
        bs[j].1 <= bs[k].0,
    decreases k - j,
{
    if j + 1 < k {
        lemma_pairwise_ordered(bs, j + 1, k);
        assert(bs[j].1 <= bs[j + 1].0);
        assert(bs[j + 1].0 < bs[j + 1].1);
    }
}

/// What correcting disjoint blocks in order does to each line.
proof fn lemma_correct_all_parts(v: Seq<Seq<char>>, bs: Seq<(int, int, nat)>, min: nat, fuel: nat)
    requires
        v.len() <= usize::MAX,
        forall|j: int| 0 <= j < bs.len() ==> 0 <= (#[trigger] bs[j]).0 < bs[j].1 <= v.len(),
        forall|j: int, k: int| 0 <= j < k < bs.len() ==> (#[trigger] bs[j]).1 <= (#[trigger] bs[k]).0,
    ensures
        correct_all(v, bs, min, fuel).0.len() == v.len(),
        correct_all(v, bs, min, fuel).1.len() == bs.len(),
        forall|p: int|
            0 <= p < v.len() && !covered(bs, p) ==> #[trigger] correct_all(v, bs, min, fuel).0[p]
                == v[p],
        forall|j: int|
            0 <= j < bs.len() ==> correct_all(v, bs, min, fuel).0.subrange(
                (#[trigger] bs[j]).0,
                bs[j].1,
            ) == settle(v.subrange(bs[j].0, bs[j].1), bs[j].0, min, fuel).0 && correct_all(
                v,
                bs,
                min,
                fuel,
            ).1[j] == (
                settle(v.subrange(bs[j].0, bs[j].1), bs[j].0, min, fuel).1,
                settle(v.subrange(bs[j].0, bs[j].1), bs[j].0, min, fuel).2,
            ),
    decreases bs.len(),
{
    if bs.len() > 0 {
        let pre = bs.drop_last();
        assert forall|j: int, k: int| 0 <= j < k < pre.len() implies (#[trigger] pre[j]).1 <= (
        #[trigger] pre[k]).0 by {
            assert(pre[j] == bs[j] && pre[k] == bs[k]);
        }
        lemma_correct_all_parts(v, pre, min, fuel);
        let p = correct_all(v, pre, min, fuel);
        let b = bs.last();
        let n = bs.len() - 1;
        assert(b == bs[n]);
        assert(p.0.subrange(b.0, b.1) =~= v.subrange(b.0, b.1)) by {
            assert forall|q: int| b.0 <= q < b.1 implies !covered(pre, q) by {
                if covered(pre, q) {
                    let m = choose|m: int| 0 <= m < pre.len() && (#[trigger] pre[m]).0 <= q < pre[m].1;
                    assert(bs[m].1 <= bs[n].0);
                }
            }
            assert forall|q: int| 0 <= q < b.1 - b.0 implies p.0.subrange(b.0, b.1)[q] == v.subrange(
                b.0,
                b.1,
            )[q] by {
                assert(p.0[b.0 + q] == v[b.0 + q]);
            }
        }
        let r = settle(v.subrange(b.0, b.1), b.0, min, fuel);
        crate::correct::lemma_settle_shape(v.subrange(b.0, b.1), b.0, min, fuel);
        let c = correct_all(v, bs, min, fuel);
        assert(c.0 == splice(p.0, b.0, r.0));
        assert(c.1 == p.1.push((r.1, r.2)));
        assert forall|q: int| 0 <= q < v.len() && !covered(bs, q) implies #[trigger] c.0[q] == v[q] by {
            if covered(pre, q) {
                let m = choose|m: int| 0 <= m < pre.len() && (#[trigger] pre[m]).0 <= q < pre[m].1;
                assert(bs[m] == pre[m]);
            }
            assert(!(b.0 <= q < b.1));
        }
        assert forall|j: int| 0 <= j < bs.len() implies c.0.subrange((#[trigger] bs[j]).0, bs[j].1)
            == settle(v.subrange(bs[j].0, bs[j].1), bs[j].0, min, fuel).0 && c.1[j] == (
            settle(v.subrange(bs[j].0, bs[j].1), bs[j].0, min, fuel).1,
            settle(v.subrange(bs[j].0, bs[j].1), bs[j].0, min, fuel).2,
        ) by {
            if j < n {
                assert(bs[j] == pre[j]);
                assert(bs[j].1 <= bs[n].0);
                assert(c.0.subrange(bs[j].0, bs[j].1) =~= p.0.subrange(bs[j].0, bs[j].1));
            } else {
                assert(c.0.subrange(b.0, b.1) =~= r.0);
            }
        }
    }
}

/// Correcting blocks that are all fixed points changes nothing.
proof fn lemma_fold_fixed(v: Seq<Seq<char>>, bs: Seq<(int, int, nat)>, min: nat, fuel: nat)
    requires
        forall|j: int| 0 <= j < bs.len() ==> 0 <= (#[trigger] bs[j]).0 <= bs[j].1 <= v.len(),
        forall|j: int|
            0 <= j < bs.len() ==> settle(v.subrange((#[trigger] bs[j]).0, bs[j].1), bs[j].0, min, fuel).0
                == v.subrange(bs[j].0, bs[j].1) && settle(
                v.subrange(bs[j].0, bs[j].1),
                bs[j].0,
                min,
                fuel,
            ).1.len() == 0,
    ensures
        correct_all(v, bs, min, fuel).0 == v,
        revisions_total(correct_all(v, bs, min, fuel).1) == 0,
        modified_count(correct_all(v, bs, min, fuel).1) == 0,
    decreases bs.len(),
{
    if bs.len() > 0 {
        let pre = bs.drop_last();
        assert forall|j: int| 0 <= j < pre.len() implies 0 <= (#[trigger] pre[j]).0 <= pre[j].1 <= v.len()
            && settle(v.subrange(pre[j].0, pre[j].1), pre[j].0, min, fuel).0 == v.subrange(
            pre[j].0,
            pre[j].1,
        ) && settle(v.subrange(pre[j].0, pre[j].1), pre[j].0, min, fuel).1.len() == 0 by {
            assert(pre[j] == bs[j]);
        }
        lemma_fold_fixed(v, pre, min, fuel);
        let b = bs.last();
        assert(b == bs[bs.len() - 1]);
        let r = settle(v.subrange(b.0, b.1), b.0, min, fuel);
        assert(splice(v, b.0, r.0) =~= v);
        let c = correct_all(v, bs, min, fuel);
        assert(c.1.drop_last() =~= correct_all(v, pre, min, fuel).1);
        assert(r.1 =~= Seq::<nat>::empty());
        assert(sum(c.1.last().0) == 0);
    }
}

/// Correcting the output of a correction again, with the same settings,
/// changes nothing and applies no revision, provided every block of the first
/// run stopped before its iteration budget ran out: it settled, or it had no
/// closing border.
pub proof fn lemma_second_run_changes_nothing(ts: Seq<Seq<char>>, config: crate::correct::Config)
    requires
        config.tab_width > 0,
        ts.len() <= usize::MAX,
        forall|k: int|
            0 <= k < correction(ts, config).1.len() ==> (#[trigger] correction(ts, config).1[k]).0.len()
                < config.max_iters,
    ensures
        correction(correction(ts, config).0, config).0 == correction(ts, config).0,
        revisions_total(correction(correction(ts, config).0, config).1) == 0,
        modified_count(correction(correction(ts, config).0, config).1) == 0,
{
    let w = config.tab_width as nat;
    let min = config.min_score as nat;
    let fuel = config.max_iters as nat;
    let all = config.all_blocks;
    let e = expanded(ts, w);
    let k1 = kinds_of(e);
    let bs1 = blocks_from(k1, 0, all);
    let c = correct_all(e, bs1, min, fuel);
    let out = c.0;
    lemma_blocks_ordered(k1, 0, all);
    assert forall|j: int, k: int| 0 <= j < k < bs1.len() implies (#[trigger] bs1[j]).1 <= (
    #[trigger] bs1[k]).0 by {
        lemma_pairwise_ordered(bs1, j, k);
    }
    lemma_correct_all_parts(e, bs1, min, fuel);
    assert forall|p: int| 0 <= p < out.len() implies same_class(
        kind_of(#[trigger] out[p]),
        kind_of(e[p]),
    ) && tab_free(out[p]) && (!covered(bs1, p) ==> out[p] == e[p]) by {
        lemma_expand_no_tabs(ts[p], w);
        assert(tab_free(e[p]));
        if covered(bs1, p) {
            let m = choose|m: int| 0 <= m < bs1.len() && (#[trigger] bs1[m]).0 <= p < bs1[m].1;
            let b = bs1[m];
            let sub = e.subrange(b.0, b.1);
            lemma_settle_keeps(sub, b.0, min, fuel);
            let f = settle(sub, b.0, min, fuel).0;
            assert(out.subrange(b.0, b.1) == f);
            assert(out[p] == f[p - b.0]);
            assert(sub[p - b.0] == e[p]);
        }
    }
    let e2 = expanded(out, w);
    assert(e2 =~= out) by {
        assert forall|p: int| 0 <= p < out.len() implies e2[p] == out[p] by {
            lemma_expand_tab_free(out[p], w);
        }
    }
    let k2 = kinds_of(out);
    assert(classes_agree(k1, k2));
    assert forall|p: int| 0 <= p < k1.len() && k1[p] != k2[p] implies covered(bs1, p) by {
        if !covered(bs1, p) {
            assert(out[p] == e[p]);
        }
    }
    lemma_rescan_spans(k1, k2, 0, all);
    let bs2 = blocks_from(k2, 0, all);
    lemma_blocks_ordered(k2, 0, all);
    assert forall|j: int| 0 <= j < bs2.len() implies settle(
        out.subrange((#[trigger] bs2[j]).0, bs2[j].1),
        bs2[j].0,
        min,
        fuel,
    ).0 == out.subrange(bs2[j].0, bs2[j].1) && settle(
        out.subrange(bs2[j].0, bs2[j].1),
        bs2[j].0,
        min,
        fuel,
    ).1.len() == 0 by {
        let m = choose|m: int| 0 <= m < bs1.len() && (#[trigger] bs1[m]).0 == bs2[j].0 && bs1[m].1 == bs2[j].1;
        let b = bs1[m];
        let sub = e.subrange(b.0, b.1);
        assert(c == correction(ts, config));
        assert(correction(ts, config).1[m].0.len() < config.max_iters);
        assert(c.1[m].0.len() < fuel);
        lemma_early_stop_is_fixed_point(sub, b.0, min, fuel, fuel);
    }
    lemma_fold_fixed(out, bs2, min, fuel);
}

} // verus!
