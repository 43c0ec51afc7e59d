//! Classification of single characters as pieces of a box drawing.
use vstd::prelude::*;
use crate::text::{chars_of, joined, texts};

verus! {

/// Corner pieces, ASCII and Unicode.
pub open spec fn corner_char(c: char) -> bool {
    c == '+' || c == '┌' || c == '┐' || c == '└' || c == '┘' || c == '╔' || c == '╗' || c == '╚'
        || c == '╝' || c == '╭' || c == '╮' || c == '╯' || c == '╰'
}

/// Horizontal fill pieces.
pub open spec fn fill_char(c: char) -> bool {
    c == '-' || c == '─' || c == '━' || c == '═' || c == '╌' || c == '╍' || c == '┄' || c == '┅'
        || c == '┈' || c == '┉' || c == '~' || c == '='
}

/// Vertical border pieces.
pub open spec fn vertical_char(c: char) -> bool {
    c == '|' || c == '│' || c == '┃' || c == '║' || c == '╎' || c == '╏' || c == '┆' || c == '┇'
        || c == '┊' || c == '┋'
}

/// T-junction and cross pieces.
pub open spec fn junction_char(c: char) -> bool {
    c == '┬' || c == '┴' || c == '├' || c == '┤' || c == '┼' || c == '╦' || c == '╩' || c == '╠'
        || c == '╣' || c == '╬' || c == '╤' || c == '╧' || c == '╟' || c == '╢' || c == '╫' || c
        == '╪'
}

/// Any piece of a box drawing.
pub open spec fn box_char(c: char) -> bool {
    corner_char(c) || fill_char(c) || vertical_char(c) || junction_char(c)
}

/// A character that can close a line of a box: a vertical border or a corner.
pub open spec fn closing_char(c: char) -> bool {
    vertical_char(c) || corner_char(c)
}

/// Whether `c` is a corner piece.
pub fn is_corner(c: char) -> (r: bool)
    ensures
        r == corner_char(c),
{
    matches!(c, '+' | '┌' | '┐' | '└' | '┘' | '╔' | '╗' | '╚' | '╝' | '╭' | '╮' | '╯' | '╰')
}

/// Whether `c` is a horizontal fill piece.
pub fn is_horizontal_fill(c: char) -> (r: bool)
    ensures
        r == fill_char(c),
{
    matches!(c, '-' | '─' | '━' | '═' | '╌' | '╍' | '┄' | '┅' | '┈' | '┉' | '~' | '=')
}

/// Whether `c` is a vertical border piece.
pub fn is_vertical_border(c: char) -> (r: bool)
    ensures
        r == vertical_char(c),
{
    matches!(c, '|' | '│' | '┃' | '║' | '╎' | '╏' | '┆' | '┇' | '┊' | '┋')
}

/// Whether `c` is a T-junction or cross piece.
pub fn is_junction(c: char) -> (r: bool)
    ensures
        r == junction_char(c),
{
    matches!(
        c,
        '┬' | '┴' | '├' | '┤' | '┼' | '╦' | '╩' | '╠' | '╣' | '╬' | '╤' | '╧' | '╟' | '╢' | '╫'
            | '╪'
    )
}

/// Whether `c` is any piece of a box drawing.
pub fn is_box_char(c: char) -> (r: bool)
    ensures
        r == box_char(c),
{
    is_corner(c) || is_horizontal_fill(c) || is_vertical_border(c) || is_junction(c)
}

/// How many times `c` occurs in `s`.
pub open spec fn occurrences(s: Seq<char>, c: char) -> nat
    decreases s.len(),
{
    if s.len() == 0 {
        0
    } else {
        occurrences(s.drop_last(), c) + if s.last() == c { 1nat } else { 0nat }
    }
}

/// Position `k` of `s` holds the vertical border that occurs most often, and no
/// earlier position holds one that occurs as often.
pub open spec fn is_first_most_frequent(s: Seq<char>, k: int) -> bool {
    &&& 0 <= k < s.len()
    &&& vertical_char(s[k])
    &&& forall|j: int|
        0 <= j < k && vertical_char(#[trigger] s[j]) ==> occurrences(s, s[j]) < occurrences(s, s[k])
    &&& forall|j: int|
        k <= j < s.len() && vertical_char(#[trigger] s[j]) ==> occurrences(s, s[j]) <= occurrences(
            s,
            s[k],
        )
}

/// The vertical border that occurs most often in `s`, the first one seen on a
/// tie, or `|` when `s` holds none.
pub open spec fn dominant_border(s: Seq<char>) -> char {
    if exists|k: int| is_first_most_frequent(s, k) {
        s[choose|k: int| is_first_most_frequent(s, k)]
    } else {
        '|'
    }
}

/// Two positions that both satisfy `is_first_most_frequent` are the same.
proof fn lemma_first_most_frequent_unique(s: Seq<char>, k1: int, k2: int)
    requires
        is_first_most_frequent(s, k1),
        is_first_most_frequent(s, k2),
    ensures
        k1 == k2,
{
    if k1 < k2 {
        assert(occurrences(s, s[k1]) < occurrences(s, s[k2]));
    } else if k2 < k1 {
        assert(occurrences(s, s[k2]) < occurrences(s, s[k1]));
    }
}

proof fn lemma_occurrences_take(s: Seq<char>, i: int, c: char)
    requires
        0 <= i < s.len(),
    ensures
        occurrences(s.take(i + 1), c) == occurrences(s.take(i), c) + if s[i] == c { 1nat } else { 0nat },
{
    assert(s.take(i + 1).drop_last() =~= s.take(i));
}

/// How many times `c` occurs in `s`.
fn count_of(s: &Vec<char>, c: char) -> (n: usize)
    ensures
        n == occurrences(s@, c),
{
    let mut n: usize = 0;
    let mut i: usize = 0;
    while i < s.len()
        invariant
            i <= s@.len(),
            n == occurrences(s@.take(i as int), c),
            n <= i,
        decreases s@.len() - i,
    {
        proof {
            lemma_occurrences_take(s@, i as int, c);
        }
        if s[i] == c {
            n += 1;
        }
        i += 1;
    }
    assert(s@.take(s@.len() as int) =~= s@);
    n
}

/// The characters of all `lines` in one vector.
fn all_chars(lines: &[String]) -> (r: Vec<char>)
    ensures
        r@ == joined(texts(lines@)),
{
    let mut r: Vec<char> = Vec::new();
    let mut i: usize = 0;
    while i < lines.len()
        invariant
            i <= lines@.len(),
            r@ == joined(texts(lines@.take(i as int))),
        decreases lines@.len() - i,
    {
        let cs = chars_of(lines[i].as_str());
        let mut j: usize = 0;
        let ghost before = r@;
        while j < cs.len()
            invariant
                j <= cs@.len(),
                r@ == before + cs@.take(j as int),
            decreases cs@.len() - j,
        {
            r.push(cs[j]);
            j += 1;
            assert(r@ =~= before + cs@.take(j as int));
        }
        proof {
            let t = texts(lines@.take(i + 1));
            assert(t.drop_last() =~= texts(lines@.take(i as int)));
            assert(cs@.take(j as int) =~= cs@);
            assert(t.last() == lines@[i as int]@);
        }
        i += 1;
    }
    assert(lines@.take(lines@.len() as int) =~= lines@);
    r
}

/// The vertical border character that occurs most often in `lines`; on a tie
/// the one met first, reading line by line; `|` where there is none.
pub fn detect_vertical_border(lines: &[String]) -> (r: char)
    ensures
        r == dominant_border(joined(texts(lines@))),
{
    let s = all_chars(lines);
    let mut best: usize = 0;
    let mut best_count: usize = 0;
    let mut found = false;
    let mut i: usize = 0;
    while i < s.len()
        invariant
            i <= s@.len(),
            found ==> best < i,
            found ==> vertical_char(s@[best as int]),
            found ==> best_count == occurrences(s@, s@[best as int]),
            found ==> best_count > 0,
            !found ==> forall|j: int| 0 <= j < i ==> !vertical_char(#[trigger] s@[j]),
            found ==> forall|j: int|
                0 <= j < best && vertical_char(#[trigger] s@[j]) ==> occurrences(s@, s@[j])
                    < best_count,
            found ==> forall|j: int|
                best <= j < i && vertical_char(#[trigger] s@[j]) ==> occurrences(s@, s@[j])
                    <= best_count,
        decreases s@.len() - i,
    {
        if is_vertical_border(s[i]) {
            let n = count_of(&s, s[i]);
            if !found || n > best_count {
                if !found {
                    proof {
                        lemma_occurs_at(s@, i as int);
                    }
                }
                best = i;
                best_count = n;
                found = true;
            }
        }
        i += 1;
    }
    if found {
        proof {
            assert(is_first_most_frequent(s@, best as int));
            let k = choose|k: int| is_first_most_frequent(s@, k);
            lemma_first_most_frequent_unique(s@, k, best as int);
        }
        s[best]
    } else {
        proof {
            if exists|k: int| is_first_most_frequent(s@, k) {
                let k = choose|k: int| is_first_most_frequent(s@, k);
                assert(vertical_char(s@[k]));
            }
        }
        '|'
    }
}

/// A character at a position of `s` occurs in `s`.
proof fn lemma_occurs_at(s: Seq<char>, i: int)
    requires
        0 <= i < s.len(),
    ensures
        occurrences(s, s[i]) > 0,
    decreases s.len(),
{
    if i < s.len() - 1 {
        lemma_occurs_at(s.drop_last(), i);
    }
}

} // verus!
