//! Analysis of one line: its kind, visual width, indentation and closing border.
use vstd::prelude::*;
use vstd::string::*;
use crate::glyph::{box_char, closing_char, corner_char, is_box_char, is_corner, is_vertical_border};
use crate::text::{
    chars_of, leading_space_len, push_spaces, spaces, string_from, trim,
    trim_end, trim_start, trimmed_end_len, white_space,
};

verus! {

/// How strongly a line looks like part of a box drawing.
#[derive(Debug, Clone, Copy, PartialEq, Eq, Structural)]
pub enum LineKind {
    /// Empty or white space only.
    Blank,
    /// No box-drawing characters.
    Plain,
    /// Some box-drawing characters, in a weak pattern.
    Weak,
    /// A strong box-drawing pattern: a corner, borders at both ends, or many pieces.
    Strong,
}

impl LineKind {
    pub open spec fn boxy(self) -> bool {
        self == LineKind::Weak || self == LineKind::Strong
    }

    pub fn is_boxy(self) -> (r: bool)
        ensures
            r == self.boxy(),
    {
        matches!(self, LineKind::Weak | LineKind::Strong)
    }
}

/// Relies on `str::len`: the length in bytes, at least one byte per character,
/// and no string spans more than `isize::MAX` bytes.
#[verifier::external_body]
pub(crate) fn byte_len(s: &str) -> (n: usize)
    ensures
        s@.len() <= n,
        n <= isize::MAX,
{
    s.len()
}

/// Columns taken by one character: box-drawing pieces and ASCII take one;
/// other characters from U+1100 on are taken as double width.
pub open spec fn char_width(c: char) -> nat {
    if (c as u32) < 0x80 {
        1
    } else if box_char(c) {
        1
    } else if (c as u32) >= 0x1100 {
        2
    } else {
        1
    }
}

/// Columns taken by a sequence of characters.
pub open spec fn width(s: Seq<char>) -> nat
    decreases s.len(),
{
    if s.len() == 0 {
        0
    } else {
        width(s.drop_last()) + char_width(s.last())
    }
}

/// Number of box-drawing characters in `s`.
pub open spec fn box_count(s: Seq<char>) -> nat
    decreases s.len(),
{
    if s.len() == 0 {
        0
    } else {
        box_count(s.drop_last()) + if box_char(s.last()) { 1nat } else { 0nat }
    }
}

pub open spec fn has_corner(s: Seq<char>) -> bool {
    exists|i: int| 0 <= i < s.len() && corner_char(#[trigger] s[i])
}

/// The kind of a line, decided on its content with white space trimmed at both ends.
pub open spec fn kind_of(s: Seq<char>) -> LineKind {
    kind_of_trimmed(trim(s))
}

/// The column and character of the closing border of `s`: its last character
/// before trailing white space, where that is a vertical border or a corner.
pub open spec fn suffix_of(s: Seq<char>) -> Option<(nat, char)> {
    let t = trim_end(s);
    if t.len() > 0 && closing_char(t.last()) {
        Some(((width(t) - 1) as nat, t.last()))
    } else {
        None
    }
}

/// The closing border of a line, where the line is boxy.
pub open spec fn border_of(s: Seq<char>) -> Option<(nat, char)> {
    if kind_of(s).boxy() {
        suffix_of(s)
    } else {
        None
    }
}

pub proof fn lemma_width_append(a: Seq<char>, b: Seq<char>)
    ensures
        width(a + b) == width(a) + width(b),
    decreases b.len(),
{
    if b.len() > 0 {
        assert((a + b).drop_last() =~= a + b.drop_last());
        lemma_width_append(a, b.drop_last());
    } else {
        assert(a + b =~= a);
    }
}

pub proof fn lemma_width_spaces(n: nat)
    ensures
        width(spaces(n)) == n,
    decreases n,
{
    if n > 0 {
        assert(spaces(n).drop_last() =~= spaces((n - 1) as nat));
        lemma_width_spaces((n - 1) as nat);
    }
}

pub proof fn lemma_width_bounds(s: Seq<char>)
    ensures
        s.len() <= width(s) <= 2 * s.len(),
    decreases s.len(),
{
    if s.len() > 0 {
        lemma_width_bounds(s.drop_last());
    }
}

fn char_columns(c: char) -> (w: usize)
    ensures
        w == char_width(c),
{
    if (c as u32) < 0x80 {
        1
    } else if is_box_char(c) {
        1
    } else if (c as u32) >= 0x1100 {
        2
    } else {
        1
    }
}

/// Columns taken by the first `n` characters of `s`.
pub(crate) fn width_of_prefix(s: &[char], n: usize) -> (w: usize)
    requires
        n <= s@.len(),
        s@.len() <= isize::MAX,
    ensures
        w == width(s@.take(n as int)),
{
    let mut w: usize = 0;
    let mut i: usize = 0;
    while i < n
        invariant
            i <= n <= s@.len(),
            s@.len() <= isize::MAX,
            w == width(s@.take(i as int)),
            w <= 2 * i,
        decreases n - i,
    {
        assert(s@.take(i + 1).drop_last() =~= s@.take(i as int));
        w += char_columns(s[i]);
        i += 1;
    }
    w
}

/// The visual width of `s`: one column per character, two for a character
/// from U+1100 on that is neither ASCII nor a box-drawing piece.
pub fn visual_width(s: &str) -> (w: usize)
    ensures
        w == width(s@),
{
    // the byte length bounds the number of characters
    let _ = byte_len(s);
    let cs = chars_of(s);
    assert(cs@.take(cs@.len() as int) =~= cs@);
    width_of_prefix(&cs, cs.len())
}

/// The kind of the characters `s[lo..hi]`, which hold a line trimmed at both ends.
fn kind_of_range(s: &[char], lo: usize, hi: usize) -> (k: LineKind)
    requires
        lo <= hi <= s@.len(),
    ensures
        k == kind_of_trimmed(s@.subrange(lo as int, hi as int)),
{
    let ghost t = s@.subrange(lo as int, hi as int);
    if lo == hi {
        return LineKind::Blank;
    }
    let mut boxes: usize = 0;
    let mut corner = false;
    let mut i: usize = lo;
    while i < hi
        invariant
            lo <= i <= hi <= s@.len(),
            t == s@.subrange(lo as int, hi as int),
            boxes == box_count(t.take(i - lo)),
            boxes <= i - lo,
            corner == has_corner(t.take(i - lo)),
        decreases hi - i,
    {
        assert(t.take(i - lo + 1).drop_last() =~= t.take(i - lo));
        if is_box_char(s[i]) {
            boxes += 1;
        }
        if is_corner(s[i]) {
            corner = true;
            assert(t.take(i - lo + 1)[i - lo] == s@[i as int]);
        }
        proof {
            if has_corner(t.take(i - lo + 1)) && !corner_char(s@[i as int]) {
                let j = choose|j: int|
                    0 <= j < t.take(i - lo + 1).len() && corner_char(
                        #[trigger] t.take(i - lo + 1)[j],
                    );
                assert(t.take(i - lo)[j] == t.take(i - lo + 1)[j]);
            }
            if has_corner(t.take(i - lo)) {
                let j = choose|j: int|
                    0 <= j < t.take(i - lo).len() && corner_char(#[trigger] t.take(i - lo)[j]);
                assert(t.take(i - lo + 1)[j] == t.take(i - lo)[j]);
            }
        }
        i += 1;
    }
    assert(t.take(hi - lo) =~= t);
    let total = hi - lo;
    if boxes == 0 {
        LineKind::Plain
    } else if corner || ((is_vertical_border(s[lo]) || is_corner(s[lo])) && (is_vertical_border(
        s[hi - 1],
    ) || is_corner(s[hi - 1]))) || boxes >= total / 3 + if total % 3 > 0 {
        1
    } else {
        0
    } {
        LineKind::Strong
    } else {
        LineKind::Weak
    }
}

/// The kind of a line that is already trimmed at both ends.
pub open spec fn kind_of_trimmed(t: Seq<char>) -> LineKind {
    if t.len() == 0 {
        LineKind::Blank
    } else if box_count(t) == 0 {
        LineKind::Plain
    } else if has_corner(t) || (closing_char(t[0]) && closing_char(t.last())) || 3 * box_count(t)
        >= t.len() {
        LineKind::Strong
    } else {
        LineKind::Weak
    }
}

/// Bounds of the trimmed content of `s`: `trim(s) == s[lo..hi]`.
fn trimmed_bounds(s: &[char]) -> (r: (usize, usize))
    ensures
        r.0 <= r.1 <= s@.len(),
        trim(s@) == s@.subrange(r.0 as int, r.1 as int),
        trim_end(s@) == s@.take(r.1 as int),
{
    let hi = trimmed_end_len(s);
    let lo = leading_space_len(s, hi);
    (lo, hi)
}

/// The kind of a line: blank, without box-drawing pieces, weak or strong.
pub fn classify_line(line: &str) -> (k: LineKind)
    ensures
        k == kind_of(line@),
{
    let cs = chars_of(line);
    let (lo, hi) = trimmed_bounds(&cs);
    let k = kind_of_range(&cs, lo, hi);
    proof {
        let t = cs@.subrange(lo as int, hi as int);
        if t.len() > 0 && box_count(t) > 0 {
            let n = t.len() as int;
            let b = box_count(t) as int;
            let q = n / 3;
            let m = n % 3;
            assert(n == 3 * q + m) by (nonlinear_arith)
                requires
                    q == n / 3,
                    m == n % 3,
            ;
            assert((b >= q + if m > 0 { 1int } else { 0int }) == (3 * b >= n));
        }
    }
    k
}

/// A closing border found at the end of a line.
#[derive(Debug, Clone, Copy)]
pub struct SuffixBorder {
    /// Column of the border character.
    pub column: usize,
    /// The border character.
    pub char: char,
    /// Whether the border closes the line; every border found at the end of a line does.
    pub is_closing: bool,
}

/// Describes `b` by its column and character.
pub open spec fn border_view(b: Option<SuffixBorder>) -> Option<(nat, char)> {
    match b {
        Some(x) => Some((x.column as nat, x.char)),
        None => None,
    }
}

/// The closing border of the characters `s`, found after trailing white space.
fn suffix_border_of(s: &[char]) -> (r: Option<SuffixBorder>)
    requires
        s@.len() <= isize::MAX,
    ensures
        border_view(r) == suffix_of(s@),
        r matches Some(b) ==> b.is_closing,
{
    let n = trimmed_end_len(s);
    if n == 0 {
        return None;
    }
    let last = s[n - 1];
    let ghost t = s@.take(n as int);
    assert(t.last() == last);
    if is_vertical_border(last) || is_corner(last) {
        let w = width_of_prefix(s, n);
        proof {
            assert(t.drop_last() =~= s@.take(n - 1));
        }
        Some(SuffixBorder { column: w - 1, char: last, is_closing: is_corner(last) || is_vertical_border(last) })
    } else {
        None
    }
}

/// The closing border of `line`: its last character before trailing white
/// space, where that is a vertical border or a corner.
pub fn detect_suffix_border(line: &str) -> (r: Option<SuffixBorder>)
    ensures
        border_view(r) == suffix_of(line@),
        r matches Some(b) ==> b.is_closing,
{
    // the byte length bounds the number of characters
    let _ = byte_len(line);
    let cs = chars_of(line);
    suffix_border_of(&cs)
}

/// One line with what the corrector needs to know of it.
#[derive(Debug)]
pub struct AnalyzedLine {
    /// The line itself.
    pub content: String,
    /// Its kind.
    pub kind: LineKind,
    /// Its visual width.
    pub visual_width: usize,
    /// Number of leading white space characters.
    pub indent: usize,
    /// Its closing border, looked for on boxy lines only.
    pub suffix_border: Option<SuffixBorder>,
}

impl AnalyzedLine {
    /// `self` is the analysis of the characters `s`.
    pub open spec fn describes(&self, s: Seq<char>) -> bool {
        &&& self.content@ == s
        &&& self.kind == kind_of(s)
        &&& self.visual_width == width(s)
        &&& self.indent == s.len() - trim_start(s).len()
        &&& border_view(self.suffix_border) == border_of(s)
        &&& (self.suffix_border matches Some(b) ==> b.is_closing && b.column < self.visual_width)
    }
}

/// Analyzes one line.
pub fn analyze_line(line: &str) -> (a: AnalyzedLine)
    ensures
        a.describes(line@),
{
    let kind = classify_line(line);
    let visual = visual_width(line);
    // the byte length bounds the number of characters
    let _ = byte_len(line);
    let cs = chars_of(line);
    let lead = leading_space_len(&cs, cs.len());
    assert(cs@.take(cs@.len() as int) =~= cs@);
    let suffix_border = if kind.is_boxy() {
        suffix_border_of(&cs)
    } else {
        None
    };
    proof {
        let n = trim_end(cs@).len() as int;
        lemma_trim_end_shape(cs@);
        assert(cs@.take(n) + cs@.skip(n) =~= cs@);
        lemma_width_append(cs@.take(n), cs@.skip(n));
    }
    AnalyzedLine {
        content: string_of_str(line),
        kind,
        visual_width: visual,
        indent: lead,
        suffix_border,
    }
}

/// A `String` holding `s`.
fn string_of_str(s: &str) -> (r: String)
    ensures
        r@ == s@,
{
    String::from_str(s)
}

/// `s` with each tab replaced by spaces up to the next multiple of `w` columns,
/// counting one column per character.
pub open spec fn expand(s: Seq<char>, w: nat) -> Seq<char>
    decreases s.len(),
{
    if s.len() == 0 {
        Seq::empty()
    } else {
        let p = expand(s.drop_last(), w);
        if s.last() == '\t' {
            p + spaces((w - (p.len() as int) % (w as int)) as nat)
        } else {
            p.push(s.last())
        }
    }
}

/// Replaces each tab of `line` by spaces up to the next multiple of `tab_width`.
pub fn expand_tabs(line: &str, tab_width: usize) -> (r: String)
    requires
        tab_width > 0,
    ensures
        r@ == expand(line@, tab_width as nat),
{
    let cs = chars_of(line);
    let mut out: Vec<char> = Vec::new();
    let mut i: usize = 0;
    while i < cs.len()
        invariant
            tab_width > 0,
            i <= cs@.len(),
            out@ == expand(cs@.take(i as int), tab_width as nat),
        decreases cs@.len() - i,
    {
        assert(cs@.take(i + 1).drop_last() =~= cs@.take(i as int));
        let c = cs[i];
        if c == '\t' {
            let col = out.len();
            let n = tab_width - col % tab_width;
            push_spaces(&mut out, n);
        } else {
            out.push(c);
        }
        i += 1;
    }
    assert(cs@.take(cs@.len() as int) =~= cs@);
    string_from(&out)
}

pub(crate) proof fn lemma_trim_end_shape(s: Seq<char>)
    ensures
        trim_end(s) == s.take(trim_end(s).len() as int),
        trim_end(s).len() <= s.len(),
        forall|i: int| trim_end(s).len() <= i < s.len() ==> white_space(#[trigger] s[i]),
        trim_end(s).len() > 0 ==> !white_space(trim_end(s).last()),
    decreases s.len(),
{
    if s.len() > 0 && white_space(s.last()) {
        lemma_trim_end_shape(s.drop_last());
        let n = trim_end(s).len() as int;
        assert(s.drop_last().take(n) =~= s.take(n));
        assert forall|i: int| n <= i < s.len() implies white_space(#[trigger] s[i]) by {
            if i < s.len() - 1 {
                assert(s.drop_last()[i] == s[i]);
            }
        }
    } else {
        assert(s.take(s.len() as int) =~= s);
    }
}

pub(crate) proof fn lemma_trim_start_shape(t: Seq<char>)
    ensures
        trim_start(t) == t.skip(t.len() - trim_start(t).len()),
        trim_start(t).len() <= t.len(),
        forall|i: int| 0 <= i < t.len() - trim_start(t).len() ==> white_space(#[trigger] t[i]),
        trim_start(t).len() > 0 ==> !white_space(trim_start(t)[0]),
    decreases t.len(),
{
    if t.len() > 0 && white_space(t[0]) {
        lemma_trim_start_shape(t.drop_first());
        let m = t.len() - trim_start(t).len();
        assert(t.drop_first().skip(m - 1) =~= t.skip(m));
        assert forall|i: int| 0 <= i < m implies white_space(#[trigger] t[i]) by {
            if i > 0 {
                assert(t.drop_first()[i - 1] == t[i]);
            }
        }
    } else {
        assert(t.skip(0) =~= t);
    }
}

/// A line is blank exactly when all its characters are white space; every
/// line gets exactly one of the four kinds.
pub proof fn lemma_blank_iff_white_space(s: Seq<char>)
    ensures
        (kind_of(s) == LineKind::Blank) == (forall|i: int| 0 <= i < s.len() ==> white_space(#[trigger] s[i])),
        kind_of(s) == LineKind::Blank || kind_of(s) == LineKind::Plain || kind_of(s) == LineKind::Weak
            || kind_of(s) == LineKind::Strong,
{
    lemma_trim_end_shape(s);
    let e = trim_end(s);
    lemma_trim_start_shape(e);
    let n = e.len() as int;
    let m = e.len() - trim(s).len();
    if forall|i: int| 0 <= i < s.len() ==> white_space(#[trigger] s[i]) {
        if n > 0 {
            assert(e.last() == s[n - 1]);
        }
    }
    if trim(s).len() == 0 {
        assert forall|i: int| 0 <= i < s.len() implies white_space(#[trigger] s[i]) by {
            if i < n {
                assert(e[i] == s[i]);
            }
        }
    }
}

proof fn lemma_box_count_zero(s: Seq<char>)
    requires
        forall|i: int| 0 <= i < s.len() ==> !box_char(#[trigger] s[i]),
    ensures
        box_count(s) == 0,
    decreases s.len(),
{
    if s.len() > 0 {
        assert(s.last() == s[s.len() - 1]);
        lemma_box_count_zero(s.drop_last());
    }
}

/// A line without box-drawing characters, and not blank, is of kind `Plain`.
pub proof fn lemma_no_box_chars_is_plain(s: Seq<char>)
    requires
        forall|i: int| 0 <= i < s.len() ==> !box_char(#[trigger] s[i]),
        exists|i: int| 0 <= i < s.len() && !white_space(#[trigger] s[i]),
    ensures
        kind_of(s) == LineKind::Plain,
{
    lemma_blank_iff_white_space(s);
    lemma_trim_end_shape(s);
    let e = trim_end(s);
    lemma_trim_start_shape(e);
    let t = trim(s);
    let m = e.len() - t.len();
    assert forall|i: int| 0 <= i < t.len() implies !box_char(#[trigger] t[i]) by {
        assert(t[i] == e[m + i]);
        assert(e[m + i] == s[m + i]);
    }
    lemma_box_count_zero(t);
}

/// The empty line has width zero; an ASCII line is as wide as it is long.
pub proof fn lemma_ascii_width(s: Seq<char>)
    requires
        forall|i: int| 0 <= i < s.len() ==> (#[trigger] s[i] as u32) < 0x80,
    ensures
        width(s) == s.len(),
        width(Seq::<char>::empty()) == 0,
    decreases s.len(),
{
    if s.len() > 0 {
        assert(s.last() == s[s.len() - 1]);
        lemma_ascii_width(s.drop_last());
    }
}

/// Tab expansion leaves no tab behind.
pub proof fn lemma_expand_no_tabs(s: Seq<char>, w: nat)
    requires
        w > 0,
    ensures
        forall|i: int| 0 <= i < expand(s, w).len() ==> #[trigger] expand(s, w)[i] != '\t',
    decreases s.len(),
{
    if s.len() > 0 {
        lemma_expand_no_tabs(s.drop_last(), w);
        let p = expand(s.drop_last(), w);
        assert forall|i: int| 0 <= i < expand(s, w).len() implies #[trigger] expand(s, w)[i]
            != '\t' by {
            if i < p.len() {
                assert(expand(s, w)[i] == p[i]);
            }
        }
    }
}

/// Expanding a prefix of `s` gives a prefix of the expansion of `s`, never
/// shorter than the prefix itself.
pub proof fn lemma_expand_prefix(s: Seq<char>, i: int, w: nat)
    requires
        w > 0,
        0 <= i <= s.len(),
    ensures
        i <= expand(s.take(i), w).len() <= expand(s, w).len(),
        expand(s, w).take(expand(s.take(i), w).len() as int) == expand(s.take(i), w),
    decreases s.len(),
{
    if i == s.len() {
        assert(s.take(i) =~= s);
        assert(expand(s, w).take(expand(s, w).len() as int) =~= expand(s, w));
        lemma_expand_len(s, w);
    } else {
        assert(s.drop_last().take(i) =~= s.take(i));
        lemma_expand_prefix(s.drop_last(), i, w);
        let p = expand(s.drop_last(), w);
        let q = expand(s.take(i), w);
        assert(expand(s, w).take(p.len() as int) =~= p);
        assert(expand(s, w).take(q.len() as int) =~= p.take(q.len() as int));
    }
}

proof fn lemma_expand_len(s: Seq<char>, w: nat)
    requires
        w > 0,
    ensures
        s.len() <= expand(s, w).len(),
    decreases s.len(),
{
    if s.len() > 0 {
        lemma_expand_len(s.drop_last(), w);
    }
}

/// The expansion of a longer prefix is at least as long; a leading tab
/// becomes exactly `w` spaces.
pub proof fn lemma_expand_tabs_laws(s: Seq<char>, i: int, j: int, w: nat)
    requires
        w > 0,
        0 <= i <= j <= s.len(),
    ensures
        expand(s.take(i), w).len() <= expand(s.take(j), w).len(),
        s.len() > 0 && s[0] == '\t' ==> expand(s, w).take(w as int) == spaces(w),
{
    assert(s.take(j).take(i) =~= s.take(i));
    lemma_expand_prefix(s.take(j), i, w);
    if s.len() > 0 && s[0] == '\t' {
        lemma_expand_prefix(s, 1, w);
        let one = s.take(1);
        assert(one.drop_last() =~= Seq::<char>::empty());
        assert(one.last() == '\t');
        assert(expand(one.drop_last(), w) =~= Seq::<char>::empty());
        assert(0int % (w as int) == 0);
        assert(Seq::<char>::empty() + spaces(w) =~= spaces(w));
        assert(expand(one, w) =~= spaces(w));
    }
}

} // verus!
