//! Character sequences: reading a `str` into characters, building a `String`
//! back, and the trimming rules that the line analysis relies on.
use vstd::prelude::*;
use vstd::string::*;

verus! {

/// The Unicode `White_Space` property, which `char::is_whitespace` tests.
pub open spec fn white_space(c: char) -> bool {
    let u = c as u32;
    (0x09 <= u && u <= 0x0d) || u == 0x20 || u == 0x85 || u == 0xa0 || u == 0x1680 || (0x2000 <= u
        && u <= 0x200a) || u == 0x2028 || u == 0x2029 || u == 0x202f || u == 0x205f || u == 0x3000
}

/// Relies on `char::is_whitespace`: true exactly for the `White_Space` characters.
#[verifier::external_body]
pub(crate) fn char_is_whitespace(c: char) -> (r: bool)
    ensures
        r == white_space(c),
{
    c.is_whitespace()
}

/// Relies on `String::push`: appends one character.
#[verifier::external_body]
pub(crate) fn push_char(s: &mut String, c: char)
    ensures
        final(s)@ == old(s)@.push(c),
{
    s.push(c)
}

/// `n` space characters.
pub open spec fn spaces(n: nat) -> Seq<char> {
    Seq::new(n, |i: int| ' ')
}

/// The sequence with trailing white space removed.
pub open spec fn trim_end(s: Seq<char>) -> Seq<char>
    decreases s.len(),
{
    if s.len() > 0 && white_space(s.last()) {
        trim_end(s.drop_last())
    } else {
        s
    }
}

/// The sequence with leading white space removed.
pub open spec fn trim_start(s: Seq<char>) -> Seq<char>
    decreases s.len(),
{
    if s.len() > 0 && white_space(s[0]) {
        trim_start(s.drop_first())
    } else {
        s
    }
}

/// The sequence with white space removed at both ends.
pub open spec fn trim(s: Seq<char>) -> Seq<char> {
    trim_start(trim_end(s))
}

/// The characters of all lines, one line after another.
pub open spec fn joined(lines: Seq<Seq<char>>) -> Seq<char>
    decreases lines.len(),
{
    if lines.len() == 0 {
        Seq::empty()
    } else {
        joined(lines.drop_last()) + lines.last()
    }
}

/// The character views of a sequence of strings.
pub open spec fn texts(v: Seq<String>) -> Seq<Seq<char>> {
    v.map_values(|s: String| s@)
}

/// The characters of `s`, in order.
pub fn chars_of(s: &str) -> (r: Vec<char>)
    ensures
        r@ == s@,
{
    let n = s.unicode_len();
    let mut r: Vec<char> = Vec::new();
    let mut i: usize = 0;
    while i < n
        invariant
            n == s@.len(),
            i <= n,
            r@ == s@.take(i as int),
        decreases n - i,
    {
        r.push(s.get_char(i));
        i += 1;
        assert(r@ =~= s@.take(i as int));
    }
    assert(r@ =~= s@);
    r
}

/// A `String` holding the characters of `v`.
pub fn string_from(v: &[char]) -> (r: String)
    ensures
        r@ == v@,
{
    let mut r = String::new();
    let mut i: usize = 0;
    while i < v.len()
        invariant
            i <= v@.len(),
            r@ == v@.take(i as int),
        decreases v@.len() - i,
    {
        push_char(&mut r, v[i]);
        i += 1;
        assert(r@ =~= v@.take(i as int));
    }
    assert(r@ =~= v@);
    r
}

/// The number of characters left in `s` once trailing white space is removed.
pub fn trimmed_end_len(s: &[char]) -> (n: usize)
    ensures
        n <= s@.len(),
        trim_end(s@) == s@.take(n as int),
{
    let mut n: usize = s.len();
    assert(s@.take(n as int) =~= s@);
    while n > 0 && char_is_whitespace(s[n - 1])
        invariant
            n <= s@.len(),
            trim_end(s@) == trim_end(s@.take(n as int)),
        decreases n,
    {
        assert(s@.take(n as int).drop_last() =~= s@.take(n - 1));
        n -= 1;
    }
    n
}

/// The number of leading white space characters among the first `end` of `s`.
pub fn leading_space_len(s: &[char], end: usize) -> (n: usize)
    requires
        end <= s@.len(),
    ensures
        n <= end,
        trim_start(s@.take(end as int)) == s@.subrange(n as int, end as int),
{
    let mut n: usize = 0;
    assert(s@.subrange(0, end as int) =~= s@.take(end as int));
    while n < end && char_is_whitespace(s[n])
        invariant
            n <= end,
            end <= s@.len(),
            trim_start(s@.take(end as int)) == trim_start(s@.subrange(n as int, end as int)),
        decreases end - n,
    {
        assert(s@.subrange(n as int, end as int).drop_first() =~= s@.subrange(n + 1, end as int));
        n += 1;
    }
    n
}

/// Appends `n` spaces to `out`.
pub fn push_spaces(out: &mut Vec<char>, n: usize)
    ensures
        final(out)@ == old(out)@ + spaces(n as nat),
{
    let ghost before = out@;
    let mut j: usize = 0;
    while j < n
        invariant
            j <= n,
            out@ == before + spaces(j as nat),
        decreases n - j,
    {
        out.push(' ');
        j += 1;
        assert(out@ =~= before + spaces(j as nat));
    }
}

/// Appends the first `n` characters of `s` to `out`.
pub fn push_prefix(out: &mut Vec<char>, s: &[char], n: usize)
    requires
        n <= s@.len(),
    ensures
        final(out)@ == old(out)@ + s@.take(n as int),
{
    let ghost before = out@;
    let mut j: usize = 0;
    while j < n
        invariant
            j <= n <= s@.len(),
            out@ == before + s@.take(j as int),
        decreases n - j,
    {
        out.push(s[j]);
        j += 1;
        assert(out@ =~= before + s@.take(j as int));
    }
}

} // verus!
