//! Character-level helpers shared by every module that builds or inspects text.
//!
//! Strings are reasoned about through their views, `Seq<char>`; the spec functions
//! here say what each helper computes on those sequences.

use vstd::prelude::*;
use vstd::relations::{sorted_by, total_ordering};

verus! {

/// The characters of `s`, one by one.
pub fn chars_of(s: &str) -> (v: Vec<char>)
    ensures
        v@ == s@,
{
    let mut v: Vec<char> = Vec::new();
    for c in it: s.chars()
        invariant
            v@ == it.seq().take(it.index() as int),
    {
        v.push(c);
    }
    v
}

/// Appends one character to a `String` (std's `String::push`).
#[verifier::external_body]
pub(crate) fn push_char(s: &mut String, c: char)
    ensures
        final(s)@ == old(s)@.push(c),
{
    s.push(c);
}

/// Appends a whole `str`.
pub fn push_str(s: &mut String, t: &str)
    ensures
        final(s)@ == old(s)@ + t@,
{
    s.append(t);
}

/// Appends a sequence of characters.
pub fn push_chars(s: &mut String, v: &[char])
    ensures
        final(s)@ == old(s)@ + v@,
{
    let ghost start = s@;
    let mut i: usize = 0;
    while i < v.len()
        invariant
            i <= v@.len(),
            s@ == start + v@.take(i as int),
        decreases v@.len() - i,
    {
        push_char(s, v[i]);
        i = i + 1;
        proof {
            assert(v@.take(i as int) == v@.take((i - 1) as int).push(v@[i - 1]));
        }
    }
    proof {
        assert(v@.take(v@.len() as int) == v@);
    }
}

/// A fresh `String` holding exactly the given characters.
pub fn string_of(v: &[char]) -> (s: String)
    ensures
        s@ == v@,
{
    let mut s = String::new();
    push_chars(&mut s, v);
    s
}

/// A fresh `String` copied from a `str`.
pub fn owned(t: &str) -> (s: String)
    ensures
        s@ == t@,
{
    String::from_str(t)
}

/// Whether two strings hold the same characters.
pub fn str_eq(a: &str, b: &str) -> (r: bool)
    ensures
        r == (a@ == b@),
{
    let x = chars_of(a);
    let y = chars_of(b);
    seq_eq(&x, &y)
}

/// Whether two character slices are equal.
pub fn seq_eq(x: &[char], y: &[char]) -> (r: bool)
    ensures
        r == (x@ == y@),
{
    if x.len() != y.len() {
        return false;
    }
    let mut i: usize = 0;
    while i < x.len()
        invariant
            i <= x@.len(),
            x@.len() == y@.len(),
            forall|j: int| 0 <= j < i ==> x@[j] == y@[j],
        decreases x@.len() - i,
    {
        if x[i] != y[i] {
            return false;
        }
        i = i + 1;
    }
    proof {
        assert(x@ =~= y@);
    }
    true
}

/// The decimal digit character for `d` (`0 <= d < 10`).
pub open spec fn digit_char(d: int) -> char {
    if d == 0 { '0' } else if d == 1 { '1' } else if d == 2 { '2' } else if d == 3 { '3' }
    else if d == 4 { '4' } else if d == 5 { '5' } else if d == 6 { '6' } else if d == 7 { '7' }
    else if d == 8 { '8' } else { '9' }
}

/// Decimal rendering of a natural number, without leading zeros.
pub open spec fn dec(n: nat) -> Seq<char>
    decreases n,
{
    if n < 10 {
        seq![digit_char(n as int)]
    } else {
        dec(n / 10).push(digit_char((n % 10) as int))
    }
}

/// Decimal rendering padded with leading zeros to at least `width` characters.
pub open spec fn dec_pad(n: nat, width: nat) -> Seq<char> {
    let d = dec(n);
    if d.len() >= width {
        d
    } else {
        Seq::new((width - d.len()) as nat, |i: int| '0') + d
    }
}

fn digit(d: u64) -> (c: char)
    requires
        d < 10,
    ensures
        c == digit_char(d as int),
{
    if d == 0 { '0' } else if d == 1 { '1' } else if d == 2 { '2' } else if d == 3 { '3' }
    else if d == 4 { '4' } else if d == 5 { '5' } else if d == 6 { '6' } else if d == 7 { '7' }
    else if d == 8 { '8' } else { '9' }
}

/// Appends the decimal rendering of `n`.
pub fn push_dec(s: &mut String, n: u64)
    ensures
        final(s)@ == old(s)@ + dec(n as nat),
    decreases n,
{
    if n < 10 {
        push_char(s, digit(n));
        proof {
            assert(old(s)@.push(digit_char(n as int)) == old(s)@ + seq![digit_char(n as int)]);
        }
    } else {
        push_dec(s, n / 10);
        push_char(s, digit(n % 10));
        proof {
            assert(dec(n as nat) == dec((n / 10) as nat).push(digit_char((n % 10) as int)));
            assert(final(s)@ == old(s)@ + dec(n as nat));
        }
    }
}

/// Decimal rendering of `n` as a fresh string.
pub fn decimal(n: u64) -> (s: String)
    ensures
        s@ == dec(n as nat),
{
    let mut s = String::new();
    push_dec(&mut s, n);
    proof {
        assert(Seq::<char>::empty() + dec(n as nat) == dec(n as nat));
    }
    s
}

/// Appends `n` in decimal, left-padded with zeros to `width` characters.
pub fn push_dec_pad(s: &mut String, n: u64, width: usize)
    ensures
        final(s)@ == old(s)@ + dec_pad(n as nat, width as nat),
{
    let d = decimal(n);
    let dv = chars_of(d.as_str());
    let ghost start = s@;
    if dv.len() < width {
        let pad = width - dv.len();
        let mut i: usize = 0;
        while i < pad
            invariant
                i <= pad,
                s@ == start + Seq::new(i as nat, |k: int| '0'),
            decreases pad - i,
        {
            push_char(s, '0');
            i = i + 1;
            proof {
                assert(Seq::new(i as nat, |k: int| '0') =~= Seq::new((i - 1) as nat, |k: int| '0').push('0'));
            }
        }
        push_chars(s, dv.as_slice());
        proof {
            assert(start + Seq::new(pad as nat, |k: int| '0') + dv@ =~= start + (Seq::new(pad as nat, |k: int| '0') + dv@));
        }
    } else {
        push_chars(s, dv.as_slice());
    }
}

/// The lowercase hexadecimal digit character for `d` (`0 <= d < 16`).
pub open spec fn hex_char(d: int) -> char {
    if d < 10 { digit_char(d) } else if d == 10 { 'a' } else if d == 11 { 'b' } else if d == 12 { 'c' }
    else if d == 13 { 'd' } else if d == 14 { 'e' } else { 'f' }
}

/// Lowercase hexadecimal rendering of a natural number, without leading zeros.
pub open spec fn hex(n: nat) -> Seq<char>
    decreases n,
{
    if n < 16 {
        seq![hex_char(n as int)]
    } else {
        hex(n / 16).push(hex_char((n % 16) as int))
    }
}

pub(crate) fn hex_digit(d: u64) -> (c: char)
    requires
        d < 16,
    ensures
        c == hex_char(d as int),
{
    if d < 10 { digit(d) } else if d == 10 { 'a' } else if d == 11 { 'b' } else if d == 12 { 'c' }
    else if d == 13 { 'd' } else if d == 14 { 'e' } else { 'f' }
}

/// Appends the lowercase hexadecimal rendering of `n` (as `{:x}` formats it).
pub fn push_hex(s: &mut String, n: u64)
    ensures
        final(s)@ == old(s)@ + hex(n as nat),
    decreases n,
{
    if n < 16 {
        push_char(s, hex_digit(n));
        proof {
            assert(old(s)@.push(hex_char(n as int)) == old(s)@ + seq![hex_char(n as int)]);
        }
    } else {
        push_hex(s, n / 16);
        push_char(s, hex_digit(n % 16));
        proof {
            assert(hex(n as nat) == hex((n / 16) as nat).push(hex_char((n % 16) as int)));
            assert(final(s)@ == old(s)@ + hex(n as nat));
        }
    }
}

/// The last `width` lowercase hexadecimal digits of `n` (as `{:0width$x}` writes a
/// number below `16^width`).
pub open spec fn hex_pad(n: nat, width: nat) -> Seq<char>
    decreases width,
{
    if width == 0 {
        Seq::empty()
    } else {
        hex_pad(n / 16, (width - 1) as nat).push(hex_char((n % 16) as int))
    }
}

/// Appends the last `width` lowercase hexadecimal digits of `n`.
pub fn push_hex_pad(s: &mut String, n: u64, width: u32)
    ensures
        final(s)@ == old(s)@ + hex_pad(n as nat, width as nat),
    decreases width,
{
    if width > 0 {
        push_hex_pad(s, n / 16, width - 1);
        push_char(s, hex_digit(n % 16));
        proof {
            assert(hex_pad(n as nat, width as nat) == hex_pad((n / 16) as nat, (width - 1) as nat).push(hex_char((n % 16) as int)));
        }
    } else {
        proof {
            assert(old(s)@ + Seq::<char>::empty() =~= old(s)@);
        }
    }
}

/// White space as `char::is_whitespace` defines it (Unicode `White_Space`).
pub open spec fn is_ws(c: char) -> bool {
    ||| ('\u{9}' <= c && c <= '\u{d}')
    ||| c == ' '
    ||| c == '\u{85}'
    ||| c == '\u{a0}'
    ||| c == '\u{1680}'
    ||| ('\u{2000}' <= c && c <= '\u{200a}')
    ||| c == '\u{2028}'
    ||| c == '\u{2029}'
    ||| c == '\u{202f}'
    ||| c == '\u{205f}'
    ||| c == '\u{3000}'
}

pub fn char_is_ws(c: char) -> (r: bool)
    ensures
        r == is_ws(c),
{
    ('\u{9}' <= c && c <= '\u{d}') || c == ' ' || c == '\u{85}' || c == '\u{a0}' || c == '\u{1680}'
        || ('\u{2000}' <= c && c <= '\u{200a}') || c == '\u{2028}' || c == '\u{2029}'
        || c == '\u{202f}' || c == '\u{205f}' || c == '\u{3000}'
}

/// `s` with leading white space removed.
pub open spec fn trim_start_seq(s: Seq<char>) -> Seq<char>
    decreases s.len(),
{
    if s.len() > 0 && is_ws(s[0]) {
        trim_start_seq(s.drop_first())
    } else {
        s
    }
}

/// `s` with trailing white space removed.
pub open spec fn trim_end_seq(s: Seq<char>) -> Seq<char>
    decreases s.len(),
{
    if s.len() > 0 && is_ws(s.last()) {
        trim_end_seq(s.drop_last())
    } else {
        s
    }
}

/// `str::trim`: both ends.
pub open spec fn trim_seq(s: Seq<char>) -> Seq<char> {
    trim_end_seq(trim_start_seq(s))
}

/// Index of the first non-white character (or `s.len()`), as a spec.
proof fn lemma_trim_start_index(s: Seq<char>, i: int)
    requires
        0 <= i <= s.len(),
        forall|j: int| 0 <= j < i ==> is_ws(#[trigger] s[j]),
        i == s.len() || !is_ws(s[i]),
    ensures
        trim_start_seq(s) == s.subrange(i, s.len() as int),
    decreases i,
{
    if i > 0 {
        assert(is_ws(s[0]));
        let t = s.drop_first();
        assert forall|j: int| 0 <= j < i - 1 implies is_ws(#[trigger] t[j]) by {
            assert(t[j] == s[j + 1]);
        }
        lemma_trim_start_index(t, i - 1);
        assert(t.subrange(i - 1, t.len() as int) =~= s.subrange(i, s.len() as int));
    } else {
        assert(s.subrange(0, s.len() as int) =~= s);
    }
}

proof fn lemma_trim_end_index(s: Seq<char>, k: int)
    requires
        0 <= k <= s.len(),
        forall|j: int| k <= j < s.len() ==> is_ws(#[trigger] s[j]),
        k == 0 || !is_ws(s[k - 1]),
    ensures
        trim_end_seq(s) == s.subrange(0, k),
    decreases s.len() - k,
{
    if k < s.len() {
        assert(is_ws(s.last()));
        let t = s.drop_last();
        assert forall|j: int| k <= j < t.len() implies is_ws(#[trigger] t[j]) by {
            assert(t[j] == s[j]);
        }
        lemma_trim_end_index(t, k);
        assert(t.subrange(0, k) =~= s.subrange(0, k));
    } else {
        assert(s.subrange(0, s.len() as int) =~= s);
    }
}

/// The characters of `str::trim(s)`.
pub fn trim_chars(v: &[char]) -> (r: Vec<char>)
    ensures
        r@ == trim_seq(v@),
{
    let mut i: usize = 0;
    while i < v.len() && char_is_ws(v[i])
        invariant
            i <= v@.len(),
            forall|j: int| 0 <= j < i ==> is_ws(#[trigger] v@[j]),
        decreases v@.len() - i,
    {
        i = i + 1;
    }
    proof {
        lemma_trim_start_index(v@, i as int);
    }
    let ghost t = v@.subrange(i as int, v@.len() as int);
    let mut k: usize = v.len();
    while k > i && char_is_ws(v[k - 1])
        invariant
            i <= k <= v@.len(),
            forall|j: int| k <= j < v@.len() ==> is_ws(#[trigger] v@[j]),
        decreases k,
    {
        k = k - 1;
    }
    proof {
        assert forall|j: int| k - i <= j < t.len() implies is_ws(#[trigger] t[j]) by {
            assert(t[j] == v@[j + i]);
        }
        if k > i {
            assert(t[k - i - 1] == v@[k - 1]);
        }
        lemma_trim_end_index(t, k - i);
        assert(t.subrange(0, k - i) =~= v@.subrange(i as int, k as int));
    }
    let mut r: Vec<char> = Vec::new();
    let mut j: usize = i;
    while j < k
        invariant
            i <= j <= k,
            k <= v@.len(),
            r@ == v@.subrange(i as int, j as int),
        decreases k - j,
    {
        r.push(v[j]);
        j = j + 1;
        proof {
            assert(r@ =~= v@.subrange(i as int, j as int));
        }
    }
    r
}

/// `str::trim` as a fresh string.
pub fn trim(s: &str) -> (r: String)
    ensures
        r@ == trim_seq(s@),
{
    let v = chars_of(s);
    let t = trim_chars(v.as_slice());
    string_of(t.as_slice())
}

/// ASCII lowercase of one character (`char::to_ascii_lowercase`).
pub open spec fn ascii_lower(c: char) -> char {
    if 'A' <= c && c <= 'Z' { ((c as u32) + 32) as char } else { c }
}

pub fn char_ascii_lower(c: char) -> (r: char)
    ensures
        r == ascii_lower(c),
{
    if 'A' <= c && c <= 'Z' {
        let u = (c as u32) + 32;
        proof {
            assert(u <= 0x7a);
        }
        char_from_ascii(u)
    } else {
        c
    }
}

/// A character from a code point below 0x80.
fn char_from_ascii(u: u32) -> (c: char)
    requires
        u < 0x80,
    ensures
        c == u as char,
{
    let b = u as u8;
    b as char
}

/// ASCII lowercase of a whole sequence.
pub open spec fn ascii_lower_seq(s: Seq<char>) -> Seq<char> {
    s.map_values(|c: char| ascii_lower(c))
}

pub fn ascii_lower_chars(v: &[char]) -> (r: Vec<char>)
    ensures
        r@ == ascii_lower_seq(v@),
{
    let mut r: Vec<char> = Vec::new();
    let mut i: usize = 0;
    while i < v.len()
        invariant
            i <= v@.len(),
            r@ == ascii_lower_seq(v@.take(i as int)),
        decreases v@.len() - i,
    {
        let c = char_ascii_lower(v[i]);
        r.push(c);
        i = i + 1;
        proof {
            assert(ascii_lower_seq(v@.take(i as int)) =~= ascii_lower_seq(v@.take((i - 1) as int)).push(
                ascii_lower(v@[i - 1]),
            ));
        }
    }
    proof {
        assert(v@.take(v@.len() as int) =~= v@);
    }
    r
}

/// Whether `s` starts with `p`.
pub open spec fn starts_with(s: Seq<char>, p: Seq<char>) -> bool {
    p.len() <= s.len() && s.take(p.len() as int) == p
}

/// Whether `s` ends with `p`.
pub open spec fn ends_with(s: Seq<char>, p: Seq<char>) -> bool {
    p.len() <= s.len() && s.skip(s.len() - p.len()) == p
}

pub fn chars_start_with(s: &[char], p: &[char]) -> (r: bool)
    ensures
        r == starts_with(s@, p@),
{
    if p.len() > s.len() {
        return false;
    }
    let mut i: usize = 0;
    while i < p.len()
        invariant
            i <= p@.len(),
            p@.len() <= s@.len(),
            forall|j: int| 0 <= j < i ==> s@[j] == p@[j],
        decreases p@.len() - i,
    {
        if s[i] != p[i] {
            proof {
                assert(s@.take(p@.len() as int)[i as int] != p@[i as int]);
            }
            return false;
        }
        i = i + 1;
    }
    proof {
        assert(s@.take(p@.len() as int) =~= p@);
    }
    true
}

pub fn chars_end_with(s: &[char], p: &[char]) -> (r: bool)
    ensures
        r == ends_with(s@, p@),
{
    if p.len() > s.len() {
        return false;
    }
    let off = s.len() - p.len();
    let mut i: usize = 0;
    while i < p.len()
        invariant
            i <= p@.len(),
            off + p@.len() == s@.len(),
            s@.len() == s.len(),
            forall|j: int| 0 <= j < i ==> s@[off + j] == p@[j],
        decreases p@.len() - i,
    {
        if s[off + i] != p[i] {
            proof {
                assert(s@.skip(off as int)[i as int] != p@[i as int]);
            }
            return false;
        }
        i = i + 1;
    }
    proof {
        assert(s@.skip(off as int) =~= p@);
    }
    true
}

/// Whether `c` occurs in `s`.
pub fn chars_contain(s: &[char], c: char) -> (r: bool)
    ensures
        r == s@.contains(c),
{
    let mut i: usize = 0;
    while i < s.len()
        invariant
            i <= s@.len(),
            forall|j: int| 0 <= j < i ==> s@[j] != c,
        decreases s@.len() - i,
    {
        if s[i] == c {
            return true;
        }
        i = i + 1;
    }
    false
}

/// Joins segments with a separator character.
pub open spec fn join_seq(parts: Seq<Seq<char>>, sep: char) -> Seq<char>
    decreases parts.len(),
{
    if parts.len() == 0 {
        Seq::empty()
    } else if parts.len() == 1 {
        parts[0]
    } else {
        join_seq(parts.drop_last(), sep).push(sep) + parts.last()
    }
}

/// The views of a vector of strings.
pub open spec fn views(v: Seq<String>) -> Seq<Seq<char>> {
    v.map_values(|s: String| s@)
}

/// `parts.join(sep)` on strings.
pub fn join(parts: &[String], sep: char) -> (r: String)
    ensures
        r@ == join_seq(views(parts@), sep),
{
    let mut r = String::new();
    let mut i: usize = 0;
    while i < parts.len()
        invariant
            i <= parts@.len(),
            r@ == join_seq(views(parts@.take(i as int)), sep),
        decreases parts@.len() - i,
    {
        let ghost before = r@;
        if i > 0 {
            push_char(&mut r, sep);
        }
        push_str(&mut r, parts[i].as_str());
        i = i + 1;
        proof {
            let p = views(parts@.take(i as int));
            assert(p.drop_last() =~= views(parts@.take((i - 1) as int)));
            assert(p.last() == parts@[i - 1]@);
            if i == 1 {
                assert(p.len() == 1);
                assert(before =~= Seq::<char>::empty());
                assert(r@ =~= p[0]);
            }
        }
    }
    proof {
        assert(parts@.take(parts@.len() as int) =~= parts@);
    }
    r
}

/// Reading text line by line: the lines finished so far and the one being read.
pub open spec fn lines_state(s: Seq<char>) -> (Seq<Seq<char>>, Seq<char>)
    decreases s.len(),
{
    if s.len() == 0 {
        (Seq::empty(), Seq::empty())
    } else {
        let (done, cur) = lines_state(s.drop_last());
        if s.last() == '\n' {
            let line = if cur.len() > 0 && cur.last() == '\r' { cur.drop_last() } else { cur };
            (done.push(line), Seq::empty())
        } else {
            (done, cur.push(s.last()))
        }
    }
}

/// The lines of a text as `str::lines` gives them: split after each `\n`, the `\n`
/// and a `\r` just before it dropped, and no empty line after a final `\n`.
pub open spec fn lines_seq(s: Seq<char>) -> Seq<Seq<char>> {
    let (done, cur) = lines_state(s);
    if cur.len() > 0 { done.push(cur) } else { done }
}

/// The lines of a text (see [`lines_seq`]).
pub fn lines(s: &str) -> (r: Vec<String>)
    ensures
        views(r@) == lines_seq(s@),
{
    let v = chars_of(s);
    let mut done: Vec<String> = Vec::new();
    let mut cur: Vec<char> = Vec::new();
    let mut i: usize = 0;
    while i < v.len()
        invariant
            i <= v@.len(),
            v@ == s@,
            views(done@) == lines_state(v@.take(i as int)).0,
            cur@ == lines_state(v@.take(i as int)).1,
        decreases v@.len() - i,
    {
        proof {
            assert(v@.take(i + 1).drop_last() =~= v@.take(i as int));
            assert(v@.take(i + 1).last() == v@[i as int]);
        }
        let c = v[i];
        if c == '\n' {
            let n = cur.len();
            if n > 0 && cur[n - 1] == '\r' {
                cur.pop();
                proof {
                    assert(cur@ =~= lines_state(v@.take(i as int)).1.drop_last());
                }
            }
            let ghost o = views(done@);
            done.push(string_of(cur.as_slice()));
            proof {
                assert(views(done@) =~= o.push(cur@));
            }
            cur = Vec::new();
        } else {
            cur.push(c);
        }
        i = i + 1;
    }
    proof {
        assert(v@.take(v@.len() as int) =~= v@);
    }
    if cur.len() > 0 {
        let ghost o = views(done@);
        done.push(string_of(cur.as_slice()));
        proof {
            assert(views(done@) =~= o.push(cur@));
        }
    }
    done
}

/// The markup form of one character: `&`, `<`, `>` and `"` (and, when `apos`, `'`)
/// become entities; every other character stands for itself.
pub open spec fn markup_char(c: char, apos: bool) -> Seq<char> {
    if c == '&' {
        "&amp;"@
    } else if c == '<' {
        "&lt;"@
    } else if c == '>' {
        "&gt;"@
    } else if c == '"' {
        "&quot;"@
    } else if apos && c == '\'' {
        "&apos;"@
    } else {
        seq![c]
    }
}

/// Text made safe to stand inside markup, character by character.
pub open spec fn markup_escape(s: Seq<char>, apos: bool) -> Seq<char>
    decreases s.len(),
{
    if s.len() == 0 {
        Seq::empty()
    } else {
        markup_escape(s.drop_last(), apos) + markup_char(s.last(), apos)
    }
}

/// Appends `t` escaped for markup.
pub fn push_escaped(s: &mut String, t: &str, apos: bool)
    ensures
        final(s)@ == old(s)@ + markup_escape(t@, apos),
{
    let v = chars_of(t);
    let ghost start = s@;
    let mut i: usize = 0;
    while i < v.len()
        invariant
            i <= v@.len(),
            v@ == t@,
            s@ == start + markup_escape(v@.take(i as int), apos),
        decreases v@.len() - i,
    {
        let c = v[i];
        let ghost before = s@;
        if c == '&' {
            push_str(s, "&amp;");
        } else if c == '<' {
            push_str(s, "&lt;");
        } else if c == '>' {
            push_str(s, "&gt;");
        } else if c == '"' {
            push_str(s, "&quot;");
        } else if apos && c == '\'' {
            push_str(s, "&apos;");
        } else {
            push_char(s, c);
            proof {
                assert(before.push(c) =~= before + seq![c]);
            }
        }
        proof {
            assert(v@.take(i + 1).drop_last() =~= v@.take(i as int));
            assert(v@.take(i + 1).last() == c);
            assert(s@ == before + markup_char(c, apos));
            assert(s@ =~= start + markup_escape(v@.take(i + 1), apos));
        }
        i = i + 1;
    }
    proof {
        assert(v@.take(v@.len() as int) =~= v@);
    }
}

/// Character order on texts, as `str`'s `Ord` orders them (code points compared in
/// turn; a prefix comes first).
pub open spec fn text_le(a: Seq<char>, b: Seq<char>) -> bool
    decreases a.len(),
{
    if a.len() == 0 {
        true
    } else if b.len() == 0 {
        false
    } else if a[0] == b[0] {
        text_le(a.drop_first(), b.drop_first())
    } else {
        a[0] < b[0]
    }
}

proof fn lemma_text_le_refl(a: Seq<char>)
    ensures
        text_le(a, a),
    decreases a.len(),
{
    if a.len() > 0 {
        lemma_text_le_refl(a.drop_first());
    }
}

proof fn lemma_text_le_total(a: Seq<char>, b: Seq<char>)
    ensures
        text_le(a, b) || text_le(b, a),
    decreases a.len(),
{
    if a.len() > 0 && b.len() > 0 {
        if a[0] == b[0] {
            lemma_text_le_total(a.drop_first(), b.drop_first());
        }
    }
}

proof fn lemma_text_le_antisym(a: Seq<char>, b: Seq<char>)
    requires
        text_le(a, b),
        text_le(b, a),
    ensures
        a == b,
    decreases a.len(),
{
    if a.len() > 0 && b.len() > 0 {
        if a[0] == b[0] {
            lemma_text_le_antisym(a.drop_first(), b.drop_first());
            assert(a =~= seq![a[0]] + a.drop_first());
            assert(b =~= seq![b[0]] + b.drop_first());
        }
    } else {
        assert(a.len() == 0 && b.len() == 0);
        assert(a =~= b);
    }
}

proof fn lemma_text_le_trans(a: Seq<char>, b: Seq<char>, c: Seq<char>)
    requires
        text_le(a, b),
        text_le(b, c),
    ensures
        text_le(a, c),
    decreases a.len(),
{
    if a.len() > 0 && b.len() > 0 && c.len() > 0 {
        if a[0] == b[0] && b[0] == c[0] {
            lemma_text_le_trans(a.drop_first(), b.drop_first(), c.drop_first());
        }
    }
}

/// Character order is a total order.
pub proof fn lemma_text_order()
    ensures
        total_ordering(|a: Seq<char>, b: Seq<char>| text_le(a, b)),
{
    let le = |a: Seq<char>, b: Seq<char>| text_le(a, b);
    assert forall|x: Seq<char>| #[trigger] le(x, x) by {
        lemma_text_le_refl(x);
    }
    assert forall|x: Seq<char>, y: Seq<char>| #[trigger] le(x, y) && #[trigger] le(y, x) implies x == y by {
        lemma_text_le_antisym(x, y);
    }
    assert forall|x: Seq<char>, y: Seq<char>, z: Seq<char>| #[trigger] le(x, y) && #[trigger] le(y, z) implies le(x, z) by {
        lemma_text_le_trans(x, y, z);
    }
    assert forall|x: Seq<char>, y: Seq<char>| #[trigger] le(x, y) || #[trigger] le(y, x) by {
        lemma_text_le_total(x, y);
    }
}

proof fn lemma_text_le_skip(a: Seq<char>, b: Seq<char>, i: int)
    requires
        0 <= i <= a.len(),
        i <= b.len(),
        a.take(i) == b.take(i),
    ensures
        text_le(a, b) == text_le(a.skip(i), b.skip(i)),
    decreases i,
{
    if i > 0 {
        assert(a[0] == a.take(i)[0]);
        assert(b[0] == b.take(i)[0]);
        assert(a.drop_first().take(i - 1) =~= a.take(i).drop_first());
        assert(b.drop_first().take(i - 1) =~= b.take(i).drop_first());
        lemma_text_le_skip(a.drop_first(), b.drop_first(), i - 1);
        assert(a.drop_first().skip(i - 1) =~= a.skip(i));
        assert(b.drop_first().skip(i - 1) =~= b.skip(i));
    } else {
        assert(a.skip(0) =~= a);
        assert(b.skip(0) =~= b);
    }
}

/// Whether `a` comes no later than `b` in character order.
pub fn str_le(a: &str, b: &str) -> (r: bool)
    ensures
        r == text_le(a@, b@),
{
    let x = chars_of(a);
    let y = chars_of(b);
    let mut i: usize = 0;
    while i < x.len() && i < y.len()
        invariant
            i <= x@.len(),
            i <= y@.len(),
            x@ == a@,
            y@ == b@,
            x@.take(i as int) == y@.take(i as int),
        decreases x@.len() - i,
    {
        if x[i] != y[i] {
            proof {
                lemma_text_le_skip(x@, y@, i as int);
                assert(x@.skip(i as int)[0] == x@[i as int]);
                assert(y@.skip(i as int)[0] == y@[i as int]);
            }
            return x[i] < y[i];
        }
        proof {
            assert(x@.take(i + 1) =~= x@.take(i as int).push(x@[i as int]));
            assert(y@.take(i + 1) =~= y@.take(i as int).push(y@[i as int]));
        }
        i = i + 1;
    }
    proof {
        lemma_text_le_skip(x@, y@, i as int);
    }
    x.len() <= y.len()
}

/// Texts in character order.
pub open spec fn texts_sorted(s: Seq<Seq<char>>) -> bool {
    forall|i: int, j: int| 0 <= i < j < s.len() ==> text_le(#[trigger] s[i], #[trigger] s[j])
}

/// Strings sorted in character order.
pub fn sort_texts(v: &[String]) -> (r: Vec<String>)
    ensures
        views(r@) == views(v@).sort_by(|a: Seq<char>, b: Seq<char>| text_le(a, b)),
{
    let mut out: Vec<String> = Vec::new();
    proof {
        assert(views(out@) =~= views(v@.take(0)));
    }
    let mut k: usize = 0;
    while k < v.len()
        invariant
            k <= v@.len(),
            texts_sorted(views(out@)),
            views(out@).to_multiset() == views(v@.take(k as int)).to_multiset(),
        decreases v@.len() - k,
    {
        let x = &v[k];
        let mut pos: usize = 0;
        while pos < out.len()
            invariant
                pos <= out@.len(),
                forall|j: int| 0 <= j < pos ==> text_le((#[trigger] out@[j])@, x@),
            ensures
                pos <= out@.len(),
                forall|j: int| 0 <= j < pos ==> text_le((#[trigger] out@[j])@, x@),
                pos < out@.len() ==> !text_le(out@[pos as int]@, x@),
            decreases out@.len() - pos,
        {
            if !str_le(out[pos].as_str(), x.as_str()) {
                break;
            }
            pos = pos + 1;
        }
        let ghost before = out@;
        let ghost bv = views(before);
        out.insert(pos, x.clone());
        proof {
            broadcast use vstd::seq_lib::to_multiset_insert;
            let nv = views(out@);
            assert(nv =~= bv.insert(pos as int, x@));
            assert(views(v@.take(k + 1)) =~= views(v@.take(k as int)).push(x@));
            assert(views(v@.take(k as int)).push(x@) =~= views(v@.take(k as int)).insert(k as int, x@));
            assert(nv.to_multiset() == bv.to_multiset().insert(x@));
            assert(views(v@.take(k + 1)).to_multiset() == views(v@.take(k as int)).to_multiset().insert(x@));
            if pos < before.len() {
                lemma_text_le_total(x@, bv[pos as int]);
                assert(text_le(x@, bv[pos as int]));
            }
            assert forall|i: int, j: int| 0 <= i < j < nv.len() implies text_le(#[trigger] nv[i], #[trigger] nv[j]) by {
                if j < pos {
                    assert(nv[i] == bv[i] && nv[j] == bv[j]);
                } else if j == pos {
                    assert(nv[j] == x@);
                    assert(nv[i] == bv[i]);
                    assert(bv[i] == before[i]@);
                } else if i == pos {
                    assert(nv[i] == x@);
                    assert(nv[j] == bv[j - 1]);
                    if j - 1 > pos {
                        lemma_text_le_trans(x@, bv[pos as int], bv[j - 1]);
                    }
                } else if i < pos {
                    assert(nv[i] == bv[i]);
                    assert(nv[j] == bv[j - 1]);
                } else {
                    assert(nv[i] == bv[i - 1]);
                    assert(nv[j] == bv[j - 1]);
                }
            }
        }
        k = k + 1;
    }
    proof {
        let le = |a: Seq<char>, b: Seq<char>| text_le(a, b);
        lemma_text_order();
        assert(v@.take(v@.len() as int) =~= v@);
        assert(sorted_by(views(out@), le)) by {
            assert forall|i: int, j: int| 0 <= i < j < views(out@).len() implies #[trigger] le(views(out@)[i], views(out@)[j]) by {
                assert(text_le(views(out@)[i], views(out@)[j]));
            }
        }
        views(v@).lemma_sort_by_ensures(le);
        vstd::seq_lib::lemma_sorted_unique(views(out@), views(v@).sort_by(le), le);
    }
    out
}

} // verus!
