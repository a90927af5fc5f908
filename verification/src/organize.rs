//! Path templates and folder-name rules: the placeholder vocabulary, the checks a
//! template must pass, and which characters and names Windows refuses in a folder.
//!
//! A template is a `/`- or `\`-separated list of segments; a segment mixes literal text
//! with `{placeholder}`s from a fixed vocabulary. A full destination template must name
//! the project, the date and the device.

use vstd::prelude::*;
use crate::i18n::Locale;
use crate::text::{chars_of, push_str, string_of, str_eq};

verus! {

/// Why a template (or a node name read as a template segment) is not valid.
#[derive(Debug, Clone, PartialEq, Eq)]
pub enum TemplateError {
    /// No segment at all.
    EmptyTemplate,
    /// A `{` was never closed (or another `{` came first).
    UnclosedBrace,
    /// A `}` came without a matching `{`.
    UnopenedBrace,
    /// `{}` with nothing inside.
    EmptyPlaceholder,
    /// A placeholder outside the vocabulary.
    UnknownPlaceholder(String),
    /// A destination template must contain at least one of `{项目}`, `{日期}`, `{设备}`.
    MissingRequiredPlaceholder,
}

/// [`TemplateError`] with its text taken by view.
pub enum TemplateErrorV {
    EmptyTemplate,
    UnclosedBrace,
    UnopenedBrace,
    EmptyPlaceholder,
    UnknownPlaceholder(Seq<char>),
    MissingRequiredPlaceholder,
}

impl View for TemplateError {
    type V = TemplateErrorV;

    open spec fn view(&self) -> TemplateErrorV {
        match self {
            TemplateError::EmptyTemplate => TemplateErrorV::EmptyTemplate,
            TemplateError::UnclosedBrace => TemplateErrorV::UnclosedBrace,
            TemplateError::UnopenedBrace => TemplateErrorV::UnopenedBrace,
            TemplateError::EmptyPlaceholder => TemplateErrorV::EmptyPlaceholder,
            TemplateError::UnknownPlaceholder(s) => TemplateErrorV::UnknownPlaceholder(s@),
            TemplateError::MissingRequiredPlaceholder => TemplateErrorV::MissingRequiredPlaceholder,
        }
    }
}

pub const PH_PROJECT: &'static str = "项目";
pub const PH_DATE: &'static str = "日期";
pub const PH_DEVICE: &'static str = "设备";
pub const PH_YEAR: &'static str = "年";
pub const PH_MONTH: &'static str = "月";
pub const PH_DAY: &'static str = "日";
pub const PH_CARD: &'static str = "卡";

/// The placeholder vocabulary shared by string templates and map node names.
pub open spec fn is_known_placeholder(name: Seq<char>) -> bool {
    ||| name == PH_PROJECT@
    ||| name == PH_DATE@
    ||| name == PH_DEVICE@
    ||| name == PH_YEAR@
    ||| name == PH_MONTH@
    ||| name == PH_DAY@
    ||| name == PH_CARD@
}

pub fn known_placeholder(name: &str) -> (r: bool)
    ensures
        r == is_known_placeholder(name@),
{
    str_eq(name, PH_PROJECT) || str_eq(name, PH_DATE) || str_eq(name, PH_DEVICE) || str_eq(name, PH_YEAR)
        || str_eq(name, PH_MONTH) || str_eq(name, PH_DAY) || str_eq(name, PH_CARD)
}

/// Scans the placeholders of one segment from position `i`; `open` is where the
/// current `{…}` started (just after the brace), if one is open.
pub open spec fn scan(s: Seq<char>, i: nat, open: Option<nat>) -> Result<(), TemplateErrorV>
    decreases s.len() - i,
{
    if i >= s.len() {
        if open is Some { Err(TemplateErrorV::UnclosedBrace) } else { Ok(()) }
    } else {
        let c = s[i as int];
        match open {
            None => {
                if c == '{' {
                    scan(s, i + 1, Some(i + 1))
                } else if c == '}' {
                    Err(TemplateErrorV::UnopenedBrace)
                } else {
                    scan(s, i + 1, None)
                }
            },
            Some(st) => {
                if c == '}' {
                    let inner = s.subrange(st as int, i as int);
                    if inner.len() == 0 {
                        Err(TemplateErrorV::EmptyPlaceholder)
                    } else if !is_known_placeholder(inner) {
                        Err(TemplateErrorV::UnknownPlaceholder(inner))
                    } else {
                        scan(s, i + 1, None)
                    }
                } else if c == '{' {
                    Err(TemplateErrorV::UnclosedBrace)
                } else {
                    scan(s, i + 1, Some(st))
                }
            },
        }
    }
}

/// The placeholder check of a single segment (a map node name).
pub open spec fn segment_check(s: Seq<char>) -> Result<(), TemplateErrorV> {
    scan(s, 0, None)
}

/// Checks the placeholders in one segment: braces balanced, never nested, never
/// empty, every name from the vocabulary.
pub fn parse_map_path(s: &str) -> (r: Result<(), TemplateError>)
    ensures
        match r {
            Ok(()) => segment_check(s@) is Ok,
            Err(e) => segment_check(s@) == Err::<(), TemplateErrorV>(e@),
        },
{
    let v = chars_of(s);
    check_segment_chars(v.as_slice())
}

/// [`parse_map_path`] on characters.
pub fn check_segment_chars(v: &[char]) -> (r: Result<(), TemplateError>)
    ensures
        match r {
            Ok(()) => segment_check(v@) is Ok,
            Err(e) => segment_check(v@) == Err::<(), TemplateErrorV>(e@),
        },
{
    let mut i: usize = 0;
    let mut open: Option<usize> = None;
    while i < v.len()
        invariant
            i <= v@.len(),
            match open { Some(st) => st <= i, None => true },
            scan(v@, 0, None) == scan(v@, i as nat, match open { Some(st) => Some(st as nat), None => None }),
        decreases v@.len() - i,
    {
        let c = v[i];
        match open {
            None => {
                if c == '{' {
                    open = Some(i + 1);
                } else if c == '}' {
                    return Err(TemplateError::UnopenedBrace);
                }
            },
            Some(st) => {
                if c == '}' {
                    if st == i {
                        return Err(TemplateError::EmptyPlaceholder);
                    }
                    let inner = string_of(&v[st..i]);
                    proof {
                        assert(v@.subrange(st as int, i as int) == inner@);
                    }
                    if !known_placeholder(inner.as_str()) {
                        return Err(TemplateError::UnknownPlaceholder(inner));
                    }
                    open = None;
                } else if c == '{' {
                    return Err(TemplateError::UnclosedBrace);
                }
            },
        }
        i = i + 1;
    }
    if open.is_some() {
        return Err(TemplateError::UnclosedBrace);
    }
    Ok(())
}

/// Whether `c` separates segments.
pub open spec fn is_sep(c: char) -> bool {
    c == '/' || c == '\\'
}

/// Splitting state after reading `s`: finished segments and the one being read.
pub open spec fn split_state(s: Seq<char>) -> (Seq<Seq<char>>, Seq<char>)
    decreases s.len(),
{
    if s.len() == 0 {
        (Seq::empty(), Seq::empty())
    } else {
        let (done, cur) = split_state(s.drop_last());
        let c = s.last();
        if is_sep(c) {
            if cur.len() > 0 { (done.push(cur), Seq::empty()) } else { (done, Seq::empty()) }
        } else {
            (done, cur.push(c))
        }
    }
}

/// The non-empty pieces of `s` between `/` and `\` separators, in order.
pub open spec fn segments(s: Seq<char>) -> Seq<Seq<char>> {
    let (done, cur) = split_state(s);
    if cur.len() > 0 { done.push(cur) } else { done }
}

/// The non-empty segments of a path, split at `/` and `\`.
pub fn split_segments(s: &str) -> (r: Vec<String>)
    ensures
        r@.len() == segments(s@).len(),
        forall|k: int| 0 <= k < r@.len() ==> #[trigger] r@[k]@ == segments(s@)[k],
{
    let v = chars_of(s);
    let mut done: Vec<String> = Vec::new();
    let mut cur: Vec<char> = Vec::new();
    let mut i: usize = 0;
    while i < v.len()
        invariant
            i <= v@.len(),
            v@ == s@,
            done@.len() == split_state(v@.take(i as int)).0.len(),
            forall|k: int| 0 <= k < done@.len() ==> #[trigger] done@[k]@ == split_state(v@.take(i as int)).0[k],
            cur@ == split_state(v@.take(i as int)).1,
        decreases v@.len() - i,
    {
        let c = v[i];
        proof {
            assert(v@.take(i + 1).drop_last() =~= v@.take(i as int));
            assert(v@.take(i + 1).last() == c);
        }
        if c == '/' || c == '\\' {
            if cur.len() > 0 {
                let seg = string_of(cur.as_slice());
                done.push(seg);
            }
            cur = Vec::new();
        } else {
            cur.push(c);
        }
        i = i + 1;
    }
    proof {
        assert(v@.take(v@.len() as int) =~= v@);
    }
    if cur.len() > 0 {
        let seg = string_of(cur.as_slice());
        done.push(seg);
    }
    done
}

/// Whether `p` occurs in `s` as a contiguous piece.
pub open spec fn contains_sub(s: Seq<char>, p: Seq<char>) -> bool {
    exists|k: int| 0 <= k && k + p.len() <= s.len() && #[trigger] s.subrange(k, k + p.len()) == p
}

pub fn chars_contain_sub(s: &[char], p: &[char]) -> (r: bool)
    ensures
        r == contains_sub(s@, p@),
{
    if p.len() > s.len() {
        return false;
    }
    let mut k: usize = 0;
    let last = s.len() - p.len();
    while k <= last
        invariant
            p@.len() <= s@.len(),
            last == s@.len() - p@.len(),
            s@.len() == s.len(),
            k <= last + 1,
            forall|j: int| 0 <= j < k && j + p@.len() <= s@.len() ==> #[trigger] s@.subrange(j, j + p@.len()) != p@,
        decreases s@.len() + 1 - k,
    {
        let mut m: usize = 0;
        let mut same = true;
        while m < p.len()
            invariant
                m <= p@.len(),
                k <= last,
                last == s@.len() - p@.len(),
                s@.len() == s.len(),
                same == (forall|j: int| 0 <= j < m ==> s@[k + j] == p@[j]),
            decreases p@.len() - m,
        {
            if s[k + m] != p[m] {
                same = false;
            }
            m = m + 1;
        }
        if same {
            proof {
                assert(s@.subrange(k as int, k + p@.len()) =~= p@);
            }
            return true;
        }
        proof {
            let j = choose|j: int| 0 <= j < p@.len() && s@[k + j] != p@[j];
            assert(s@.subrange(k as int, k + p@.len())[j] != p@[j]);
        }
        k = k + 1;
    }
    proof {
        assert forall|j: int| 0 <= j && j + p@.len() <= s@.len() implies #[trigger] s@.subrange(j, j + p@.len()) != p@ by {
            assert(j < k);
        }
    }
    false
}

/// `{` + name + `}`.
pub open spec fn braced(name: Seq<char>) -> Seq<char> {
    seq!['{'] + name + seq!['}']
}

/// The first syntax problem among the segments, if any.
pub open spec fn first_segment_error(segs: Seq<Seq<char>>) -> Option<TemplateErrorV>
    decreases segs.len(),
{
    if segs.len() == 0 {
        None
    } else {
        match first_segment_error(segs.drop_last()) {
            Some(e) => Some(e),
            None => match segment_check(segs.last()) {
                Err(e) => Some(e),
                Ok(()) => None,
            },
        }
    }
}

/// The check a full destination template goes through.
pub open spec fn template_check(s: Seq<char>) -> Result<(), TemplateErrorV> {
    let segs = segments(s);
    if segs.len() == 0 {
        Err(TemplateErrorV::EmptyTemplate)
    } else {
        match first_segment_error(segs) {
            Some(e) => Err(e),
            None => if contains_sub(s, braced(PH_PROJECT@)) || contains_sub(s, braced(PH_DATE@))
                || contains_sub(s, braced(PH_DEVICE@)) {
                Ok(())
            } else {
                Err(TemplateErrorV::MissingRequiredPlaceholder)
            },
        }
    }
}

/// Checks a full destination template: at least one segment, every segment's
/// placeholders well formed, and at least one of `{项目}`, `{日期}`, `{设备}` present.
pub fn parse_template(s: &str) -> (r: Result<(), TemplateError>)
    ensures
        match r {
            Ok(()) => template_check(s@) is Ok,
            Err(e) => template_check(s@) == Err::<(), TemplateErrorV>(e@),
        },
{
    let segs = split_segments(s);
    if segs.len() == 0 {
        return Err(TemplateError::EmptyTemplate);
    }
    let ghost gs = segments(s@);
    let mut i: usize = 0;
    while i < segs.len()
        invariant
            i <= segs@.len(),
            segs@.len() == gs.len(),
            gs == segments(s@),
            forall|k: int| 0 <= k < segs@.len() ==> #[trigger] segs@[k]@ == gs[k],
            first_segment_error(gs.take(i as int)) is None,
        decreases segs@.len() - i,
    {
        let r = parse_map_path(segs[i].as_str());
        proof {
            assert(gs.take(i + 1).drop_last() =~= gs.take(i as int));
            assert(gs.take(i + 1).last() == segs@[i as int]@);
        }
        match r {
            Err(e) => {
                proof {
                    lemma_first_error_prefix(gs, (i + 1) as int);
                }
                return Err(e);
            },
            Ok(()) => {},
        }
        i = i + 1;
    }
    proof {
        assert(gs.take(gs.len() as int) =~= gs);
    }
    let v = chars_of(s);
    let p = ['{', '项', '目', '}'];
    let d = ['{', '日', '期', '}'];
    let e = ['{', '设', '备', '}'];
    proof {
        reveal_strlit("项目");
        reveal_strlit("日期");
        reveal_strlit("设备");
        assert(p@ =~= braced(PH_PROJECT@));
        assert(d@ =~= braced(PH_DATE@));
        assert(e@ =~= braced(PH_DEVICE@));
    }
    if chars_contain_sub(v.as_slice(), &p) || chars_contain_sub(v.as_slice(), &d)
        || chars_contain_sub(v.as_slice(), &e)
    {
        Ok(())
    } else {
        Err(TemplateError::MissingRequiredPlaceholder)
    }
}

/// An error found in a prefix is the first error of the whole list.
proof fn lemma_first_error_prefix(gs: Seq<Seq<char>>, n: int)
    requires
        0 <= n <= gs.len(),
        first_segment_error(gs.take(n)) is Some,
    ensures
        first_segment_error(gs) == first_segment_error(gs.take(n)),
    decreases gs.len() - n,
{
    if n < gs.len() {
        assert(gs.take(n + 1).drop_last() =~= gs.take(n));
        lemma_first_error_prefix(gs, n + 1);
    } else {
        assert(gs.take(n) =~= gs);
    }
}

/// Characters Windows refuses in a file or folder name: `< > : " / \ | ? *` and the
/// control characters below U+0020.
pub open spec fn is_illegal_char(c: char) -> bool {
    ||| c == '<' ||| c == '>' ||| c == ':' ||| c == '"' ||| c == '/' ||| c == '\\'
    ||| c == '|' ||| c == '?' ||| c == '*'
    ||| (c as u32) < 0x20
}

pub fn char_is_illegal(c: char) -> (r: bool)
    ensures
        r == is_illegal_char(c),
{
    c == '<' || c == '>' || c == ':' || c == '"' || c == '/' || c == '\\' || c == '|' || c == '?'
        || c == '*' || (c as u32) < 0x20
}

/// The part of a name before its first dot.
pub open spec fn stem(s: Seq<char>) -> Seq<char>
    decreases s.len(),
{
    if s.len() == 0 {
        s
    } else if s[0] == '.' {
        Seq::empty()
    } else {
        seq![s[0]] + stem(s.drop_first())
    }
}

/// ASCII uppercase of one character.
pub open spec fn ascii_upper(c: char) -> char {
    if 'a' <= c && c <= 'z' { ((c as u32) - 32) as char } else { c }
}

/// Windows reserved device names — `CON`, `PRN`, `AUX`, `NUL`, `COM1`–`COM9`,
/// `LPT1`–`LPT9` — in any ASCII case, bare or with an extension.
pub open spec fn is_reserved_name(s: Seq<char>) -> bool {
    let u = stem(s).map_values(|c: char| ascii_upper(c));
    ||| u == seq!['C', 'O', 'N']
    ||| u == seq!['P', 'R', 'N']
    ||| u == seq!['A', 'U', 'X']
    ||| u == seq!['N', 'U', 'L']
    ||| (u.len() == 4 && (u.take(3) == seq!['C', 'O', 'M'] || u.take(3) == seq!['L', 'P', 'T'])
        && '1' <= u[3] && u[3] <= '9')
}

fn upper_char(c: char) -> (r: char)
    ensures
        r == ascii_upper(c),
{
    if 'a' <= c && c <= 'z' {
        let u = (c as u32) - 32;
        let b = u as u8;
        b as char
    } else {
        c
    }
}

/// Whether a name is a Windows reserved device name.
pub fn is_reserved_segment(s: &[char]) -> (r: bool)
    ensures
        r == is_reserved_name(s@),
{
    let mut u: Vec<char> = Vec::new();
    let mut i: usize = 0;
    while i < s.len() && s[i] != '.'
        invariant
            i <= s@.len(),
            forall|j: int| 0 <= j < i ==> s@[j] != '.',
            u@ == s@.take(i as int).map_values(|c: char| ascii_upper(c)),
        decreases s@.len() - i,
    {
        u.push(upper_char(s[i]));
        i = i + 1;
        proof {
            assert(u@ =~= s@.take(i as int).map_values(|c: char| ascii_upper(c)));
        }
    }
    proof {
        lemma_stem_prefix(s@, i as int);
    }
    let n = u.len();
    if n == 3 {
        let a = u[0];
        let b = u[1];
        let c = u[2];
        proof {
            assert(u@ =~= seq![a, b, c]);
        }
        (a == 'C' && b == 'O' && c == 'N') || (a == 'P' && b == 'R' && c == 'N') || (a == 'A' && b
            == 'U' && c == 'X') || (a == 'N' && b == 'U' && c == 'L')
    } else if n == 4 {
        let a = u[0];
        let b = u[1];
        let c = u[2];
        let d = u[3];
        proof {
            assert(u@.take(3) =~= seq![a, b, c]);
        }
        ((a == 'C' && b == 'O' && c == 'M') || (a == 'L' && b == 'P' && c == 'T')) && '1' <= d && d
            <= '9'
    } else {
        false
    }
}

proof fn lemma_stem_prefix(s: Seq<char>, i: int)
    requires
        0 <= i <= s.len(),
        forall|j: int| 0 <= j < i ==> s[j] != '.',
        i == s.len() || s[i] == '.',
    ensures
        stem(s) == s.take(i),
    decreases i,
{
    if i > 0 {
        let t = s.drop_first();
        assert forall|j: int| 0 <= j < i - 1 implies t[j] != '.' by {
            assert(t[j] == s[j + 1]);
        }
        lemma_stem_prefix(t, i - 1);
        assert(s.take(i) =~= seq![s[0]] + t.take(i - 1));
    } else {
        if s.len() == 0 {
            assert(s.take(0) =~= s);
        } else {
            assert(s.take(0) =~= Seq::<char>::empty());
        }
    }
}

impl TemplateError {
    /// One sentence for the user, in the chosen language.
    pub fn describe(&self, lang: Locale) -> (r: String)
        ensures
            r@ == template_error_text(self@, lang),
    {
        match self {
            TemplateError::UnknownPlaceholder(name) => {
                let mut s = String::new();
                match lang {
                    Locale::Zh => {
                        push_str(&mut s, "不认识的占位符 {");
                        push_str(&mut s, name.as_str());
                        push_str(&mut s, "}");
                    },
                    Locale::En => {
                        push_str(&mut s, "Unknown placeholder {");
                        push_str(&mut s, name.as_str());
                        push_str(&mut s, "}");
                    },
                }
                s
            },
            _ => {
                let t = self.fixed_text(lang);
                string_of(&chars_of(t))
            },
        }
    }

    fn fixed_text(&self, lang: Locale) -> (r: &'static str)
        requires
            !(self@ is UnknownPlaceholder),
        ensures
            r@ == template_error_text(self@, lang),
    {
        match self {
            TemplateError::EmptyTemplate => lang.pick("路径模板是空的", "The path template is empty"),
            TemplateError::UnclosedBrace => lang.pick("花括号没有闭合", "A brace is not closed"),
            TemplateError::UnopenedBrace => lang.pick("多了一个右花括号", "There is a closing brace without an opening one"),
            TemplateError::EmptyPlaceholder => lang.pick("花括号里是空的", "A placeholder is empty"),
            TemplateError::MissingRequiredPlaceholder => lang.pick(
                "路径模板至少要包含 {项目}、{日期}、{设备} 中的一个占位符",
                "A path template must contain at least one of the {项目}, {日期} and {设备} placeholders",
            ),
            TemplateError::UnknownPlaceholder(_) => lang.pick("", ""),
        }
    }
}

/// The sentence for a template error.
pub open spec fn template_error_text(e: TemplateErrorV, lang: Locale) -> Seq<char> {
    match (e, lang) {
        (TemplateErrorV::EmptyTemplate, Locale::Zh) => "路径模板是空的"@,
        (TemplateErrorV::EmptyTemplate, Locale::En) => "The path template is empty"@,
        (TemplateErrorV::UnclosedBrace, Locale::Zh) => "花括号没有闭合"@,
        (TemplateErrorV::UnclosedBrace, Locale::En) => "A brace is not closed"@,
        (TemplateErrorV::UnopenedBrace, Locale::Zh) => "多了一个右花括号"@,
        (TemplateErrorV::UnopenedBrace, Locale::En) => "There is a closing brace without an opening one"@,
        (TemplateErrorV::EmptyPlaceholder, Locale::Zh) => "花括号里是空的"@,
        (TemplateErrorV::EmptyPlaceholder, Locale::En) => "A placeholder is empty"@,
        (TemplateErrorV::UnknownPlaceholder(n), Locale::Zh) => "不认识的占位符 {"@ + n + "}"@,
        (TemplateErrorV::UnknownPlaceholder(n), Locale::En) => "Unknown placeholder {"@ + n + "}"@,
        (TemplateErrorV::MissingRequiredPlaceholder, Locale::Zh) => "路径模板至少要包含 {项目}、{日期}、{设备} 中的一个占位符"@,
        (TemplateErrorV::MissingRequiredPlaceholder, Locale::En) => "A path template must contain at least one of the {项目}, {日期} and {设备} placeholders"@,
    }
}

/// No separator in `s`.
pub open spec fn sep_free(s: Seq<char>) -> bool {
    forall|k: int| 0 <= k < s.len() ==> !is_sep(#[trigger] s[k])
}

/// What splitting keeps while it reads `s`: finished segments are non-empty and hold no
/// separator, the segment being read is the separator-free tail of `s`, and `p` (a
/// non-empty piece without separators) occurs in `s` exactly when it occurs in one of
/// the segments.
spec fn split_inv(s: Seq<char>, p: Seq<char>) -> bool {
    split_inv_parts(s, split_state(s).0, split_state(s).1, p)
}

spec fn split_inv_parts(s: Seq<char>, done: Seq<Seq<char>>, cur: Seq<char>, p: Seq<char>) -> bool {
    &&& forall|k: int| 0 <= k < done.len() ==> (#[trigger] done[k]).len() > 0 && sep_free(done[k])
    &&& sep_free(cur)
    &&& cur.len() <= s.len()
    &&& s.subrange(s.len() - cur.len(), s.len() as int) == cur
    &&& s.len() > cur.len() ==> is_sep(s[s.len() - cur.len() - 1])
    &&& contains_sub(s, p) <==> (contains_sub(cur, p) || exists|k: int| 0 <= k < done.len() && contains_sub(#[trigger] done[k], p))
}

/// An occurrence in `t + c` is one in `t` or the suffix of `t + c`, and both are
/// occurrences.
proof fn lemma_push_occurrence(t: Seq<char>, c: char, p: Seq<char>)
    requires
        p.len() > 0,
    ensures
        contains_sub(t, p) ==> contains_sub(t.push(c), p),
        contains_sub(t.push(c), p) ==> contains_sub(t, p) || (p.len() <= t.len() + 1
            && t.push(c).subrange(t.len() + 1 - p.len(), (t.len() + 1) as int) == p),
        (p.len() <= t.len() + 1 && t.push(c).subrange(t.len() + 1 - p.len(), (t.len() + 1) as int) == p) ==> contains_sub(t.push(c), p),
{
    let s = t.push(c);
    if contains_sub(t, p) {
        let k = choose|k: int| 0 <= k && k + p.len() <= t.len() && #[trigger] t.subrange(k, k + p.len()) == p;
        assert(s.subrange(k, k + p.len()) =~= t.subrange(k, k + p.len()));
    }
    if contains_sub(s, p) {
        let k = choose|k: int| 0 <= k && k + p.len() <= s.len() && #[trigger] s.subrange(k, k + p.len()) == p;
        if k + p.len() <= t.len() {
            assert(t.subrange(k, k + p.len()) =~= s.subrange(k, k + p.len()));
        } else {
            assert(k == s.len() - p.len());
        }
    }
    if p.len() <= t.len() + 1 && s.subrange(t.len() + 1 - p.len(), (t.len() + 1) as int) == p {
        let k = s.len() - p.len();
        assert(s.subrange(k, k + p.len()) == p);
    }
}

/// Reading a separator ends the segment being read.
#[verifier::spinoff_prover]
proof fn lemma_split_sep(t: Seq<char>, c: char, p: Seq<char>)
    requires
        p.len() > 0,
        sep_free(p),
        is_sep(c),
        split_inv(t, p),
    ensures
        split_inv(t.push(c), p),
{
    let s = t.push(c);
    let done = split_state(t).0;
    let cur = split_state(t).1;
    assert(split_inv_parts(t, done, cur, p));
    assert(s.drop_last() =~= t);
    lemma_push_occurrence(t, c, p);
    let suffix = s.subrange(t.len() + 1 - p.len(), (t.len() + 1) as int);
    if p.len() <= t.len() + 1 && suffix == p {
        assert(suffix[p.len() - 1] == c);
        assert(false);
    }
    let done2 = if cur.len() > 0 { done.push(cur) } else { done };
    assert(split_state(s) == (done2, Seq::<char>::empty()));
    assert(s.subrange(s.len() - 0, s.len() as int) =~= Seq::<char>::empty());
    assert(!contains_sub(Seq::<char>::empty(), p));
    assert forall|k: int| 0 <= k < done2.len() implies (#[trigger] done2[k]).len() > 0 && sep_free(done2[k]) by {
        if k < done.len() {
            assert(done2[k] == done[k]);
        }
    }
    if cur.len() == 0 {
        assert(!contains_sub(cur, p));
    }
    assert((contains_sub(cur, p) || exists|k: int| 0 <= k < done.len() && contains_sub(#[trigger] done[k], p))
        <==> exists|k: int| 0 <= k < done2.len() && contains_sub(#[trigger] done2[k], p)) by {
        if cur.len() > 0 {
            if contains_sub(cur, p) {
                assert(contains_sub(done2[done.len() as int], p));
            }
            if exists|k: int| 0 <= k < done.len() && contains_sub(#[trigger] done[k], p) {
                let k = choose|k: int| 0 <= k < done.len() && contains_sub(#[trigger] done[k], p);
                assert(done2[k] == done[k]);
            }
            if exists|k: int| 0 <= k < done2.len() && contains_sub(#[trigger] done2[k], p) {
                let k = choose|k: int| 0 <= k < done2.len() && contains_sub(#[trigger] done2[k], p);
                if k < done.len() {
                    assert(done2[k] == done[k]);
                }
            }
        }
    }    assert(split_inv_parts(s, done2, Seq::<char>::empty(), p));
}

/// Reading any other character extends the segment being read.
#[verifier::spinoff_prover]
proof fn lemma_split_char(t: Seq<char>, c: char, p: Seq<char>)
    requires
        p.len() > 0,
        sep_free(p),
        !is_sep(c),
        split_inv(t, p),
    ensures
        split_inv(t.push(c), p),
{
    let s = t.push(c);
    let done = split_state(t).0;
    let cur = split_state(t).1;
    assert(split_inv_parts(t, done, cur, p));
    assert(s.drop_last() =~= t);
    lemma_push_occurrence(t, c, p);
    let suffix = s.subrange(t.len() + 1 - p.len(), (t.len() + 1) as int);
    let cur2 = cur.push(c);
    assert(split_state(s) == (done, cur2));
    assert(s.subrange(s.len() - cur2.len(), s.len() as int) =~= t.subrange(t.len() - cur.len(), t.len() as int).push(c));
    assert forall|k: int| 0 <= k < cur2.len() implies !is_sep(#[trigger] cur2[k]) by {
        if k < cur.len() {
            assert(cur2[k] == cur[k]);
        }
    }
    if s.len() > cur2.len() {
        assert(s[s.len() - cur2.len() - 1] == t[t.len() - cur.len() - 1]);
    }
    // occurrences in `cur` are occurrences in `cur2`
    if contains_sub(cur, p) {
        let k = choose|k: int| 0 <= k && k + p.len() <= cur.len() && #[trigger] cur.subrange(k, k + p.len()) == p;
        assert(cur2.subrange(k, k + p.len()) =~= cur.subrange(k, k + p.len()));
        assert(contains_sub(cur2, p));
    }
    // a suffix of `s` that is `p` holds no separator, so it lies in `cur2`
    if p.len() <= t.len() + 1 && suffix == p {
        if p.len() > cur2.len() {
            let q = s.len() - cur2.len() - 1;
            assert(suffix[q - (s.len() - p.len())] == s[q]);
            assert(!is_sep(p[q - (s.len() - p.len())]));
        }
        let k = cur2.len() - p.len();
        assert(cur2.subrange(k, k + p.len()) =~= suffix) by {
            assert forall|j: int| 0 <= j < p.len() implies cur2.subrange(k, k + p.len())[j] == suffix[j] by {
                assert(cur2[k + j] == s.subrange(s.len() - cur2.len(), s.len() as int)[k + j]);
            }
        }
        assert(contains_sub(cur2, p));
    }
    // an occurrence in `cur2` is in `cur` or is the suffix of `s`
    if contains_sub(cur2, p) {
        let k = choose|k: int| 0 <= k && k + p.len() <= cur2.len() && #[trigger] cur2.subrange(k, k + p.len()) == p;
        if k + p.len() <= cur.len() {
            assert(cur.subrange(k, k + p.len()) =~= cur2.subrange(k, k + p.len()));
            assert(contains_sub(cur, p));
        } else {
            assert(suffix =~= cur2.subrange(k, k + p.len())) by {
                assert forall|j: int| 0 <= j < p.len() implies suffix[j] == cur2.subrange(k, k + p.len())[j] by {
                    assert(cur2[k + j] == s.subrange(s.len() - cur2.len(), s.len() as int)[k + j]);
                }
            }
        }
    }    assert(split_inv_parts(s, done, cur2, p));
}

proof fn lemma_split_state(s: Seq<char>, p: Seq<char>)
    requires
        p.len() > 0,
        sep_free(p),
    ensures
        split_inv(s, p),
    decreases s.len(),
{
    if s.len() == 0 {
        assert(!contains_sub(s, p));
        assert(!contains_sub(Seq::<char>::empty(), p));
        assert(s.subrange(0, 0) =~= Seq::<char>::empty());
    } else {
        let t = s.drop_last();
        lemma_split_state(t, p);
        assert(s == t.push(s.last()));
        if is_sep(s.last()) {
            lemma_split_sep(t, s.last(), p);
        } else {
            lemma_split_char(t, s.last(), p);
        }
    }
}

/// Segments are non-empty and hold no separator, and a non-empty piece without
/// separators occurs in a path exactly when it occurs in one of its segments.
pub proof fn lemma_segments(s: Seq<char>, p: Seq<char>)
    requires
        p.len() > 0,
        sep_free(p),
    ensures
        forall|k: int| 0 <= k < segments(s).len() ==> (#[trigger] segments(s)[k]).len() > 0 && sep_free(segments(s)[k]),
        contains_sub(s, p) <==> exists|k: int| 0 <= k < segments(s).len() && contains_sub(#[trigger] segments(s)[k], p),
{
    lemma_split_state(s, p);
    let done = split_state(s).0;
    let cur = split_state(s).1;
    assert(split_inv_parts(s, done, cur, p));
    if cur.len() > 0 {
        let segs = done.push(cur);
        assert(segs[done.len() as int] == cur);
        assert forall|k: int| 0 <= k < done.len() implies segs[k] == done[k] by {}
        if exists|k: int| 0 <= k < segs.len() && contains_sub(#[trigger] segs[k], p) {
            let k = choose|k: int| 0 <= k < segs.len() && contains_sub(#[trigger] segs[k], p);
            if k < done.len() {
                assert(segs[k] == done[k]);
            }
        }
        if contains_sub(cur, p) {
            assert(contains_sub(segs[done.len() as int], p));
        }
    } else {
        assert(!contains_sub(cur, p));
    }
}

/// Joining non-empty, separator-free segments with `/` and splitting again gives them
/// back.
pub proof fn lemma_split_join(segs: Seq<Seq<char>>)
    requires
        forall|k: int| 0 <= k < segs.len() ==> (#[trigger] segs[k]).len() > 0 && sep_free(segs[k]),
    ensures
        segments(crate::text::join_seq(segs, '/')) == segs,
{
    if segs.len() > 0 {
        lemma_split_join_state(segs);
        assert(segs.drop_last().push(segs.last()) =~= segs);
    } else {
        assert(crate::text::join_seq(segs, '/') == Seq::<char>::empty());
    }
}

/// Reading separator-free text `t` extends the segment being read.
proof fn lemma_split_append(s: Seq<char>, t: Seq<char>)
    requires
        sep_free(t),
    ensures
        split_state(s + t) == (split_state(s).0, split_state(s).1 + t),
    decreases t.len(),
{
    if t.len() == 0 {
        assert(s + t =~= s);
        assert(split_state(s).1 + t =~= split_state(s).1);
    } else {
        let u = t.drop_last();
        assert(sep_free(u)) by {
            assert forall|k: int| 0 <= k < u.len() implies !is_sep(#[trigger] u[k]) by {
                assert(u[k] == t[k]);
            }
        }
        lemma_split_append(s, u);
        assert((s + t).drop_last() =~= s + u);
        assert((s + t).last() == t[t.len() - 1]);
        assert((split_state(s).1 + u).push(t[t.len() - 1]) =~= split_state(s).1 + t);
    }
}

proof fn lemma_split_join_state(segs: Seq<Seq<char>>)
    requires
        segs.len() > 0,
        forall|k: int| 0 <= k < segs.len() ==> (#[trigger] segs[k]).len() > 0 && sep_free(segs[k]),
    ensures
        split_state(crate::text::join_seq(segs, '/')) == (segs.drop_last(), segs.last()),
    decreases segs.len(),
{
    let j = crate::text::join_seq(segs, '/');
    if segs.len() == 1 {
        assert(segs[0].len() > 0 && sep_free(segs[0]));
        lemma_split_append(Seq::<char>::empty(), segs[0]);
        assert(Seq::<char>::empty() + segs[0] =~= segs[0]);
        assert(Seq::<char>::empty() + segs[0] =~= segs[0]);
        assert(segs.drop_last() =~= Seq::<Seq<char>>::empty());
    } else {
        let d = segs.drop_last();
        assert forall|k: int| 0 <= k < d.len() implies (#[trigger] d[k]).len() > 0 && sep_free(d[k]) by {
            assert(d[k] == segs[k]);
        }
        lemma_split_join_state(d);
        let jd = crate::text::join_seq(d, '/');
        let w = jd.push('/');
        assert(w.drop_last() =~= jd);
        assert(d.last() == segs[segs.len() - 2]);
        assert(split_state(w) == (d.drop_last().push(d.last()), Seq::<char>::empty()));
        assert(d.drop_last().push(d.last()) =~= d);
        assert(segs[segs.len() - 1].len() > 0 && sep_free(segs[segs.len() - 1]));
        lemma_split_append(w, segs.last());
        assert(Seq::<char>::empty() + segs.last() =~= segs.last());
    }
}

} // verus!
