//! Self-checks of an update: was the version that got installed the one the update
//! source promised, and may an installer be downloaded from this address at all.

use vstd::prelude::*;
use crate::i18n::Locale;
use crate::text::{chars_of, lines_seq, owned, push_str, str_eq, trim, trim_seq};

verus! {

/// What went wrong with an update.
#[derive(Debug, Clone, PartialEq, Eq)]
pub enum Anomaly {
    /// The source promised one version and an older (or unrelated) one is installed.
    Downgraded { promised: String, actual: String },
    /// The version did not change at all: the installer did not replace the old build.
    Unchanged { promised: String },
}

/// The sentence shown for an anomaly.
pub open spec fn anomaly_text(a: Anomaly, lang: Locale) -> Seq<char> {
    match (a, lang) {
        (Anomaly::Downgraded { promised, actual }, Locale::Zh) => "更新异常：更新源说这是 "@ + promised@ + "，装上之后却是 "@ + actual@
            + "。这不是正常的更新结果——更新源给的信息与实际不符，可能已被篡改。更新检查已自动关闭；请到官网核对校验码后手动下载安装。"@,
        (Anomaly::Downgraded { promised, actual }, Locale::En) => "Update anomaly: the update source promised "@ + promised@ + ", but "@ + actual@
            + " was installed. That is not a normal outcome — the source's information does not match reality and may have been tampered with. Update checking has been turned off; please download manually and verify the checksum."@,
        (Anomaly::Unchanged { promised }, Locale::Zh) => "更新异常：装完之后版本号仍是 "@ + promised@
            + " 之前的那个，说明安装包没有真正覆盖旧版。更新检查已自动关闭，以免反复重装；请到官网手动下载安装。"@,
        (Anomaly::Unchanged { promised }, Locale::En) => "Update anomaly: the version did not change after installing (source promised "@ + promised@
            + "), so the installer did not actually replace the old build. Update checking has been turned off to avoid a reinstall loop; please download and install manually."@,
    }
}

impl Anomaly {
    /// The sentence for the user, in the chosen language.
    pub fn describe(&self, lang: Locale) -> (r: String)
        ensures
            r@ == anomaly_text(*self, lang),
    {
        let mut s = String::new();
        match (self, lang) {
            (Anomaly::Downgraded { promised, actual }, Locale::Zh) => {
                push_str(&mut s, "更新异常：更新源说这是 ");
                push_str(&mut s, promised.as_str());
                push_str(&mut s, "，装上之后却是 ");
                push_str(&mut s, actual.as_str());
                push_str(&mut s, "。这不是正常的更新结果——更新源给的信息与实际不符，可能已被篡改。更新检查已自动关闭；请到官网核对校验码后手动下载安装。");
            },
            (Anomaly::Downgraded { promised, actual }, Locale::En) => {
                push_str(&mut s, "Update anomaly: the update source promised ");
                push_str(&mut s, promised.as_str());
                push_str(&mut s, ", but ");
                push_str(&mut s, actual.as_str());
                push_str(&mut s, " was installed. That is not a normal outcome — the source's information does not match reality and may have been tampered with. Update checking has been turned off; please download manually and verify the checksum.");
            },
            (Anomaly::Unchanged { promised }, Locale::Zh) => {
                push_str(&mut s, "更新异常：装完之后版本号仍是 ");
                push_str(&mut s, promised.as_str());
                push_str(&mut s, " 之前的那个，说明安装包没有真正覆盖旧版。更新检查已自动关闭，以免反复重装；请到官网手动下载安装。");
            },
            (Anomaly::Unchanged { promised }, Locale::En) => {
                push_str(&mut s, "Update anomaly: the version did not change after installing (source promised ");
                push_str(&mut s, promised.as_str());
                push_str(&mut s, "), so the installer did not actually replace the old build. Update checking has been turned off to avoid a reinstall loop; please download and install manually.");
            },
        }
        proof {
            assert(s@ =~= anomaly_text(*self, lang));
        }
        s
    }
}

/// `s` without its leading `v`s.
pub open spec fn strip_v(s: Seq<char>) -> Seq<char>
    decreases s.len(),
{
    if s.len() > 0 && s[0] == 'v' { strip_v(s.drop_first()) } else { s }
}

/// The separators between the numbers of a version: `.`, `-` and `+`.
pub open spec fn is_vsep(c: char) -> bool {
    c == '.' || c == '-' || c == '+'
}

/// Whether every character is an ASCII digit.
pub open spec fn all_digits(p: Seq<char>) -> bool {
    forall|i: int| 0 <= i < p.len() ==> '0' <= #[trigger] p[i] <= '9'
}

/// The decimal value of a string of digits.
pub open spec fn digits_val(p: Seq<char>) -> nat
    decreases p.len(),
{
    if p.len() == 0 { 0 } else { digits_val(p.drop_last()) * 10 + ((p.last() as int - 48) as nat) }
}

/// The number a piece holds, as `u64::from_str` reads a piece without signs: some
/// digits, and a value that fits.
pub open spec fn piece_value(p: Seq<char>) -> Option<u64> {
    if p.len() > 0 && all_digits(p) && digits_val(p) <= u64::MAX { Some(digits_val(p) as u64) } else { None }
}

/// Reading a version left to right: the numbers read so far, the piece being read,
/// and whether a piece that is not a number has ended the reading.
pub open spec fn vstate(s: Seq<char>) -> (Seq<u64>, Seq<char>, bool)
    decreases s.len(),
{
    if s.len() == 0 {
        (Seq::empty(), Seq::empty(), false)
    } else {
        let (done, cur, stopped) = vstate(s.drop_last());
        let c = s.last();
        if is_vsep(c) {
            if stopped {
                (done, Seq::empty(), true)
            } else {
                match piece_value(cur) {
                    Some(v) => (done.push(v), Seq::empty(), false),
                    None => (done, Seq::empty(), true),
                }
            }
        } else {
            (done, cur.push(c), stopped)
        }
    }
}

/// The numbers of a version: leading `v`s dropped, split at `.`, `-` and `+`, and the
/// pieces read as numbers up to the first one that is not.
pub open spec fn version_numbers(s: Seq<char>) -> Seq<u64> {
    let (done, cur, stopped) = vstate(strip_v(s));
    if stopped {
        done
    } else {
        match piece_value(cur) {
            Some(v) => done.push(v),
            None => done,
        }
    }
}

/// `a` comes after `b` in lexicographic order (a longer sequence after its prefix).
pub open spec fn lex_gt(a: Seq<u64>, b: Seq<u64>) -> bool
    decreases a.len(),
{
    if b.len() == 0 {
        a.len() > 0
    } else if a.len() == 0 {
        false
    } else if a[0] != b[0] {
        a[0] > b[0]
    } else {
        lex_gt(a.drop_first(), b.drop_first())
    }
}

/// The verdict on an installed version: fine when it is the promised one, or when
/// both read as version numbers and the installed one is newer; a downgrade otherwise.
pub open spec fn judge_spec(promised: Seq<char>, actual: Seq<char>) -> Option<(Seq<char>, Seq<char>)> {
    if promised == actual {
        None
    } else {
        let p = version_numbers(promised);
        let a = version_numbers(actual);
        if p.len() > 0 && a.len() > 0 && lex_gt(a, p) { None } else { Some((promised, actual)) }
    }
}

proof fn lemma_digits_grow(p: Seq<char>, c: char)
    requires
        '0' <= c <= '9',
    ensures
        digits_val(p.push(c)) >= digits_val(p),
        digits_val(p.push(c)) == digits_val(p) * 10 + (c as int - 48),
{
    assert(p.push(c).drop_last() =~= p);
}

/// The numbers of a version, as [`version_numbers`] reads them.
fn version_numbers_of(s: &str) -> (r: Vec<u64>)
    ensures
        r@ == version_numbers(s@),
{
    let v = chars_of(s);
    let mut start: usize = 0;
    proof {
        assert(v@.skip(0) =~= v@);
    }
    while start < v.len() && v[start] == 'v'
        invariant
            start <= v@.len(),
            v@ == s@,
            strip_v(s@) == strip_v(v@.skip(start as int)),
        decreases v@.len() - start,
    {
        proof {
            assert(v@.skip(start as int).drop_first() =~= v@.skip(start + 1));
        }
        start = start + 1;
    }
    proof {
        if start < v@.len() {
            assert(v@.skip(start as int)[0] == v@[start as int]);
        }
    }
    let ghost t = v@.skip(start as int);
    assert(strip_v(s@) == t);
    let mut done: Vec<u64> = Vec::new();
    let mut cur_len: usize = 0;
    let mut cur_ok = true;
    let mut cur_val: u64 = 0;
    let mut stopped = false;
    let mut i: usize = start;
    while i < v.len()
        invariant
            start <= i <= v@.len(),
            t == v@.skip(start as int),
            cur_len <= i,
            ({
                let st = vstate(t.take(i - start));
                &&& done@ == st.0
                &&& cur_len == st.1.len()
                &&& cur_ok == (all_digits(st.1) && digits_val(st.1) <= u64::MAX)
                &&& cur_ok ==> cur_val == digits_val(st.1)
                &&& stopped == st.2
            }),
        decreases v@.len() - i,
    {
        let ghost pre = vstate(t.take(i - start));
        proof {
            assert(t.take(i + 1 - start).drop_last() =~= t.take(i - start));
            assert(t.take(i + 1 - start).last() == v@[i as int]);
        }
        let c = v[i];
        if c == '.' || c == '-' || c == '+' {
            if !stopped {
                if cur_len > 0 && cur_ok {
                    done.push(cur_val);
                } else {
                    stopped = true;
                }
            }
            cur_len = 0;
            cur_ok = true;
            cur_val = 0;
            proof {
                assert(all_digits(Seq::<char>::empty()));
            }
        } else {
            let ghost cur = pre.1;
            if cur_ok && '0' <= c && c <= '9' {
                let d = (c as u32 - 48) as u64;
                proof {
                    lemma_digits_grow(cur, c);
                }
                if cur_val <= (u64::MAX - d) / 10 {
                    proof {
                        assert(cur_val * 10 + d <= u64::MAX) by (nonlinear_arith)
                            requires
                                cur_val <= (u64::MAX - d) / 10,
                                d < 10;
                    }
                    cur_val = cur_val * 10 + d;
                    proof {
                        assert(all_digits(cur.push(c))) by {
                            assert forall|k: int| 0 <= k < cur.push(c).len() implies '0' <= #[trigger] cur.push(c)[k] <= '9' by {
                                if k < cur.len() {
                                    assert(cur.push(c)[k] == cur[k]);
                                }
                            }
                        }
                    }
                } else {
                    proof {
                        assert(cur_val * 10 + d > u64::MAX) by (nonlinear_arith)
                            requires
                                cur_val > (u64::MAX - d) / 10,
                                d < 10;
                    }
                    cur_ok = false;
                }
            } else {
                proof {
                    if '0' <= c && c <= '9' {
                        if all_digits(cur) {
                            lemma_digits_grow(cur, c);
                        } else {
                            let k = choose|k: int| 0 <= k < cur.len() && !('0' <= #[trigger] cur[k] <= '9');
                            assert(cur.push(c)[k] == cur[k]);
                        }
                    } else {
                        assert(cur.push(c)[cur.len() as int] == c);
                    }
                }
                cur_ok = false;
            }
            cur_len = cur_len + 1;
        }
        i = i + 1;
    }
    proof {
        assert(t.take(v@.len() - start) =~= t);
    }
    if !stopped && cur_len > 0 && cur_ok {
        done.push(cur_val);
    }
    done
}

/// Lexicographic comparison of two number lists.
fn lex_greater(a: &Vec<u64>, b: &Vec<u64>) -> (r: bool)
    ensures
        r == lex_gt(a@, b@),
{
    let mut i: usize = 0;
    proof {
        assert(a@.skip(0) =~= a@);
        assert(b@.skip(0) =~= b@);
    }
    while i < a.len() && i < b.len()
        invariant
            i <= a@.len(),
            i <= b@.len(),
            a@.take(i as int) == b@.take(i as int),
            lex_gt(a@, b@) == lex_gt(a@.skip(i as int), b@.skip(i as int)),
        decreases a@.len() - i,
    {
        proof {
            assert(a@.skip(i as int)[0] == a@[i as int]);
            assert(b@.skip(i as int)[0] == b@[i as int]);
        }
        if a[i] != b[i] {
            return a[i] > b[i];
        }
        proof {
            assert(a@.skip(i as int).drop_first() =~= a@.skip(i + 1));
            assert(b@.skip(i as int).drop_first() =~= b@.skip(i + 1));
            assert(a@.take(i + 1) =~= a@.take(i as int).push(a@[i as int]));
            assert(b@.take(i + 1) =~= b@.take(i as int).push(b@[i as int]));
        }
        i = i + 1;
    }
    i < a.len()
}

/// Judges the version that got installed against the one the update source
/// promised: `None` when it is that version, or a newer one (both read as numbers);
/// a downgrade otherwise.
pub fn judge(promised: &str, actual: &str) -> (r: Option<Anomaly>)
    ensures
        match r {
            None => judge_spec(promised@, actual@) is None,
            Some(a) => judge_spec(promised@, actual@) == Some((promised@, actual@))
                && a == (Anomaly::Downgraded { promised: a->Downgraded_promised, actual: a->Downgraded_actual })
                && a->Downgraded_promised@ == promised@ && a->Downgraded_actual@ == actual@,
        },
{
    if str_eq(promised, actual) {
        return None;
    }
    let p = version_numbers_of(promised);
    let a = version_numbers_of(actual);
    if p.len() > 0 && a.len() > 0 && lex_greater(&a, &p) {
        return None;
    }
    Some(Anomaly::Downgraded { promised: owned(promised), actual: owned(actual) })
}

/// What a pending-update marker (`promised` then `before`, one per line) says about
/// the version now running: nothing wrong, a version that did not move at all, or
/// the verdict of [`judge`].
pub fn anomaly_from_marker(raw: &str, current: &str) -> (r: Option<Anomaly>)
    ensures
        ({
            let ls = lines_seq(raw@);
            if ls.len() == 0 || trim_seq(ls[0]).len() == 0 {
                r is None
            } else {
                let promised = trim_seq(ls[0]);
                let before = if ls.len() > 1 { trim_seq(ls[1]) } else { Seq::empty() };
                if before.len() > 0 && current@ == before && current@ != promised {
                    r matches Some(Anomaly::Unchanged { promised: p }) && p@ == promised
                } else {
                    match r {
                        None => judge_spec(promised, current@) is None,
                        Some(a) => a matches Anomaly::Downgraded { promised: p, actual: c } && p@ == promised && c@ == current@
                            && judge_spec(promised, current@) is Some,
                    }
                }
            }
        }),
{
    let ls = crate::text::lines(raw);
    if ls.len() == 0 {
        return None;
    }
    let promised = trim(ls[0].as_str());
    if chars_of(promised.as_str()).len() == 0 {
        return None;
    }
    let before = if ls.len() > 1 { trim(ls[1].as_str()) } else { String::new() };
    if chars_of(before.as_str()).len() > 0 && str_eq(current, before.as_str()) && !str_eq(current, promised.as_str()) {
        return Some(Anomaly::Unchanged { promised });
    }
    judge(promised.as_str(), current)
}

/// The hosts an installer may be downloaded from: the own mirror first, then GitHub.
pub const UPDATE_HOST_MIRROR: &'static str = "api.ai-mcn.tv";
pub const UPDATE_HOST_GITHUB: &'static str = "github.com";

/// Whether parsed address parts allow a download: HTTPS, to one of the two hosts.
pub open spec fn allowed_parts(scheme: Seq<char>, host: Option<Seq<char>>) -> bool {
    scheme == "https"@ && match host {
        Some(h) => h == UPDATE_HOST_MIRROR@ || h == UPDATE_HOST_GITHUB@,
        None => false,
    }
}

/// Whether an address with this scheme and host may serve an installer.
pub fn allowed_by_parts(scheme: &str, host: Option<&str>) -> (r: bool)
    ensures
        r == allowed_parts(scheme@, match host { Some(h) => Some(h@), None => None }),
{
    if !str_eq(scheme, "https") {
        return false;
    }
    match host {
        Some(h) => str_eq(h, UPDATE_HOST_MIRROR) || str_eq(h, UPDATE_HOST_GITHUB),
        None => false,
    }
}

/// What `url::Url::parse` makes of an address: its scheme and host, or nothing when
/// it is no address.
pub uninterp spec fn url_parts(url: Seq<char>) -> Option<(Seq<char>, Option<Seq<char>>)>;

/// Parses an address with `url::Url::parse` and hands back its scheme and host
/// (`Url::scheme`, `Url::host_str`). What the WHATWG parsing gives is named, not
/// restated: it depends on the text alone.
#[verifier::external_body]
fn parse_url(url: &str) -> (r: Option<(String, Option<String>)>)
    ensures
        match r {
            Some((s, h)) => url_parts(url@) == Some((s@, match h { Some(x) => Some(x@), None => None })),
            None => url_parts(url@) is None,
        },
{
    match url::Url::parse(url) {
        Ok(u) => Some((u.scheme().to_string(), u.host_str().map(|h| h.to_string()))),
        Err(_) => None,
    }
}

/// Whether an installer may be downloaded from `url`: it must parse, be HTTPS, and
/// name one of the update hosts exactly (no look-alike, no user-info trick).
pub fn is_allowed_update_url(url: &str) -> (r: bool)
    ensures
        r == match url_parts(url@) {
            Some((s, h)) => allowed_parts(s, h),
            None => false,
        },
{
    match parse_url(url) {
        Some((scheme, host)) => {
            let h: Option<&str> = match &host {
                Some(x) => Some(x.as_str()),
                None => None,
            };
            allowed_by_parts(scheme.as_str(), h)
        },
        None => false,
    }
}

/// Two number lists that agree up to `i`: the first `i` numbers of each are equal.
proof fn lemma_lex_gt_at(a: Seq<u64>, b: Seq<u64>, i: int)
    requires
        0 <= i <= a.len(),
        i <= b.len(),
        forall|j: int| 0 <= j < i ==> a[j] == b[j],
    ensures
        lex_gt(a, b) == (if i < a.len() && i < b.len() && a[i] != b[i] {
            a[i] > b[i]
        } else {
            lex_gt(a.skip(i), b.skip(i))
        }),
    decreases i,
{
    if i > 0 {
        assert(a.len() > 0 && b.len() > 0 && a[0] == b[0]);
        let a1 = a.drop_first();
        let b1 = b.drop_first();
        assert forall|j: int| 0 <= j < i - 1 implies a1[j] == b1[j] by {
            assert(a1[j] == a[j + 1] && b1[j] == b[j + 1]);
        }
        lemma_lex_gt_at(a1, b1, i - 1);
        assert(a1.skip(i - 1) =~= a.skip(i));
        assert(b1.skip(i - 1) =~= b.skip(i));
    } else {
        assert(a.skip(0) =~= a);
        assert(b.skip(0) =~= b);
    }
}

/// Versions compare number by number from the left, the first number where they
/// differ deciding: an installed version whose first differing number is smaller
/// than the promised one is a downgrade, and one whose first differing number is
/// larger is fine.
pub proof fn lemma_judge_first_difference(promised: Seq<char>, actual: Seq<char>, i: int)
    requires
        promised != actual,
        0 <= i < version_numbers(promised).len(),
        i < version_numbers(actual).len(),
        forall|j: int| 0 <= j < i ==> version_numbers(actual)[j] == version_numbers(promised)[j],
        version_numbers(actual)[i] != version_numbers(promised)[i],
    ensures
        version_numbers(actual)[i] < version_numbers(promised)[i] ==> judge_spec(promised, actual) == Some((promised, actual)),
        version_numbers(actual)[i] > version_numbers(promised)[i] ==> judge_spec(promised, actual) is None,
{
    lemma_lex_gt_at(version_numbers(actual), version_numbers(promised), i);
}

/// Where one version's numbers run on past all of the other's, which they repeat, the
/// longer is the newer: installing it is fine, installing the shorter one is a
/// downgrade (unless the texts are the same).
pub proof fn lemma_judge_longer(promised: Seq<char>, actual: Seq<char>)
    requires
        promised != actual,
        version_numbers(promised).len() > 0,
        version_numbers(actual).len() > 0,
        version_numbers(promised).len() != version_numbers(actual).len(),
        forall|j: int| 0 <= j < version_numbers(promised).len() && j < version_numbers(actual).len()
            ==> version_numbers(actual)[j] == version_numbers(promised)[j],
    ensures
        version_numbers(actual).len() > version_numbers(promised).len() ==> judge_spec(promised, actual) is None,
        version_numbers(actual).len() < version_numbers(promised).len() ==> judge_spec(promised, actual) == Some((promised, actual)),
{
    let a = version_numbers(actual);
    let p = version_numbers(promised);
    let n = if a.len() < p.len() { a.len() } else { p.len() };
    lemma_lex_gt_at(a, p, n as int);
    if a.len() > p.len() {
        assert(p.skip(n as int).len() == 0);
        assert(a.skip(n as int).len() > 0);
    } else {
        assert(a.skip(n as int).len() == 0);
        assert(p.skip(n as int).len() > 0);
    }
}

/// The same text is never an anomaly. Different texts whose version numbers are the
/// same, or where either text reads as no number at all, are not newer: a downgrade.
pub proof fn lemma_judge_not_newer(promised: Seq<char>, actual: Seq<char>)
    ensures
        promised == actual ==> judge_spec(promised, actual) is None,
        promised != actual && (version_numbers(promised).len() == 0 || version_numbers(actual).len() == 0)
            ==> judge_spec(promised, actual) == Some((promised, actual)),
        promised != actual && version_numbers(promised) == version_numbers(actual)
            ==> judge_spec(promised, actual) == Some((promised, actual)),
{
    let p = version_numbers(promised);
    if p == version_numbers(actual) {
        lemma_lex_gt_at(p, p, p.len() as int);
    }
}

} // verus!
