//! Where manifests live and how they are named: each lands in a visible `steadcopy`
//! folder inside the directory it describes, under a name made of the task's time and
//! the source card, so that runs into one directory never overwrite each other.
//! Reading and writing the files is the application's part; the decisions are here.

use vstd::prelude::*;
use crate::manifest::model::{Manifest, MANIFEST_FORMAT_VERSION};
use crate::organize::{is_sep, segments, split_segments};
use crate::text::{dec, dec_pad, push_char, push_dec, push_dec_pad, push_str};

verus! {


/// Whether `c` is an ASCII digit.
pub open spec fn is_digit(c: char) -> bool {
    48 <= c as u32 <= 57
}

/// The fraction of a second as `time` writes it in RFC 3339: nothing (a whole
/// second), or a point and one to nine digits without trailing zeros.
pub open spec fn subsecond_ok(f: Seq<char>) -> bool {
    f.len() == 0 || {
        &&& 2 <= f.len() <= 10
        &&& f[0] == '.'
        &&& forall|k: int| 1 <= k < f.len() ==> is_digit(#[trigger] f[k])
        &&& f.last() != '0'
    }
}

/// The offset as `time` writes it in RFC 3339: `Z` for UTC, else a sign and `hh:mm`.
pub open spec fn offset_ok(o: Seq<char>) -> bool {
    ||| o == seq!['Z']
    ||| {
        &&& o.len() == 6
        &&& (o[0] == '+' || o[0] == '-')
        &&& is_digit(o[1]) && is_digit(o[2]) && o[3] == ':' && is_digit(o[4]) && is_digit(o[5])
    }
}

/// RFC 3339 text of a date and clock reading, a fraction of a second and an offset:
/// `YYYY-MM-DDThh:mm:ss`, then the fraction, then the offset.
pub open spec fn rfc3339_text(p: DateParts, f: Seq<char>, o: Seq<char>) -> Seq<char> {
    dec_pad(p.year as nat, 4) + seq!['-'] + two(p.month as int) + seq!['-'] + two(p.day as int) + seq!['T']
        + two(p.hour as int) + seq![':'] + two(p.minute as int) + seq![':'] + two(p.second as int) + f + o
}

/// Year, month, day, hour, minute and second of the instant `unix_seconds` after the
/// Unix epoch, read in the UTC offset of `offset_seconds`, as the `time` crate computes
/// them; `None` where the crate cannot build that moment.
pub uninterp spec fn civil_of(unix_seconds: i64, offset_seconds: i32) -> Option<(i32, u8, u8, u8, u8, u8)>;

/// RFC 3339 text of the instant `unix_seconds` after the Unix epoch plus `nanosecond`
/// nanoseconds, read in the UTC offset of `offset_seconds`, as the `time` crate writes
/// it; `None` where it refuses.
pub uninterp spec fn rfc3339_of(unix_seconds: i64, nanosecond: u32, offset_seconds: i32) -> Option<Seq<char>>;

/// The calendar reading of a moment: `time::UtcOffset::from_whole_seconds`, then
/// `time::OffsetDateTime::from_unix_timestamp` moved to that offset with
/// `checked_to_offset`, read with `to_calendar_date` (the month as its number) and
/// `to_hms`; `None` where one of them refuses. The documentation keeps the month in
/// 1..=12, the day in 1..=31, the hour below 24 and the minute and second below 60.
#[verifier::external_body]
fn civil_at(unix_seconds: i64, offset_seconds: i32) -> (r: Option<(i32, u8, u8, u8, u8, u8)>)
    ensures
        r == civil_of(unix_seconds, offset_seconds),
        r matches Some(c) ==> 1 <= c.1 <= 12 && 1 <= c.2 <= 31 && c.3 < 24 && c.4 < 60 && c.5 < 60,
{
    let offset = time::UtcOffset::from_whole_seconds(offset_seconds).ok()?;
    let t = time::OffsetDateTime::from_unix_timestamp(unix_seconds).ok()?.checked_to_offset(offset)?;
    let (year, month, day) = t.to_calendar_date();
    let (hour, minute, second) = t.to_hms();
    Some((year, u8::from(month), day, hour, minute, second))
}

/// The date and clock reading of a calendar tuple.
pub open spec fn parts_from(c: (i32, u8, u8, u8, u8, u8)) -> DateParts {
    DateParts { year: c.0, month: c.1, day: c.2, hour: c.3, minute: c.4, second: c.5 }
}

/// RFC 3339 text of a moment: the moment built as `civil_at` builds it, its nanosecond
/// set with `replace_nanosecond`, then `format` with the `Rfc3339` description; `None`
/// where one of them refuses. The crate's source writes the calendar reading in
/// `YYYY-MM-DDThh:mm:ss` (the year only from 0 to 9999), then a point and the
/// nanoseconds without trailing zeros unless they are zero, then `Z` for a zero offset
/// and `±hh:mm` for any other.
#[verifier::external_body]
fn rfc3339_at(unix_seconds: i64, nanosecond: u32, offset_seconds: i32) -> (r: Option<String>)
    ensures
        match r {
            Some(s) => rfc3339_of(unix_seconds, nanosecond, offset_seconds) == Some(s@),
            None => rfc3339_of(unix_seconds, nanosecond, offset_seconds) is None,
        },
        r matches Some(s) ==> civil_of(unix_seconds, offset_seconds) matches Some(c) && 0 <= c.0 <= 9999
            && exists|f: Seq<char>, o: Seq<char>| #[trigger] rfc3339_text(parts_from(c), f, o) == s@
                && subsecond_ok(f) && offset_ok(o) && (f.len() == 0 <==> nanosecond == 0)
                && (o == seq!['Z'] <==> offset_seconds == 0),
{
    let offset = time::UtcOffset::from_whole_seconds(offset_seconds).ok()?;
    let t = time::OffsetDateTime::from_unix_timestamp(unix_seconds).ok()?;
    let t = t.replace_nanosecond(nanosecond).ok()?.checked_to_offset(offset)?;
    t.format(&time::format_description::well_known::Rfc3339).ok()
}

/// A point in time, read in a UTC offset: whole seconds since the Unix epoch, the
/// nanoseconds past that second, and the offset in seconds east of UTC. Every moment
/// has a calendar reading.
#[derive(Debug, Clone, Copy, PartialEq, Eq, Structural)]
pub struct Moment {
    pub(crate) unix_seconds: i64,
    pub(crate) nanosecond: u32,
    pub(crate) offset_seconds: i32,
}

/// Whether the parts make a moment: the nanoseconds lie within a second and the
/// instant has a calendar reading in its offset.
pub open spec fn moment_ok(unix_seconds: i64, nanosecond: u32, offset_seconds: i32) -> bool {
    nanosecond < 1_000_000_000 && civil_of(unix_seconds, offset_seconds) is Some
}

impl Moment {
    #[verifier::type_invariant]
    spec fn readable(self) -> bool {
        moment_ok(self.unix_seconds, self.nanosecond, self.offset_seconds)
    }

    /// Seconds since the Unix epoch.
    pub closed spec fn unix_spec(self) -> i64 {
        self.unix_seconds
    }

    /// Nanoseconds past the second.
    pub closed spec fn nanosecond_spec(self) -> u32 {
        self.nanosecond
    }

    /// The offset in seconds east of UTC.
    pub closed spec fn offset_spec(self) -> i32 {
        self.offset_seconds
    }

    /// A moment from its parts, where they make one.
    pub fn from_parts(unix_seconds: i64, nanosecond: u32, offset_seconds: i32) -> (r: Option<Moment>)
        ensures
            r is Some <==> moment_ok(unix_seconds, nanosecond, offset_seconds),
            r matches Some(m) ==> m.unix_spec() == unix_seconds && m.nanosecond_spec() == nanosecond
                && m.offset_spec() == offset_seconds,
    {
        if nanosecond >= 1_000_000_000 {
            return None;
        }
        match civil_at(unix_seconds, offset_seconds) {
            Some(_) => Some(Moment { unix_seconds, nanosecond, offset_seconds }),
            None => None,
        }
    }

    /// Seconds since the Unix epoch.
    pub fn unix_seconds(&self) -> (r: i64)
        ensures
            r == self.unix_spec(),
    {
        self.unix_seconds
    }

    /// Nanoseconds past the second.
    pub fn nanosecond(&self) -> (r: u32)
        ensures
            r == self.nanosecond_spec(),
    {
        self.nanosecond
    }

    /// The offset in seconds east of UTC.
    pub fn offset_seconds(&self) -> (r: i32)
        ensures
            r == self.offset_spec(),
    {
        self.offset_seconds
    }
}

/// The date and clock reading of a moment, in its own offset.
pub open spec fn parts_of(m: Moment) -> DateParts {
    parts_from(civil_of(m.unix_spec(), m.offset_spec())->Some_0)
}

/// What `format_time` writes for a moment.
pub open spec fn time_text(m: Moment) -> Seq<char> {
    match rfc3339_of(m.unix_spec(), m.nanosecond_spec(), m.offset_spec()) {
        Some(s) => s,
        None => "-"@,
    }
}

/// A moment in RFC 3339 (for reports and records), or `-` where the `time` crate
/// cannot write it so (a year outside 0..=9999, an offset with seconds or of a day or
/// more). The text reads the moment's own calendar date and clock.
pub fn format_time(at: &Moment) -> (r: String)
    ensures
        r@ == time_text(*at),
        r@ == "-"@ || exists|f: Seq<char>, o: Seq<char>| #[trigger] rfc3339_text(parts_of(*at), f, o) == r@
            && subsecond_ok(f) && offset_ok(o) && (f.len() == 0 <==> at.nanosecond_spec() == 0)
            && (o == seq!['Z'] <==> at.offset_spec() == 0),
{
    match rfc3339_at(at.unix_seconds, at.nanosecond, at.offset_seconds) {
        Some(s) => {
            proof {
                let c = civil_of(at.unix_seconds, at.offset_seconds)->Some_0;
                let (f, o) = choose|f: Seq<char>, o: Seq<char>| #[trigger] rfc3339_text(parts_from(c), f, o) == s@
                    && subsecond_ok(f) && offset_ok(o) && (f.len() == 0 <==> at.nanosecond == 0)
                    && (o == seq!['Z'] <==> at.offset_seconds == 0);
                assert(parts_of(*at) == parts_from(c));
                assert(rfc3339_text(parts_of(*at), f, o) == s@);
            }
            s
        },
        None => {
            proof {
                reveal_strlit("-");
            }
            crate::text::owned("-")
        },
    }
}

/// The folder, inside a landing directory, that holds the manifests.
pub const MANIFEST_DIR: &'static str = "steadcopy";

/// The landing directory's manifest folder: [`MANIFEST_DIR`] joined under it with `/`
/// (none added after a separator already there, and the folder alone under an empty
/// directory).
pub open spec fn manifest_dir_text(landing: Seq<char>) -> Seq<char> {
    if landing.len() == 0 {
        MANIFEST_DIR@
    } else if is_sep(landing.last()) {
        landing + MANIFEST_DIR@
    } else {
        landing + seq!['/'] + MANIFEST_DIR@
    }
}

/// The landing directory's manifest folder.
pub fn manifest_dir(landing_dir: &str) -> (r: String)
    ensures
        r@ == manifest_dir_text(landing_dir@),
{
    let v = crate::text::chars_of(landing_dir);
    let mut s = crate::text::owned(landing_dir);
    if v.len() > 0 && v[v.len() - 1] != '/' && v[v.len() - 1] != '\\' {
        push_char(&mut s, '/');
    }
    push_str(&mut s, MANIFEST_DIR);
    proof {
        assert(s@ =~= manifest_dir_text(landing_dir@));
    }
    s
}

/// Whether the components of `path` (its parts between separators) begin with those of
/// `dir`.
pub open spec fn path_within(dir: Seq<char>, path: Seq<char>) -> bool {
    &&& segments(dir).len() <= segments(path).len()
    &&& forall|k: int| 0 <= k < segments(dir).len() ==> #[trigger] segments(dir)[k] == segments(path)[k]
}

/// Whether a path lies in the landing directory's manifest folder, component by
/// component. An audit of the landing directory leaves these files out, so that the
/// manifests never count as added files.
pub fn is_manifest_path(landing_dir: &str, path: &str) -> (r: bool)
    ensures
        r == path_within(manifest_dir_text(landing_dir@), path@),
{
    let dir = manifest_dir(landing_dir);
    let a = split_segments(dir.as_str());
    let b = split_segments(path);
    if a.len() > b.len() {
        return false;
    }
    let mut i: usize = 0;
    while i < a.len()
        invariant
            dir@ == manifest_dir_text(landing_dir@),
            a@.len() <= b@.len(),
            a@.len() == segments(dir@).len(),
            b@.len() == segments(path@).len(),
            forall|k: int| 0 <= k < a@.len() ==> #[trigger] a@[k]@ == segments(dir@)[k],
            forall|k: int| 0 <= k < b@.len() ==> #[trigger] b@[k]@ == segments(path@)[k],
            i <= a@.len(),
            forall|k: int| 0 <= k < i ==> #[trigger] segments(dir@)[k] == segments(path@)[k],
        decreases a@.len() - i,
    {
        if !crate::text::str_eq(a[i].as_str(), b[i].as_str()) {
            proof {
                assert(a@[i as int]@ == segments(dir@)[i as int]);
                assert(b@[i as int]@ == segments(path@)[i as int]);
            }
            return false;
        }
        proof {
            assert(a@[i as int]@ == segments(dir@)[i as int]);
            assert(b@[i as int]@ == segments(path@)[i as int]);
        }
        i = i + 1;
    }
    true
}

/// A calendar date and clock time, as read from a moment in its own offset.
#[derive(Debug, Clone, Copy, PartialEq, Eq, Structural)]
pub struct DateParts {
    pub year: i32,
    pub month: u8,
    pub day: u8,
    pub hour: u8,
    pub minute: u8,
    pub second: u8,
}

/// The ranges every date and clock reading keeps.
pub open spec fn parts_in_range(p: DateParts) -> bool {
    &&& 1 <= p.month <= 12
    &&& 1 <= p.day <= 31
    &&& p.hour < 24
    &&& p.minute < 60
    &&& p.second < 60
}

/// The date and clock reading of a moment, in its own offset.
pub fn date_parts(t: &Moment) -> (r: DateParts)
    ensures
        r == parts_of(*t),
        parts_in_range(r),
{
    proof {
        use_type_invariant(t);
    }
    match civil_at(t.unix_seconds, t.offset_seconds) {
        Some(c) => DateParts { year: c.0, month: c.1, day: c.2, hour: c.3, minute: c.4, second: c.5 },
        None => {
            proof {
                assert(false);
            }
            DateParts { year: 0, month: 1, day: 1, hour: 0, minute: 0, second: 0 }
        },
    }
}

/// A year as `{:04}` writes it: four digits, the sign counted in the width.
pub open spec fn year_text(y: int) -> Seq<char> {
    if y >= 0 {
        dec_pad(y as nat, 4)
    } else {
        seq!['-'] + dec_pad((-y) as nat, 3)
    }
}

/// A two-digit field.
pub open spec fn two(n: int) -> Seq<char> {
    dec_pad(n as nat, 2)
}

/// The time for people: `2026-08-08 09:30:00`.
pub open spec fn human_time(p: DateParts) -> Seq<char> {
    year_text(p.year as int) + seq!['-'] + two(p.month as int) + seq!['-'] + two(p.day as int)
        + seq![' '] + two(p.hour as int) + seq![':'] + two(p.minute as int) + seq![':'] + two(p.second as int)
}

/// The time in a file name: `20260808-093000`.
pub open spec fn slug_text(p: DateParts) -> Seq<char> {
    year_text(p.year as int) + two(p.month as int) + two(p.day as int) + seq!['-'] + two(p.hour as int)
        + two(p.minute as int) + two(p.second as int)
}

fn push_year(s: &mut String, y: i32)
    ensures
        final(s)@ == old(s)@ + year_text(y as int),
{
    if y >= 0 {
        push_dec_pad(s, y as u64, 4);
    } else {
        let ghost before = s@;
        push_char(s, '-');
        let a: i64 = y as i64;
        push_dec_pad(s, (0 - a) as u64, 3);
        proof {
            assert(s@ =~= before + year_text(y as int));
        }
    }
}

/// Appends a date and clock reading for people.
pub fn push_human_time(s: &mut String, p: DateParts)
    ensures
        final(s)@ == old(s)@ + human_time(p),
{
    let ghost before = s@;
    push_year(s, p.year);
    push_char(s, '-');
    push_dec_pad(s, p.month as u64, 2);
    push_char(s, '-');
    push_dec_pad(s, p.day as u64, 2);
    push_char(s, ' ');
    push_dec_pad(s, p.hour as u64, 2);
    push_char(s, ':');
    push_dec_pad(s, p.minute as u64, 2);
    push_char(s, ':');
    push_dec_pad(s, p.second as u64, 2);
    proof {
        assert(s@ =~= before + human_time(p));
    }
}

/// A moment for people, in its own offset: `2026-08-08 09:30:00`.
pub fn format_time_human(at: &Moment) -> (r: String)
    ensures
        r@ == human_time(parts_of(*at)),
{
    let p = date_parts(at);
    let mut s = String::new();
    push_human_time(&mut s, p);
    proof {
        assert(s@ =~= human_time(p));
    }
    s
}

/// The time part of a manifest's name.
pub fn timestamp_slug(p: DateParts) -> (r: String)
    ensures
        r@ == slug_text(p),
{
    let mut s = String::new();
    push_year(&mut s, p.year);
    push_dec_pad(&mut s, p.month as u64, 2);
    push_dec_pad(&mut s, p.day as u64, 2);
    push_char(&mut s, '-');
    push_dec_pad(&mut s, p.hour as u64, 2);
    push_dec_pad(&mut s, p.minute as u64, 2);
    push_dec_pad(&mut s, p.second as u64, 2);
    proof {
        assert(s@ =~= slug_text(p));
    }
    s
}

/// An ASCII letter or digit.
pub open spec fn is_ascii_alnum(c: char) -> bool {
    ('0' <= c && c <= '9') || ('a' <= c && c <= 'z') || ('A' <= c && c <= 'Z')
}

/// The ASCII letters and digits of a text, in order.
pub open spec fn alnum_only(s: Seq<char>) -> Seq<char>
    decreases s.len(),
{
    if s.len() == 0 {
        Seq::empty()
    } else if is_ascii_alnum(s.last()) {
        alnum_only(s.drop_last()).push(s.last())
    } else {
        alnum_only(s.drop_last())
    }
}

/// At most the first eight characters.
pub open spec fn first_eight(s: Seq<char>) -> Seq<char> {
    if s.len() <= 8 { s } else { s.take(8) }
}

/// The card's part of a manifest name: the first eight ASCII letters and digits of
/// its identifier, or `src` when there are none.
pub open spec fn source_tag(id: Seq<char>) -> Seq<char> {
    let t = first_eight(alnum_only(id));
    if t.len() == 0 { "src"@ } else { t }
}

fn source_tag_of(id: &str) -> (r: String)
    ensures
        r@ == source_tag(id@),
{
    let v = crate::text::chars_of(id);
    let mut out = String::new();
    let mut n: usize = 0;
    let mut i: usize = 0;
    while i < v.len()
        invariant
            i <= v@.len(),
            v@ == id@,
            out@ == first_eight(alnum_only(v@.take(i as int))),
            n == out@.len(),
            n <= 8,
        decreases v@.len() - i,
    {
        let c = v[i];
        proof {
            assert(v@.take(i + 1).drop_last() =~= v@.take(i as int));
            assert(v@.take(i + 1).last() == c);
        }
        if ('0' <= c && c <= '9') || ('a' <= c && c <= 'z') || ('A' <= c && c <= 'Z') {
            let ghost f = alnum_only(v@.take(i as int));
            if n < 8 {
                push_char(&mut out, c);
                n = n + 1;
                proof {
                    assert(f.len() < 8);
                    assert(out@ =~= first_eight(f.push(c)));
                }
            } else {
                proof {
                    assert(f.len() >= 8);
                    assert(f.push(c).take(8) =~= f.take(8));
                }
            }
        }
        i = i + 1;
    }
    proof {
        assert(v@.take(v@.len() as int) =~= v@);
    }
    if n == 0 {
        proof {
            reveal_strlit("src");
        }
        crate::text::owned("src")
    } else {
        out
    }
}

/// The name of a manifest file without its extension: the task's time, then the
/// card's tag (`20260808-140509-volguida`).
pub fn manifest_stem_at(manifest: &Manifest, created: DateParts) -> (r: String)
    ensures
        r@ == slug_text(created) + seq!['-'] + source_tag(manifest.source.id@),
{
    let mut s = timestamp_slug(created);
    push_char(&mut s, '-');
    let tag = source_tag_of(manifest.source.id.as_str());
    push_str(&mut s, tag.as_str());
    s
}

/// The name of a manifest file without its extension, from its creation time.
pub fn manifest_stem(manifest: &Manifest) -> (r: String)
    ensures
        r@ == slug_text(parts_of(manifest.created_at)) + seq!['-'] + source_tag(manifest.source.id@),
{
    let p = date_parts(&manifest.created_at);
    manifest_stem_at(manifest, p)
}

/// What went wrong reading one manifest. Every problem is reported: a manifest that
/// cannot be read is never taken for an empty one.
#[derive(Debug, Clone, PartialEq, Eq)]
pub enum ManifestReadIssue {
    /// The file could not be read.
    Unreadable(String),
    /// The content is not a valid manifest (broken or cut short).
    Malformed(String),
    /// A newer program wrote it.
    FutureVersion { found: u32, supported: u32 },
}

/// The text that describes a read problem.
pub open spec fn read_issue_text(i: ManifestReadIssue) -> Seq<char> {
    match i {
        ManifestReadIssue::Unreadable(e) => "清单文件读取失败："@ + e@,
        ManifestReadIssue::Malformed(e) => "清单文件内容损坏或不完整："@ + e@,
        ManifestReadIssue::FutureVersion { found, supported } => "清单由更新版本的程序生成（格式版本 "@
            + dec(found as nat) + "，本程序支持到 "@ + dec(supported as nat) + "），请升级后再读"@,
    }
}

impl ManifestReadIssue {
    /// The problem in words, for the user.
    pub fn describe(&self) -> (r: String)
        ensures
            r@ == read_issue_text(*self),
    {
        let mut s = String::new();
        match self {
            ManifestReadIssue::Unreadable(e) => {
                push_str(&mut s, "清单文件读取失败：");
                push_str(&mut s, e.as_str());
            },
            ManifestReadIssue::Malformed(e) => {
                push_str(&mut s, "清单文件内容损坏或不完整：");
                push_str(&mut s, e.as_str());
            },
            ManifestReadIssue::FutureVersion { found, supported } => {
                push_str(&mut s, "清单由更新版本的程序生成（格式版本 ");
                push_dec(&mut s, *found as u64);
                push_str(&mut s, "，本程序支持到 ");
                push_dec(&mut s, *supported as u64);
                push_str(&mut s, "），请升级后再读");
            },
        }
        proof {
            assert(s@ =~= read_issue_text(*self));
        }
        s
    }
}

/// The version check made before a manifest is parsed in full: one written by a
/// newer format is refused rather than forced into the current structure.
pub fn check_format_version(found: u32) -> (r: Result<(), ManifestReadIssue>)
    ensures
        r is Ok <==> found <= MANIFEST_FORMAT_VERSION,
        r is Err ==> r == Err::<(), ManifestReadIssue>(ManifestReadIssue::FutureVersion { found, supported: MANIFEST_FORMAT_VERSION }),
{
    if found > MANIFEST_FORMAT_VERSION {
        Err(ManifestReadIssue::FutureVersion { found, supported: MANIFEST_FORMAT_VERSION })
    } else {
        Ok(())
    }
}

} // verus!
