//! The MHL v1 form of a manifest: the Media Hash List that other copy and grading
//! tools read, so the user's proof is not locked into this program's JSON. The JSON
//! manifest is the authority; the MHL carries the same files, sizes and hashes.

use vstd::prelude::*;
use crate::engine::hasher::{hash_hex, HashAlgorithm};
use crate::manifest::model::{Manifest, ManifestEntry};
use crate::manifest::store::time_text;
use crate::text::{dec, markup_escape, push_dec, push_escaped, push_str};

verus! {

/// The hash element's name for an algorithm (MHL writes xxHash64 big-endian).
pub open spec fn mhl_tag(a: HashAlgorithm) -> Seq<char> {
    match a {
        HashAlgorithm::Xxh64 => "xxhash64be"@,
        HashAlgorithm::Md5 => "md5"@,
    }
}

fn algo_tag(a: HashAlgorithm) -> (r: &'static str)
    ensures
        r@ == mhl_tag(a),
{
    match a {
        HashAlgorithm::Xxh64 => "xxhash64be",
        HashAlgorithm::Md5 => "md5",
    }
}

/// Text escaped for XML (the apostrophe too).
pub open spec fn xesc(s: Seq<char>) -> Seq<char> {
    markup_escape(s, true)
}

/// The declaration and who made the list, when: the card's name, the task's time
/// (as start and finish), the program, and the project as location.
pub open spec fn mhl_head(m: Manifest, created: Seq<char>) -> Seq<char> {
    "<?xml version=\"1.0\" encoding=\"UTF-8\"?>\n<hashlist version=\"1.1\">\n"@ + "  <creatorinfo>\n"@
        + "    <name>"@ + xesc(m.source.display_name@) + "</name>\n"@
        + "    <startdate>"@ + created + "</startdate>\n"@
        + "    <finishdate>"@ + created + "</finishdate>\n"@
        + "    <tool>"@ + xesc(m.generator.name@) + " "@ + xesc(m.generator.version@) + "</tool>\n"@
        + "    <location>"@ + xesc(m.project@) + "</location>\n"@ + "  </creatorinfo>\n"@
}

/// One file's record, with its modification time when known and its hash time.
pub open spec fn mhl_entry(e: ManifestEntry, tag: Seq<char>, modified: Option<String>, hashed: Seq<char>) -> Seq<char> {
    "  <hash>\n"@ + "    <file>"@ + xesc(e.relative_path@) + "</file>\n"@
        + "    <size>"@ + dec(e.size as nat) + "</size>\n"@
        + (match modified {
            Some(t) => "    <lastmodificationdate>"@ + t@ + "</lastmodificationdate>\n"@,
            None => Seq::empty(),
        })
        + "    <"@ + tag + ">"@ + hash_hex(e.source_hash) + "</"@ + tag + ">\n"@
        + "    <hashdate>"@ + hashed + "</hashdate>\n"@ + "  </hash>\n"@
}

/// The records of the first `n` files, with their times.
pub open spec fn mhl_entries(es: Seq<ManifestEntry>, tag: Seq<char>, times: Seq<(Option<String>, String)>, n: int) -> Seq<char>
    decreases n,
{
    if n <= 0 {
        Seq::empty()
    } else {
        mhl_entries(es, tag, times, n - 1) + mhl_entry(es[n - 1], tag, times[n - 1].0, times[n - 1].1@)
    }
}

/// The whole list, given the task's time and each file's times as text.
pub open spec fn mhl_text(m: Manifest, created: Seq<char>, times: Seq<(Option<String>, String)>) -> Seq<char> {
    mhl_head(m, created) + mhl_entries(m.entries@, mhl_tag(m.algorithm), times, m.entries@.len() as int)
        + "</hashlist>\n"@
}

/// The MHL text for a manifest, given its time and each file's times as text.
pub fn render_mhl_with(m: &Manifest, created: &str, times: &[(Option<String>, String)]) -> (r: String)
    requires
        times@.len() == m.entries@.len(),
    ensures
        r@ == mhl_text(*m, created@, times@),
{
    let mut x = String::new();
    push_str(&mut x, "<?xml version=\"1.0\" encoding=\"UTF-8\"?>\n<hashlist version=\"1.1\">\n");
    push_str(&mut x, "  <creatorinfo>\n");
    push_str(&mut x, "    <name>");
    push_escaped(&mut x, m.source.display_name.as_str(), true);
    push_str(&mut x, "</name>\n");
    push_str(&mut x, "    <startdate>");
    push_str(&mut x, created);
    push_str(&mut x, "</startdate>\n");
    push_str(&mut x, "    <finishdate>");
    push_str(&mut x, created);
    push_str(&mut x, "</finishdate>\n");
    push_str(&mut x, "    <tool>");
    push_escaped(&mut x, m.generator.name.as_str(), true);
    push_str(&mut x, " ");
    push_escaped(&mut x, m.generator.version.as_str(), true);
    push_str(&mut x, "</tool>\n");
    push_str(&mut x, "    <location>");
    push_escaped(&mut x, m.project.as_str(), true);
    push_str(&mut x, "</location>\n");
    push_str(&mut x, "  </creatorinfo>\n");
    proof {
        assert(x@ =~= mhl_head(*m, created@));
    }
    let tag = algo_tag(m.algorithm);
    let mut i: usize = 0;
    while i < m.entries.len()
        invariant
            i <= m.entries@.len(),
            times@.len() == m.entries@.len(),
            tag@ == mhl_tag(m.algorithm),
            x@ == mhl_head(*m, created@) + mhl_entries(m.entries@, tag@, times@, i as int),
        decreases m.entries@.len() - i,
    {
        push_entry(&mut x, &m.entries[i], tag, &times[i].0, times[i].1.as_str());
        i = i + 1;
    }
    push_str(&mut x, "</hashlist>\n");
    x
}

fn push_entry(x: &mut String, e: &ManifestEntry, tag: &str, modified: &Option<String>, hashed: &str)
    ensures
        final(x)@ == old(x)@ + mhl_entry(*e, tag@, *modified, hashed@),
{
    let ghost before = x@;
    push_str(x, "  <hash>\n");
    push_str(x, "    <file>");
    push_escaped(x, e.relative_path.as_str(), true);
    push_str(x, "</file>\n");
    push_str(x, "    <size>");
    push_dec(x, e.size);
    push_str(x, "</size>\n");
    let ghost mid = x@;
    match modified {
        Some(t) => {
            push_str(x, "    <lastmodificationdate>");
            push_str(x, t.as_str());
            push_str(x, "</lastmodificationdate>\n");
        },
        None => {},
    }
    let ghost mid2 = x@;
    push_str(x, "    <");
    push_str(x, tag);
    push_str(x, ">");
    let hx = e.source_hash.to_hex();
    push_str(x, hx.as_str());
    push_str(x, "</");
    push_str(x, tag);
    push_str(x, ">\n");
    push_str(x, "    <hashdate>");
    push_str(x, hashed);
    push_str(x, "</hashdate>\n");
    push_str(x, "  </hash>\n");
    proof {
        assert(x@ =~= before + mhl_entry(*e, tag@, *modified, hashed@));
    }
}

/// Whether `t` holds the texts of one file's times: its modification time where it
/// has one, and the time its hash was taken.
pub open spec fn entry_times(e: ManifestEntry, t: (Option<String>, String)) -> bool {
    &&& t.1@ == time_text(e.completed_at)
    &&& match e.source_modified_at {
        Some(at) => t.0 matches Some(x) && x@ == time_text(at),
        None => t.0 is None,
    }
}

/// The MHL v1 text of a manifest, its times written in RFC 3339 (`-` where the `time`
/// crate cannot).
pub fn render_mhl(m: &Manifest) -> (r: String)
    ensures
        exists|ts: Seq<(Option<String>, String)>|
            ts.len() == m.entries@.len()
            && (forall|i: int| 0 <= i < ts.len() ==> entry_times(m.entries@[i], #[trigger] ts[i]))
            && r@ == mhl_text(*m, time_text(m.created_at), ts),
{
    let created = crate::manifest::store::format_time(&m.created_at);
    let mut times: Vec<(Option<String>, String)> = Vec::new();
    let mut i: usize = 0;
    while i < m.entries.len()
        invariant
            i <= m.entries@.len(),
            times@.len() == i,
            forall|k: int| 0 <= k < i ==> entry_times(m.entries@[k], #[trigger] times@[k]),
        decreases m.entries@.len() - i,
    {
        let e = &m.entries[i];
        let modified = match &e.source_modified_at {
            Some(t) => Some(crate::manifest::store::format_time(t)),
            None => None,
        };
        let hashed = crate::manifest::store::format_time(&e.completed_at);
        times.push((modified, hashed));
        i = i + 1;
    }
    let r = render_mhl_with(m, created.as_str(), times.as_slice());
    proof {
        assert(times@.len() == m.entries@.len());
    }
    r
}

} // verus!
