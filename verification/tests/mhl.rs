use steadcopy::engine::hasher::{hash_bytes, HashAlgorithm};
use steadcopy::manifest::mhl::{render_mhl, render_mhl_with};
use steadcopy::manifest::model::{Manifest, ManifestEntry, SourceRef, VerifyState};
use steadcopy::manifest::store::Moment;

fn to_moment(t: time::OffsetDateTime) -> Moment {
    Moment::from_parts(t.unix_timestamp(), t.nanosecond(), t.offset().whole_seconds()).expect("moment")
}

fn at() -> Moment {
    to_moment(time::Date::from_calendar_date(2026, time::Month::August, 10)
        .unwrap()
        .with_hms(9, 30, 0)
        .unwrap()
        .assume_utc())
}

fn manifest(algo: HashAlgorithm) -> Manifest {
    let t = at();
    let mut m = Manifest::new(
        SourceRef { id: "vol-1".into(), display_name: "A7M4主卡".into() },
        "婚礼<张先生>",
        r"D:\素材",
        algo,
        t,
    );
    for name in ["DCIM/A001.MP4", "DCIM/A001.XML"] {
        let h = hash_bytes(algo, name.as_bytes());
        m.entries.push(ManifestEntry {
            relative_path: name.into(),
            size: 1234,
            source_hash: h,
            verify: VerifyState::Verified { destination_hash: h },
            source_modified_at: Some(t),
            completed_at: t,
            retries: 0,
        });
    }
    m
}

/// Walks the elements of a small XML text: checks that every tag closes in order and
/// counts the `hash` elements. Returns `None` when the structure is broken.
fn xml_hash_elements(xml: &str) -> Option<usize> {
    let body = xml.strip_prefix("<?xml version=\"1.0\" encoding=\"UTF-8\"?>")?;
    let mut stack: Vec<String> = Vec::new();
    let mut hashes = 0;
    let mut rest = body;
    while let Some(open) = rest.find('<') {
        let text = &rest[..open];
        if text.contains('>') {
            return None;
        }
        let after = &rest[open + 1..];
        let close = after.find('>')?;
        let tag = &after[..close];
        if tag.contains('<') {
            return None;
        }
        if let Some(name) = tag.strip_prefix('/') {
            if stack.pop()? != name {
                return None;
            }
        } else {
            let name = tag.split_whitespace().next()?.to_string();
            if name == "hash" {
                hashes += 1;
            }
            stack.push(name);
        }
        rest = &after[close + 1..];
    }
    if rest.contains('>') || !stack.is_empty() {
        return None;
    }
    Some(hashes)
}

#[test]
fn scenario_verify_manifest_mhl_is_well_formed_xml() {
    let xml = render_mhl(&manifest(HashAlgorithm::Xxh64));
    assert!(xml.starts_with("<?xml version=\"1.0\" encoding=\"UTF-8\"?>"));
    assert!(xml.contains("<hashlist"));
    assert!(xml.trim_end().ends_with("</hashlist>"));
    assert_eq!(xml_hash_elements(&xml), Some(2), "标签应全部闭合，两个文件应产生两条 hash 记录");
}

#[test]
fn scenario_verify_manifest_mhl_matches_json_content() {
    let m = manifest(HashAlgorithm::Xxh64);
    let xml = render_mhl(&m);
    for e in &m.entries {
        assert!(xml.contains(&e.relative_path), "缺文件 {}", e.relative_path);
        assert!(xml.contains(&e.source_hash.to_hex()), "缺哈希 {}", e.source_hash.to_hex());
        assert!(xml.contains(&e.size.to_string()));
    }
}

#[test]
fn scenario_verify_manifest_mhl_algorithm_tag() {
    assert!(render_mhl(&manifest(HashAlgorithm::Xxh64)).contains("<xxhash64be>"));
    assert!(render_mhl(&manifest(HashAlgorithm::Md5)).contains("<md5>"));
}

#[test]
fn scenario_verify_manifest_mhl_escapes_user_content() {
    let xml = render_mhl(&manifest(HashAlgorithm::Xxh64));
    assert!(xml.contains("婚礼&lt;张先生&gt;"));
    assert!(!xml.contains("婚礼<张先生>"));
    assert!(xml_hash_elements(&xml).is_some(), "转义后 XML 应仍合法");
}

#[test]
fn scenario_verify_manifest_mhl_empty_manifest() {
    let mut m = manifest(HashAlgorithm::Xxh64);
    m.entries.clear();
    let xml = render_mhl(&m);
    assert!(xml.contains("<hashlist") && xml.contains("</hashlist>"));
    assert!(!xml.contains("<hash>"));
}

#[test]
fn mhl_dates_are_rfc3339() {
    let xml = render_mhl(&manifest(HashAlgorithm::Md5));
    assert!(xml.contains("<startdate>2026-08-10T09:30:00Z</startdate>"));
    assert!(xml.contains("<lastmodificationdate>2026-08-10T09:30:00Z</lastmodificationdate>"));
    assert!(xml.contains("<hashdate>2026-08-10T09:30:00Z</hashdate>"));
}

#[test]
fn mhl_with_given_times_is_exact() {
    let mut m = manifest(HashAlgorithm::Xxh64);
    m.entries.truncate(1);
    m.entries[0].source_modified_at = None;
    m.source.display_name = "卡'1'".into();
    let times = vec![(None, "T1".to_string())];
    let xml = render_mhl_with(&m, "T0", &times);
    let hx = m.entries[0].source_hash.to_hex();
    let expected = format!(
        "<?xml version=\"1.0\" encoding=\"UTF-8\"?>\n<hashlist version=\"1.1\">\n  <creatorinfo>\n    <name>卡&apos;1&apos;</name>\n    <startdate>T0</startdate>\n    <finishdate>T0</finishdate>\n    <tool>steadcopy 0.1.0</tool>\n    <location>婚礼&lt;张先生&gt;</location>\n  </creatorinfo>\n  <hash>\n    <file>DCIM/A001.MP4</file>\n    <size>1234</size>\n    <xxhash64be>{hx}</xxhash64be>\n    <hashdate>T1</hashdate>\n  </hash>\n</hashlist>\n"
    );
    assert_eq!(xml, expected);
}
