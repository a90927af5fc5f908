//! Device kinds.
//!
//! A device seen for the first time is unclassified, and an unclassified device never
//! starts a copy by itself.

use vstd::prelude::*;
use crate::i18n::Locale;
use crate::text::{dec, owned, push_dec, push_str, str_eq};
use crate::manifest::store::Moment;

verus! {

/// What the user said a device is.
#[derive(Debug, Clone, Copy, PartialEq, Eq, Structural)]
pub enum DeviceKind {
    /// Not classified yet: starts nothing by itself.
    Unclassified,
    Camera,
    Recorder,
    /// A media drive: often a source, often a destination too.
    Storage,
    /// Black-listed: plugging it in asks nothing, but it stays in the list.
    Ignored,
}

/// The name of each kind, in each language.
pub open spec fn kind_label(k: DeviceKind, lang: Locale) -> Seq<char> {
    match (k, lang) {
        (DeviceKind::Unclassified, Locale::Zh) => "未分类"@,
        (DeviceKind::Unclassified, Locale::En) => "Unclassified"@,
        (DeviceKind::Camera, Locale::Zh) => "摄影卡"@,
        (DeviceKind::Camera, Locale::En) => "Camera card"@,
        (DeviceKind::Recorder, Locale::Zh) => "录音卡"@,
        (DeviceKind::Recorder, Locale::En) => "Recorder card"@,
        (DeviceKind::Storage, Locale::Zh) => "素材盘"@,
        (DeviceKind::Storage, Locale::En) => "Media drive"@,
        (DeviceKind::Ignored, Locale::Zh) => "忽略"@,
        (DeviceKind::Ignored, Locale::En) => "Ignored"@,
    }
}

impl DeviceKind {
    /// The kind's name in the chosen language.
    pub fn label(self, lang: Locale) -> (r: &'static str)
        ensures
            r@ == kind_label(self, lang),
    {
        match self {
            DeviceKind::Unclassified => lang.pick("未分类", "Unclassified"),
            DeviceKind::Camera => lang.pick("摄影卡", "Camera card"),
            DeviceKind::Recorder => lang.pick("录音卡", "Recorder card"),
            DeviceKind::Storage => lang.pick("素材盘", "Media drive"),
            DeviceKind::Ignored => lang.pick("忽略", "Ignored"),
        }
    }

    /// Whether plugging in a device of this kind asks the user to copy: only cameras
    /// and recorders.
    pub fn prompts_on_arrival(self) -> (r: bool)
        ensures
            r == (self is Camera || self is Recorder),
    {
        match self {
            DeviceKind::Camera | DeviceKind::Recorder => true,
            _ => false,
        }
    }

    /// Whether the user has classified the device.
    pub fn is_classified(self) -> (r: bool)
        ensures
            r == !(self is Unclassified),
    {
        match self {
            DeviceKind::Unclassified => false,
            _ => true,
        }
    }
}

/// The identifier of each kind, as the interface and the configuration write it.
pub open spec fn kind_id(k: DeviceKind) -> Seq<char> {
    match k {
        DeviceKind::Unclassified => "unclassified"@,
        DeviceKind::Camera => "camera"@,
        DeviceKind::Recorder => "recorder"@,
        DeviceKind::Storage => "storage"@,
        DeviceKind::Ignored => "ignored"@,
    }
}

/// The identifier of a kind.
pub fn kind_str(k: DeviceKind) -> (r: &'static str)
    ensures
        r@ == kind_id(k),
{
    match k {
        DeviceKind::Unclassified => "unclassified",
        DeviceKind::Camera => "camera",
        DeviceKind::Recorder => "recorder",
        DeviceKind::Storage => "storage",
        DeviceKind::Ignored => "ignored",
    }
}

/// The kind an identifier names; anything unknown is unclassified (never a kind that
/// would start a copy).
pub fn parse_kind(s: &str) -> (r: DeviceKind)
    ensures
        s@ == "camera"@ ==> r == DeviceKind::Camera,
        s@ == "recorder"@ ==> r == DeviceKind::Recorder,
        s@ == "storage"@ ==> r == DeviceKind::Storage,
        s@ == "ignored"@ ==> r == DeviceKind::Ignored,
        !(s@ == "camera"@ || s@ == "recorder"@ || s@ == "storage"@ || s@ == "ignored"@) ==> r == DeviceKind::Unclassified,
{
    proof {
        lemma_kind_ids_differ();
    }
    if crate::text::str_eq(s, "camera") {
        DeviceKind::Camera
    } else if crate::text::str_eq(s, "recorder") {
        DeviceKind::Recorder
    } else if crate::text::str_eq(s, "storage") {
        DeviceKind::Storage
    } else if crate::text::str_eq(s, "ignored") {
        DeviceKind::Ignored
    } else {
        DeviceKind::Unclassified
    }
}

/// Reading back a written kind gives the same kind.
pub proof fn lemma_kind_roundtrip(k: DeviceKind)
    ensures
        kind_id(k) == "camera"@ ==> k == DeviceKind::Camera,
        kind_id(k) == "recorder"@ ==> k == DeviceKind::Recorder,
        kind_id(k) == "storage"@ ==> k == DeviceKind::Storage,
        kind_id(k) == "ignored"@ ==> k == DeviceKind::Ignored,
        kind_id(k) == "unclassified"@ ==> k == DeviceKind::Unclassified,
{
    lemma_kind_ids_differ();
}

/// The five identifiers are pairwise different.
proof fn lemma_kind_ids_differ()
    ensures
        "camera"@ != "recorder"@,
        "camera"@ != "storage"@,
        "camera"@ != "ignored"@,
        "camera"@ != "unclassified"@,
        "recorder"@ != "storage"@,
        "recorder"@ != "ignored"@,
        "recorder"@ != "unclassified"@,
        "storage"@ != "ignored"@,
        "storage"@ != "unclassified"@,
        "ignored"@ != "unclassified"@,
{
    reveal_strlit("camera");
    reveal_strlit("recorder");
    reveal_strlit("storage");
    reveal_strlit("ignored");
    reveal_strlit("unclassified");
    assert("camera"@.len() == 6);
    assert("recorder"@.len() == 8);
    assert("storage"@.len() == 7);
    assert("ignored"@.len() == 7);
    assert("unclassified"@.len() == 12);
    assert("storage"@[0] != "ignored"@[0]);
}

/// A device in the memory: who it is, what the user called it and said it is, and
/// how it looked when last seen.
#[derive(Debug, Clone, PartialEq, Eq)]
pub struct DeviceRecord {
    /// The composite identity (see `Volume::composite_id`).
    pub id: String,
    /// The user's name for it; the volume label until renamed.
    pub custom_name: String,
    pub kind: DeviceKind,
    pub last_seen: Moment,
    /// Tells apart devices of the same name (1: no suffix).
    pub instance: u32,
    pub last_label: String,
    pub total_bytes: u64,
}

/// The name shown for a device: its name, with the instance number when above one.
pub open spec fn record_display(name: Seq<char>, instance: u32) -> Seq<char> {
    if instance <= 1 {
        name
    } else {
        name + " ("@ + dec(instance as nat) + ")"@
    }
}

/// The largest instance number among records of a name (0 when none).
pub open spec fn max_instance(rs: Seq<DeviceRecord>, name: Seq<char>) -> nat
    decreases rs.len(),
{
    if rs.len() == 0 {
        0
    } else {
        let m = max_instance(rs.drop_last(), name);
        if rs.last().custom_name@ == name && rs.last().instance as nat > m {
            rs.last().instance as nat
        } else {
            m
        }
    }
}

impl DeviceRecord {
    /// A device seen for the first time: unclassified, named after its label.
    pub fn new(id: &str, label: &str, total_bytes: u64, at: Moment) -> (r: DeviceRecord)
        ensures
            r.id@ == id@,
            r.custom_name@ == label@,
            r.kind == DeviceKind::Unclassified,
            r.last_seen == at,
            r.instance == 1,
            r.last_label@ == label@,
            r.total_bytes == total_bytes,
    {
        DeviceRecord {
            id: owned(id),
            custom_name: owned(label),
            kind: DeviceKind::Unclassified,
            last_seen: at,
            instance: 1,
            last_label: owned(label),
            total_bytes,
        }
    }

    /// A field-for-field copy.
    pub(crate) fn clone_record(&self) -> (r: DeviceRecord)
        ensures
            r == *self,
    {
        DeviceRecord {
            id: self.id.clone(),
            custom_name: self.custom_name.clone(),
            kind: self.kind,
            last_seen: self.last_seen.clone(),
            instance: self.instance,
            last_label: self.last_label.clone(),
            total_bytes: self.total_bytes,
        }
    }

    /// The name shown: `A7M4主卡`, or `A7M4主卡 (2)` for the second of that name.
    pub fn display_name(&self) -> (r: String)
        ensures
            r@ == record_display(self.custom_name@, self.instance),
    {
        let mut s = owned(self.custom_name.as_str());
        if self.instance > 1 {
            push_str(&mut s, " (");
            push_dec(&mut s, self.instance as u64);
            push_str(&mut s, ")");
        }
        s
    }
}

/// The instance number for a new device called `name`: one more than the largest
/// among the records of that name (1 when there are none).
pub fn next_instance(existing: &[DeviceRecord], name: &str) -> (r: u32)
    requires
        max_instance(existing@, name@) < u32::MAX,
    ensures
        r == max_instance(existing@, name@) + 1,
{
    let mut max: u32 = 0;
    let mut i: usize = 0;
    while i < existing.len()
        invariant
            i <= existing@.len(),
            max == max_instance(existing@.take(i as int), name@),
            max_instance(existing@, name@) < u32::MAX,
        decreases existing@.len() - i,
    {
        proof {
            assert(existing@.take(i + 1).drop_last() =~= existing@.take(i as int));
            lemma_max_instance_prefix(existing@, name@, i + 1);
        }
        if str_eq(existing[i].custom_name.as_str(), name) && existing[i].instance > max {
            max = existing[i].instance;
        }
        i = i + 1;
    }
    proof {
        assert(existing@.take(existing@.len() as int) =~= existing@);
    }
    max + 1
}

proof fn lemma_max_instance_prefix(rs: Seq<DeviceRecord>, name: Seq<char>, k: int)
    requires
        0 <= k <= rs.len(),
    ensures
        max_instance(rs.take(k), name) <= max_instance(rs, name),
    decreases rs.len(),
{
    if k < rs.len() {
        assert(rs.drop_last().take(k) =~= rs.take(k));
        lemma_max_instance_prefix(rs.drop_last(), name, k);
    } else {
        assert(rs.take(k) =~= rs);
    }
}

/// The largest instance number among the records with this name (0 when there are
/// none) is above or equal to every one of them, and is one of them when there are any.
proof fn lemma_max_instance(rs: Seq<DeviceRecord>, name: Seq<char>)
    ensures
        forall|k: int| 0 <= k < rs.len() && (#[trigger] rs[k]).custom_name@ == name ==> rs[k].instance as nat <= max_instance(rs, name),
        max_instance(rs, name) == 0 || exists|k: int| 0 <= k < rs.len() && (#[trigger] rs[k]).custom_name@ == name
            && rs[k].instance as nat == max_instance(rs, name),
    decreases rs.len(),
{
    if rs.len() > 0 {
        let d = rs.drop_last();
        lemma_max_instance(d, name);
        assert forall|k: int| 0 <= k < rs.len() && (#[trigger] rs[k]).custom_name@ == name implies rs[k].instance as nat <= max_instance(rs, name) by {
            if k < d.len() {
                assert(rs[k] == d[k]);
            }
        }
        if max_instance(rs, name) != 0 {
            if max_instance(rs, name) == max_instance(d, name) {
                let k = choose|k: int| 0 <= k < d.len() && (#[trigger] d[k]).custom_name@ == name && d[k].instance as nat == max_instance(d, name);
                assert(rs[k] == d[k]);
            } else {
                assert(rs[rs.len() - 1] == rs.last());
            }
        }
    }
}

/// A new device of a name gets an instance number above that of every remembered
/// device of the same name, so that no two of them are shown alike; and it is the
/// smallest such number: one above the largest in use (1 when none is).
pub proof fn lemma_next_instance_is_new(existing: Seq<DeviceRecord>, name: Seq<char>)
    ensures
        forall|k: int| 0 <= k < existing.len() && (#[trigger] existing[k]).custom_name@ == name
            ==> existing[k].instance < max_instance(existing, name) + 1,
        max_instance(existing, name) == 0 || exists|k: int| 0 <= k < existing.len()
            && (#[trigger] existing[k]).custom_name@ == name && existing[k].instance + 1 == max_instance(existing, name) + 1,
{
    lemma_max_instance(existing, name);
}

} // verus!
