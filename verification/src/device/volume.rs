//! Volumes, and what admits one as a copy source.
//!
//! The "removable media" flag cannot decide: CFexpress readers commonly pass the NVMe
//! identity through and do not set it, so a flag-based filter makes professional
//! cards vanish. A source is admitted on positive evidence instead: not the system
//! disk, not a destination, and on an external bus.

use vstd::prelude::*;
use crate::text::{
    ascii_lower_chars, ascii_lower_seq, chars_of, dec, push_char, push_dec, push_str, trim,
    trim_seq,
};

verus! {

/// The bus a volume sits on: the key evidence for admitting a source.
#[derive(Debug, Clone, Copy, PartialEq, Eq, Structural)]
pub enum BusType {
    Usb,
    /// Thunderbolt / 1394.
    Thunderbolt,
    Sd,
    Mmc,
    /// Internal NVMe.
    Nvme,
    Sata,
    Scsi,
    /// A network location.
    Network,
    /// Virtual disks, optical drives and the like.
    Other,
    Unknown,
}

/// The buses that count as external.
pub open spec fn external_bus(b: BusType) -> bool {
    b is Usb || b is Thunderbolt || b is Sd || b is Mmc
}

/// The name of each bus.
pub open spec fn bus_label(b: BusType) -> Seq<char> {
    match b {
        BusType::Usb => "USB"@,
        BusType::Thunderbolt => "Thunderbolt"@,
        BusType::Sd => "SD"@,
        BusType::Mmc => "MMC"@,
        BusType::Nvme => "NVMe"@,
        BusType::Sata => "SATA"@,
        BusType::Scsi => "SCSI"@,
        BusType::Network => "网络"@,
        BusType::Other => "其他"@,
        BusType::Unknown => "未知"@,
    }
}

impl BusType {
    /// Whether the bus is external: the positive evidence a source needs.
    pub fn is_external(self) -> (r: bool)
        ensures
            r == external_bus(self),
    {
        match self {
            BusType::Usb | BusType::Thunderbolt | BusType::Sd | BusType::Mmc => true,
            _ => false,
        }
    }

    /// The bus's name.
    pub fn label(self) -> (r: &'static str)
        ensures
            r@ == bus_label(self),
    {
        match self {
            BusType::Usb => "USB",
            BusType::Thunderbolt => "Thunderbolt",
            BusType::Sd => "SD",
            BusType::Mmc => "MMC",
            BusType::Nvme => "NVMe",
            BusType::Sata => "SATA",
            BusType::Scsi => "SCSI",
            BusType::Network => "网络",
            BusType::Other => "其他",
            BusType::Unknown => "未知",
        }
    }
}

/// Whether a volume is there.
#[derive(Debug, Clone, Copy, PartialEq, Eq, Structural)]
pub enum VolumeState {
    Online,
    /// A slot without a card (an empty slot of a multi-slot reader).
    NoMedia,
    Offline,
}

/// A mounted volume.
#[derive(Debug, Clone, PartialEq, Eq)]
pub struct Volume {
    /// The volume GUID path (`\\?\Volume{...}\`): stable on one machine only.
    pub guid_path: String,
    /// The drive letter (such as `D:`), when there is one.
    pub drive_letter: Option<String>,
    pub label: String,
    /// The volume serial: changes with every format in the camera.
    pub serial: Option<u32>,
    pub file_system: String,
    pub total_bytes: u64,
    pub free_bytes: u64,
    pub bus_type: BusType,
    pub is_system: bool,
    pub state: VolumeState,
    /// Device fingerprint folders found at the volume's root.
    pub fingerprints: Vec<String>,
}

/// The uppercase hexadecimal digit character for `d` (`0 <= d < 16`).
pub open spec fn hex_upper_char(d: int) -> char {
    if d < 10 { crate::text::digit_char(d) } else if d == 10 { 'A' } else if d == 11 { 'B' } else if d == 12 { 'C' }
    else if d == 13 { 'D' } else if d == 14 { 'E' } else { 'F' }
}

/// The last `width` uppercase hexadecimal digits of `n` (as `{:0width$X}` writes a
/// number below `16^width`).
pub open spec fn hex_upper_pad(n: nat, width: nat) -> Seq<char>
    decreases width,
{
    if width == 0 {
        Seq::empty()
    } else {
        hex_upper_pad(n / 16, (width - 1) as nat).push(hex_upper_char((n % 16) as int))
    }
}

fn hex_upper_digit(d: u32) -> (c: char)
    requires
        d < 16,
    ensures
        c == hex_upper_char(d as int),
{
    if d == 0 { '0' } else if d == 1 { '1' } else if d == 2 { '2' } else if d == 3 { '3' }
    else if d == 4 { '4' } else if d == 5 { '5' } else if d == 6 { '6' } else if d == 7 { '7' }
    else if d == 8 { '8' } else if d == 9 { '9' } else if d == 10 { 'A' } else if d == 11 { 'B' }
    else if d == 12 { 'C' } else if d == 13 { 'D' } else if d == 14 { 'E' } else { 'F' }
}

/// Appends the last `width` uppercase hexadecimal digits of `n`.
fn push_hex_upper_pad(s: &mut String, n: u32, width: u32)
    ensures
        final(s)@ == old(s)@ + hex_upper_pad(n as nat, width as nat),
    decreases width,
{
    if width > 0 {
        push_hex_upper_pad(s, n / 16, width - 1);
        push_char(s, hex_upper_digit(n % 16));
        proof {
            assert(hex_upper_pad(n as nat, width as nat) == hex_upper_pad((n / 16) as nat, (width - 1) as nat).push(hex_upper_char((n % 16) as int)));
        }
    } else {
        proof {
            assert(old(s)@ + Seq::<char>::empty() =~= old(s)@);
        }
    }
}

/// The units of `human_size`.
pub open spec fn unit_name(i: nat) -> Seq<char> {
    if i == 0 { "B"@ } else if i == 1 { "KB"@ } else if i == 2 { "MB"@ } else if i == 3 { "GB"@ } else { "TB"@ }
}

/// `1024^i`.
pub open spec fn pow1024(i: nat) -> nat
    decreases i,
{
    if i == 0 { 1 } else { 1024 * pow1024((i - 1) as nat) }
}

/// The unit a size is shown in: the largest of B … TB that the size reaches.
pub open spec fn unit_of(n: nat) -> nat {
    if n >= pow1024(4) { 4 } else if n >= pow1024(3) { 3 } else if n >= pow1024(2) { 2 } else if n >= pow1024(1) { 1 } else { 0 }
}

/// `n / d` rounded to the nearest whole number, ties to even.
pub open spec fn round_half_even(n: nat, d: nat) -> nat
    recommends
        d > 0,
{
    let q = n / d;
    let r = n % d;
    if 2 * r > d { q + 1 } else if 2 * r < d { q } else if q % 2 == 0 { q } else { q + 1 }
}

/// A size for people: the whole number of its unit, then the unit (`128 GB`).
pub open spec fn human_size(n: nat) -> Seq<char> {
    let i = unit_of(n);
    dec(round_half_even(n, pow1024(i))) + " "@ + unit_name(i)
}

/// A size for people, such as `128 GB`: the size divided by the largest power of 1024
/// it reaches (up to TB), rounded to a whole number (ties to even).
fn human(n: u64) -> (r: String)
    ensures
        r@ == human_size(n as nat),
{
    proof {
        assert(pow1024(0) == 1);
        assert(pow1024(1) == 1024);
        assert(pow1024(2) == 1048576);
        assert(pow1024(3) == 1073741824);
        assert(pow1024(4) == 1099511627776);
    }
    let (d, unit): (u64, &str) = if n >= 1099511627776 {
        (1099511627776, "TB")
    } else if n >= 1073741824 {
        (1073741824, "GB")
    } else if n >= 1048576 {
        (1048576, "MB")
    } else if n >= 1024 {
        (1024, "KB")
    } else {
        (1, "B")
    };
    let q = n / d;
    let rem = n % d;
    let v = if rem > d - rem {
        q + 1
    } else if rem < d - rem {
        q
    } else if q % 2 == 0 {
        q
    } else {
        q + 1
    };
    let mut s = String::new();
    push_dec(&mut s, v);
    push_str(&mut s, " ");
    push_str(&mut s, unit);
    proof {
        assert(d as nat == pow1024(unit_of(n as nat)));
        assert(unit@ == unit_name(unit_of(n as nat)));
        assert(q as nat == (n as nat) / (d as nat));
        assert(rem as nat == (n as nat) % (d as nat));
        assert(v as nat == round_half_even(n as nat, pow1024(unit_of(n as nat))));
        assert(s@ =~= human_size(n as nat));
    }
    s
}

/// The text before the first character that `sep` accepts (the whole text if none).
pub open spec fn first_piece(s: Seq<char>, backslash_only: bool) -> Seq<char>
    decreases s.len(),
{
    if s.len() == 0 {
        s
    } else {
        let f = first_piece(s.drop_last(), backslash_only);
        if f.len() < s.len() - 1 {
            f
        } else if s.last() == '\\' || (!backslash_only && s.last() == '/') {
            s.drop_last()
        } else {
            s
        }
    }
}

/// The `\\?\` prefix of a volume GUID path.
pub open spec fn verbatim_prefix() -> Seq<char> {
    seq!['\\', '\\', '?', '\\']
}

/// The part of a path that names its volume, in ASCII lowercase: the drive (`e:`) or
/// the `\\?\volume{…}` prefix.
pub open spec fn volume_key(p: Seq<char>) -> Seq<char> {
    let s = ascii_lower_seq(p);
    if s.len() >= 4 && s.take(4) == verbatim_prefix() {
        verbatim_prefix() + first_piece(s.skip(4), true)
    } else {
        first_piece(s, false)
    }
}

/// Whether two paths are on the same volume (compared by drive or GUID prefix).
pub open spec fn same_volume_spec(a: Seq<char>, b: Seq<char>) -> bool {
    volume_key(a).len() > 0 && volume_key(a) == volume_key(b)
}

/// The first piece of `s` up to a separator.
fn first_piece_of(s: &[char], backslash_only: bool) -> (r: Vec<char>)
    ensures
        r@ == first_piece(s@, backslash_only),
{
    let mut out: Vec<char> = Vec::new();
    let mut i: usize = 0;
    let mut stopped = false;
    while i < s.len()
        invariant
            i <= s@.len(),
            stopped ==> out@ == first_piece(s@.take(i as int), backslash_only) && out@.len() < i,
            !stopped ==> out@ == s@.take(i as int) && first_piece(s@.take(i as int), backslash_only) == s@.take(i as int),
        decreases s@.len() - i,
    {
        proof {
            assert(s@.take(i + 1).drop_last() =~= s@.take(i as int));
            assert(s@.take(i + 1).last() == s@[i as int]);
        }
        let c = s[i];
        if !stopped {
            if c == '\\' || (!backslash_only && c == '/') {
                stopped = true;
            } else {
                out.push(c);
                proof {
                    assert(out@ =~= s@.take(i + 1));
                }
            }
        }
        i = i + 1;
    }
    proof {
        assert(s@.take(s@.len() as int) =~= s@);
    }
    out
}

/// The volume part of a path.
fn volume_key_of(p: &str) -> (r: Vec<char>)
    ensures
        r@ == volume_key(p@),
{
    let s = ascii_lower_chars(chars_of(p).as_slice());
    if s.len() >= 4 && s[0] == '\\' && s[1] == '\\' && s[2] == '?' && s[3] == '\\' {
        proof {
            assert(s@.take(4) =~= verbatim_prefix());
        }
        let mut rest: Vec<char> = Vec::new();
        let mut i: usize = 4;
        while i < s.len()
            invariant
                4 <= i <= s@.len(),
                rest@ == s@.subrange(4, i as int),
            decreases s@.len() - i,
        {
            rest.push(s[i]);
            i = i + 1;
            proof {
                assert(rest@ =~= s@.subrange(4, i as int));
            }
        }
        let piece = first_piece_of(rest.as_slice(), true);
        let mut out: Vec<char> = Vec::new();
        out.push('\\');
        out.push('\\');
        out.push('?');
        out.push('\\');
        let mut k: usize = 0;
        while k < piece.len()
            invariant
                k <= piece@.len(),
                out@ == verbatim_prefix() + piece@.take(k as int),
            decreases piece@.len() - k,
        {
            out.push(piece[k]);
            k = k + 1;
            proof {
                assert(out@ =~= verbatim_prefix() + piece@.take(k as int));
            }
        }
        proof {
            assert(piece@.take(piece@.len() as int) =~= piece@);
            assert(s@.skip(4) =~= s@.subrange(4, s@.len() as int));
        }
        out
    } else {
        proof {
            if s@.len() >= 4 {
                if s@.take(4) == verbatim_prefix() {
                    assert(s@[0] == s@.take(4)[0] && s@[1] == s@.take(4)[1] && s@[2] == s@.take(4)[2] && s@[3] == s@.take(4)[3]);
                }
            }
        }
        first_piece_of(s.as_slice(), false)
    }
}

/// Whether two paths are on the same volume.
fn same_volume(a: &str, b: &str) -> (r: bool)
    ensures
        r == same_volume_spec(a@, b@),
{
    let ka = volume_key_of(a);
    let kb = volume_key_of(b);
    ka.len() > 0 && crate::text::seq_eq(ka.as_slice(), kb.as_slice())
}

/// The root path by which a volume is reached: the drive letter and `\` when there is
/// a letter, the GUID path otherwise.
pub open spec fn root_of(v: Volume) -> Seq<char> {
    match v.drive_letter {
        Some(d) => d@.push('\\'),
        None => v.guid_path@,
    }
}

/// The name shown for a volume.
pub open spec fn display_name_spec(v: Volume) -> Seq<char> {
    let name = if trim_seq(v.label@).len() == 0 { "未命名卷"@ } else { v.label@ };
    match v.drive_letter {
        Some(d) => name + " ("@ + d@ + ")"@,
        None => name + "（无盘符 · "@ + human_size(v.total_bytes as nat) + "）"@,
    }
}

/// The identity of a card across machines.
pub open spec fn composite_id_spec(v: Volume) -> Seq<char> {
    let serial = match v.serial {
        Some(s) => hex_upper_pad(s as nat, 8),
        None => "-"@,
    };
    "vol:"@ + serial + "|label:"@ + trim_seq(v.label@) + "|fs:"@ + v.file_system@ + "|size:"@ + dec(v.total_bytes as nat)
}

/// Whether any destination root lies on the volume.
pub open spec fn on_any_destination(v: Volume, roots: Seq<String>) -> bool {
    exists|k: int| 0 <= k < roots.len() && same_volume_spec(root_of(v), (#[trigger] roots[k])@)
}

impl Volume {
    /// The path by which the volume is reached.
    pub fn root_path(&self) -> (r: String)
        ensures
            r@ == root_of(*self),
    {
        match &self.drive_letter {
            Some(d) => {
                let mut s = d.clone();
                push_char(&mut s, '\\');
                s
            },
            None => self.guid_path.clone(),
        }
    }

    /// The name shown to the user: the label (or "未命名卷" when it is blank), with
    /// the drive letter, or, without one, the size to tell it apart.
    pub fn display_name(&self) -> (r: String)
        ensures
            r@ == display_name_spec(*self),
    {
        let t = trim(self.label.as_str());
        let mut s = String::new();
        if chars_of(t.as_str()).len() == 0 {
            push_str(&mut s, "未命名卷");
        } else {
            push_str(&mut s, self.label.as_str());
        }
        match &self.drive_letter {
            Some(d) => {
                push_str(&mut s, " (");
                push_str(&mut s, d.as_str());
                push_str(&mut s, ")");
            },
            None => {
                push_str(&mut s, "（无盘符 · ");
                let h = human(self.total_bytes);
                push_str(&mut s, h.as_str());
                push_str(&mut s, "）");
            },
        }
        proof {
            assert(s@ =~= display_name_spec(*self));
        }
        s
    }

    /// The identity that survives a change of machine or drive letter:
    /// `vol:{serial:08X}|label:{label}|fs:{fs}|size:{bytes}` (`-` for no serial).
    pub fn composite_id(&self) -> (r: String)
        ensures
            r@ == composite_id_spec(*self),
    {
        let mut s = String::new();
        push_str(&mut s, "vol:");
        match self.serial {
            Some(n) => push_hex_upper_pad(&mut s, n, 8),
            None => push_str(&mut s, "-"),
        }
        push_str(&mut s, "|label:");
        let t = trim(self.label.as_str());
        push_str(&mut s, t.as_str());
        push_str(&mut s, "|fs:");
        push_str(&mut s, self.file_system.as_str());
        push_str(&mut s, "|size:");
        push_dec(&mut s, self.total_bytes);
        proof {
            assert(s@ =~= composite_id_spec(*self));
        }
        s
    }

    /// Whether the volume may be a copy source: not the system disk, online, on an
    /// external bus, and holding none of the destinations. Fingerprint folders are no
    /// condition: a blank card is a source too.
    pub fn can_be_source(&self, destination_roots: &[String]) -> (r: bool)
        ensures
            r == (!self.is_system && self.state is Online && external_bus(self.bus_type)
                && !on_any_destination(*self, destination_roots@)),
    {
        if self.is_system {
            return false;
        }
        match self.state {
            VolumeState::Online => {},
            _ => {
                return false;
            },
        }
        if !self.bus_type.is_external() {
            return false;
        }
        !self.is_any_destination(destination_roots)
    }

    /// Whether the volume is (or holds) any configured destination.
    pub fn is_any_destination(&self, destination_roots: &[String]) -> (r: bool)
        ensures
            r == on_any_destination(*self, destination_roots@),
    {
        let root = self.root_path();
        let mut i: usize = 0;
        while i < destination_roots.len()
            invariant
                i <= destination_roots@.len(),
                root@ == root_of(*self),
                forall|k: int| 0 <= k < i ==> !same_volume_spec(root_of(*self), (#[trigger] destination_roots@[k])@),
            decreases destination_roots@.len() - i,
        {
            if same_volume(root.as_str(), destination_roots[i].as_str()) {
                return true;
            }
            i = i + 1;
        }
        false
    }
}

/// A volume counts as a destination as soon as any one of the configured roots lies on
/// it, whichever position that root has in the list; and only then.
pub proof fn lemma_destination_anywhere(v: Volume, roots: Seq<String>, k: int)
    requires
        0 <= k < roots.len(),
    ensures
        same_volume_spec(root_of(v), roots[k]@) ==> on_any_destination(v, roots),
        !on_any_destination(v, roots) ==> !same_volume_spec(root_of(v), roots[k]@),
        on_any_destination(v, roots) ==> exists|j: int| 0 <= j < roots.len() && same_volume_spec(root_of(v), #[trigger] roots[j]@),
{
}

} // verus!
