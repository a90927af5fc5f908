//! Ejecting a device safely.
//!
//! A device with a task running on it is never ejected.

use vstd::prelude::*;
use crate::text::{chars_of, push_str, str_eq, string_of};

verus! {

/// Why an eject did not happen.
#[derive(Debug, Clone, PartialEq, Eq)]
pub enum EjectError {
    /// A task is running on the device.
    TaskRunning,
    /// Another program holds the device (the system's detail attached).
    Busy(String),
    /// This platform cannot eject safely.
    Unsupported,
    /// The eject failed (the system's detail attached).
    Failed(String),
}

/// The sentence shown for each eject error.
pub open spec fn eject_error_text(e: EjectError) -> Seq<char> {
    match e {
        EjectError::TaskRunning => "该设备上有任务正在进行，不能弹出"@,
        EjectError::Busy(d) => "设备正被其他程序占用，无法弹出（"@ + d@ + "）。关掉正在读这张卡的程序后再试"@,
        EjectError::Unsupported => "本平台不支持安全弹出"@,
        EjectError::Failed(d) => "弹出失败："@ + d@,
    }
}

impl EjectError {
    /// The sentence shown to the user, with the next step to take where there is one.
    pub fn describe(&self) -> (r: String)
        ensures
            r@ == eject_error_text(*self),
    {
        let mut s = String::new();
        match self {
            EjectError::TaskRunning => push_str(&mut s, "该设备上有任务正在进行，不能弹出"),
            EjectError::Busy(d) => {
                push_str(&mut s, "设备正被其他程序占用，无法弹出（");
                push_str(&mut s, d.as_str());
                push_str(&mut s, "）。关掉正在读这张卡的程序后再试");
            },
            EjectError::Unsupported => push_str(&mut s, "本平台不支持安全弹出"),
            EjectError::Failed(d) => {
                push_str(&mut s, "弹出失败：");
                push_str(&mut s, d.as_str());
            },
        }
        proof {
            assert(s@ =~= eject_error_text(*self));
        }
        s
    }
}

/// Something that can eject a volume given its root path.
pub trait Ejector {
    fn eject(&self, root: &str) -> Result<(), EjectError>;
}

/// The ejector of platforms without safe eject: always [`EjectError::Unsupported`].
#[derive(Debug, Clone, Copy, PartialEq, Eq)]
pub struct UnsupportedEjector;

impl Ejector for UnsupportedEjector {
    fn eject(&self, root: &str) -> (r: Result<(), EjectError>)
        ensures
            r == Err::<(), EjectError>(EjectError::Unsupported),
    {
        Err(EjectError::Unsupported)
    }
}

/// Whether `device_id` is among the running devices.
pub open spec fn is_running(device_id: Seq<char>, running: Seq<String>) -> bool {
    exists|k: int| 0 <= k < running.len() && (#[trigger] running[k])@ == device_id
}

/// Whether the device may be ejected now: refused while a task runs on it.
pub fn can_eject(device_id: &str, running_device_ids: &[String]) -> (r: Result<(), EjectError>)
    ensures
        match r {
            Ok(()) => !is_running(device_id@, running_device_ids@),
            Err(e) => is_running(device_id@, running_device_ids@) && e == EjectError::TaskRunning,
        },
{
    let mut i: usize = 0;
    while i < running_device_ids.len()
        invariant
            i <= running_device_ids@.len(),
            forall|k: int| 0 <= k < i ==> (#[trigger] running_device_ids@[k])@ != device_id@,
        decreases running_device_ids@.len() - i,
    {
        if str_eq(running_device_ids[i].as_str(), device_id) {
            return Err(EjectError::TaskRunning);
        }
        i = i + 1;
    }
    Ok(())
}

/// `s` without its trailing `\` and `/`.
pub open spec fn trim_end_seps(s: Seq<char>) -> Seq<char>
    decreases s.len(),
{
    if s.len() > 0 && (s.last() == '\\' || s.last() == '/') { trim_end_seps(s.drop_last()) } else { s }
}

/// The device path that opens a volume: a drive root (`E:\` or `E:`) becomes
/// `\\.\E:`; any other root only loses its trailing separators.
pub open spec fn device_path_spec(root: Seq<char>) -> Seq<char> {
    let t = trim_end_seps(root);
    if t.len() == 2 && (t[0] as u32) < 128 && t[1] == ':' {
        seq!['\\', '\\', '.', '\\'] + t
    } else {
        t
    }
}

/// The device path that opens the volume with root `root`.
pub fn device_path(root: &str) -> (r: String)
    ensures
        r@ == device_path_spec(root@),
{
    let v = chars_of(root);
    let mut n: usize = v.len();
    proof {
        assert(v@.take(v@.len() as int) =~= v@);
    }
    while n > 0 && (v[n - 1] == '\\' || v[n - 1] == '/')
        invariant
            n <= v@.len(),
            v@ == root@,
            trim_end_seps(root@) == trim_end_seps(v@.take(n as int)),
        decreases n,
    {
        proof {
            assert(v@.take(n as int).drop_last() =~= v@.take(n - 1));
        }
        n = n - 1;
    }
    let mut t: Vec<char> = Vec::new();
    let mut i: usize = 0;
    while i < n
        invariant
            i <= n <= v@.len(),
            t@ == v@.take(i as int),
        decreases n - i,
    {
        t.push(v[i]);
        i = i + 1;
        proof {
            assert(t@ =~= v@.take(i as int));
        }
    }
    proof {
        assert(trim_end_seps(v@.take(n as int)) == v@.take(n as int));
    }
    let mut s = String::new();
    if t.len() == 2 && (t[0] as u32) < 128 && t[1] == ':' {
        push_str(&mut s, "\\\\.\\");
        let rest = string_of(t.as_slice());
        push_str(&mut s, rest.as_str());
        proof {
            assert("\\\\.\\"@ =~= seq!['\\', '\\', '.', '\\']) by {
                reveal_strlit("\\\\.\\");
            }
        }
    } else {
        let rest = string_of(t.as_slice());
        push_str(&mut s, rest.as_str());
    }
    proof {
        assert(s@ =~= device_path_spec(root@));
    }
    s
}

/// A device whose id stands anywhere in the list of running devices is running, and
/// a device running is in that list.
pub proof fn lemma_running_anywhere(device_id: Seq<char>, running: Seq<String>, k: int)
    requires
        0 <= k < running.len(),
    ensures
        running[k]@ == device_id ==> is_running(device_id, running),
        is_running(device_id, running) ==> exists|j: int| 0 <= j < running.len() && #[trigger] running[j]@ == device_id,
{
}

} // verus!
