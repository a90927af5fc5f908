//! The decisions around reading and writing the configuration file: which version
//! can be read, what a corrupt file's kept copy is called, and what is written.
//!
//! A configuration that cannot be read is never silently replaced by a fresh one;
//! a corrupt file is kept under a new name so that it can be restored by hand.

use vstd::prelude::*;
use crate::config::model::{config_error_text, config_problem, problem_of, Config, ConfigError, CONFIG_VERSION};
use crate::text::{dec, hex, push_dec, push_hex, push_str};

verus! {

/// Why the configuration could not be loaded.
#[derive(Debug, Clone, PartialEq, Eq)]
pub enum ConfigLoadError {
    /// The file could not be read (permissions and the like).
    Unreadable(String),
    /// The content is damaged. `backup` is where the original file was kept, if the
    /// rename succeeded.
    Corrupt { reason: String, backup: Option<String> },
    /// Written by a newer program than this one.
    FutureVersion { found: u32, supported: u32 },
}

/// The sentence shown for a load failure.
pub open spec fn load_error_text(e: ConfigLoadError) -> Seq<char> {
    match e {
        ConfigLoadError::Unreadable(m) => "配置文件读取失败："@ + m@,
        ConfigLoadError::Corrupt { reason, backup } => "配置文件内容损坏："@ + reason@ + match backup {
            Some(b) => "。原文件已保留在 "@ + b@ + "，可据以人工恢复"@,
            None => Seq::empty(),
        },
        ConfigLoadError::FutureVersion { found, supported } => "配置由更新版本的程序写入（格式版本 "@ + dec(found as nat)
            + "，本程序支持到 "@ + dec(supported as nat) + "），请升级后再打开"@,
    }
}

impl ConfigLoadError {
    /// The sentence shown to the user.
    pub fn describe(&self) -> (r: String)
        ensures
            r@ == load_error_text(*self),
    {
        let mut s = String::new();
        match self {
            ConfigLoadError::Unreadable(m) => {
                push_str(&mut s, "配置文件读取失败：");
                push_str(&mut s, m.as_str());
            },
            ConfigLoadError::Corrupt { reason, backup } => {
                push_str(&mut s, "配置文件内容损坏：");
                push_str(&mut s, reason.as_str());
                match backup {
                    Some(b) => {
                        push_str(&mut s, "。原文件已保留在 ");
                        push_str(&mut s, b.as_str());
                        push_str(&mut s, "，可据以人工恢复");
                    },
                    None => {},
                }
            },
            ConfigLoadError::FutureVersion { found, supported } => {
                push_str(&mut s, "配置由更新版本的程序写入（格式版本 ");
                push_dec(&mut s, *found as u64);
                push_str(&mut s, "，本程序支持到 ");
                push_dec(&mut s, *supported as u64);
                push_str(&mut s, "），请升级后再打开");
            },
        }
        proof {
            assert(s@ =~= load_error_text(*self));
        }
        s
    }
}

/// Why the configuration could not be saved.
#[derive(Debug, Clone, PartialEq, Eq)]
pub enum SaveError {
    /// The configuration failed its check; nothing was written.
    Invalid(ConfigError),
    /// Writing failed.
    Io(String),
}

/// The sentence shown for a save failure.
pub open spec fn save_error_text(e: SaveError) -> Seq<char> {
    match e {
        SaveError::Invalid(c) => config_error_text(c),
        SaveError::Io(m) => "配置写入失败："@ + m@,
    }
}

impl SaveError {
    /// The sentence shown to the user.
    pub fn describe(&self) -> (r: String)
        ensures
            r@ == save_error_text(*self),
    {
        match self {
            SaveError::Invalid(c) => c.describe(),
            SaveError::Io(m) => {
                let mut s = String::new();
                push_str(&mut s, "配置写入失败：");
                push_str(&mut s, m.as_str());
                s
            },
        }
    }
}

/// The version check made before the file is read as a configuration: a file
/// written by a newer program is refused rather than read with the wrong structure.
pub fn check_config_version(found: u32) -> (r: Result<(), ConfigLoadError>)
    ensures
        match r {
            Ok(()) => found <= CONFIG_VERSION,
            Err(e) => found > CONFIG_VERSION && e == (ConfigLoadError::FutureVersion { found, supported: CONFIG_VERSION }),
        },
{
    if found > CONFIG_VERSION {
        Err(ConfigLoadError::FutureVersion { found, supported: CONFIG_VERSION })
    } else {
        Ok(())
    }
}

/// The file name a corrupt configuration is kept under: `config.corrupt-{ms:x}.json`.
pub open spec fn corrupt_backup_text(ms: nat) -> Seq<char> {
    "config.corrupt-"@ + hex(ms) + ".json"@
}

/// The file name a corrupt configuration is kept under, from the clock in
/// milliseconds.
pub fn corrupt_backup_name(ms: u64) -> (r: String)
    ensures
        r@ == corrupt_backup_text(ms as nat),
{
    let mut s = String::new();
    push_str(&mut s, "config.corrupt-");
    push_hex(&mut s, ms);
    push_str(&mut s, ".json");
    proof {
        assert(s@ =~= corrupt_backup_text(ms as nat));
    }
    s
}

/// What is written when the configuration is saved: it is checked first, and a
/// configuration that fails the check is not written at all; one that passes is
/// written with this format's version.
pub fn prepare_save(config: Config) -> (r: Result<Config, SaveError>)
    ensures
        match r {
            Ok(c) => {
                &&& config_problem(config) is None
                &&& c.version == CONFIG_VERSION
                &&& c.projects == config.projects
                &&& c.current_project == config.current_project
                &&& c.presets == config.presets
                &&& c.devices == config.devices
                &&& c.settings == config.settings
            },
            Err(e) => e matches SaveError::Invalid(ce) && config_problem(config) == Some(problem_of(ce)),
        },
{
    match config.validate() {
        Err(e) => Err(SaveError::Invalid(e)),
        Ok(()) => {
            let mut out = config;
            out.version = CONFIG_VERSION;
            Ok(out)
        },
    }
}

} // verus!
