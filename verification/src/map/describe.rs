//! The user-facing sentence for each map error, in both languages.

use vstd::prelude::*;
use crate::i18n::Locale;
use crate::map::model::{MapError, MapErrorV};
use crate::organize::template_error_text;
use crate::text::{dec, push_dec, push_str};

verus! {

/// The sentence shown for a map error.
pub open spec fn map_error_text(e: MapErrorV, lang: Locale) -> Seq<char> {
    match e {
        MapErrorV::EmptyName => match lang {
            Locale::Zh => "目录名不能是空的"@,
            Locale::En => "A folder name cannot be empty"@,
        },
        MapErrorV::NameTooLong { name, max, actual } => match lang {
            Locale::Zh => "目录名最长 "@ + dec(max) + " 个字符，「"@ + name + "」有 "@ + dec(actual) + " 个"@,
            Locale::En => "A folder name can be at most "@ + dec(max) + " characters — \""@ + name + "\" has "@ + dec(actual),
        },
        MapErrorV::IllegalCharacter { name } => match lang {
            Locale::Zh => "目录名不能含 < > : \" / \\ | ? * 或控制字符："@ + name,
            Locale::En => "A folder name cannot contain < > : \" / \\ | ? * or control characters: "@ + name,
        },
        MapErrorV::ReservedName { name } => match lang {
            Locale::Zh => "「"@ + name + "」是 Windows 保留设备名，不能当目录名"@,
            Locale::En => "\""@ + name + "\" is a reserved Windows device name and cannot be used as a folder name"@,
        },
        MapErrorV::PaddedName { name } => match lang {
            Locale::Zh => "目录名不能以空格开头，也不能以点或空格结尾（Windows 会悄悄截掉它们，画布上看到的就和磁盘上的对不上了）："@ + name,
            Locale::En => "A folder name cannot start with a space or end with a dot or space — Windows silently trims them, so the canvas would no longer match the disk: "@ + name,
        },
        MapErrorV::BadPlaceholder { name, reason } => match lang {
            Locale::Zh => "节点名「"@ + name + "」里的占位符不合法："@ + template_error_text(reason, lang),
            Locale::En => "The placeholder in node name \""@ + name + "\" is not valid: "@ + template_error_text(reason, lang),
        },
        MapErrorV::DuplicateSibling { name } => match lang {
            Locale::Zh => "同一层已有叫「"@ + name + "」的目录（Windows 不区分大小写），换个名字"@,
            Locale::En => "A folder named \""@ + name + "\" already exists at this level (Windows is case-insensitive) — pick another name"@,
        },
        MapErrorV::TooDeep { max } => match lang {
            Locale::Zh => "目录最多嵌套 "@ + dec(max) + " 层，再深路径就要超出 Windows 的长度限制了"@,
            Locale::En => "Folders can be nested at most "@ + dec(max) + " levels deep — any deeper and paths hit the Windows length limit"@,
        },
        MapErrorV::NodeMissing { id } => match lang {
            Locale::Zh => "找不到这个节点："@ + id,
            Locale::En => "No such node: "@ + id,
        },
        MapErrorV::WouldCycle { name } => match lang {
            Locale::Zh => "不能把「"@ + name + "」挂到它自己（或它的子目录）下面"@,
            Locale::En => "\""@ + name + "\" cannot be moved under itself or one of its own subfolders"@,
        },
        MapErrorV::AssignmentMissing { id } => match lang {
            Locale::Zh => "找不到这条落位："@ + id,
            Locale::En => "No such assignment: "@ + id,
        },
        MapErrorV::DuplicateAssignment { device_name, node_name } => match lang {
            Locale::Zh => "「"@ + device_name + "」已经连到「"@ + node_name + "」了——重复连线只会拷出两份一样的东西"@,
            Locale::En => "\""@ + device_name + "\" is already connected to \""@ + node_name + "\" — a duplicate line would just copy the same thing twice"@,
        },
        MapErrorV::SourceOffline { device_name } => match lang {
            Locale::Zh => "「"@ + device_name + "」现在不在机上，插回来再派发"@,
            Locale::En => "\""@ + device_name + "\" is not connected right now — plug it back in before dispatching"@,
        },
        MapErrorV::EmptyMap => match lang {
            Locale::Zh => "导图还是空的，没有可导出的结构"@,
            Locale::En => "The map is empty — there is nothing to export yet"@,
        },
        MapErrorV::BadTemplateString { template, reason } => match lang {
            Locale::Zh => "模板串「"@ + template + "」不合法："@ + template_error_text(reason, lang),
            Locale::En => "The template string \""@ + template + "\" is not valid: "@ + template_error_text(reason, lang),
        },
        MapErrorV::Inconsistent { detail } => match lang {
            Locale::Zh => "导图数据不一致（配置可能被外部改过）："@ + detail,
            Locale::En => "The map data is inconsistent (the configuration may have been edited externally): "@ + detail,
        },
        MapErrorV::Unreadable { path, reason } => match lang {
            Locale::Zh => "读不了项目目录 "@ + path + "："@ + reason,
            Locale::En => "Could not read the project folder "@ + path + ": "@ + reason,
        },
        MapErrorV::NotAChain { at, branches } => match (at, lang) {
            (Some(n), Locale::Zh) => "「"@ + n + "」下有 "@ + dec(branches) + " 个分支，一串字符串模板表达不了分叉——要保结构请存成导图模板"@,
            (None, Locale::Zh) => "顶层有 "@ + dec(branches) + " 个并列目录，一串字符串模板表达不了分叉——要保结构请存成导图模板"@,
            (Some(n), Locale::En) => "\""@ + n + "\" has "@ + dec(branches) + " branches — a single string template cannot express a fork. Save it as a map template to keep the structure"@,
            (None, Locale::En) => "There are "@ + dec(branches) + " folders side by side at the top level — a single string template cannot express a fork. Save it as a map template to keep the structure"@,
        },
    }
}

impl MapError {
    /// One sentence for the user, in the chosen language.
    pub fn describe(&self, lang: Locale) -> (r: String)
        ensures
            r@ == map_error_text(self@, lang),
    {
        let mut s = String::new();
        match self {
            MapError::EmptyName => match lang {
                Locale::Zh => {
                    push_str(&mut s, "目录名不能是空的");
                },
                Locale::En => {
                    push_str(&mut s, "A folder name cannot be empty");
                },
            },
            MapError::NameTooLong { name, max, actual } => match lang {
                Locale::Zh => {
                    push_str(&mut s, "目录名最长 ");
                    push_dec(&mut s, *max as u64);
                    push_str(&mut s, " 个字符，「");
                    push_str(&mut s, name.as_str());
                    push_str(&mut s, "」有 ");
                    push_dec(&mut s, *actual as u64);
                    push_str(&mut s, " 个");
                },
                Locale::En => {
                    push_str(&mut s, "A folder name can be at most ");
                    push_dec(&mut s, *max as u64);
                    push_str(&mut s, " characters — \"");
                    push_str(&mut s, name.as_str());
                    push_str(&mut s, "\" has ");
                    push_dec(&mut s, *actual as u64);
                },
            },
            MapError::IllegalCharacter { name } => match lang {
                Locale::Zh => {
                    push_str(&mut s, "目录名不能含 < > : \" / \\ | ? * 或控制字符：");
                    push_str(&mut s, name.as_str());
                },
                Locale::En => {
                    push_str(&mut s, "A folder name cannot contain < > : \" / \\ | ? * or control characters: ");
                    push_str(&mut s, name.as_str());
                },
            },
            MapError::ReservedName { name } => match lang {
                Locale::Zh => {
                    push_str(&mut s, "「");
                    push_str(&mut s, name.as_str());
                    push_str(&mut s, "」是 Windows 保留设备名，不能当目录名");
                },
                Locale::En => {
                    push_str(&mut s, "\"");
                    push_str(&mut s, name.as_str());
                    push_str(&mut s, "\" is a reserved Windows device name and cannot be used as a folder name");
                },
            },
            MapError::PaddedName { name } => match lang {
                Locale::Zh => {
                    push_str(&mut s, "目录名不能以空格开头，也不能以点或空格结尾（Windows 会悄悄截掉它们，画布上看到的就和磁盘上的对不上了）：");
                    push_str(&mut s, name.as_str());
                },
                Locale::En => {
                    push_str(&mut s, "A folder name cannot start with a space or end with a dot or space — Windows silently trims them, so the canvas would no longer match the disk: ");
                    push_str(&mut s, name.as_str());
                },
            },
            MapError::BadPlaceholder { name, reason } => match lang {
                Locale::Zh => {
                    push_str(&mut s, "节点名「");
                    push_str(&mut s, name.as_str());
                    push_str(&mut s, "」里的占位符不合法：");
                    let t = reason.describe(lang);
                    push_str(&mut s, t.as_str());
                },
                Locale::En => {
                    push_str(&mut s, "The placeholder in node name \"");
                    push_str(&mut s, name.as_str());
                    push_str(&mut s, "\" is not valid: ");
                    let t = reason.describe(lang);
                    push_str(&mut s, t.as_str());
                },
            },
            MapError::DuplicateSibling { name } => match lang {
                Locale::Zh => {
                    push_str(&mut s, "同一层已有叫「");
                    push_str(&mut s, name.as_str());
                    push_str(&mut s, "」的目录（Windows 不区分大小写），换个名字");
                },
                Locale::En => {
                    push_str(&mut s, "A folder named \"");
                    push_str(&mut s, name.as_str());
                    push_str(&mut s, "\" already exists at this level (Windows is case-insensitive) — pick another name");
                },
            },
            MapError::TooDeep { max } => match lang {
                Locale::Zh => {
                    push_str(&mut s, "目录最多嵌套 ");
                    push_dec(&mut s, *max as u64);
                    push_str(&mut s, " 层，再深路径就要超出 Windows 的长度限制了");
                },
                Locale::En => {
                    push_str(&mut s, "Folders can be nested at most ");
                    push_dec(&mut s, *max as u64);
                    push_str(&mut s, " levels deep — any deeper and paths hit the Windows length limit");
                },
            },
            MapError::NodeMissing { id } => match lang {
                Locale::Zh => {
                    push_str(&mut s, "找不到这个节点：");
                    push_str(&mut s, id.as_str());
                },
                Locale::En => {
                    push_str(&mut s, "No such node: ");
                    push_str(&mut s, id.as_str());
                },
            },
            MapError::WouldCycle { name } => match lang {
                Locale::Zh => {
                    push_str(&mut s, "不能把「");
                    push_str(&mut s, name.as_str());
                    push_str(&mut s, "」挂到它自己（或它的子目录）下面");
                },
                Locale::En => {
                    push_str(&mut s, "\"");
                    push_str(&mut s, name.as_str());
                    push_str(&mut s, "\" cannot be moved under itself or one of its own subfolders");
                },
            },
            MapError::AssignmentMissing { id } => match lang {
                Locale::Zh => {
                    push_str(&mut s, "找不到这条落位：");
                    push_str(&mut s, id.as_str());
                },
                Locale::En => {
                    push_str(&mut s, "No such assignment: ");
                    push_str(&mut s, id.as_str());
                },
            },
            MapError::DuplicateAssignment { device_name, node_name } => match lang {
                Locale::Zh => {
                    push_str(&mut s, "「");
                    push_str(&mut s, device_name.as_str());
                    push_str(&mut s, "」已经连到「");
                    push_str(&mut s, node_name.as_str());
                    push_str(&mut s, "」了——重复连线只会拷出两份一样的东西");
                },
                Locale::En => {
                    push_str(&mut s, "\"");
                    push_str(&mut s, device_name.as_str());
                    push_str(&mut s, "\" is already connected to \"");
                    push_str(&mut s, node_name.as_str());
                    push_str(&mut s, "\" — a duplicate line would just copy the same thing twice");
                },
            },
            MapError::SourceOffline { device_name } => match lang {
                Locale::Zh => {
                    push_str(&mut s, "「");
                    push_str(&mut s, device_name.as_str());
                    push_str(&mut s, "」现在不在机上，插回来再派发");
                },
                Locale::En => {
                    push_str(&mut s, "\"");
                    push_str(&mut s, device_name.as_str());
                    push_str(&mut s, "\" is not connected right now — plug it back in before dispatching");
                },
            },
            MapError::EmptyMap => match lang {
                Locale::Zh => {
                    push_str(&mut s, "导图还是空的，没有可导出的结构");
                },
                Locale::En => {
                    push_str(&mut s, "The map is empty — there is nothing to export yet");
                },
            },
            MapError::BadTemplateString { template, reason } => match lang {
                Locale::Zh => {
                    push_str(&mut s, "模板串「");
                    push_str(&mut s, template.as_str());
                    push_str(&mut s, "」不合法：");
                    let t = reason.describe(lang);
                    push_str(&mut s, t.as_str());
                },
                Locale::En => {
                    push_str(&mut s, "The template string \"");
                    push_str(&mut s, template.as_str());
                    push_str(&mut s, "\" is not valid: ");
                    let t = reason.describe(lang);
                    push_str(&mut s, t.as_str());
                },
            },
            MapError::Inconsistent { detail } => match lang {
                Locale::Zh => {
                    push_str(&mut s, "导图数据不一致（配置可能被外部改过）：");
                    push_str(&mut s, detail.as_str());
                },
                Locale::En => {
                    push_str(&mut s, "The map data is inconsistent (the configuration may have been edited externally): ");
                    push_str(&mut s, detail.as_str());
                },
            },
            MapError::Unreadable { path, reason } => match lang {
                Locale::Zh => {
                    push_str(&mut s, "读不了项目目录 ");
                    push_str(&mut s, path.as_str());
                    push_str(&mut s, "：");
                    push_str(&mut s, reason.as_str());
                },
                Locale::En => {
                    push_str(&mut s, "Could not read the project folder ");
                    push_str(&mut s, path.as_str());
                    push_str(&mut s, ": ");
                    push_str(&mut s, reason.as_str());
                },
            },
            MapError::NotAChain { at, branches } => match (at, lang) {
                (Some(n), Locale::Zh) => {
                    push_str(&mut s, "「");
                    push_str(&mut s, n.as_str());
                    push_str(&mut s, "」下有 ");
                    push_dec(&mut s, *branches as u64);
                    push_str(&mut s, " 个分支，一串字符串模板表达不了分叉——要保结构请存成导图模板");
                },
                (None, Locale::Zh) => {
                    push_str(&mut s, "顶层有 ");
                    push_dec(&mut s, *branches as u64);
                    push_str(&mut s, " 个并列目录，一串字符串模板表达不了分叉——要保结构请存成导图模板");
                },
                (Some(n), Locale::En) => {
                    push_str(&mut s, "\"");
                    push_str(&mut s, n.as_str());
                    push_str(&mut s, "\" has ");
                    push_dec(&mut s, *branches as u64);
                    push_str(&mut s, " branches — a single string template cannot express a fork. Save it as a map template to keep the structure");
                },
                (None, Locale::En) => {
                    push_str(&mut s, "There are ");
                    push_dec(&mut s, *branches as u64);
                    push_str(&mut s, " folders side by side at the top level — a single string template cannot express a fork. Save it as a map template to keep the structure");
                },
            },
        }
        proof {
            assert(s@ =~= map_error_text(self@, lang));
        }
        s
    }
}

} // verus!
