//! The texts of the editor, in English and Chinese.

use vstd::prelude::*;
use vstd::string::StringExecFns;

use crate::calibration;
use crate::model::{ImportWarning, Part, PartStatus};
use crate::text;

verus! {

/// The language of the editor.
#[derive(Clone, Copy, Debug, PartialEq, Eq, Structural)]
pub enum Language {
    English,
    Chinese,
}

/// The text in the given language.
pub open spec fn spoken(language: Language, english: Seq<char>, chinese: Seq<char>) -> Seq<char> {
    match language {
        Language::English => english,
        Language::Chinese => chinese,
    }
}

/// The other language.
pub open spec fn other(language: Language) -> Language {
    match language {
        Language::English => Language::Chinese,
        Language::Chinese => Language::English,
    }
}

impl Language {
    /// The text in this language.
    pub fn text(self, english: &'static str, chinese: &'static str) -> (r: &'static str)
        ensures
            r@ == spoken(self, english@, chinese@),
    {
        match self {
            Self::English => english,
            Self::Chinese => chinese,
        }
    }

    /// Changes to the other language.
    pub fn toggle(&mut self)
        ensures
            *final(self) == other(*old(self)),
    {
        *self = match *self {
            Self::English => Self::Chinese,
            Self::Chinese => Self::English,
        };
    }
}

/// The title of a part.
pub open spec fn title_of(language: Language, part: Part) -> Seq<char> {
    match part {
        Part::Pon => spoken(language, "PON calibration"@, "光模块校准"@),
        Part::Wifi => "Wi-Fi EEPROM"@,
    }
}

/// The title of a part.
pub fn part_title(language: Language, part: Part) -> (r: &'static str)
    ensures
        r@ == title_of(language, part),
{
    match part {
        Part::Pon => language.text("PON calibration", "光模块校准"),
        Part::Wifi => "Wi-Fi EEPROM",
    }
}

/// A text, and a length in bytes behind it.
pub open spec fn with_length(what: Seq<char>, length: usize) -> Seq<char> {
    what + " · "@ + text::decimal(length as nat) + " B"@
}

/// What a part holds, in words.
pub open spec fn status_words(language: Language, status: PartStatus) -> Seq<char> {
    match status {
        PartStatus::Empty => spoken(language, "Not set"@, "未设置"@),
        PartStatus::Pon { chip, payload_length } => with_length(
            calibration::chip_name(chip),
            payload_length,
        ),
        PartStatus::Wifi { length } => with_length(spoken(language, "Valid"@, "有效"@), length),
        PartStatus::Invalid => spoken(language, "Invalid"@, "校验失败"@),
    }
}

fn show_length(what: &str, length: usize) -> (r: String)
    ensures
        r@ == with_length(what@, length),
{
    let mut shown = text::joined(what, " · ");
    text::push_decimal(&mut shown, length as u64);
    shown.append(" B");
    shown
}

/// What a part holds, in words.
pub fn part_status_text(language: Language, status: PartStatus) -> (r: String)
    ensures
        r@ == status_words(language, status),
{
    match status {
        PartStatus::Empty => language.text("Not set", "未设置").to_owned(),
        PartStatus::Pon { chip, payload_length } => show_length(chip.name(), payload_length),
        PartStatus::Wifi { length } => show_length(language.text("Valid", "有效"), length),
        PartStatus::Invalid => language.text("Invalid", "校验失败").to_owned(),
    }
}

/// What a user is told of an import.
pub open spec fn warning_words(language: Language, warning: ImportWarning) -> Seq<char> {
    match warning {
        ImportWarning::DirtyUbifs => spoken(
            language,
            "UBIFS has an uncommitted journal; data comes from the last committed index."@,
            "UBIFS 存在未提交日志，当前数据来自最后提交的索引。"@,
        ),
        ImportWarning::DamagedJffs2 => spoken(
            language,
            "JFFS2 contains CRC-damaged nodes; valid copies were used."@,
            "JFFS2 包含 CRC 错误节点，已使用有效副本。"@,
        ),
    }
}

/// What a user is told of an import.
pub fn warning_text(language: Language, warning: ImportWarning) -> (r: &'static str)
    ensures
        r@ == warning_words(language, warning),
{
    match warning {
        ImportWarning::DirtyUbifs => language.text(
            "UBIFS has an uncommitted journal; data comes from the last committed index.",
            "UBIFS 存在未提交日志，当前数据来自最后提交的索引。",
        ),
        ImportWarning::DamagedJffs2 => language.text(
            "JFFS2 contains CRC-damaged nodes; valid copies were used.",
            "JFFS2 包含 CRC 错误节点，已使用有效副本。",
        ),
    }
}

/// The name that is proposed for the file of an exported part.
pub open spec fn export_name_of(part: Part) -> Seq<char> {
    match part {
        Part::Pon => "pon-calibration.bin"@,
        Part::Wifi => "mt7916-eeprom.bin"@,
    }
}

/// The name that is proposed for the file of an exported part.
pub fn export_name(part: Part) -> (r: &'static str)
    ensures
        r@ == export_name_of(part),
{
    match part {
        Part::Pon => "pon-calibration.bin",
        Part::Wifi => "mt7916-eeprom.bin",
    }
}

/// The title of the window.
pub open spec fn window_title_of(language: Language) -> Seq<char> {
    spoken(language, "FiberHome Factory Editor"@, "烽火 Factory 编辑器"@)
}

/// The title of the window.
pub fn window_title(language: Language) -> (r: &'static str)
    ensures
        r@ == window_title_of(language),
{
    language.text("FiberHome Factory Editor", "烽火 Factory 编辑器")
}

/// The line that says what is edited, and whether it has unsaved changes.
pub open spec fn source_line_of(
    language: Language,
    source: Option<Seq<char>>,
    dirty: bool,
) -> Seq<char> {
    let what = match source {
        Some(path) => path,
        None => spoken(language, "New factory"@, "新建 Factory"@),
    };
    if dirty {
        what + spoken(language, "  • Unsaved"@, "  • 未保存"@)
    } else {
        what
    }
}

/// The line that says what is edited, and whether it has unsaved changes.
pub fn source_line(language: Language, source: Option<&str>, dirty: bool) -> (r: String)
    ensures
        r@ == source_line_of(
            language,
            match source {
                Some(path) => Some(path@),
                None => None,
            },
            dirty,
        ),
{
    let mut line = match source {
        Some(path) => path.to_owned(),
        None => language.text("New factory", "新建 Factory").to_owned(),
    };
    if dirty {
        line.append(language.text("  • Unsaved", "  • 未保存"));
    }
    line
}

/// Changing the language twice changes nothing.
pub proof fn toggling_twice_is_nothing(language: Language)
    ensures
        other(other(language)) == language,
{
}

} // verus!
