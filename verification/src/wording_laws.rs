//! What the texts of the editor tell apart.

use vstd::prelude::*;

use crate::calibration;
use crate::calibration::PonCalibrationChip;
use crate::model::{ImportWarning, Part, PartStatus};
use crate::text;
use crate::wording;
use crate::wording::Language;

verus! {

/// There are two languages: each text is given in both, and changing the language gives the other.
pub proof fn languages_are_two(language: Language, english: Seq<char>, chinese: Seq<char>)
    ensures
        wording::other(language) != language,
        wording::spoken(Language::English, english, chinese) == english,
        wording::spoken(Language::Chinese, english, chinese) == chinese,
{
}

/// The text tells a length in bytes, behind what it is the length of.
pub open spec fn tells_length(words: Seq<char>, what: Seq<char>, length: usize) -> bool {
    let digits = text::decimal(length as nat);
    &&& words.len() == what.len() + 3 + digits.len() + 2
    &&& words.take(what.len() as int) == what
    &&& words.subrange(what.len() as int + 3, what.len() as int + 3 + digits.len()) == digits
}

/// The words on a part tell its chip and its length where it is valid, and tell apart a part that
/// is not set and one that is invalid.
pub proof fn status_tells_chip_and_length(
    language: Language,
    chip: PonCalibrationChip,
    length: usize,
)
    ensures
        tells_length(
            wording::status_words(
                language,
                PartStatus::Pon { chip, payload_length: length },
            ),
            calibration::chip_name(chip),
            length,
        ),
        exists|what: Seq<char>| #[trigger]
            tells_length(
                wording::status_words(language, PartStatus::Wifi { length }),
                what,
                length,
            ),
        wording::status_words(language, PartStatus::Empty) != wording::status_words(
            language,
            PartStatus::Invalid,
        ),
        calibration::chip_name(PonCalibrationChip::Gn28l95) != calibration::chip_name(
            PonCalibrationChip::Ux3363,
        ),
{
    lemma_with_length(calibration::chip_name(chip), length);
    lemma_with_length(wording::spoken(language, "Valid"@, "有效"@), length);
    assert(tells_length(
        wording::status_words(language, PartStatus::Wifi { length }),
        wording::spoken(language, "Valid"@, "有效"@),
        length,
    ));
    reveal_strlit("Not set");
    reveal_strlit("Invalid");
    reveal_strlit("未设置");
    reveal_strlit("校验失败");
    reveal_strlit("GN28L95");
    reveal_strlit("UX3363");
    assert("Not set"@[0] != "Invalid"@[0]);
    assert("未设置"@.len() != "校验失败"@.len());
    assert("GN28L95"@.len() != "UX3363"@.len());
}

proof fn lemma_with_length(what: Seq<char>, length: usize)
    ensures
        tells_length(wording::with_length(what, length), what, length),
{
    reveal_strlit(" · ");
    reveal_strlit(" B");
    let words = wording::with_length(what, length);
    let digits = text::decimal(length as nat);
    assert(words.take(what.len() as int) =~= what);
    assert(words.subrange(what.len() as int + 3, what.len() as int + 3 + digits.len()) =~= digits);
}

/// The two warnings, the two parts and the files that they are exported to are told apart.
pub proof fn texts_tell_apart(language: Language)
    ensures
        wording::warning_words(language, ImportWarning::DirtyUbifs) != wording::warning_words(
            language,
            ImportWarning::DamagedJffs2,
        ),
        wording::title_of(language, Part::Pon) != wording::title_of(language, Part::Wifi),
        wording::export_name_of(Part::Pon) != wording::export_name_of(Part::Wifi),
{
    reveal_strlit("UBIFS has an uncommitted journal; data comes from the last committed index.");
    reveal_strlit("UBIFS 存在未提交日志，当前数据来自最后提交的索引。");
    reveal_strlit("JFFS2 contains CRC-damaged nodes; valid copies were used.");
    reveal_strlit("JFFS2 包含 CRC 错误节点，已使用有效副本。");
    reveal_strlit("PON calibration");
    reveal_strlit("光模块校准");
    reveal_strlit("Wi-Fi EEPROM");
    reveal_strlit("pon-calibration.bin");
    reveal_strlit("mt7916-eeprom.bin");
    let dirty = wording::warning_words(language, ImportWarning::DirtyUbifs);
    let damaged = wording::warning_words(language, ImportWarning::DamagedJffs2);
    assert(dirty[0] == 'U' && damaged[0] == 'J');
    assert(wording::title_of(language, Part::Pon)[0] != wording::title_of(language, Part::Wifi)[0]);
    assert(wording::export_name_of(Part::Pon)[0] != wording::export_name_of(Part::Wifi)[0]);
}

} // verus!
