//! The decisions of the editor, its texts and the choice of a font.

use fiberhome_factory::editor::{Editor, Notice, Pending, Step};
use fiberhome_factory::font::{candidate_faces, find_table, supports_chinese};
use fiberhome_factory::model::{
    Factory, Field, ImportWarning, Part, PartStatus, PonCalibrationChip, Source,
};
use fiberhome_factory::names::Files;
use fiberhome_factory::wording::{
    export_name, part_status_text, part_title, source_line, warning_text, window_title, Language,
};

fn editor() -> Editor<u32> {
    Editor::with_factory(Factory::blank(
        "02:00:00:00:00:01".to_string(),
        "FHTT00000001".to_string(),
    ))
}

fn info(e: &Editor<u32>) -> &str {
    match &e.notice {
        Some(Notice::Info(m)) => m,
        _ => panic!("no information"),
    }
}

fn error(e: &Editor<u32>) -> &str {
    match &e.notice {
        Some(Notice::Error(m)) => m,
        _ => panic!("no error"),
    }
}

fn eeprom() -> Vec<u8> {
    let mut d = vec![0u8; 0x1000];
    d[0] = 0x16;
    d[1] = 0x79;
    d
}

#[test]
fn editor_begins_clean() {
    let e: Editor<u32> = Editor::new().unwrap();
    assert!(!e.dirty && !e.source_is_stock && !e.close_allowed);
    assert!(e.source.is_none() && e.notice.is_none() && e.pending.is_none());
    assert!(e.language == Language::English);
    assert!(e.factory.encode().is_ok());
}

#[test]
fn messages_become_notices() {
    let mut e = editor();
    e.message(Ok("done".to_string()));
    assert_eq!(info(&e), "done");
    e.message(Err("failed".to_string()));
    assert_eq!(error(&e), "failed");
    e.message(Ok(String::new()));
    assert!(e.notice.is_none());
}

#[test]
fn random_values_make_dirty() {
    let mut e = editor();
    e.randomize(Field::PonSn);
    assert!(e.dirty);
    assert_eq!(&e.factory.pon_sn[..4], "FHTT");
    assert_ne!(e.factory.pon_sn, "FHTT00000001");
    e.randomize(Field::WifiMac);
    assert_eq!(e.factory.wifi_mac.len(), 17);
    let mut e = editor();
    e.randomized(Field::Mac, Err("no entropy".to_string()));
    assert!(!e.dirty);
    assert_eq!(e.factory.mac, "02:00:00:00:00:01");
    assert_eq!(error(&e), "no entropy");
}

#[test]
fn language_is_toggled() {
    let mut e = editor();
    e.message(Err("x".to_string()));
    e.toggle_language();
    assert!(e.language == Language::Chinese);
    assert!(e.notice.is_none());
    assert_eq!(window_title(e.language), "烽火 Factory 编辑器");
    e.toggle_language();
    assert!(e.language == Language::English);
    assert_eq!(window_title(e.language), "FiberHome Factory Editor");
    let mut l = Language::Chinese;
    l.toggle();
    assert_eq!(l.text("a", "b"), "a");
}

#[test]
fn clean_requests_are_performed() {
    let mut e = editor();
    assert!(matches!(e.request(Pending::Open(7)), Step::Read(7)));
    assert!(matches!(e.request(Pending::Close), Step::Close));
    assert!(e.close_allowed);
    e.source = Some(1);
    e.source_is_stock = true;
    assert!(matches!(e.request(Pending::New), Step::Done));
    assert!(e.source.is_none() && !e.source_is_stock);
    assert_eq!(info(&e), "Created");
}

#[test]
fn unsaved_changes_hold_requests() {
    let mut e = editor();
    e.mark_edited(false);
    assert!(!e.dirty);
    e.mark_edited(true);
    e.mark_edited(false);
    assert!(e.dirty);
    assert!(matches!(e.request(Pending::New), Step::Done));
    assert_eq!(e.factory.mac, "02:00:00:00:00:01");
    assert!(matches!(e.pending, Some(Pending::New)));
    e.cancel_pending();
    assert!(matches!(e.continue_pending(), Step::Done));
    assert!(matches!(e.request(Pending::Open(3)), Step::Done));
    assert!(matches!(e.continue_pending(), Step::Read(3)));
    assert!(e.pending.is_none());
}

#[test]
fn closing_is_held_while_dirty() {
    let mut e = editor();
    assert!(!e.holds_close(true));
    e.mark_edited(true);
    assert!(!e.holds_close(false));
    assert!(e.pending.is_none());
    assert!(e.holds_close(true));
    assert!(matches!(e.continue_pending(), Step::Close));
    assert!(!e.holds_close(true));
}

#[test]
fn opened_sources_are_taken_up() {
    let mut e = editor();
    e.mark_edited(true);
    let image = e.factory.encode().unwrap();
    e.finish_open(5, Ok(Source::Image(image)));
    assert!(!e.dirty && !e.source_is_stock);
    assert!(e.source == Some(5));
    assert_eq!(info(&e), "Opened");
    let mut files = Files::new();
    files.insert(
        "factory_conf".to_string(),
        b"config key 'brmac'\noption value '02:11:22:33:44:54'\n\
          config key 'GponSN'\noption value '4648545412345678'\n"
            .to_vec(),
    );
    e.finish_open(6, Ok(Source::Directory(files)));
    assert!(e.source_is_stock);
    assert_eq!(info(&e), "Imported stock data");
    assert_eq!(e.factory.mac, "02:11:22:33:44:54");
    e.toggle_language();
    let image = e.factory.encode().unwrap();
    e.finish_open(7, Ok(Source::Image(image)));
    assert_eq!(info(&e), "已打开");
}

#[test]
fn failures_keep_the_work() {
    let mut e = editor();
    e.mark_edited(true);
    e.finish_open(5, Err("gone".to_string()));
    assert_eq!(error(&e), "gone");
    e.finish_open(5, Ok(Source::Image(vec![1])));
    assert_eq!(error(&e), "Unified factory image must be exactly 1 MiB");
    e.created(Err("no entropy".to_string()));
    assert_eq!(error(&e), "no entropy");
    e.replace_part(Part::Wifi, "w.bin", Err("unreadable".to_string()));
    assert_eq!(error(&e), "unreadable");
    assert!(e.dirty && e.source.is_none());
    assert_eq!(e.factory.mac, "02:00:00:00:00:01");
}

#[test]
fn saving_ends_unsaved_changes() {
    let mut e = editor();
    e.mark_edited(true);
    let image = e.start_save().unwrap();
    assert_eq!(image.len(), 1024 * 1024);
    assert!(!e.finish_save("a.bin", Err("disk full".to_string())));
    assert!(e.dirty);
    assert_eq!(error(&e), "disk full");
    assert!(e.finish_save("a.bin", Ok(())));
    assert!(!e.dirty);
    assert_eq!(info(&e), "Saved: a.bin");
    e.factory.mac = "bad".to_string();
    assert!(e.start_save().is_none());
    assert_eq!(error(&e), "Invalid base MAC length in identity");
}

#[test]
fn stock_source_is_not_overwritten() {
    let mut e = editor();
    assert!(e.accepts_target(true));
    e.source_is_stock = true;
    assert!(e.accepts_target(false));
    assert!(!e.accepts_target(true));
    assert_eq!(
        error(&e),
        "Choose a new output file for the converted image."
    );
}

#[test]
fn parts_are_replaced_exported_and_cleared() {
    let mut e = editor();
    e.replace_part(Part::Wifi, "w.bin", Ok(eeprom()));
    assert!(e.dirty);
    assert_eq!(info(&e), "Replaced Wi-Fi EEPROM");
    e.toggle_language();
    e.replace_part(Part::Wifi, "w.bin", Ok(eeprom()));
    assert_eq!(info(&e), "已替换Wi-Fi EEPROM");
    assert!(e.accepts_export(false));
    e.finish_export("o.bin", Ok(()));
    assert_eq!(info(&e), "已导出: o.bin");
    e.finish_export("o.bin", Err("full".to_string()));
    assert_eq!(error(&e), "full");
    assert!(!e.accepts_export(true));
    assert_eq!(error(&e), "请选择新的组件导出文件。");
    e.dirty = false;
    e.clear_part(Part::Wifi);
    assert!(e.dirty);
    assert!(!e.factory.part_present(Part::Wifi));
}

#[test]
fn texts_are_spoken_in_both_languages() {
    let (en, zh) = (Language::English, Language::Chinese);
    assert_eq!(part_title(en, Part::Pon), "PON calibration");
    assert_eq!(part_title(zh, Part::Pon), "光模块校准");
    assert_eq!(part_title(zh, Part::Wifi), "Wi-Fi EEPROM");
    assert_eq!(part_status_text(en, PartStatus::Empty), "Not set");
    assert_eq!(part_status_text(zh, PartStatus::Invalid), "校验失败");
    let pon = PartStatus::Pon {
        chip: PonCalibrationChip::Ux3363,
        payload_length: 1920,
    };
    assert_eq!(part_status_text(en, pon), "UX3363 · 1920 B");
    assert_eq!(
        part_status_text(zh, PartStatus::Wifi { length: 4096 }),
        "有效 · 4096 B"
    );
    assert_eq!(
        warning_text(en, ImportWarning::DamagedJffs2),
        "JFFS2 contains CRC-damaged nodes; valid copies were used."
    );
    assert_eq!(
        warning_text(zh, ImportWarning::DirtyUbifs),
        "UBIFS 存在未提交日志，当前数据来自最后提交的索引。"
    );
    assert_eq!(export_name(Part::Pon), "pon-calibration.bin");
    assert_eq!(export_name(Part::Wifi), "mt7916-eeprom.bin");
    assert_eq!(source_line(en, None, true), "New factory  • Unsaved");
    assert_eq!(source_line(zh, Some("a.bin"), false), "a.bin");
}

fn be16(d: &mut Vec<u8>, v: u16) {
    d.extend_from_slice(&v.to_be_bytes());
}

fn be32(d: &mut Vec<u8>, v: u32) {
    d.extend_from_slice(&v.to_be_bytes());
}

/// A character map subtable of the given format, 12 or 13, with one group for a character and
/// the given count of groups.
fn subtable(format: u16, count: u32, c: char) -> Vec<u8> {
    let mut s = Vec::new();
    be16(&mut s, format);
    be16(&mut s, 0);
    be32(&mut s, 28);
    be32(&mut s, 0);
    be32(&mut s, count);
    be32(&mut s, c as u32);
    be32(&mut s, c as u32);
    be32(&mut s, 1);
    s
}

/// A character map with the given subtables, each for Unicode on Windows.
fn cmap_of(subtables: &[Vec<u8>]) -> Vec<u8> {
    let mut cmap = Vec::new();
    be16(&mut cmap, 0);
    be16(&mut cmap, subtables.len() as u16);
    let mut at = 4 + 8 * subtables.len() as u32;
    for s in subtables {
        be16(&mut cmap, 3);
        be16(&mut cmap, 10);
        be32(&mut cmap, at);
        at += s.len() as u32;
    }
    for s in subtables {
        cmap.extend_from_slice(s);
    }
    cmap
}

/// A font with the given tables; the tables stand at `base` in the file.
fn font_of(tables: &[(&[u8; 4], Vec<u8>)], base: u32) -> Vec<u8> {
    let mut out = Vec::new();
    be32(&mut out, 0x0001_0000);
    be16(&mut out, tables.len() as u16);
    be16(&mut out, 64);
    be16(&mut out, 2);
    be16(&mut out, 0);
    let mut at: u32 = base + 12 + 16 * tables.len() as u32;
    for (tag, data) in tables {
        out.extend_from_slice(&tag[..]);
        be32(&mut out, 0);
        be32(&mut out, at);
        be32(&mut out, data.len() as u32);
        at += (data.len() as u32 + 3) & !3;
    }
    for (_, data) in tables {
        out.extend_from_slice(data);
        while out.len() % 4 != 0 {
            out.push(0);
        }
    }
    out
}

fn face_tables() -> (Vec<u8>, Vec<u8>, Vec<u8>) {
    let mut head = vec![0u8; 54];
    head[1] = 1;
    head[18] = 4;
    let mut hhea = vec![0u8; 36];
    hhea[1] = 1;
    hhea[35] = 1;
    let mut maxp = Vec::new();
    be32(&mut maxp, 0x5000);
    be16(&mut maxp, 2);
    (head, hhea, maxp)
}

fn font_with_map(cmap: Vec<u8>, base: u32) -> Vec<u8> {
    let (head, hhea, maxp) = face_tables();
    font_of(
        &[(b"cmap", cmap), (b"head", head), (b"hhea", hhea), (b"maxp", maxp)],
        base,
    )
}

/// A font with a glyph for one character alone.
fn font_with(c: char) -> Vec<u8> {
    font_with_map(cmap_of(&[subtable(12, 1, c)]), 0)
}

#[test]
fn fonts_with_oversized_lengths_are_refused() {
    let collection = [
        0x74, 0x74, 0x63, 0x66, 0, 0, 0, 0, 0xff, 0xff, 0xff, 0xff,
    ];
    assert!(!supports_chinese(&collection, 0));
    let mut wraps = collection;
    wraps[8..].copy_from_slice(&0x4000_0001u32.to_be_bytes());
    assert!(!supports_chinese(&wraps, 0));
    for format in [12, 13] {
        let broken = cmap_of(&[subtable(format, u32::MAX, '中')]);
        assert!(!supports_chinese(&font_with_map(broken, 0), 0));
    }
    for (format, at) in [(10u8, 16usize), (14, 6)] {
        let mut s = vec![0u8; 40];
        s[1] = format;
        s[at..at + 4].fill(0xff);
        assert!(!supports_chinese(&font_with_map(cmap_of(&[s]), 0), 0));
    }
}

#[test]
fn subtables_are_asked_in_order() {
    let good = || subtable(12, 1, '中');
    let other = || subtable(13, 1, 'a');
    let broken = || subtable(12, u32::MAX, '中');
    let shows = |tables: &[Vec<u8>]| supports_chinese(&font_with_map(cmap_of(tables), 0), 0);
    assert!(shows(&[other(), good()]));
    assert!(shows(&[good(), broken()]));
    assert!(!shows(&[broken(), good()]));
    assert!(!shows(&[other(), broken(), good()]));
    assert!(!shows(&[]));
    // A subtable that does not map Unicode does not count.
    let mut mac = cmap_of(&[good()]);
    mac[5] = 1;
    assert!(!supports_chinese(&font_with_map(mac, 0), 0));
}

#[test]
fn fonts_need_their_tables() {
    let cmap = cmap_of(&[subtable(12, 1, '中')]);
    let (head, hhea, maxp) = face_tables();
    let shows = |head: &[u8], hhea: &[u8], maxp: &[u8]| {
        let tables = [
            (b"cmap", cmap.clone()),
            (b"head", head.to_vec()),
            (b"hhea", hhea.to_vec()),
            (b"maxp", maxp.to_vec()),
        ];
        supports_chinese(&font_of(&tables, 0), 0)
    };
    assert!(shows(&head, &hhea, &maxp));
    assert!(!shows(&head[..53], &hhea, &maxp));
    assert!(!shows(&head, &hhea[..35], &maxp));
    assert!(!shows(&head, &hhea, &maxp[..5]));
    let with = |d: &[u8], at: usize, v: u8| {
        let mut d = d.to_vec();
        d[at] = v;
        d
    };
    assert!(!shows(&with(&head, 18, 0), &hhea, &maxp));
    assert!(!shows(&with(&head, 51, 2), &hhea, &maxp));
    assert!(!shows(&head, &hhea, &with(&maxp, 5, 0)));
    assert!(!shows(&head, &hhea, &with(&maxp, 0, 1)));
    // Of two tables of one name the last counts.
    let tables = [
        (b"cmap", cmap.clone()),
        (b"cmap", cmap_of(&[subtable(12, 1, 'a')])),
        (b"head", head),
        (b"hhea", hhea),
        (b"maxp", maxp),
    ];
    assert!(!supports_chinese(&font_of(&tables, 0), 0));
    // As many records as the directory can count.
    let mut many = vec![0u8; 12 + 16 * 0xffff];
    many[1] = 1;
    many[4] = 0xff;
    many[5] = 0xff;
    assert!(!supports_chinese(&many, 0));
}

#[test]
fn collections_hold_several_fonts() {
    let mut d = Vec::new();
    d.extend_from_slice(b"ttcf");
    be32(&mut d, 0x0001_0000);
    be32(&mut d, 2);
    let first = font_with_map(cmap_of(&[subtable(12, 1, 'a')]), 20);
    be32(&mut d, 20);
    be32(&mut d, 20 + first.len() as u32);
    let second = font_with_map(cmap_of(&[subtable(12, 1, '中')]), 20 + first.len() as u32);
    d.extend(first);
    d.extend(second);
    assert!(!supports_chinese(&d, 0));
    assert!(supports_chinese(&d, 1));
    assert!(!supports_chinese(&d, 2));
}

#[test]
fn collections_that_lead_nowhere_are_refused() {
    let font = font_with_map(cmap_of(&[subtable(12, 1, '中')]), 16);
    let collection = |start: u32| {
        let mut d = Vec::new();
        d.extend_from_slice(b"ttcf");
        be32(&mut d, 0x0001_0000);
        be32(&mut d, 1);
        be32(&mut d, start);
        d.extend_from_slice(&font);
        d
    };
    assert!(supports_chinese(&collection(16), 0));
    let end = 16 + font.len() as u32;
    for start in [0, 15, 17, end - 6, end - 5, end, end + 1, 0xfff0_0004, 0xffff_fff9, 0xffff_fffa, u32::MAX] {
        assert!(!supports_chinese(&collection(start), 0));
    }
    // More tables than the data holds.
    let mut cut = collection(16);
    cut[20] = 0xff;
    assert!(!supports_chinese(&cut, 0));
}

#[test]
fn fonts_are_searched_for_chinese() {
    assert!(supports_chinese(&font_with('中'), 0));
    assert!(!supports_chinese(&font_with('a'), 0));
    assert!(!supports_chinese(b"no font", 0));
    assert!(!supports_chinese(&font_with('中'), 3));
}

fn face(family: &str, data: Vec<u8>) -> fontdb::FaceInfo {
    fontdb::FaceInfo {
        id: fontdb::ID::dummy(),
        source: fontdb::Source::Binary(std::sync::Arc::new(data)),
        index: 0,
        families: vec![(family.to_string(), fontdb::Language::English_UnitedStates)],
        post_script_name: family.to_string(),
        style: fontdb::Style::Normal,
        weight: fontdb::Weight::NORMAL,
        stretch: fontdb::Stretch::Normal,
        monospaced: false,
    }
}

#[test]
fn preferred_faces_are_tried_first() {
    let mut database = fontdb::Database::new();
    assert!(candidate_faces(&database).is_empty());
    let other = database.push_face_info(face("Other", font_with('中')));
    let droid = database.push_face_info(face("Droid Sans Fallback", font_with('a')));
    let noto = database.push_face_info(face("Noto Sans SC", font_with('中')));
    assert_eq!(
        candidate_faces(&database),
        [noto, droid, other, droid, noto]
    );
    let supported: Vec<bool> = candidate_faces(&database)
        .into_iter()
        .map(|id| database.with_face_data(id, supports_chinese).unwrap())
        .collect();
    assert_eq!(supported, [true, false, true, false, true]);
}

#[test]
fn editor_begins_only_with_a_factory() {
    let made = Factory::from_image(vec![0xff; 1024 * 1024]);
    let e: Editor<u32> = Editor::from_made(made).unwrap();
    assert_eq!(e.factory.mac, "FF:FF:FF:FF:FF:FF");
    assert!(!e.dirty);
    let failed: Result<Editor<u32>, String> = Editor::from_made(Err("no entropy".to_string()));
    assert_eq!(failed.err().unwrap(), "no entropy");
}

#[test]
fn last_table_record_counts() {
    let data = b"0123456789";
    assert_eq!(find_table(data, &[(7, 1, 2), (8, 0, 9)], 7), b"12");
    assert_eq!(find_table(data, &[(7, 1, 2), (7, 4, 6)], 7), b"456789");
    assert_eq!(find_table(data, &[(7, 1, 2), (7, 4, 7)], 7), b"");
    assert_eq!(find_table(data, &[(7, 1, 2)], 9), b"");
}
