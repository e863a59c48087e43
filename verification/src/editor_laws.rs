//! What the steps of the editor change, and what they leave as it is.

use vstd::prelude::*;

use crate::editor;
use crate::editor::{EditorModel, NoticeModel, Pending, Step};
use crate::identity;
use crate::model;
use crate::model::{FactoryModel, Field, OpenedModel, Part};
use crate::save_laws;
use crate::wording;
use crate::wording::Language;

verus! {

/// What a user has under way beside the factory: a request that was kept, the leave to close, and
/// the language.
pub open spec fn same_session<P>(a: EditorModel<P>, b: EditorModel<P>) -> bool {
    a.pending == b.pending && a.close_allowed == b.close_allowed && a.language == b.language
}

/// Where the factory came from, and what is known of it.
pub open spec fn same_source<P>(a: EditorModel<P>, b: EditorModel<P>) -> bool {
    a.source == b.source && a.source_is_stock == b.source_is_stock && a.import_warning
        == b.import_warning
}

/// The user is told of a success.
pub open spec fn tells_success<P>(e: EditorModel<P>) -> bool {
    e.notice matches Some(NoticeModel::Info(m)) && m.len() > 0
}

/// Opening takes up the factory that was opened with all that is known of it, and nothing of it is
/// unsaved. Opening that fails changes nothing but what the user is told.
pub proof fn opening_takes_up_all<P>(
    e: EditorModel<P>,
    path: P,
    r: Result<OpenedModel, Seq<char>>,
)
    ensures
        ({
            let after = editor::with_opened(e, path, r);
            &&& same_session(e, after)
            &&& r matches Ok(o) ==> {
                &&& after.factory == o.factory
                &&& after.source == Some(path)
                &&& after.source_is_stock == o.source_is_stock
                &&& after.import_warning == o.warning
                &&& !after.dirty
                &&& tells_success(after)
            }
            &&& r matches Err(m) ==> {
                &&& after.factory == e.factory && same_source(e, after) && after.dirty == e.dirty
                &&& after.notice == Some(NoticeModel::Error(m))
            }
        }),
{
    reveal_strlit("Imported stock data");
    reveal_strlit("已导入原厂数据");
    reveal_strlit("Opened");
    reveal_strlit("已打开");
}

/// A new factory comes from nowhere and has nothing unsaved.
pub proof fn new_factory_has_no_source<P>(e: EditorModel<P>, r: Result<FactoryModel, Seq<char>>)
    ensures
        ({
            let after = editor::with_created(e, r);
            &&& same_session(e, after)
            &&& r matches Ok(f) ==> {
                &&& after.factory == f
                &&& after.source is None && !after.source_is_stock && after.import_warning is None
                &&& !after.dirty
                &&& tells_success(after)
            }
            &&& r matches Err(m) ==> {
                &&& after.factory == e.factory && same_source(e, after) && after.dirty == e.dirty
                &&& after.notice == Some(NoticeModel::Error(m))
            }
        }),
{
    reveal_strlit("Created");
    reveal_strlit("已新建");
}

/// A replaced part is unsaved, and says nothing of where the factory came from.
pub proof fn replaced_part_is_unsaved<P>(
    e: EditorModel<P>,
    p: Part,
    r: Result<FactoryModel, Seq<char>>,
)
    ensures
        ({
            let after = editor::with_part(e, p, r);
            &&& same_session(e, after) && same_source(e, after)
            &&& r matches Ok(f) ==> after.factory == f && after.dirty && tells_success(after)
            &&& r matches Err(m) ==> after.factory == e.factory && after.dirty == e.dirty
                && after.notice == Some(NoticeModel::Error(m))
        }),
{
    reveal_strlit("Replaced ");
    reveal_strlit("已替换");
}

/// A line that chance filled is unsaved; the other lines and the image stay.
pub proof fn random_line_is_unsaved<P>(
    e: EditorModel<P>,
    field: Field,
    r: Result<Seq<char>, Seq<char>>,
)
    ensures
        ({
            let after = editor::with_random(e, field, r);
            let f = e.factory;
            let g = after.factory;
            &&& same_session(e, after) && same_source(e, after)
            &&& g.image == f.image && g.device_sn == f.device_sn
            &&& field != Field::Mac ==> g.mac == f.mac
            &&& field != Field::WifiMac ==> g.wifi_mac == f.wifi_mac
            &&& field != Field::WifiMac2 ==> g.wifi_mac2 == f.wifi_mac2
            &&& field != Field::PonSn ==> g.pon_sn == f.pon_sn
            &&& r matches Ok(v) ==> {
                &&& after.dirty
                &&& after.notice is None
                &&& field == Field::Mac ==> g.mac == v
                &&& field == Field::WifiMac ==> g.wifi_mac == v
                &&& field == Field::WifiMac2 ==> g.wifi_mac2 == v
                &&& field == Field::PonSn ==> g.pon_sn == v
            }
            &&& r matches Err(m) ==> g == f && after.dirty == e.dirty && after.notice == Some(
                NoticeModel::Error(m),
            )
        }),
{
}

/// What the user is told changes nothing else; an empty message takes the last one away.
pub proof fn notices_change_nothing_else<P>(e: EditorModel<P>, r: Result<Seq<char>, Seq<char>>)
    ensures
        ({
            let after = editor::noticed(e, r);
            &&& after.factory == e.factory && same_source(e, after) && same_session(e, after)
                && after.dirty == e.dirty
            &&& r matches Ok(m) ==> after.notice == if m.len() == 0 {
                None
            } else {
                Some(NoticeModel::Info(m))
            }
            &&& r matches Err(m) ==> after.notice == Some(NoticeModel::Error(m))
        }),
{
}

/// What a request asks for is done: closing is allowed, what is to be opened is read, and neither
/// touches the work; a new factory is made, or the work is kept.
pub proof fn requests_are_performed<P>(
    before: EditorModel<P>,
    request: Pending<P>,
    after: EditorModel<P>,
    step: Step<P>,
)
    requires
        editor::performed(before, request, after, step),
    ensures
        request matches Pending::Close ==> {
            &&& step is Close && after.close_allowed
            &&& after.factory == before.factory && same_source(before, after) && after.dirty
                == before.dirty && after.pending == before.pending
        },
        request matches Pending::Open(path) ==> after == before && step == Step::Read(path),
        request matches Pending::New ==> {
            &&& step is Done
            &&& same_session(before, after)
            &&& after.factory == before.factory || (after.source is None && !after.dirty
                && editor::is_new_factory(after.factory))
        },
{
    if request is New {
        let r = choose|r: Result<FactoryModel, Seq<char>>|
            after == #[trigger] editor::with_created(before, r) && (r matches Ok(f)
                ==> editor::is_new_factory(f));
        new_factory_has_no_source(before, r);
    }
}

/// An editor begins with nothing unsaved, nothing kept and nothing to tell.
pub proof fn editor_begins_clean<P>(f: FactoryModel)
    ensures
        ({
            let e = editor::begun::<P>(f);
            &&& e.factory == f
            &&& e.source is None && !e.source_is_stock && e.import_warning is None
            &&& !e.dirty && e.notice is None && e.pending is None && !e.close_allowed
        }),
{
}

/// A factory that chance made is erased but for its identity, and shows no Wi-Fi addresses.
pub proof fn new_factory_is_erased(f: FactoryModel)
    requires
        editor::is_new_factory(f),
    ensures
        f.image.len() == 0x10_0000,
        forall|i: int| 0 <= i < f.image.len() ==> #[trigger] f.image[i] == 0xff,
        f.wifi_mac.len() == 0 && f.wifi_mac2.len() == 0 && f.device_sn.len() == 0,
        f.mac.len() == 17 && f.pon_sn.len() == 12,
{
    reveal_strlit("");
    reveal_strlit("FHTT");
    let (mac, number) = choose|mac: Seq<u8>, number: Seq<u8>|
        mac.len() == 6 && number.len() == 4 && f == #[trigger] model::new_factory(mac, number);
    save_laws::mac_is_shown_with_colons(identity::local_address(mac), 0);
}

/// A message on a file names what was done, and then the file.
pub proof fn message_names_the_file(what: Seq<char>, target: Seq<char>)
    ensures
        ({
            let m = editor::done_to(what, target);
            &&& m.len() == what.len() + 2 + target.len()
            &&& m.take(what.len() as int) == what
            &&& m.skip(what.len() as int + 2) == target
        }),
{
    reveal_strlit(": ");
    let m = editor::done_to(what, target);
    assert(m.take(what.len() as int) =~= what);
    assert(m.skip(what.len() as int + 2) =~= target);
}

/// The line on what is edited begins with its path, and goes on exactly where changes are unsaved.
pub proof fn line_marks_unsaved_changes(language: Language, path: Seq<char>)
    ensures
        wording::source_line_of(language, Some(path), false) == path,
        ({
            let marked = wording::source_line_of(language, Some(path), true);
            marked.len() > path.len() && marked.take(path.len() as int) == path
        }),
        wording::source_line_of(language, None, true).len() > wording::source_line_of(
            language,
            None,
            false,
        ).len() > 0,
{
    reveal_strlit("  • Unsaved");
    reveal_strlit("  • 未保存");
    reveal_strlit("New factory");
    reveal_strlit("新建 Factory");
    let marked = wording::source_line_of(language, Some(path), true);
    assert(marked.take(path.len() as int) =~= path);
}

} // verus!
