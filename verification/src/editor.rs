//! The decisions of the editor: what a request does to the state, and what is left to do
//! outside. Paths are of any type `P`.

use vstd::prelude::*;
use vstd::string::StringExecFns;

use crate::identity;
use crate::model;
use crate::model::{
    random_mac, random_sn, Factory, FactoryModel, Field, ImportWarning, OpenedModel, Part, Source,
};
use crate::text;
use crate::wording;
use crate::wording::Language;

verus! {

/// What was requested while changes were unsaved.
pub enum Pending<P> {
    New,
    Open(P),
    Close,
}

/// What is left to do outside.
pub enum Step<P> {
    Done,
    /// Close the window.
    Close,
    /// Read what is at this path, and hand it to [`Editor::finish_open`].
    Read(P),
}

/// What the user is told.
pub enum Notice {
    Info(String),
    Error(String),
}

/// What the user is told.
pub enum NoticeModel {
    Info(Seq<char>),
    Error(Seq<char>),
}

/// The state of the editor.
pub struct Editor<P> {
    pub factory: Factory,
    pub source: Option<P>,
    pub source_is_stock: bool,
    pub dirty: bool,
    pub notice: Option<Notice>,
    pub import_warning: Option<ImportWarning>,
    pub pending: Option<Pending<P>>,
    pub close_allowed: bool,
    pub language: Language,
}

/// The state of the editor.
pub struct EditorModel<P> {
    pub factory: FactoryModel,
    pub source: Option<P>,
    pub source_is_stock: bool,
    pub dirty: bool,
    pub notice: Option<NoticeModel>,
    pub import_warning: Option<ImportWarning>,
    pub pending: Option<Pending<P>>,
    pub close_allowed: bool,
    pub language: Language,
}

impl View for Notice {
    type V = NoticeModel;

    open spec fn view(&self) -> NoticeModel {
        match *self {
            Notice::Info(m) => NoticeModel::Info(m@),
            Notice::Error(m) => NoticeModel::Error(m@),
        }
    }
}

impl<P> View for Editor<P> {
    type V = EditorModel<P>;

    open spec fn view(&self) -> EditorModel<P> {
        EditorModel {
            factory: self.factory@,
            source: self.source,
            source_is_stock: self.source_is_stock,
            dirty: self.dirty,
            notice: match self.notice {
                Some(n) => Some(n@),
                None => None,
            },
            import_warning: self.import_warning,
            pending: self.pending,
            close_allowed: self.close_allowed,
            language: self.language,
        }
    }
}

/// An outcome that is told to the user, as characters.
pub open spec fn told(r: Result<String, String>) -> Result<Seq<char>, Seq<char>> {
    match r {
        Ok(m) => Ok(m@),
        Err(m) => Err(m@),
    }
}

/// What making a factory gave, in mathematical terms.
pub open spec fn made(r: Result<Factory, String>) -> Result<FactoryModel, Seq<char>> {
    match r {
        Ok(f) => Ok(f@),
        Err(m) => Err(m@),
    }
}

/// The state with an outcome told to the user; an empty message tells nothing.
pub open spec fn noticed<P>(e: EditorModel<P>, r: Result<Seq<char>, Seq<char>>) -> EditorModel<P> {
    EditorModel {
        notice: match r {
            Ok(m) => if m.len() == 0 {
                None
            } else {
                Some(NoticeModel::Info(m))
            },
            Err(m) => Some(NoticeModel::Error(m)),
        },
        ..e
    }
}

/// The state of an editor that has just begun with a factory.
pub open spec fn begun<P>(factory: FactoryModel) -> EditorModel<P> {
    EditorModel {
        factory,
        source: None,
        source_is_stock: false,
        dirty: false,
        notice: None,
        import_warning: None,
        pending: None,
        close_allowed: false,
        language: Language::English,
    }
}

/// The factory is one that [`Factory::new`] can give.
pub open spec fn is_new_factory(f: FactoryModel) -> bool {
    exists|mac: Seq<u8>, number: Seq<u8>|
        mac.len() == 6 && number.len() == 4 && f == #[trigger] model::new_factory(mac, number)
}

/// The text is one that chance can give to a line of the identity.
pub open spec fn is_random_value(field: Field, value: Seq<char>) -> bool {
    match field {
        Field::PonSn => exists|d: Seq<u8>|
            d.len() == 4 && value == "FHTT"@ + #[trigger] identity::hex_text(d),
        _ => exists|d: Seq<u8>|
            d.len() == 6 && value == identity::mac_text(#[trigger] identity::local_address(d)),
    }
}

/// The state with a value from chance in a line of the identity, or with the reason why there is
/// none.
pub open spec fn with_random<P>(
    e: EditorModel<P>,
    field: Field,
    value: Result<Seq<char>, Seq<char>>,
) -> EditorModel<P> {
    match value {
        Ok(v) => EditorModel {
            factory: model::with_field(e.factory, field, v),
            dirty: true,
            notice: None,
            ..e
        },
        Err(m) => noticed(e, Err(m)),
    }
}

/// The state with a new factory, or with the reason why there is none.
pub open spec fn with_created<P>(
    e: EditorModel<P>,
    r: Result<FactoryModel, Seq<char>>,
) -> EditorModel<P> {
    match r {
        Ok(factory) => noticed(
            EditorModel {
                factory,
                source: None,
                source_is_stock: false,
                import_warning: None,
                dirty: false,
                ..e
            },
            Ok(wording::spoken(e.language, "Created"@, "已新建"@)),
        ),
        Err(m) => noticed(e, Err(m)),
    }
}

/// The state with an opened factory, or with the reason why there is none.
pub open spec fn with_opened<P>(
    e: EditorModel<P>,
    path: P,
    r: Result<OpenedModel, Seq<char>>,
) -> EditorModel<P> {
    match r {
        Ok(opened) => noticed(
            EditorModel {
                factory: opened.factory,
                source: Some(path),
                source_is_stock: opened.source_is_stock,
                import_warning: opened.warning,
                dirty: false,
                ..e
            },
            Ok(
                if opened.source_is_stock {
                    wording::spoken(e.language, "Imported stock data"@, "已导入原厂数据"@)
                } else {
                    wording::spoken(e.language, "Opened"@, "已打开"@)
                },
            ),
        ),
        Err(m) => noticed(e, Err(m)),
    }
}

/// What performing a request does: a new factory is made, and opening and closing are left to do
/// outside.
pub open spec fn performed<P>(
    before: EditorModel<P>,
    request: Pending<P>,
    after: EditorModel<P>,
    step: Step<P>,
) -> bool {
    match request {
        Pending::Close => after == (EditorModel { close_allowed: true, ..before }) && step
            == Step::<P>::Close,
        Pending::Open(path) => after == before && step == Step::Read(path),
        Pending::New => step == Step::<P>::Done && exists|r: Result<FactoryModel, Seq<char>>|
            after == #[trigger] with_created(before, r) && (r matches Ok(f) ==> is_new_factory(f)),
    }
}

/// A message on a file: what was done to it, and its path.
pub open spec fn done_to(what: Seq<char>, target: Seq<char>) -> Seq<char> {
    what + ": "@ + target
}

impl<P> Editor<P> {
    /// The factory has a full image.
    pub open spec fn wf(&self) -> bool {
        self.factory.wf()
    }

    /// Begins with the given factory.
    pub fn with_factory(factory: Factory) -> (r: Self)
        requires
            factory.wf(),
        ensures
            r.wf(),
            r@ == begun::<P>(factory@),
    {
        Editor {
            factory,
            source: None,
            source_is_stock: false,
            dirty: false,
            notice: None,
            import_warning: None,
            pending: None,
            close_allowed: false,
            language: Language::English,
        }
    }

    /// Begins with a factory that was made, or gives the error that kept it from being made.
    pub fn from_made(factory: Result<Factory, String>) -> (r: Result<Self, String>)
        requires
            factory matches Ok(f) ==> f.wf(),
        ensures
            text::says(
                r,
                match made(factory) {
                    Ok(f) => Ok(begun::<P>(f)),
                    Err(m) => Err(m),
                },
            ),
            r matches Ok(e) ==> e.wf(),
    {
        Ok(Self::with_factory(factory?))
    }

    /// Begins with a new factory.
    pub fn new() -> (r: Result<Self, String>)
        ensures
            r matches Ok(e) ==> e.wf() && is_new_factory(e@.factory) && e@ == begun::<P>(
                e@.factory,
            ),
    {
        Self::from_made(Factory::new())
    }

    /// Tells the user an outcome; an empty message tells nothing.
    pub fn message(&mut self, r: Result<String, String>)
        requires
            old(self).wf(),
        ensures
            final(self).wf(),
            final(self)@ == noticed(old(self)@, told(r)),
    {
        self.notice = match r {
            Ok(m) => if m.as_str().is_empty() {
                None
            } else {
                Some(Notice::Info(m))
            },
            Err(m) => Some(Notice::Error(m)),
        };
    }

    /// Puts a value from chance into a line of the identity.
    pub fn randomized(&mut self, field: Field, value: Result<String, String>)
        requires
            old(self).wf(),
        ensures
            final(self).wf(),
            final(self)@ == with_random(old(self)@, field, told(value)),
    {
        match value {
            Ok(v) => {
                self.factory.set_field(field, v);
                self.dirty = true;
                self.notice = None;
            },
            Err(m) => self.message(Err(m)),
        }
    }

    /// Fills a line of the identity at random.
    pub fn randomize(&mut self, field: Field)
        requires
            old(self).wf(),
        ensures
            final(self).wf(),
            exists|r: Result<Seq<char>, Seq<char>>|
                final(self)@ == #[trigger] with_random(old(self)@, field, r) && (r matches Ok(v)
                    ==> is_random_value(field, v)),
    {
        let value = match field {
            Field::PonSn => random_sn(),
            Field::Mac => random_mac(),
            Field::WifiMac => random_mac(),
            Field::WifiMac2 => random_mac(),
        };
        let ghost r = told(value);
        self.randomized(field, value);
        assert(self@ == with_random(old(self)@, field, r));
    }

    /// Changes to the other language.
    pub fn toggle_language(&mut self)
        requires
            old(self).wf(),
        ensures
            final(self).wf(),
            final(self)@ == (EditorModel {
                language: wording::other(old(self)@.language),
                notice: None,
                ..old(self)@
            }),
    {
        self.language.toggle();
        self.notice = None;
    }

    /// Takes up a new factory.
    pub fn created(&mut self, r: Result<Factory, String>)
        requires
            old(self).wf(),
            r matches Ok(f) ==> f.wf(),
        ensures
            final(self).wf(),
            final(self)@ == with_created(old(self)@, made(r)),
    {
        match r {
            Ok(factory) => {
                self.factory = factory;
                self.source = None;
                self.source_is_stock = false;
                self.import_warning = None;
                self.dirty = false;
                let m = self.language.text("Created", "已新建");
                self.message(Ok(m.to_owned()));
            },
            Err(m) => self.message(Err(m)),
        }
    }

    /// Performs a request as far as it needs nothing from outside.
    pub fn perform(&mut self, request: Pending<P>) -> (step: Step<P>)
        requires
            old(self).wf(),
        ensures
            final(self).wf(),
            performed(old(self)@, request, final(self)@, step),
    {
        match request {
            Pending::Close => {
                self.close_allowed = true;
                Step::Close
            },
            Pending::New => {
                let r = Factory::new();
                let ghost outcome = made(r);
                self.created(r);
                assert(self@ == with_created(old(self)@, outcome));
                Step::Done
            },
            Pending::Open(path) => Step::Read(path),
        }
    }

    /// Performs a request, or keeps it until unsaved changes are dealt with.
    pub fn request(&mut self, request: Pending<P>) -> (step: Step<P>)
        requires
            old(self).wf(),
        ensures
            final(self).wf(),
            if old(self)@.dirty {
                final(self)@ == (EditorModel { pending: Some(request), ..old(self)@ }) && step
                    == Step::<P>::Done
            } else {
                performed(old(self)@, request, final(self)@, step)
            },
    {
        if self.dirty {
            self.pending = Some(request);
            Step::Done
        } else {
            self.perform(request)
        }
    }

    /// Performs the request that was kept.
    pub fn continue_pending(&mut self) -> (step: Step<P>)
        requires
            old(self).wf(),
        ensures
            final(self).wf(),
            match old(self)@.pending {
                Some(request) => performed(
                    EditorModel { pending: None, ..old(self)@ },
                    request,
                    final(self)@,
                    step,
                ),
                None => final(self)@ == old(self)@ && step == Step::<P>::Done,
            },
    {
        match self.pending.take() {
            Some(request) => self.perform(request),
            None => Step::Done,
        }
    }

    /// Drops the request that was kept.
    pub fn cancel_pending(&mut self)
        requires
            old(self).wf(),
        ensures
            final(self).wf(),
            final(self)@ == (EditorModel { pending: None, ..old(self)@ }),
    {
        self.pending = None;
    }

    /// Opens what was read at a path.
    pub fn finish_open(&mut self, path: P, read: Result<Source, String>)
        requires
            old(self).wf(),
            read matches Ok(source) ==> source.wf(),
        ensures
            final(self).wf(),
            final(self)@ == with_opened(
                old(self)@,
                path,
                match read {
                    Ok(source) => model::opened(source),
                    Err(m) => Err(m@),
                },
            ),
    {
        let opened = match read {
            Ok(source) => Factory::open(source),
            Err(m) => Err(m),
        };
        match opened {
            Ok(opened) => {
                let m = if opened.source_is_stock {
                    self.language.text("Imported stock data", "已导入原厂数据")
                } else {
                    self.language.text("Opened", "已打开")
                };
                self.factory = opened.factory;
                self.source = Some(path);
                self.source_is_stock = opened.source_is_stock;
                self.import_warning = opened.warning;
                self.dirty = false;
                self.message(Ok(m.to_owned()));
            },
            Err(m) => self.message(Err(m)),
        }
    }

    /// Whether the request to close the window is to be called off, which it is while changes
    /// are unsaved.
    pub fn holds_close(&mut self, requested: bool) -> (cancel: bool)
        requires
            old(self).wf(),
        ensures
            final(self).wf(),
            cancel == (requested && old(self)@.dirty && !old(self)@.close_allowed),
            final(self)@ == if cancel {
                EditorModel { pending: Some(Pending::<P>::Close), ..old(self)@ }
            } else {
                old(self)@
            },
    {
        if requested && self.dirty && !self.close_allowed {
            self.pending = Some(Pending::Close);
            true
        } else {
            false
        }
    }

    /// The image to be saved; where there is none the user is told why.
    pub fn start_save(&mut self) -> (r: Option<Vec<u8>>)
        requires
            old(self).wf(),
        ensures
            final(self).wf(),
            match (model::applied(old(self)@.factory), r) {
                (Ok(image), Some(data)) => data@ == image && final(self)@ == old(self)@,
                (Err(m), None) => final(self)@ == noticed(old(self)@, Err(m)),
                _ => false,
            },
    {
        match self.factory.encode() {
            Ok(data) => Some(data),
            Err(m) => {
                self.message(Err(m));
                None
            },
        }
    }

    /// Whether an image may be saved to a file, given whether that is the file that was opened.
    /// Stock data is not overwritten.
    pub fn accepts_target(&mut self, same_as_source: bool) -> (r: bool)
        requires
            old(self).wf(),
        ensures
            final(self).wf(),
            r == !(old(self)@.source_is_stock && same_as_source),
            final(self)@ == if r {
                old(self)@
            } else {
                noticed(
                    old(self)@,
                    Err(
                        wording::spoken(
                            old(self)@.language,
                            "Choose a new output file for the converted image."@,
                            "请选择新的输出文件，保留原厂备份。"@,
                        ),
                    ),
                )
            },
    {
        if self.source_is_stock && same_as_source {
            let m = self.language.text(
                "Choose a new output file for the converted image.",
                "请选择新的输出文件，保留原厂备份。",
            );
            self.message(Err(m.to_owned()));
            return false;
        }
        true
    }

    /// Takes note of how writing the image to `target` ended.
    pub fn finish_save(&mut self, target: &str, written: Result<(), String>) -> (saved: bool)
        requires
            old(self).wf(),
        ensures
            final(self).wf(),
            saved == written is Ok,
            final(self)@ == match written {
                Ok(_) => noticed(
                    EditorModel { dirty: false, ..old(self)@ },
                    Ok(
                        done_to(wording::spoken(old(self)@.language, "Saved"@, "已保存"@), target@),
                    ),
                ),
                Err(m) => noticed(old(self)@, Err(m@)),
            },
    {
        match written {
            Ok(_) => {
                self.dirty = false;
                let mut m = text::joined(self.language.text("Saved", "已保存"), ": ");
                m.append(target);
                self.message(Ok(m));
                true
            },
            Err(m) => {
                self.message(Err(m));
                false
            },
        }
    }

    /// Erases a part.
    pub fn clear_part(&mut self, p: Part)
        requires
            old(self).wf(),
        ensures
            final(self).wf(),
            final(self)@ == (EditorModel {
                factory: model::cleared(old(self)@.factory, p),
                dirty: true,
                ..old(self)@
            }),
    {
        self.factory.clear(p);
        self.dirty = true;
    }

    /// Whether a part may be exported to a file, given whether that is the file that was opened.
    pub fn accepts_export(&mut self, same_as_source: bool) -> (r: bool)
        requires
            old(self).wf(),
        ensures
            final(self).wf(),
            r == !same_as_source,
            final(self)@ == if r {
                old(self)@
            } else {
                noticed(
                    old(self)@,
                    Err(
                        wording::spoken(
                            old(self)@.language,
                            "Choose a different component output file."@,
                            "请选择新的组件导出文件。"@,
                        ),
                    ),
                )
            },
    {
        if same_as_source {
            let m = self.language.text(
                "Choose a different component output file.",
                "请选择新的组件导出文件。",
            );
            self.message(Err(m.to_owned()));
            return false;
        }
        true
    }

    /// Takes note of how writing a part to `target` ended.
    pub fn finish_export(&mut self, target: &str, written: Result<(), String>)
        requires
            old(self).wf(),
        ensures
            final(self).wf(),
            final(self)@ == noticed(
                old(self)@,
                match written {
                    Ok(_) => Ok(
                        done_to(
                            wording::spoken(old(self)@.language, "Exported"@, "已导出"@),
                            target@,
                        ),
                    ),
                    Err(m) => Err(m@),
                },
            ),
    {
        match written {
            Ok(_) => {
                let mut m = text::joined(self.language.text("Exported", "已导出"), ": ");
                m.append(target);
                self.message(Ok(m));
            },
            Err(m) => self.message(Err(m)),
        }
    }

    /// Replaces a part with what was read at the path `source`.
    pub fn replace_part(&mut self, p: Part, source: &str, read: Result<Vec<u8>, String>)
        requires
            old(self).wf(),
        ensures
            final(self).wf(),
            final(self)@ == with_part(
                old(self)@,
                p,
                match read {
                    Ok(data) => model::replaced(old(self)@.factory, p, source@, data@),
                    Err(m) => Err(m@),
                },
            ),
    {
        let r = match read {
            Ok(data) => self.factory.replace(p, source, data.as_slice()),
            Err(m) => Err(m),
        };
        match r {
            Ok(_) => {
                self.dirty = true;
                let m = text::joined(
                    self.language.text("Replaced ", "已替换"),
                    wording::part_title(self.language, p),
                );
                self.message(Ok(m));
            },
            Err(m) => self.message(Err(m)),
        }
    }

    /// Takes note of whether the user changed a line of the identity.
    pub fn mark_edited(&mut self, changed: bool)
        requires
            old(self).wf(),
        ensures
            final(self).wf(),
            final(self)@ == (EditorModel { dirty: old(self)@.dirty || changed, ..old(self)@ }),
    {
        self.dirty = self.dirty || changed;
    }
}

/// The state with a replaced part, or with the reason why it was refused.
pub open spec fn with_part<P>(
    e: EditorModel<P>,
    p: Part,
    r: Result<FactoryModel, Seq<char>>,
) -> EditorModel<P> {
    match r {
        Ok(factory) => noticed(
            EditorModel { factory, dirty: true, ..e },
            Ok(
                wording::spoken(e.language, "Replaced "@, "已替换"@) + wording::title_of(
                    e.language,
                    p,
                ),
            ),
        ),
        Err(m) => noticed(e, Err(m)),
    }
}

/// What fails keeps the work: an outcome that is an error changes nothing but what the user is
/// told.
pub proof fn failures_keep_the_work<P>(
    e: EditorModel<P>,
    path: P,
    p: Part,
    field: Field,
    m: Seq<char>,
)
    ensures
        ({
            let after = EditorModel { notice: Some(NoticeModel::Error(m)), ..e };
            &&& with_opened(e, path, Err(m)) == after
            &&& with_created(e, Err(m)) == after
            &&& with_part(e, p, Err(m)) == after
            &&& with_random(e, field, Err(m)) == after
        }),
{
}

} // verus!
