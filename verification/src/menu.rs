//! The program menu: its entries, their keys, and what a choice does.

use crate::i18n::tr;
use crate::text::{chars_of, has_head, lowercase, same};
use vstd::prelude::*;

verus! {

pub const EVENT_MENU_ACTION: &'static str = "menu-action";

pub const ID_PICK: &'static str = "menu-pick";

pub const ID_START: &'static str = "menu-start";

pub const ID_EXPORT_LOG: &'static str = "menu-export-log";

pub const ID_CLEANUP: &'static str = "menu-cleanup";

pub const ID_HELP_GUIDE: &'static str = "menu-help-guide";

pub const ID_HELP_ISSUE: &'static str = "menu-help-issue";

pub const GUIDE_URL: &'static str = "https://github.com/yazhouzou/img-water#readme";

pub const ISSUE_URL: &'static str = "https://github.com/yazhouzou/img-water/issues/new";

/// The choices that are handed on to the window.
pub fn forwarded() -> (r: Vec<&'static str>)
    ensures
        r@ == seq![ID_PICK, ID_START, ID_EXPORT_LOG, ID_CLEANUP],
{
    let r: Vec<&'static str> = vec![ID_PICK, ID_START, ID_EXPORT_LOG, ID_CLEANUP];
    proof {
        assert(r@ =~= seq![ID_PICK, ID_START, ID_EXPORT_LOG, ID_CLEANUP]);
    }
    r
}

/// What a choice does.
#[derive(Clone, Copy, Debug, PartialEq, Eq, Structural)]
pub enum Choice {
    OpenGuide,
    OpenIssues,
    /// The window is told.
    Forward,
    /// The choice is not one of the program's own.
    Ignore,
}

/// What the choice with an id does.
pub open spec fn choice_of(id: Seq<char>) -> Choice {
    if id == ID_HELP_GUIDE@ {
        Choice::OpenGuide
    } else if id == ID_HELP_ISSUE@ {
        Choice::OpenIssues
    } else if id == ID_PICK@ || id == ID_START@ || id == ID_EXPORT_LOG@ || id == ID_CLEANUP@ {
        Choice::Forward
    } else {
        Choice::Ignore
    }
}

/// Decides what a choice does.
pub fn forward(id: &str) -> (r: Choice)
    ensures
        r == choice_of(id@),
{
    let s = chars_of(id);
    if same(s.as_slice(), chars_of(ID_HELP_GUIDE).as_slice()) {
        Choice::OpenGuide
    } else if same(s.as_slice(), chars_of(ID_HELP_ISSUE).as_slice()) {
        Choice::OpenIssues
    } else if same(s.as_slice(), chars_of(ID_PICK).as_slice()) || same(
        s.as_slice(),
        chars_of(ID_START).as_slice(),
    ) || same(s.as_slice(), chars_of(ID_EXPORT_LOG).as_slice()) || same(
        s.as_slice(),
        chars_of(ID_CLEANUP).as_slice(),
    ) {
        Choice::Forward
    } else {
        Choice::Ignore
    }
}

/// An entry of the program's own: its id, its label and its key, if it has one.
pub struct Entry {
    pub id: &'static str,
    pub label: String,
    pub accelerator: Option<&'static str>,
}

/// What an entry holds.
pub type EntryView = (Seq<char>, Seq<char>, Option<Seq<char>>);

impl Entry {
    pub open spec fn view(&self) -> EntryView {
        (
            self.id@,
            self.label@,
            match self.accelerator {
                Some(k) => Some(k@),
                None => None,
            },
        )
    }
}

/// What a list of entries holds.
pub open spec fn entries(v: Seq<Entry>) -> Seq<EntryView> {
    Seq::new(v.len(), |i: int| v[i].view())
}

/// A text in a language.
pub open spec fn said(lang: Seq<char>, zh: Seq<char>, en: Seq<char>) -> Seq<char> {
    if has_head(lowercase(lang), "zh"@) {
        zh
    } else {
        en
    }
}

/// The program's own menu in a language: its titles and its entries.
pub struct MenuModel {
    pub file_title: String,
    pub edit_title: String,
    pub help_title: String,
    pub file: Vec<Entry>,
    pub help: Vec<Entry>,
}

/// Builds the program's own menu in a language.
pub fn build(lang: &str) -> (r: MenuModel)
    ensures
        r.file_title@ == said(lang@, "文件"@, "File"@),
        r.edit_title@ == said(lang@, "编辑"@, "Edit"@),
        r.help_title@ == said(lang@, "帮助"@, "Help"@),
        entries(r.file@) == seq![
            (
                ID_PICK@,
                said(lang@, "选择文件夹…"@, "Open Folder…"@),
                Some("CmdOrCtrl+O"@),
            ),
            (
                ID_START@,
                said(lang@, "开始处理"@, "Start Processing"@),
                Some("CmdOrCtrl+Return"@),
            ),
            (ID_EXPORT_LOG@, said(lang@, "导出日志…"@, "Export Log…"@), None),
            (ID_CLEANUP@, said(lang@, "清理临时文件"@, "Clean Temporary Files"@), None),
        ],
        entries(r.help@) == seq![
            (ID_HELP_GUIDE@, said(lang@, "使用说明"@, "Usage Guide"@), None::<Seq<char>>),
            (ID_HELP_ISSUE@, said(lang@, "反馈问题"@, "Report an Issue"@), None::<Seq<char>>),
        ],
{
    let pick = Entry {
        id: ID_PICK,
        label: tr(lang, "选择文件夹…", "Open Folder…"),
        accelerator: Some("CmdOrCtrl+O"),
    };
    let start = Entry {
        id: ID_START,
        label: tr(lang, "开始处理", "Start Processing"),
        accelerator: Some("CmdOrCtrl+Return"),
    };
    let log = Entry {
        id: ID_EXPORT_LOG,
        label: tr(lang, "导出日志…", "Export Log…"),
        accelerator: None,
    };
    let clean = Entry {
        id: ID_CLEANUP,
        label: tr(lang, "清理临时文件", "Clean Temporary Files"),
        accelerator: None,
    };
    let guide = Entry {
        id: ID_HELP_GUIDE,
        label: tr(lang, "使用说明", "Usage Guide"),
        accelerator: None,
    };
    let issue = Entry {
        id: ID_HELP_ISSUE,
        label: tr(lang, "反馈问题", "Report an Issue"),
        accelerator: None,
    };
    let ghost wanted_file = seq![pick.view(), start.view(), log.view(), clean.view()];
    let ghost wanted_help = seq![guide.view(), issue.view()];
    let file: Vec<Entry> = vec![pick, start, log, clean];
    let help: Vec<Entry> = vec![guide, issue];
    proof {
        assert(entries(file@) =~= wanted_file);
        assert(entries(help@) =~= wanted_help);
    }
    MenuModel {
        file_title: tr(lang, "文件", "File"),
        edit_title: tr(lang, "编辑", "Edit"),
        help_title: tr(lang, "帮助", "Help"),
        file,
        help,
    }
}

} // verus!
