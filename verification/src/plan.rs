//! What a processing batch does with a scan: which entries it works on, and
//! the route each one takes.
use vstd::prelude::*;
use crate::model::{entries_view, strs, Category, EntryView, NodeKind, PackEntry};
use crate::text::{chars_of, is_prefix, seq_eq, starts_with};

verus! {

/// The last entry at `path` (a later entry at the same path replaces an
/// earlier one).
pub open spec fn entry_index_at(es: Seq<EntryView>, path: Seq<char>) -> Option<int>
    decreases es.len(),
{
    if es.len() == 0 {
        None
    } else if es.last().1 == path {
        Some(es.len() - 1)
    } else {
        entry_index_at(es.drop_last(), path)
    }
}

pub open spec fn path_measure(p: Option<Seq<char>>) -> nat {
    match p {
        Some(s) => s.len() + 1,
        None => 0,
    }
}

/// Walking up from `parent`, some ancestor entry is a shell. The walk ends
/// at a path with no entry, and at a parent path not shorter than its
/// entry's own.
pub open spec fn shell_ancestor_from(es: Seq<EntryView>, parent: Option<Seq<char>>) -> bool
    decreases path_measure(parent),
{
    match parent {
        None => false,
        Some(p) => match entry_index_at(es, p) {
            None => false,
            Some(i) => es[i].3 == NodeKind::Shell || match es[i].2 {
                Some(q) => if q.len() < p.len() {
                    shell_ancestor_from(es, Some(q))
                } else {
                    false
                },
                None => false,
            },
        },
    }
}

pub open spec fn has_lunar(e: EntryView) -> bool {
    e.5.contains("lunar_escape"@)
}

/// The batch works on top-most shells, and on packs outside shells that
/// are neither ignored nor plainly normal.
pub open spec fn selected(es: Seq<EntryView>, i: int) -> bool {
    let e = es[i];
    let anc = shell_ancestor_from(es, e.2);
    (e.3 == NodeKind::Shell && !anc) || (e.3 == NodeKind::Pack && !anc && e.4 != Category::Ignored && (e.4
        != Category::Normal || has_lunar(e)))
}

/// Indices of the first `k` entries the batch works on.
pub open spec fn work_upto(es: Seq<EntryView>, k: int) -> Seq<int>
    decreases k,
{
    if k <= 0 || k > es.len() {
        Seq::<int>::empty()
    } else if selected(es, k - 1) {
        work_upto(es, k - 1).push(k - 1)
    } else {
        work_upto(es, k - 1)
    }
}

/// Entries strictly below `rel`.
pub open spec fn below(e: EntryView, rel: Seq<char>) -> bool {
    is_prefix(rel + "/"@, e.1)
}

/// Indices of the entries strictly below `rel`, in order.
pub open spec fn descendants_upto(es: Seq<EntryView>, rel: Seq<char>, k: int) -> Seq<int>
    decreases k,
{
    if k <= 0 || k > es.len() {
        Seq::<int>::empty()
    } else if below(es[k - 1], rel) {
        descendants_upto(es, rel, k - 1).push(k - 1)
    } else {
        descendants_upto(es, rel, k - 1)
    }
}

/// The first entry whose parent is `rel`.
pub open spec fn first_child_from(es: Seq<EntryView>, rel: Seq<char>, i: int) -> Option<int>
    decreases es.len() - i,
{
    if i < 0 || i >= es.len() {
        None
    } else if es[i].2 == Some(rel) {
        Some(i)
    } else {
        first_child_from(es, rel, i + 1)
    }
}

/// How one entry of the batch is handled.
#[derive(Debug, Clone, Copy, PartialEq, Eq, Structural)]
pub enum Route {
    /// A zip that wraps packs: unpack its packs and attachments.
    ArchiveShell,
    /// A folder whose one child is a wrapping zip: unpack that zip.
    ShellOverArchive { child: usize },
    /// A folder around one pack: release or repair that pack.
    FolderShell { child: usize },
    /// A folder shell whose child is gone from the scan.
    ShellWithoutChild,
    MoveToIllegal,
    ConvertNested,
    Convert,
}

/// One entry of the batch: its index in the scan, its route, and the path
/// to report when attachments stay in the original archive.
pub struct WorkItem {
    pub index: usize,
    pub route: Route,
    pub notice: Option<String>,
}

pub open spec fn is_archive_shell(e: EntryView) -> bool {
    e.3 == NodeKind::Shell && e.5.contains("archive_shell"@)
}

pub open spec fn keeps_attachments(e: EntryView) -> bool {
    e.5.contains("archive_root_attachments"@)
}

/// The route of the entry at `i`.
pub open spec fn route_of(es: Seq<EntryView>, i: int) -> Route {
    let e = es[i];
    if is_archive_shell(e) {
        Route::ArchiveShell
    } else if e.3 == NodeKind::Shell {
        match first_child_from(es, e.1, 0) {
            Some(c) => if is_archive_shell(es[c]) {
                Route::ShellOverArchive { child: c as usize }
            } else {
                Route::FolderShell { child: c as usize }
            },
            None => Route::ShellWithoutChild,
        }
    } else if e.4 == Category::Illegal {
        Route::MoveToIllegal
    } else if e.4 == Category::Nested && e.5.contains("nested_container"@) {
        Route::ConvertNested
    } else {
        Route::Convert
    }
}

/// The path reported when the archive handled for the entry at `i` keeps
/// attachments at its root.
pub open spec fn notice_of(es: Seq<EntryView>, i: int) -> Option<Seq<char>> {
    let e = es[i];
    if is_archive_shell(e) {
        if keeps_attachments(e) {
            Some(e.1)
        } else {
            None
        }
    } else if e.3 == NodeKind::Shell {
        match first_child_from(es, e.1, 0) {
            Some(c) => if is_archive_shell(es[c]) && keeps_attachments(es[c]) {
                Some(es[c].1)
            } else {
                None
            },
            None => None,
        }
    } else {
        None
    }
}

fn has_cause(causes: &Vec<String>, key: &str) -> (r: bool)
    ensures
        r == strs(causes@).contains(key@),
{
    let lit = chars_of(key);
    let mut i: usize = 0;
    while i < causes.len()
        invariant
            0 <= i <= causes@.len(),
            lit@ == key@,
            forall|j: int| 0 <= j < i ==> strs(causes@)[j] != key@,
        decreases causes@.len() - i,
    {
        if seq_eq(chars_of(causes[i].as_str()).as_slice(), lit.as_slice()) {
            assert(strs(causes@)[i as int] == key@);
            return true;
        }
        i = i + 1;
    }
    false
}

fn same_text(a: &String, b: &String) -> (r: bool)
    ensures
        r == (a@ == b@),
{
    seq_eq(chars_of(a.as_str()).as_slice(), chars_of(b.as_str()).as_slice())
}

/// Index of the last entry at `path`.
pub fn entry_at(entries: &Vec<PackEntry>, path: &String) -> (r: Option<usize>)
    ensures
        match r {
            Some(i) => entry_index_at(entries_view(entries@), path@) == Some(i as int) && i < entries@.len(),
            None => entry_index_at(entries_view(entries@), path@) is None,
        },
{
    let ghost ev = entries_view(entries@);
    let mut k: usize = entries.len();
    assert(ev.take(k as int) =~= ev);
    while k > 0
        invariant
            0 <= k <= entries@.len(),
            ev == entries_view(entries@),
            entry_index_at(ev, path@) == entry_index_at(ev.take(k as int), path@),
        decreases k,
    {
        let ghost t = ev.take(k as int);
        assert(t.last() == entries@[k - 1]@);
        assert(t.drop_last() =~= ev.take(k - 1));
        if same_text(&entries[k - 1].relative_path, path) {
            return Some(k - 1);
        }
        k = k - 1;
    }
    None
}

/// Whether some entry above this one is a shell.
pub fn has_shell_ancestor(entries: &Vec<PackEntry>, e: &PackEntry) -> (r: bool)
    ensures
        r == shell_ancestor_from(entries_view(entries@), e@.2),
{
    let ghost ev = entries_view(entries@);
    let mut parent: Option<&String> = e.parent_path.as_ref();
    assert(e@.2 == match parent {
        Some(p) => Some(p@),
        None => None::<Seq<char>>,
    });
    loop
        invariant
            ev == entries_view(entries@),
            shell_ancestor_from(ev, e@.2) == shell_ancestor_from(ev, match parent {
                Some(p) => Some(p@),
                None => None,
            }),
        decreases path_measure(match parent {
            Some(p) => Some(p@),
            None => None,
        }),
    {
        let p = match parent {
            None => {
                return false;
            },
            Some(p) => p,
        };
        let i = match entry_at(entries, p) {
            None => {
                return false;
            },
            Some(i) => i,
        };
        let a = &entries[i];
        assert(ev[i as int] == a@);
        if a.kind == NodeKind::Shell {
            return true;
        }
        match &a.parent_path {
            Some(q) => {
                if chars_of(q.as_str()).len() < chars_of(p.as_str()).len() {
                    parent = Some(q);
                } else {
                    return false;
                }
            },
            None => {
                return false;
            },
        }
    }
}

/// Index of the first entry whose parent is `rel`.
pub fn first_child(entries: &Vec<PackEntry>, rel: &String) -> (r: Option<usize>)
    ensures
        match r {
            Some(i) => first_child_from(entries_view(entries@), rel@, 0) == Some(i as int) && i < entries@.len(),
            None => first_child_from(entries_view(entries@), rel@, 0) is None,
        },
{
    let ghost ev = entries_view(entries@);
    let mut i: usize = 0;
    while i < entries.len()
        invariant
            0 <= i <= entries@.len(),
            ev == entries_view(entries@),
            first_child_from(ev, rel@, 0) == first_child_from(ev, rel@, i as int),
        decreases entries@.len() - i,
    {
        assert(ev[i as int] == entries@[i as int]@);
        let hit = match &entries[i].parent_path {
            Some(p) => same_text(p, rel),
            None => false,
        };
        if hit {
            return Some(i);
        }
        i = i + 1;
    }
    None
}

/// Indices of the entries strictly below `rel`, in order.
pub fn descendants(entries: &Vec<PackEntry>, rel: &String) -> (r: Vec<usize>)
    ensures
        r@.map_values(|i: usize| i as int) == descendants_upto(entries_view(entries@), rel@, entries@.len() as int),
        forall|j: int| 0 <= j < r@.len() ==> r@[j] < entries@.len(),
{
    let ghost ev = entries_view(entries@);
    let p = crate::layout::join(chars_of(rel.as_str()).as_slice(), chars_of("/").as_slice());
    let mut out: Vec<usize> = Vec::new();
    let mut i: usize = 0;
    while i < entries.len()
        invariant
            0 <= i <= entries@.len(),
            ev == entries_view(entries@),
            p@ == rel@ + "/"@,
            out@.map_values(|x: usize| x as int) == descendants_upto(ev, rel@, i as int),
            forall|j: int| 0 <= j < out@.len() ==> out@[j] < entries@.len(),
        decreases entries@.len() - i,
    {
        assert(ev[i as int] == entries@[i as int]@);
        if starts_with(chars_of(entries[i].relative_path.as_str()).as_slice(), p.as_slice()) {
            out.push(i);
        }
        i = i + 1;
        assert(out@.map_values(|x: usize| x as int) =~= descendants_upto(ev, rel@, i as int));
    }
    out
}

pub open spec fn item_view(w: WorkItem) -> (int, Route, Option<Seq<char>>) {
    (
        w.index as int,
        w.route,
        match w.notice {
            Some(s) => Some(s@),
            None => None,
        },
    )
}

/// The route of one entry.
pub fn route(entries: &Vec<PackEntry>, i: usize) -> (r: (Route, Option<String>))
    requires
        i < entries@.len(),
    ensures
        r.0 == route_of(entries_view(entries@), i as int),
        match r.1 {
            Some(s) => notice_of(entries_view(entries@), i as int) == Some(s@),
            None => notice_of(entries_view(entries@), i as int) is None,
        },
{
    let ghost ev = entries_view(entries@);
    let e = &entries[i];
    assert(ev[i as int] == e@);
    let archive = e.kind == NodeKind::Shell && has_cause(&e.causes, "archive_shell");
    if archive {
        let notice = if has_cause(&e.causes, "archive_root_attachments") {
            Some(e.relative_path.clone())
        } else {
            None
        };
        return (Route::ArchiveShell, notice);
    }
    if e.kind == NodeKind::Shell {
        return match first_child(entries, &e.relative_path) {
            Some(c) => {
                let ch = &entries[c];
                assert(ev[c as int] == ch@);
                if ch.kind == NodeKind::Shell && has_cause(&ch.causes, "archive_shell") {
                    let notice = if has_cause(&ch.causes, "archive_root_attachments") {
                        Some(ch.relative_path.clone())
                    } else {
                        None
                    };
                    (Route::ShellOverArchive { child: c }, notice)
                } else {
                    (Route::FolderShell { child: c }, None)
                }
            },
            None => (Route::ShellWithoutChild, None),
        };
    }
    if e.category == Category::Illegal {
        (Route::MoveToIllegal, None)
    } else if e.category == Category::Nested && has_cause(&e.causes, "nested_container") {
        (Route::ConvertNested, None)
    } else {
        (Route::Convert, None)
    }
}

/// Whether the batch works on the entry at `i`.
pub fn is_selected(entries: &Vec<PackEntry>, i: usize) -> (r: bool)
    requires
        i < entries@.len(),
    ensures
        r == selected(entries_view(entries@), i as int),
{
    let ghost ev = entries_view(entries@);
    let e = &entries[i];
    assert(ev[i as int] == e@);
    let anc = has_shell_ancestor(entries, e);
    (e.kind == NodeKind::Shell && !anc) || (e.kind == NodeKind::Pack && !anc && e.category
        != Category::Ignored && (e.category != Category::Normal || has_cause(&e.causes, "lunar_escape")))
}

/// Plans a processing batch over the entries of a scan: the entries worked
/// on, in scan order, each with its route and attachment notice.
pub fn process(entries: &Vec<PackEntry>) -> (r: Vec<WorkItem>)
    ensures
        r@.map_values(|w: WorkItem| w.index as int) == work_upto(entries_view(entries@), entries@.len() as int),
        forall|j: int|
            0 <= j < r@.len() ==> {
                let w = #[trigger] r@[j];
                &&& w.index < entries@.len()
                &&& w.route == route_of(entries_view(entries@), w.index as int)
                &&& item_view(w).2 == notice_of(entries_view(entries@), w.index as int)
            },
{
    let ghost ev = entries_view(entries@);
    let mut out: Vec<WorkItem> = Vec::new();
    let mut i: usize = 0;
    while i < entries.len()
        invariant
            0 <= i <= entries@.len(),
            ev == entries_view(entries@),
            out@.map_values(|w: WorkItem| w.index as int) == work_upto(ev, i as int),
            forall|j: int|
                0 <= j < out@.len() ==> {
                    let w = #[trigger] out@[j];
                    &&& w.index < entries@.len()
                    &&& w.route == route_of(ev, w.index as int)
                    &&& item_view(w).2 == notice_of(ev, w.index as int)
                },
        decreases entries@.len() - i,
    {
        if is_selected(entries, i) {
            let (r, notice) = route(entries, i);
            out.push(WorkItem { index: i, route: r, notice });
        }
        i = i + 1;
        assert(out@.map_values(|w: WorkItem| w.index as int) =~= work_upto(ev, i as int));
    }
    out
}

proof fn lemma_work_members(es: Seq<EntryView>, k: int)
    ensures
        forall|j: int| 0 <= j < work_upto(es, k).len() ==> selected(es, #[trigger] work_upto(es, k)[j]) && 0 <= work_upto(es, k)[j] < es.len(),
    decreases k,
{
    if k > 0 && k <= es.len() {
        lemma_work_members(es, k - 1);
        let w = work_upto(es, k - 1);
        if selected(es, k - 1) {
            assert forall|j: int| 0 <= j < w.push(k - 1).len() implies selected(es, #[trigger] w.push(k - 1)[j])
                && 0 <= w.push(k - 1)[j] < es.len() by {
                if j < w.len() {
                    assert(w.push(k - 1)[j] == w[j]);
                }
            }
        }
    }
}

/// A batch never touches a plainly normal pack or an ignored one: every
/// entry it works on is selected, and such packs are not.
pub proof fn law_process_leaves_good_packs_alone(es: Seq<EntryView>, j: int)
    requires
        0 <= j < work_upto(es, es.len() as int).len(),
    ensures
        ({
            let i = work_upto(es, es.len() as int)[j];
            let e = es[i];
            &&& 0 <= i < es.len()
            &&& selected(es, i)
            &&& !(e.3 == NodeKind::Pack && e.4 == Category::Ignored)
            &&& !(e.3 == NodeKind::Pack && e.4 == Category::Normal && !has_lunar(e))
            &&& e.3 == NodeKind::Pack || e.3 == NodeKind::Shell
        }),
{
    lemma_work_members(es, es.len() as int);
}

} // verus!
