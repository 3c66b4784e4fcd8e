//! The scan and process reports the UI consumes.
use vstd::prelude::*;

verus! {

#[derive(Debug, Clone, Copy, PartialEq, Eq, Structural)]
pub enum ScanStatus {
    /// The folder was read and holds at least one pack.
    Scanned,
    MissingDir,
    NoPacks,
}

#[derive(Debug, Clone, Copy, PartialEq, Eq, Structural)]
pub enum Category {
    Normal,
    Nested,
    Folder,
    Bloated,
    Illegal,
    /// Structure is a normal zip; pack.mcmeta has Lunar-illegal escapes.
    LunarIllegal,
    Ignored,
}

#[derive(Debug, Clone, Copy, PartialEq, Eq, Structural)]
pub enum NodeKind {
    Pack,
    ClassificationFolder,
    SupportingFolder,
    Shell,
}

/// Why a pack is left alone: a key and the paths that show it.
#[derive(Debug)]
pub struct IgnoreReason {
    pub key: String,
    pub values: Vec<String>,
}

/// One node of the scanned tree.
#[derive(Debug)]
pub struct PackEntry {
    pub name: String,
    pub relative_path: String,
    pub parent_path: Option<String>,
    pub kind: NodeKind,
    pub category: Category,
    /// Machine-readable cause keys; the UI maps them to localized text.
    pub causes: Vec<String>,
    pub size_bytes: u64,
    pub ignore: Option<IgnoreReason>,
}

#[derive(Debug, Clone, Copy)]
pub struct Counts {
    pub normal: usize,
    pub nested: usize,
    pub folder: usize,
    pub bloated: usize,
    pub illegal: usize,
    /// Packs tagged Lunar (pure or stacked). Independent of structure counts.
    pub lunar: usize,
    pub ignored: usize,
}

#[derive(Debug)]
pub struct ScanReport {
    pub path: String,
    pub status: ScanStatus,
    pub total_packs: usize,
    pub entries: Vec<PackEntry>,
    pub counts: Counts,
}

/// Top-level names to hide from scanning (e.g. the running executable).
#[derive(Debug)]
pub struct ScanOptions {
    pub exclude: Vec<String>,
}

#[derive(Debug)]
pub struct ScanProgress {
    pub name: String,
    /// Completed count so far (1-based), not a stable position.
    pub index: usize,
    pub total: usize,
}

/// Where a batch works: the packs folder, the quarantine root and the name
/// of this batch's run folder inside it.
#[derive(Debug)]
pub struct ProcessOptions {
    pub resourcepacks: String,
    pub plot_temp: String,
    pub run_dir_name: String,
}

#[derive(Debug)]
pub struct SeparatedPack {
    pub name: String,
    pub parent: String,
}

#[derive(Debug)]
pub struct PackOutcome {
    pub original_name: String,
    /// moved_to_illegal | skipped_unsupported | converted | failed | skipped_locked
    pub action: String,
    pub products: Vec<String>,
    pub causes: Vec<String>,
    pub detail: Option<String>,
    pub separated: Vec<SeparatedPack>,
}

#[derive(Debug)]
pub struct ProcessNotice {
    pub key: String,
    pub values: Vec<String>,
}

#[derive(Debug)]
pub struct ProcessReport {
    pub outcomes: Vec<PackOutcome>,
    pub notices: Vec<ProcessNotice>,
    /// The run folder actually used; `None` when the batch had nothing to do.
    pub run_dir: Option<String>,
}

#[derive(Debug)]
pub struct ProgressEvent {
    pub name: String,
    pub index: usize,
    pub total: usize,
}

#[derive(Debug)]
pub enum ProcessError {
    PlotTempNotWritable(String),
}

impl ProcessError {
    /// The message a user is shown.
    pub fn message(&self) -> (r: String)
        ensures
            match self {
                ProcessError::PlotTempNotWritable(e) => r@ == "plot_temp is not writable: "@ + e@,
            },
    {
        match self {
            ProcessError::PlotTempNotWritable(e) => {
                let mut s = "plot_temp is not writable: ".to_owned();
                s.append(e.as_str());
                s
            },
        }
    }
}

impl Counts {
    pub fn zero() -> (r: Counts)
        ensures
            r.normal == 0 && r.nested == 0 && r.folder == 0 && r.bloated == 0 && r.illegal == 0
                && r.lunar == 0 && r.ignored == 0,
    {
        Counts { normal: 0, nested: 0, folder: 0, bloated: 0, illegal: 0, lunar: 0, ignored: 0 }
    }
}

/// A pack entry as plain values: name, relative path, parent path, kind,
/// category, causes, size and the ignore reason (key and values).
pub type EntryView = (
    Seq<char>,
    Seq<char>,
    Option<Seq<char>>,
    NodeKind,
    Category,
    Seq<Seq<char>>,
    u64,
    Option<(Seq<char>, Seq<Seq<char>>)>,
);

impl View for IgnoreReason {
    type V = (Seq<char>, Seq<Seq<char>>);

    open spec fn view(&self) -> (Seq<char>, Seq<Seq<char>>) {
        (self.key@, strs(self.values@))
    }
}

impl View for PackEntry {
    type V = EntryView;

    open spec fn view(&self) -> EntryView {
        (
            self.name@,
            self.relative_path@,
            match self.parent_path {
                Some(p) => Some(p@),
                None => None,
            },
            self.kind,
            self.category,
            strs(self.causes@),
            self.size_bytes,
            match self.ignore {
                Some(r) => Some(r@),
                None => None,
            },
        )
    }
}

pub open spec fn entries_view(v: Seq<PackEntry>) -> Seq<EntryView> {
    v.map_values(|e: PackEntry| e@)
}

/// The ignore reason for a list of high-version texture folders.
pub open spec fn modern_reason_of(values: Seq<Seq<char>>) -> Option<(Seq<char>, Seq<Seq<char>>)> {
    if values.len() > 0 {
        Some(("modern_texture_layout"@, values))
    } else {
        None
    }
}

/// The texts of a list of strings.
pub open spec fn strs(v: Seq<String>) -> Seq<Seq<char>> {
    v.map_values(|s: String| s@)
}

} // verus!
