//! Resource-pack triage for Minecraft 1.8: classification, Lunar-escape repair,
//! naming rules and update checks, proved with Verus.
#![allow(unused_imports)]

pub mod text;
pub mod names;
pub mod boundary;
pub mod lunar;
pub mod update;
pub mod layout;
pub mod model;
pub mod archive;
pub mod classify;
pub mod fs;
pub mod folder;
pub mod pack;
pub mod zipscan;
pub mod scan;
pub mod plan;
pub mod outcome;
pub mod fixplan;
pub mod order;
pub mod shellplan;
pub mod naming;
pub mod misplaced;
pub mod settings;
pub mod zipwrite;
pub mod rebuild;
pub mod extract;
pub mod shellzip;
pub mod tree;

pub use model::{
    Category, Counts, IgnoreReason, NodeKind, PackEntry, PackOutcome, ProcessError, ProcessNotice,
    ProcessOptions, ProcessReport, ProgressEvent, ScanOptions, ScanProgress, ScanReport, ScanStatus,
    SeparatedPack,
};
pub use names::is_junk_name;
pub use outcome::probe_locked;
pub use plan::process;
pub use scan::{scan, scan_with};
pub use settings::Settings;
pub use update::{is_newer, parse_semver, pick_download_url, UpdateInfo};
