//! The shape of a scan report: its entries form a tree listed parent first,
//! each path made of its parent's path and its own name; what every entry
//! keeps to; and the counts read entry by entry.
use vstd::prelude::*;
use crate::archive::{decoded_names, depth_left, CatalogView};
use crate::fs::{lemma_kid_decreases, FsNode};
use crate::layout::{child_files, sorted_child_dirs};
use crate::model::{Category, EntryView, NodeKind};
use crate::pack::{pack_children, pack_children_upto, pack_entry_spec};
use crate::scan::{
    count, counts_lunar, counts_nested, item_entries, pack_of, scan_dir_spec, scan_entries, scan_file_spec,
    scan_kids_spec, scanned_item,
};
use crate::zipscan::{
    archive_dir_spec, archive_shell_spec, child_rel, dir_groups, file_groups, joined, shell_dirs, shell_files,
};

verus! {

/// Where an entry with this name, path and parent sits: a top-level entry's
/// path is its name, any other's is its parent's path, a slash and its name.
pub open spec fn placed(name: Seq<char>, rel: Seq<char>, parent: Option<Seq<char>>) -> bool {
    match parent {
        None => rel == name,
        Some(p) => rel == child_rel(p, name),
    }
}

pub open spec fn well_placed(e: EntryView) -> bool {
    placed(e.0, e.1, e.2)
}

/// What every entry of a scan keeps to: it carries a reason to be ignored
/// exactly when it is an ignored pack, and then no cause and the modern
/// texture layout with at least one folder; an entry that is not a pack, or
/// an illegal pack, is never tagged Lunar; and a Lunar-illegal pack has the
/// `lunar_escape` cause and no other.
pub open spec fn entry_sound(e: EntryView) -> bool {
    &&& (e.7 is Some) == (e.3 == NodeKind::Pack && e.4 == Category::Ignored)
    &&& e.4 == Category::Ignored ==> e.5.len() == 0 && (e.7 matches Some(r) && r.0 == "modern_texture_layout"@
        && r.1.len() > 0)
    &&& e.3 != NodeKind::Pack ==> !e.5.contains("lunar_escape"@) && e.4 != Category::LunarIllegal
    &&& e.4 == Category::Illegal ==> !e.5.contains("lunar_escape"@)
    &&& e.4 == Category::LunarIllegal ==> e.5 == seq!["lunar_escape"@]
}

/// Causes that name a structural finding: none of them starts like
/// `lunar_escape`.
pub open spec fn structural_causes(causes: Seq<Seq<char>>) -> bool {
    forall|i: int| 0 <= i < causes.len() ==> (#[trigger] causes[i]).len() > 0 && causes[i][0] != 'l'
}

/// What a structural verdict keeps to: structural causes, never a Lunar or
/// ignored category, and no cause on a normal pack.
pub open spec fn verdict_sound(v: (Category, Seq<Seq<char>>)) -> bool {
    &&& structural_causes(v.1)
    &&& v.0 != Category::LunarIllegal && v.0 != Category::Ignored
    &&& v.0 == Category::Normal ==> v.1.len() == 0
}

proof fn lemma_structural_not_lunar(causes: Seq<Seq<char>>)
    requires
        structural_causes(causes),
    ensures
        !causes.contains("lunar_escape"@),
{
    reveal_strlit("lunar_escape");
    if causes.contains("lunar_escape"@) {
        let i = choose|i: int| 0 <= i < causes.len() && causes[i] == "lunar_escape"@;
        assert(causes[i][0] == 'l');
    }
}

proof fn lemma_bloat_causes_structural(f: crate::layout::RootFacts)
    ensures
        structural_causes(crate::layout::bloat_cause_texts(f)),
{
    reveal_strlit("root_extras");
    reveal_strlit("dead_path");
    reveal_strlit("png_rescue");
    let a = if f.has_extras {
        seq!["root_extras"@]
    } else {
        Seq::<Seq<char>>::empty()
    };
    let b = if f.dead_path {
        seq!["dead_path"@]
    } else {
        Seq::<Seq<char>>::empty()
    };
    let c = if f.png_rescuable {
        seq!["png_rescue"@]
    } else {
        Seq::<Seq<char>>::empty()
    };
    let all = a + b + c;
    assert(crate::layout::bloat_cause_texts(f) == all);
    assert forall|i: int| 0 <= i < all.len() implies (#[trigger] all[i]).len() > 0 && all[i][0] != 'l' by {
        if i < a.len() {
            assert(all[i] == a[i]);
        } else if i < a.len() + b.len() {
            assert(all[i] == b[i - a.len()]);
        } else {
            assert(all[i] == c[i - a.len() - b.len()]);
        }
    }
}

proof fn lemma_search_verdict_sound(sr: (bool, bool))
    ensures
        verdict_sound(crate::classify::search_verdict(sr)),
{
    reveal_strlit("nested_container");
    reveal_strlit("too_deep");
    reveal_strlit("no_core_found");
    let v = crate::classify::search_verdict(sr);
    assert(v.1.len() == 1 && v.1[0].len() > 0 && v.1[0][0] != 'l');
}

proof fn lemma_file_verdict_sound(bytes: Seq<u8>, name: Seq<char>)
    ensures
        verdict_sound(crate::classify::file_verdict(bytes, name)),
{
    reveal_strlit("rar_archive");
    reveal_strlit("sevenz_archive");
    reveal_strlit("not_zip");
    reveal_strlit("corrupt_zip");
    reveal_strlit("encrypted_zip");
    reveal_strlit("wrong_extension");
    reveal_strlit("mcmeta_rescue");
    let v = crate::classify::file_verdict(bytes, name);
    if crate::layout::starts_pk(bytes) {
        if let Some(cat) = crate::archive::zip_catalog_of(bytes) {
            let f = crate::layout::root_facts(crate::archive::zip_names(cat));
            lemma_bloat_causes_structural(f);
            if !crate::archive::any_encrypted(cat) && !(f.has_assets) {
                lemma_search_verdict_sound(
                    crate::archive::search_zip_spec(bytes, cat, Seq::<char>::empty(), 1),
                );
            }
        }
    }
    if v.1.len() == 1 {
        assert(v.1[0].len() > 0 && v.1[0][0] != 'l');
    }
}

proof fn lemma_dir_verdict_sound(n: FsNode)
    ensures
        verdict_sound(crate::pack::dir_verdict(n)),
{
    reveal_strlit("folder_pack");
    reveal_strlit("mcmeta_rescue");
    let f = crate::fs::dir_facts(n);
    let v = crate::pack::dir_verdict(n);
    if f.has_assets && f.has_mcmeta {
        lemma_bloat_causes_structural(f);
        let b = crate::layout::bloat_cause_texts(f);
        assert forall|i: int| 0 <= i < v.1.len() implies (#[trigger] v.1[i]).len() > 0 && v.1[i][0] != 'l' by {
            if i > 0 {
                assert(v.1[i] == b[i - 1]);
            }
        }
    } else if f.has_assets {
    } else {
        lemma_search_verdict_sound(crate::folder::search_fs_spec(n, 1));
    }
}

proof fn lemma_folder_verdict_sound(names: Seq<Seq<char>>)
    ensures
        verdict_sound(crate::zipscan::folder_child_verdict(names)),
{
    reveal_strlit("folder_pack");
    reveal_strlit("mcmeta_rescue");
    reveal_strlit("no_core_found");
    let f = crate::layout::root_facts(names);
    let v = crate::zipscan::folder_child_verdict(names);
    if f.has_assets && f.has_mcmeta {
        lemma_bloat_causes_structural(f);
        let b = crate::layout::bloat_cause_texts(f);
        assert forall|i: int| 0 <= i < v.1.len() implies (#[trigger] v.1[i]).len() > 0 && v.1[i][0] != 'l' by {
            if i > 0 {
                assert(v.1[i] == b[i - 1]);
            }
        }
    }
}

/// Entry `i`'s parent is an entry listed before it, and not a pack.
pub open spec fn parent_listed(es: Seq<EntryView>, i: int) -> bool {
    exists|j: int| 0 <= j < i && Some(es[j].1) == es[i].2 && es[j].3 != NodeKind::Pack
}

/// When entry `i` is not a pack, the entry right after it is its child.
pub open spec fn leads(es: Seq<EntryView>, i: int) -> bool {
    es[i].3 != NodeKind::Pack ==> i + 1 < es.len() && es[i + 1].2 == Some(es[i].1)
}

/// Entries listed below `parent`: each well placed and sound; the first
/// sits right below `parent`; each other one's parent is `parent` itself or
/// an entry listed before it that is not a pack; and each entry that is not
/// a pack is followed by its first child.
pub open spec fn below(es: Seq<EntryView>, parent: Option<Seq<char>>) -> bool {
    &&& forall|i: int| 0 <= i < es.len() ==> well_placed(#[trigger] es[i]) && entry_sound(es[i])
    &&& forall|i: int|
        0 <= i < es.len() && (#[trigger] es[i]).2 is Some ==> es[i].2 == parent || parent_listed(es, i)
    &&& es.len() > 0 ==> es[0].2 == parent
    &&& forall|i: int| 0 <= i < es.len() ==> #[trigger] leads(es, i)
}

proof fn lemma_below_concat(a: Seq<EntryView>, b: Seq<EntryView>, parent: Option<Seq<char>>)
    requires
        below(a, parent),
        below(b, parent),
    ensures
        below(a + b, parent),
{
    let c = a + b;
    assert forall|i: int| 0 <= i < c.len() implies well_placed(#[trigger] c[i]) && entry_sound(c[i]) by {
        if i < a.len() {
            assert(c[i] == a[i]);
        } else {
            assert(c[i] == b[i - a.len()]);
        }
    }
    assert forall|i: int| 0 <= i < c.len() && (#[trigger] c[i]).2 is Some implies c[i].2 == parent || parent_listed(c, i) by {
        if i < a.len() {
            assert(c[i] == a[i]);
            if a[i].2 != parent {
                assert(parent_listed(a, i));
                let j = choose|j: int| 0 <= j < i && Some(a[j].1) == a[i].2 && a[j].3 != NodeKind::Pack;
                assert(c[j] == a[j]);
            }
        } else {
            let k = i - a.len();
            assert(c[i] == b[k]);
            if b[k].2 != parent {
                assert(parent_listed(b, k));
                let j = choose|j: int| 0 <= j < k && Some(b[j].1) == b[k].2 && b[j].3 != NodeKind::Pack;
                assert(c[j + a.len()] == b[j]);
            }
        }
    }
    if c.len() > 0 {
        if a.len() > 0 {
            assert(c[0] == a[0]);
        } else {
            assert(c[0] == b[0]);
        }
    }
    assert forall|i: int| 0 <= i < c.len() implies #[trigger] leads(c, i) by {
        if i < a.len() {
            assert(leads(a, i));
            assert(c[i] == a[i]);
            if i + 1 < a.len() {
                assert(c[i + 1] == a[i + 1]);
            }
        } else {
            let k = i - a.len();
            assert(leads(b, k));
            assert(c[i] == b[k]);
            if k + 1 < b.len() {
                assert(c[i + 1] == b[k + 1]);
            }
        }
    }
}

proof fn lemma_below_head(head: EntryView, kids: Seq<EntryView>)
    requires
        well_placed(head),
        entry_sound(head),
        head.3 != NodeKind::Pack,
        kids.len() > 0,
        below(kids, Some(head.1)),
    ensures
        below(seq![head] + kids, head.2),
{
    let c = seq![head] + kids;
    assert forall|i: int| 0 <= i < c.len() implies well_placed(#[trigger] c[i]) && entry_sound(c[i]) by {
        if i > 0 {
            assert(c[i] == kids[i - 1]);
        }
    }
    assert forall|i: int| 0 <= i < c.len() && (#[trigger] c[i]).2 is Some implies c[i].2 == head.2 || parent_listed(c, i) by {
        if i > 0 {
            let k = i - 1;
            assert(c[i] == kids[k]);
            assert(c[0] == head);
            if kids[k].2 == Some(head.1) {
                assert(0 <= 0 < i && Some(c[0].1) == c[i].2 && c[0].3 != NodeKind::Pack);
            } else {
                assert(parent_listed(kids, k));
                let j = choose|j: int| 0 <= j < k && Some(kids[j].1) == kids[k].2 && kids[j].3 != NodeKind::Pack;
                assert(c[j + 1] == kids[j]);
            }
        }
    }
    assert forall|i: int| 0 <= i < c.len() implies #[trigger] leads(c, i) by {
        if i == 0 {
            assert(c[1] == kids[0]);
        } else {
            let k = i - 1;
            assert(leads(kids, k));
            assert(c[i] == kids[k]);
            if k + 1 < kids.len() {
                assert(c[i + 1] == kids[k + 1]);
            }
        }
    }
}

proof fn lemma_below_single(e: EntryView)
    requires
        well_placed(e),
        entry_sound(e),
        e.3 == NodeKind::Pack,
    ensures
        below(seq![e], e.2),
{
    assert(leads(seq![e], 0));
}

proof fn lemma_below_empty(parent: Option<Seq<char>>)
    ensures
        below(Seq::<EntryView>::empty(), parent),
{
}

proof fn lemma_joined_nonempty(gs: Seq<Seq<EntryView>>)
    requires
        gs.len() > 0,
        forall|g: int| 0 <= g < gs.len() ==> (#[trigger] gs[g]).len() > 0,
    ensures
        joined(gs).len() > 0,
{
    assert(gs[gs.len() - 1] == gs.last());
}

proof fn lemma_pack_entry_sound(name: Seq<char>, n: FsNode, rel: Seq<char>, parent: Option<Seq<char>>)
    ensures
        entry_sound(pack_entry_spec(name, n, rel, parent)),
        pack_entry_spec(name, n, rel, parent).3 == NodeKind::Pack,
{
    let v = if n is Dir {
        crate::pack::dir_verdict(n)
    } else {
        crate::classify::file_verdict(crate::pack::bytes_or_empty(n), name)
    };
    if n is Dir {
        lemma_dir_verdict_sound(n);
    } else {
        lemma_file_verdict_sound(crate::pack::bytes_or_empty(n), name);
    }
    lemma_structural_not_lunar(v.1);
    reveal_strlit("lunar_escape");
    assert(Seq::<Seq<char>>::empty().push("lunar_escape"@) =~= seq!["lunar_escape"@]);
}

proof fn lemma_archive_child_sound(f: Seq<char>, d: Seq<u8>, rel: Seq<char>, parent: Option<Seq<char>>)
    ensures
        entry_sound(crate::classify::archive_child_view(f, d, rel, parent)),
        crate::classify::archive_child_view(f, d, rel, parent).3 == NodeKind::Pack,
{
    let v = crate::classify::file_verdict(d, f);
    lemma_file_verdict_sound(d, f);
    lemma_structural_not_lunar(v.1);
    assert(Seq::<Seq<char>>::empty().push("lunar_escape"@) =~= seq!["lunar_escape"@]);
    let iv = crate::classify::inner_pack_verdict(d, f);
    if let Some(fl) = iv.2 {
        assert(fl.0 || fl.1);
        if fl.0 {
            assert(crate::classify::flag_values(fl)[0] == crate::layout::modern_block_dir());
        } else {
            assert(crate::classify::flag_values(fl)[0] == crate::layout::modern_item_dir());
        }
    }
}

proof fn lemma_folder_child_sound(name: Seq<char>, bytes: Seq<u8>, cat: CatalogView, prefix: Seq<char>, rel: Seq<char>, parent: Option<Seq<char>>)
    ensures
        entry_sound(crate::zipscan::archive_folder_child_view(name, bytes, cat, prefix, rel, parent)),
        crate::zipscan::archive_folder_child_view(name, bytes, cat, prefix, rel, parent).3 == NodeKind::Pack,
{
    let sn = crate::zipscan::stripped(decoded_names(cat), prefix);
    lemma_folder_verdict_sound(sn);
    lemma_structural_not_lunar(crate::zipscan::folder_child_verdict(sn).1);
}

proof fn lemma_joined_below(gs: Seq<Seq<EntryView>>, parent: Option<Seq<char>>)
    requires
        forall|g: int| 0 <= g < gs.len() ==> below(#[trigger] gs[g], parent),
    ensures
        below(joined(gs), parent),
    decreases gs.len(),
{
    if gs.len() > 0 {
        lemma_joined_below(gs.drop_last(), parent);
        lemma_below_concat(joined(gs.drop_last()), gs.last(), parent);
    }
}

proof fn lemma_file_groups_below(bytes: Seq<u8>, cat: CatalogView, prefix: Seq<char>, rel: Seq<char>, files: Seq<Seq<char>>)
    ensures
        forall|g: int|
            0 <= g < file_groups(bytes, cat, prefix, rel, files).len() ==> below(
                #[trigger] file_groups(bytes, cat, prefix, rel, files)[g],
                Some(rel),
            ) && file_groups(bytes, cat, prefix, rel, files)[g].len() > 0,
    decreases files.len(),
{
    if files.len() > 0 {
        lemma_file_groups_below(bytes, cat, prefix, rel, files.drop_last());
        let r = file_groups(bytes, cat, prefix, rel, files.drop_last());
        let f = files.last();
        match crate::archive::read_decoded(bytes, cat, prefix + f) {
            Some(d) => if crate::layout::container_payload(f, d) {
                let e = crate::classify::archive_child_view(f, d, child_rel(rel, f), Some(rel));
                lemma_archive_child_sound(f, d, child_rel(rel, f), Some(rel));
                lemma_below_single(e);
                let gs = r.push(seq![e]);
                assert(file_groups(bytes, cat, prefix, rel, files) == gs);
                assert forall|g: int| 0 <= g < gs.len() implies below(#[trigger] gs[g], Some(rel)) && gs[g].len() > 0 by {
                    if g < r.len() {
                        assert(gs[g] == r[g]);
                    }
                }
            },
            None => {},
        }
    }
}

proof fn lemma_archive_dir_below(
    name: Seq<char>,
    bytes: Seq<u8>,
    cat: CatalogView,
    prefix: Seq<char>,
    rel: Seq<char>,
    parent: Option<Seq<char>>,
    depth: int,
)
    requires
        placed(name, rel, parent),
    ensures
        below(archive_dir_spec(name, bytes, cat, prefix, rel, parent, depth), parent),
    decreases depth_left(depth), 2int, 0int,
{
    if depth <= 10 {
        let names = decoded_names(cat);
        let fg = file_groups(bytes, cat, prefix, rel, child_files(names, prefix));
        let dg = dir_groups(bytes, cat, prefix, rel, depth, sorted_child_dirs(names, prefix));
        lemma_file_groups_below(bytes, cat, prefix, rel, child_files(names, prefix));
        lemma_dir_groups_below(bytes, cat, prefix, rel, depth, sorted_child_dirs(names, prefix));
        let groups = fg + dg;
        assert forall|g: int| 0 <= g < groups.len() implies below(#[trigger] groups[g], Some(rel)) && groups[g].len() > 0 by {
            if g < fg.len() {
                assert(groups[g] == fg[g]);
            } else {
                assert(groups[g] == dg[g - fg.len()]);
            }
        }
        lemma_joined_below(groups, Some(rel));
        if crate::layout::layer_has_assets(names, prefix) {
            lemma_folder_child_sound(name, bytes, cat, prefix, rel, parent);
            lemma_below_single(crate::zipscan::archive_folder_child_view(name, bytes, cat, prefix, rel, parent));
        } else if groups.len() > 0 {
            let es = archive_dir_spec(name, bytes, cat, prefix, rel, parent, depth);
            let head = es[0];
            assert(es == seq![head] + joined(groups));
            lemma_joined_nonempty(groups);
            reveal_strlit("folder_shell");
            reveal_strlit("lunar_escape");
            assert(head.5.len() > 0 ==> head.5[0] != "lunar_escape"@) by {
                if head.5.len() > 0 {
                    assert(head.5[0][0] != "lunar_escape"@[0]);
                }
            }
            lemma_below_head(head, joined(groups));
        }
    }
}

proof fn lemma_dir_groups_below(bytes: Seq<u8>, cat: CatalogView, prefix: Seq<char>, rel: Seq<char>, depth: int, dirs: Seq<Seq<char>>)
    ensures
        forall|g: int|
            0 <= g < dir_groups(bytes, cat, prefix, rel, depth, dirs).len() ==> below(
                #[trigger] dir_groups(bytes, cat, prefix, rel, depth, dirs)[g],
                Some(rel),
            ) && dir_groups(bytes, cat, prefix, rel, depth, dirs)[g].len() > 0,
    decreases depth_left(depth), 1int, dirs.len(),
{
    if dirs.len() > 0 && depth <= 10 {
        lemma_dir_groups_below(bytes, cat, prefix, rel, depth, dirs.drop_last());
        let d = dirs.last();
        lemma_archive_dir_below(d, bytes, cat, prefix + d + "/"@, child_rel(rel, d), Some(rel), depth + 1);
        let r = dir_groups(bytes, cat, prefix, rel, depth, dirs.drop_last());
        let es = archive_dir_spec(d, bytes, cat, prefix + d + "/"@, child_rel(rel, d), Some(rel), depth + 1);
        if es.len() > 0 {
            let gs = r.push(es);
            assert(dir_groups(bytes, cat, prefix, rel, depth, dirs) == gs);
            assert forall|g: int| 0 <= g < gs.len() implies below(#[trigger] gs[g], Some(rel)) && gs[g].len() > 0 by {
                if g < r.len() {
                    assert(gs[g] == r[g]);
                }
            }
        }
    }
}

proof fn lemma_shell_files_below(bytes: Seq<u8>, cat: CatalogView, rel: Seq<char>, files: Seq<Seq<char>>)
    requires
        shell_files(bytes, cat, rel, files) is Some,
    ensures
        below(shell_files(bytes, cat, rel, files).unwrap().0, Some(rel)),
    decreases files.len(),
{
    if files.len() > 0 {
        lemma_shell_files_below(bytes, cat, rel, files.drop_last());
        let acc = shell_files(bytes, cat, rel, files.drop_last()).unwrap().0;
        let r = shell_files(bytes, cat, rel, files).unwrap().0;
        if r != acc {
            let e = r.last();
            let f = files.last();
            let d = crate::archive::read_decoded(bytes, cat, f).unwrap();
            lemma_archive_child_sound(f, d, child_rel(rel, f), Some(rel));
            assert(r == acc.push(e));
            assert(acc.push(e) == acc + seq![e]);
            lemma_below_concat(acc, seq![e], Some(rel));
        }
    }
}

proof fn lemma_shell_dirs_below(bytes: Seq<u8>, cat: CatalogView, rel: Seq<char>, dirs: Seq<Seq<char>>)
    ensures
        below(shell_dirs(bytes, cat, rel, dirs).0, Some(rel)),
    decreases dirs.len(),
{
    if dirs.len() > 0 {
        lemma_shell_dirs_below(bytes, cat, rel, dirs.drop_last());
        let d = dirs.last();
        lemma_archive_dir_below(d, bytes, cat, d + "/"@, child_rel(rel, d), Some(rel), 1);
        let r = shell_dirs(bytes, cat, rel, dirs.drop_last());
        let es = archive_dir_spec(d, bytes, cat, d + "/"@, child_rel(rel, d), Some(rel), 1);
        if es.len() > 0 {
            lemma_below_concat(r.0, es, Some(rel));
        }
    }
}

proof fn lemma_file_below(name: Seq<char>, k: FsNode, rel: Seq<char>, parent: Option<Seq<char>>)
    requires
        placed(name, rel, parent),
    ensures
        below(scan_file_spec(name, k, rel, parent), parent),
        scan_file_spec(name, k, rel, parent).len() > 0,
{
    match archive_shell_spec(name, k, rel, parent) {
        Some(es) => {
            let b = crate::fs::file_bytes(k).unwrap();
            let cat = crate::archive::zip_catalog_of(b).unwrap();
            let names = decoded_names(cat);
            let fa = shell_files(b, cat, rel, child_files(names, Seq::<char>::empty())).unwrap();
            let da = shell_dirs(b, cat, rel, sorted_child_dirs(names, Seq::<char>::empty()));
            lemma_shell_files_below(b, cat, rel, child_files(names, Seq::<char>::empty()));
            lemma_shell_dirs_below(b, cat, rel, sorted_child_dirs(names, Seq::<char>::empty()));
            lemma_below_concat(fa.0, da.0, Some(rel));
            let head = es[0];
            assert(es == seq![head] + (fa.0 + da.0));
            reveal_strlit("archive_shell");
            reveal_strlit("archive_root_attachments");
            reveal_strlit("lunar_escape");
            assert(head.5[0][0] != "lunar_escape"@[0]);
            if head.5.len() > 1 {
                assert(head.5[1][0] != "lunar_escape"@[0]);
            }
            assert(!head.5.contains("lunar_escape"@));
            lemma_below_head(head, fa.0 + da.0);
        },
        None => {
            lemma_pack_entry_sound(name, k, rel, parent);
            lemma_below_single(pack_entry_spec(name, k, rel, parent));
        },
    }
}

proof fn lemma_pack_children_valid(n: FsNode, k: int)
    requires
        0 <= k <= n.kids().len(),
    ensures
        forall|i: int| 0 <= i < pack_children_upto(n, k).len() ==> 0 <= #[trigger] pack_children_upto(n, k)[i] < k,
    decreases k,
{
    if k > 0 {
        lemma_pack_children_valid(n, k - 1);
        let r = pack_children_upto(n, k - 1);
        let c = pack_children_upto(n, k);
        assert forall|i: int| 0 <= i < c.len() implies 0 <= #[trigger] c[i] < k by {
            if i < r.len() {
                assert(c[i] == r[i]);
            }
        }
    }
}

proof fn lemma_dir_below(name: Seq<char>, n: FsNode, rel: Seq<char>, parent: Option<Seq<char>>)
    requires
        placed(name, rel, parent),
    ensures
        below(scan_dir_spec(name, n, rel, parent), parent),
        scan_dir_spec(name, n, rel, parent).len() > 0,
    decreases n, 2int, 0int,
{
    let ch = pack_children(n);
    lemma_pack_entry_sound(name, n, rel, parent);
    lemma_pack_children_valid(n, n.kids().len() as int);
    if crate::fs::dir_at(n, seq!["assets"@]) || ch.len() == 0 {
        lemma_below_single(pack_entry_spec(name, n, rel, parent));
    } else {
        let j = if ch.len() == 1 {
            1int
        } else {
            ch.len() as int
        };
        lemma_kids_below(n, rel, ch, j);
        let es = scan_dir_spec(name, n, rel, parent);
        let head = es[0];
        assert(es == seq![head] + scan_kids_spec(n, rel, ch, j));
        reveal_strlit("folder_shell");
        reveal_strlit("lunar_escape");
        if head.5.len() > 0 {
            assert(head.5[0][0] != "lunar_escape"@[0]);
        }
        assert(!head.5.contains("lunar_escape"@));
        lemma_below_head(head, scan_kids_spec(n, rel, ch, j));
    }
}

proof fn lemma_kids_below(n: FsNode, rel: Seq<char>, ch: Seq<int>, j: int)
    ensures
        below(scan_kids_spec(n, rel, ch, j), Some(rel)),
        0 < j <= ch.len() && 0 <= ch[j - 1] < n.kids().len() ==> scan_kids_spec(n, rel, ch, j).len() > 0,
    decreases n, 1int, j,
{
    if j > 0 && j <= ch.len() {
        lemma_kids_below(n, rel, ch, j - 1);
        let idx = ch[j - 1];
        if 0 <= idx < n.kids().len() {
            let kid = n.kids()[idx];
            let r = child_rel(rel, kid.name_of());
            if kid is Dir {
                lemma_kid_decreases(n, idx);
                lemma_dir_below(kid.name_of(), kid, r, Some(rel));
                lemma_below_concat(scan_kids_spec(n, rel, ch, j - 1), scan_dir_spec(kid.name_of(), kid, r, Some(rel)), Some(rel));
            } else {
                lemma_file_below(kid.name_of(), kid, r, Some(rel));
                lemma_below_concat(scan_kids_spec(n, rel, ch, j - 1), scan_file_spec(kid.name_of(), kid, r, Some(rel)), Some(rel));
            }
        }
    }
}

/// The entries of a scan form a tree listed parent first: a top-level
/// entry's path is its name; any other entry's path is its parent's path, a
/// slash and its own name, and its parent is an entry listed before it that
/// is not a pack; and every entry that is not a pack is followed right away
/// by its first child.
pub proof fn law_scan_entries_form_a_tree(items: Seq<FsNode>, exclude: Seq<Seq<char>>)
    ensures
        forall|i: int| 0 <= i < scan_entries(items, exclude).len() ==> well_placed(#[trigger] scan_entries(items, exclude)[i]),
        forall|i: int|
            0 <= i < scan_entries(items, exclude).len() && (#[trigger] scan_entries(items, exclude)[i]).2 is Some ==> exists|j: int|
                0 <= j < i && Some(scan_entries(items, exclude)[j].1) == scan_entries(items, exclude)[i].2
                    && scan_entries(items, exclude)[j].3 != NodeKind::Pack,
        forall|i: int|
            0 <= i < scan_entries(items, exclude).len() && (#[trigger] scan_entries(items, exclude)[i]).3 != NodeKind::Pack ==> i + 1
                < scan_entries(items, exclude).len() && scan_entries(items, exclude)[i + 1].2 == Some(
                scan_entries(items, exclude)[i].1,
            ),
{
    lemma_scan_entries_below(items, exclude);
    let es = scan_entries(items, exclude);
    assert forall|i: int| 0 <= i < es.len() && (#[trigger] es[i]).2 is Some implies exists|j: int|
        0 <= j < i && Some(es[j].1) == es[i].2 && es[j].3 != NodeKind::Pack by {
        assert(parent_listed(es, i));
    }
    assert forall|i: int| 0 <= i < es.len() && (#[trigger] es[i]).3 != NodeKind::Pack implies i + 1 < es.len()
        && es[i + 1].2 == Some(es[i].1) by {
        assert(leads(es, i));
    }
}

/// Every entry of a scan is sound: it carries a reason to be ignored
/// exactly when it is an ignored pack; an ignored pack has no cause and
/// names the modern texture layout with at least one folder; an entry that
/// is not a pack, or an illegal pack, is never tagged Lunar; and a
/// Lunar-illegal pack has the `lunar_escape` cause and no other.
pub proof fn law_scan_entries_are_sound(items: Seq<FsNode>, exclude: Seq<Seq<char>>)
    ensures
        forall|i: int| 0 <= i < scan_entries(items, exclude).len() ==> entry_sound(#[trigger] scan_entries(items, exclude)[i]),
{
    lemma_scan_entries_below(items, exclude);
}

proof fn lemma_count_same(es: Seq<EntryView>, f: spec_fn(EntryView) -> bool, g: spec_fn(EntryView) -> bool)
    requires
        forall|i: int| 0 <= i < es.len() ==> f(#[trigger] es[i]) == g(es[i]),
    ensures
        count(es, f) == count(es, g),
    decreases es.len(),
{
    if es.len() > 0 {
        assert forall|i: int| 0 <= i < es.drop_last().len() implies f(#[trigger] es.drop_last()[i]) == g(es.drop_last()[i]) by {
            assert(es.drop_last()[i] == es[i]);
        }
        lemma_count_same(es.drop_last(), f, g);
        assert(es.last() == es[es.len() - 1]);
    }
}

proof fn lemma_count_split(es: Seq<EntryView>, f: spec_fn(EntryView) -> bool, g: spec_fn(EntryView) -> bool, h: spec_fn(EntryView) -> bool)
    requires
        forall|i: int| 0 <= i < es.len() ==> f(#[trigger] es[i]) == (g(es[i]) || h(es[i])) && !(g(es[i]) && h(es[i])),
    ensures
        count(es, f) == count(es, g) + count(es, h),
    decreases es.len(),
{
    if es.len() > 0 {
        assert forall|i: int| 0 <= i < es.drop_last().len() implies f(#[trigger] es.drop_last()[i]) == (g(es.drop_last()[i])
            || h(es.drop_last()[i])) && !(g(es.drop_last()[i]) && h(es.drop_last()[i])) by {
            assert(es.drop_last()[i] == es[i]);
        }
        lemma_count_split(es.drop_last(), f, g, h);
        assert(es.last() == es[es.len() - 1]);
    }
}

/// The counts a scan reports, read entry by entry: the nested count is the
/// shells plus the nested packs, and the Lunar count is every entry that
/// is Lunar-illegal or carries the `lunar_escape` cause.
pub proof fn law_scan_counts_by_entry(items: Seq<FsNode>, exclude: Seq<Seq<char>>, c: crate::model::Counts)
    requires
        crate::scan::counts_of(c, scan_entries(items, exclude)),
    ensures
        c.nested == count(scan_entries(items, exclude), |e: EntryView| e.3 == NodeKind::Shell) + count(
            scan_entries(items, exclude),
            |e: EntryView| pack_of(e, Category::Nested),
        ),
        c.lunar == count(
            scan_entries(items, exclude),
            |e: EntryView| e.4 == Category::LunarIllegal || e.5.contains("lunar_escape"@),
        ),
{
    let es = scan_entries(items, exclude);
    lemma_scan_entries_below(items, exclude);
    let plain = |e: EntryView| e.4 == Category::LunarIllegal || e.5.contains("lunar_escape"@);
    assert forall|i: int| 0 <= i < es.len() implies counts_lunar(#[trigger] es[i]) == plain(es[i]) by {
        assert(entry_sound(es[i]));
    }
    lemma_count_same(es, |e: EntryView| counts_lunar(e), plain);
    lemma_count_split(
        es,
        |e: EntryView| counts_nested(e),
        |e: EntryView| e.3 == NodeKind::Shell,
        |e: EntryView| pack_of(e, Category::Nested),
    );
}

proof fn lemma_scan_entries_below(items: Seq<FsNode>, exclude: Seq<Seq<char>>)
    ensures
        below(scan_entries(items, exclude), None),
    decreases items.len(),
{
    if items.len() > 0 {
        lemma_scan_entries_below(items.drop_last(), exclude);
        let k = items.last();
        if scanned_item(k, exclude) {
            if k is Dir {
                lemma_dir_below(k.name_of(), k, k.name_of(), None);
            } else {
                lemma_file_below(k.name_of(), k, k.name_of(), None);
            }
            lemma_below_concat(scan_entries(items.drop_last(), exclude), item_entries(k), None);
        } else {
            assert(scan_entries(items, exclude) == scan_entries(items.drop_last(), exclude) + Seq::<EntryView>::empty());
            lemma_below_concat(scan_entries(items.drop_last(), exclude), Seq::<EntryView>::empty(), None);
        }
    }
}

} // verus!
