//! A folder as the scan sees it: a tree of named folders and files, each
//! file with the bytes a read of it gives.
use vstd::prelude::*;
use crate::text::{chars_of, lower, lower_vec, seq_eq};
use crate::names::{is_junk_name, junk_name, mcmeta_variant, png_variant, is_mcmeta_variant, is_png_variant};
use crate::layout::{texts, RootFacts, modern_item_dir, modern_block_dir};
use crate::model::strs;

verus! {

/// A file or a folder, children in the order the folder lists them.
pub enum FsNode {
    /// `data` is `None` when the file cannot be read; `size` is what its
    /// metadata reports (0 when that fails).
    File { name: String, data: Option<Vec<u8>>, size: u64 },
    Dir { name: String, children: Vec<FsNode> },
}

impl FsNode {
    pub open spec fn name_of(self) -> Seq<char> {
        match self {
            FsNode::File { name, .. } => name@,
            FsNode::Dir { name, .. } => name@,
        }
    }

    pub open spec fn kids(self) -> Seq<FsNode> {
        match self {
            FsNode::File { .. } => Seq::<FsNode>::empty(),
            FsNode::Dir { children, .. } => children@,
        }
    }

    pub open spec fn is_dir(self) -> bool {
        self is Dir
    }

    pub fn name(&self) -> (r: &String)
        ensures
            r@ == self.name_of(),
    {
        match self {
            FsNode::File { name, .. } => name,
            FsNode::Dir { name, .. } => name,
        }
    }
}

pub proof fn lemma_kid_decreases(n: FsNode, i: int)
    requires
        0 <= i < n.kids().len(),
    ensures
        decreases_to!(n => n.kids()[i]),
{
    match n {
        FsNode::File { .. } => {},
        FsNode::Dir { name, children } => {
            assert(decreases_to!(n => children));
            assert(decreases_to!(children => children@));
            assert(decreases_to!(children@ => children@[i]));
        },
    }
}

/// Some file lies somewhere below this folder.
pub open spec fn contains_file(n: FsNode) -> bool
    decreases n,
{
    exists|i: int|
        0 <= i < n.kids().len() && {
            let k = #[trigger] n.kids()[i];
            k is File || contains_file(k)
        }
}

pub fn dir_contains_file(n: &FsNode) -> (r: bool)
    ensures
        r == contains_file(*n),
    decreases *n,
{
    match n {
        FsNode::File { .. } => false,
        FsNode::Dir { children, .. } => {
            let mut i: usize = 0;
            while i < children.len()
                invariant
                    0 <= i <= children@.len(),
                    n.kids() == children@,
                    forall|j: int| 0 <= j < i ==> !({
                        let k = #[trigger] n.kids()[j];
                        k is File || contains_file(k)
                    }),
                decreases children@.len() - i,
            {
                let k = &children[i];
                proof {
                    lemma_kid_decreases(*n, i as int);
                }
                let hit = match k {
                    FsNode::File { .. } => true,
                    FsNode::Dir { .. } => dir_contains_file(k),
                };
                if hit {
                    return true;
                }
                i = i + 1;
            }
            false
        },
    }
}

/// The first child that a path component `name` finds: Windows matches
/// file names regardless of ASCII case.
pub open spec fn child_named(kids: Seq<FsNode>, name: Seq<char>) -> Option<FsNode>
    decreases kids.len(),
{
    if kids.len() == 0 {
        None
    } else if lower(kids[0].name_of()) == lower(name) {
        Some(kids[0])
    } else {
        child_named(kids.drop_first(), name)
    }
}

/// The node a relative path of components leads to.
pub open spec fn node_at(n: FsNode, path: Seq<Seq<char>>) -> Option<FsNode>
    decreases path.len(),
{
    if path.len() == 0 {
        Some(n)
    } else {
        match child_named(n.kids(), path[0]) {
            Some(k) => node_at(k, path.drop_first()),
            None => None,
        }
    }
}

/// `path.join(..).is_dir()`.
pub open spec fn dir_at(n: FsNode, path: Seq<Seq<char>>) -> bool {
    match node_at(n, path) {
        Some(k) => k is Dir,
        None => false,
    }
}

/// `path.join(..).is_file()`.
pub open spec fn file_at(n: FsNode, path: Seq<Seq<char>>) -> bool {
    match node_at(n, path) {
        Some(k) => k is File,
        None => false,
    }
}

pub fn find_child<'a>(n: &'a FsNode, name: &[char]) -> (r: Option<&'a FsNode>)
    ensures
        match r {
            Some(k) => child_named(n.kids(), name@) == Some(*k),
            None => child_named(n.kids(), name@) is None,
        },
{
    match n {
        FsNode::File { .. } => None,
        FsNode::Dir { children, .. } => {
            let wanted = lower_vec(name);
            let mut i: usize = 0;
            assert(children@.skip(0) =~= children@);
            while i < children.len()
                invariant
                    0 <= i <= children@.len(),
                    n.kids() == children@,
                    wanted@ == lower(name@),
                    child_named(children@, name@) == child_named(children@.skip(i as int), name@),
                decreases children@.len() - i,
            {
                assert(children@.skip(i as int)[0] == children@[i as int]);
                let have = lower_vec(chars_of(children[i].name().as_str()).as_slice());
                if seq_eq(have.as_slice(), wanted.as_slice()) {
                    return Some(&children[i]);
                }
                assert(children@.skip(i as int).drop_first() =~= children@.skip(i + 1));
                i = i + 1;
            }
            None
        },
    }
}

pub fn find_node<'a>(n: &'a FsNode, path: &[Vec<char>]) -> (r: Option<&'a FsNode>)
    ensures
        match r {
            Some(k) => node_at(*n, texts(path@)) == Some(*k),
            None => node_at(*n, texts(path@)) is None,
        },
{
    let mut cur: &FsNode = n;
    let mut i: usize = 0;
    assert(texts(path@).skip(0) =~= texts(path@));
    while i < path.len()
        invariant
            0 <= i <= path@.len(),
            node_at(*n, texts(path@)) == node_at(*cur, texts(path@).skip(i as int)),
        decreases path@.len() - i,
    {
        let ghost rest = texts(path@).skip(i as int);
        assert(rest[0] == path@[i as int]@);
        assert(rest.drop_first() =~= texts(path@).skip(i + 1));
        match find_child(cur, path[i].as_slice()) {
            Some(k) => {
                cur = k;
            },
            None => {
                return None;
            },
        }
        i = i + 1;
    }
    assert(texts(path@).skip(path@.len() as int) =~= Seq::<Seq<char>>::empty());
    Some(cur)
}

pub fn is_dir_at(n: &FsNode, path: &[Vec<char>]) -> (r: bool)
    ensures
        r == dir_at(*n, texts(path@)),
{
    match find_node(n, path) {
        Some(k) => match k {
            FsNode::Dir { .. } => true,
            FsNode::File { .. } => false,
        },
        None => false,
    }
}

/// `assets/minecraft/textures/<last>`, by components.
pub open spec fn tex_path(last: Seq<char>) -> Seq<Seq<char>> {
    seq!["assets"@, "minecraft"@, "textures"@, last]
}

pub fn tex_path_exec(last: &str) -> (r: Vec<Vec<char>>)
    ensures
        texts(r@) == tex_path(last@),
{
    let mut v: Vec<Vec<char>> = Vec::new();
    v.push(chars_of("assets"));
    v.push(chars_of("minecraft"));
    v.push(chars_of("textures"));
    v.push(chars_of(last));
    assert(texts(v@) =~= tex_path(last@));
    v
}

pub fn one_part(a: &str) -> (r: Vec<Vec<char>>)
    ensures
        texts(r@) == seq![a@],
{
    let mut v: Vec<Vec<char>> = Vec::new();
    v.push(chars_of(a));
    assert(texts(v@) =~= seq![a@]);
    v
}

/// The bytes a read of this node gives, when it is a readable file.
pub open spec fn file_bytes(k: FsNode) -> Option<Seq<u8>> {
    match k {
        FsNode::File { data, .. } => match data {
            Some(b) => Some(b@),
            None => None,
        },
        FsNode::Dir { .. } => None,
    }
}

/// (block folder used, item folder holds files) for a folder core, unless a
/// legacy plural folder is present.
pub open spec fn fs_core_flags(n: FsNode) -> (bool, bool) {
    if dir_at(n, tex_path("items"@)) || dir_at(n, tex_path("blocks"@)) {
        (false, false)
    } else {
        (
            dir_at(n, tex_path("block"@)),
            match node_at(n, tex_path("item"@)) {
                Some(k) => contains_file(k),
                None => false,
            },
        )
    }
}

/// The singular texture folders of a folder core, item first.
pub open spec fn fs_modern_list(n: FsNode) -> Seq<Seq<char>> {
    let f = fs_core_flags(n);
    (if f.1 {
        seq![modern_item_dir()]
    } else {
        Seq::<Seq<char>>::empty()
    }) + (if f.0 {
        seq![modern_block_dir()]
    } else {
        Seq::<Seq<char>>::empty()
    })
}

pub fn fs_core_modern_flags(n: &FsNode) -> (r: (bool, bool))
    ensures
        r == fs_core_flags(*n),
{
    if is_dir_at(n, tex_path_exec("items").as_slice()) || is_dir_at(n, tex_path_exec("blocks").as_slice()) {
        return (false, false);
    }
    let item = match find_node(n, tex_path_exec("item").as_slice()) {
        Some(k) => dir_contains_file(k),
        None => false,
    };
    (is_dir_at(n, tex_path_exec("block").as_slice()), item)
}

/// The singular texture folders a folder core uses, item first.
pub fn fs_core_modern_texture_paths(n: &FsNode) -> (r: Vec<String>)
    ensures
        strs(r@) == fs_modern_list(*n),
{
    let f = fs_core_modern_flags(n);
    let mut v: Vec<String> = Vec::new();
    if f.1 {
        v.push("assets/minecraft/textures/item".to_owned());
    }
    if f.0 {
        v.push("assets/minecraft/textures/block".to_owned());
    }
    assert(strs(v@) =~= fs_modern_list(*n));
    v
}

/// How a root entry of a folder pack counts: the assets folder, the mcmeta,
/// the icon, a rescuable mcmeta typo, a rescuable icon typo, or an extra.
pub open spec fn item_class(k: FsNode) -> int {
    let nm = k.name_of();
    if nm == "assets"@ && k is Dir {
        0
    } else if nm == "pack.mcmeta"@ && k is File {
        1
    } else if nm == "pack.png"@ && k is File {
        2
    } else if k is File && mcmeta_variant(nm) {
        3
    } else if k is File && png_variant(nm) {
        4
    } else {
        5
    }
}

pub open spec fn has_class(n: FsNode, c: int) -> bool {
    exists|i: int|
        0 <= i < n.kids().len() && !junk_name(n.kids()[i].name_of()) && item_class(#[trigger] n.kids()[i])
            == c
}

/// Some namespace folder under `assets/` holds a `records` folder.
pub open spec fn fs_dead_path(n: FsNode) -> bool {
    match node_at(n, seq!["assets"@]) {
        Some(a) => exists|j: int| 0 <= j < a.kids().len() && dir_at(#[trigger] a.kids()[j], seq!["records"@]),
        None => false,
    }
}

/// What the root layer of a folder pack looks like.
pub open spec fn dir_facts(n: FsNode) -> RootFacts {
    RootFacts {
        has_assets: has_class(n, 0),
        has_mcmeta: has_class(n, 1),
        mcmeta_rescuable: has_class(n, 3),
        png_rescuable: has_class(n, 4),
        has_extras: has_class(n, 5),
        dead_path: has_class(n, 0) && fs_dead_path(n),
    }
}

fn is_file_node(k: &FsNode) -> (r: bool)
    ensures
        r == (*k is File),
{
    match k {
        FsNode::File { .. } => true,
        FsNode::Dir { .. } => false,
    }
}

fn text_is(s: &String, lit: &str) -> (r: bool)
    ensures
        r == (s@ == lit@),
{
    seq_eq(chars_of(s.as_str()).as_slice(), chars_of(lit).as_slice())
}

fn item_class_exec(k: &FsNode) -> (r: u8)
    ensures
        r == item_class(*k),
{
    let nm = k.name();
    let file = is_file_node(k);
    let chars = chars_of(nm.as_str());
    if text_is(nm, "assets") && !file {
        0
    } else if text_is(nm, "pack.mcmeta") && file {
        1
    } else if text_is(nm, "pack.png") && file {
        2
    } else if file && is_mcmeta_variant(chars.as_slice()) {
        3
    } else if file && is_png_variant(chars.as_slice()) {
        4
    } else {
        5
    }
}

/// Whether some namespace folder under `assets/` holds `records/`.
fn fs_dead_path_exec(n: &FsNode) -> (r: bool)
    ensures
        r == fs_dead_path(*n),
{
    let a = match find_node(n, one_part("assets").as_slice()) {
        Some(a) => a,
        None => {
            return false;
        },
    };
    match a {
        FsNode::File { .. } => false,
        FsNode::Dir { children, .. } => {
            let records = one_part("records");
            let mut j: usize = 0;
            while j < children.len()
                invariant
                    0 <= j <= children@.len(),
                    a.kids() == children@,
                    texts(records@) == seq!["records"@],
                    node_at(*n, seq!["assets"@]) == Some(*a),
                    forall|m: int| 0 <= m < j ==> !dir_at(#[trigger] a.kids()[m], seq!["records"@]),
                decreases children@.len() - j,
            {
                if is_dir_at(&children[j], records.as_slice()) {
                    assert(dir_at(a.kids()[j as int], seq!["records"@]));
                    return true;
                }
                j = j + 1;
            }
            false
        },
    }
}

/// What the root layer of a folder pack looks like.
pub fn facts_from_dir(n: &FsNode) -> (f: RootFacts)
    ensures
        f == dir_facts(*n),
{
    let mut seen: [bool; 6] = [false, false, false, false, false, false];
    match n {
        FsNode::File { .. } => {},
        FsNode::Dir { children, .. } => {
            let mut i: usize = 0;
            while i < children.len()
                invariant
                    0 <= i <= children@.len(),
                    n.kids() == children@,
                    seen@.len() == 6,
                    forall|c: int| 0 <= c < 6 ==> #[trigger] seen@[c] == exists|m: int|
                        0 <= m < i && !junk_name(n.kids()[m].name_of()) && item_class(#[trigger] n.kids()[m]) == c,
                decreases children@.len() - i,
            {
                let k = &children[i];
                if !is_junk_name(k.name().as_str()) {
                    let c = item_class_exec(k);
                    seen[c as usize] = true;
                }
                i = i + 1;
            }
        },
    }
    let has_assets = seen[0];
    let dead = has_assets && fs_dead_path_exec(n);
    RootFacts {
        has_assets,
        has_mcmeta: seen[1],
        mcmeta_rescuable: seen[3],
        png_rescuable: seen[4],
        has_extras: seen[5],
        dead_path: dead,
    }
}

} // verus!
