//! What the entry names of a pack's layer say about it: cores, child
//! folders and files, rescuable typos, dead paths, high-version layouts.
use vstd::prelude::*;
use crate::names::{
    dead_path, is_dead_path, is_junk_chars, is_mcmeta_variant, is_png_variant, junk_name,
    mcmeta_candidate_before, mcmeta_variant, png_variant, candidate_lt,
};
use crate::text::{
    chars_of, copy_chars, first_index, first_index_of, has_char, is_prefix, lemma_first_index,
    lemma_lex_total, lemma_lex_trans, lex_less, lex_lt, seq_eq, split, split_vec, starts_with,
    lemma_split_nonempty, ends_with, is_suffix, lower, lower_vec,
};

verus! {

/// The texts held by a list of character vectors.
pub open spec fn texts(v: Seq<Vec<char>>) -> Seq<Seq<char>> {
    v.map_values(|x: Vec<char>| x@)
}

/// Some name starts with `p`.
pub open spec fn any_prefixed(names: Seq<Seq<char>>, p: Seq<char>) -> bool {
    exists|i: int| 0 <= i < names.len() && is_prefix(p, #[trigger] names[i])
}

/// Some name equals `t`.
pub open spec fn any_equal(names: Seq<Seq<char>>, t: Seq<char>) -> bool {
    exists|i: int| 0 <= i < names.len() && #[trigger] names[i] == t
}

/// The layer at `prefix` has an `assets/` child: the rescuable-core criterion.
pub open spec fn layer_has_assets(names: Seq<Seq<char>>, prefix: Seq<char>) -> bool {
    any_prefixed(names, prefix + "assets/"@)
}

pub open spec fn contains_files(names: Seq<Seq<char>>, directory: Seq<char>) -> bool {
    any_prefixed(names, directory + "/"@)
}

pub open spec fn contains_directory(names: Seq<Seq<char>>, directory: Seq<char>) -> bool {
    any_equal(names, directory + "/"@) || any_prefixed(names, directory + "/"@)
}

pub open spec fn modern_item_dir() -> Seq<char> {
    "assets/minecraft/textures/item"@
}

pub open spec fn modern_block_dir() -> Seq<char> {
    "assets/minecraft/textures/block"@
}

pub open spec fn legacy_items_dir() -> Seq<char> {
    "assets/minecraft/textures/items"@
}

pub open spec fn legacy_blocks_dir() -> Seq<char> {
    "assets/minecraft/textures/blocks"@
}

/// The singular (1.13+) texture folders a core at `prefix` uses, unless a
/// legacy plural folder is present in the same core.
pub open spec fn modern_paths(names: Seq<Seq<char>>, files: Seq<Seq<char>>, prefix: Seq<char>) -> Seq<
    Seq<char>,
> {
    if contains_directory(names, prefix + legacy_items_dir()) || contains_directory(
        names,
        prefix + legacy_blocks_dir(),
    ) {
        Seq::<Seq<char>>::empty()
    } else {
        (if contains_files(files, prefix + modern_item_dir()) {
            seq![modern_item_dir()]
        } else {
            Seq::<Seq<char>>::empty()
        }) + (if contains_directory(names, prefix + modern_block_dir()) {
            seq![modern_block_dir()]
        } else {
            Seq::<Seq<char>>::empty()
        })
    }
}

/// The direct child folder that `n` names below `prefix`.
pub open spec fn child_dir_of(n: Seq<char>, prefix: Seq<char>) -> Option<Seq<char>> {
    if is_prefix(prefix, n) {
        let rest = n.skip(prefix.len() as int);
        match first_index(rest, '/') {
            Some(i) => {
                let d = rest.take(i);
                if d.len() > 0 && !junk_name(d) {
                    Some(d)
                } else {
                    None
                }
            },
            None => None,
        }
    } else {
        None
    }
}

/// The direct child file that `n` names below `prefix`.
pub open spec fn child_file_of(n: Seq<char>, prefix: Seq<char>) -> Option<Seq<char>> {
    if is_prefix(prefix, n) {
        let rest = n.skip(prefix.len() as int);
        if rest.len() > 0 && !rest.contains('/') && !junk_name(rest) {
            Some(rest)
        } else {
            None
        }
    } else {
        None
    }
}

/// The child folders below `prefix`, as a set.
pub open spec fn child_dir_set(names: Seq<Seq<char>>, prefix: Seq<char>) -> Set<Seq<char>> {
    Set::new(|d: Seq<char>| exists|i: int| 0 <= i < names.len() && child_dir_of(#[trigger] names[i], prefix) == Some(d))
}

/// Strictly increasing in code-point order (so also free of duplicates).
pub open spec fn sorted_strict(s: Seq<Seq<char>>) -> bool {
    forall|i: int, j: int| 0 <= i < j < s.len() ==> lex_lt(#[trigger] s[i], #[trigger] s[j])
}

/// The child folders below `prefix`, in code-point order without repeats.
pub open spec fn sorted_child_dirs(names: Seq<Seq<char>>, prefix: Seq<char>) -> Seq<Seq<char>> {
    choose|s: Seq<Seq<char>>| sorted_strict(s) && s.to_set() == child_dir_set(names, prefix)
}

/// The child files below `prefix`, in listing order.
pub open spec fn child_files(names: Seq<Seq<char>>, prefix: Seq<char>) -> Seq<Seq<char>>
    decreases names.len(),
{
    if names.len() == 0 {
        Seq::<Seq<char>>::empty()
    } else {
        let r = child_files(names.drop_last(), prefix);
        match child_file_of(names.last(), prefix) {
            Some(f) => r.push(f),
            None => r,
        }
    }
}

/// First path component.
pub open spec fn first_component(n: Seq<char>) -> Seq<char> {
    split(n, '/')[0]
}

/// A root entry that is none of the three core files, junk, or a rescuable typo.
pub open spec fn extra_root(r: Seq<char>) -> bool {
    r.len() > 0 && r != "assets"@ && r != "pack.mcmeta"@ && r != "pack.png"@ && !junk_name(r)
        && !mcmeta_variant(r) && !png_variant(r)
}

/// What the root layer of a candidate pack looks like.
pub struct RootFacts {
    pub has_assets: bool,
    pub has_mcmeta: bool,
    pub mcmeta_rescuable: bool,
    pub png_rescuable: bool,
    pub has_extras: bool,
    pub dead_path: bool,
}

pub open spec fn root_facts(names: Seq<Seq<char>>) -> RootFacts {
    RootFacts {
        has_assets: any_prefixed(names, "assets/"@),
        has_mcmeta: any_equal(names, "pack.mcmeta"@),
        mcmeta_rescuable: exists|i: int|
            0 <= i < names.len() && !(#[trigger] names[i]).contains('/') && mcmeta_variant(names[i]),
        png_rescuable: exists|i: int|
            0 <= i < names.len() && !(#[trigger] names[i]).contains('/') && png_variant(names[i]),
        has_extras: exists|i: int| 0 <= i < names.len() && extra_root(first_component(#[trigger] names[i])),
        dead_path: exists|i: int| 0 <= i < names.len() && dead_path(#[trigger] names[i]),
    }
}

/// The bloat causes a root layer shows, in their fixed order.
pub open spec fn bloat_cause_texts(f: RootFacts) -> Seq<Seq<char>> {
    (if f.has_extras {
        seq!["root_extras"@]
    } else {
        Seq::<Seq<char>>::empty()
    }) + (if f.dead_path {
        seq!["dead_path"@]
    } else {
        Seq::<Seq<char>>::empty()
    }) + (if f.png_rescuable {
        seq!["png_rescue"@]
    } else {
        Seq::<Seq<char>>::empty()
    })
}

/// Container magic (zip, RAR, 7z) or a container extension.
pub open spec fn container_payload(name: Seq<char>, bytes: Seq<u8>) -> bool {
    (bytes.len() >= 2 && bytes[0] == 0x50 && bytes[1] == 0x4b) || (bytes.len() >= 4 && bytes[0]
        == 0x52 && bytes[1] == 0x61 && bytes[2] == 0x72 && bytes[3] == 0x21) || (bytes.len() >= 6
        && bytes[0] == 0x37 && bytes[1] == 0x7a && bytes[2] == 0xbc && bytes[3] == 0xaf && bytes[4]
        == 0x27 && bytes[5] == 0x1c) || is_suffix(".zip"@, lower(name)) || is_suffix(
        ".rar"@,
        lower(name),
    ) || is_suffix(".7z"@, lower(name))
}

pub open spec fn starts_pk(bytes: Seq<u8>) -> bool {
    bytes.len() >= 2 && bytes[0] == 0x50 && bytes[1] == 0x4b
}

/// Two strictly sorted sequences with the same elements are equal.
pub proof fn lemma_sorted_unique(a: Seq<Seq<char>>, b: Seq<Seq<char>>)
    requires
        sorted_strict(a),
        sorted_strict(b),
        a.to_set() == b.to_set(),
    ensures
        a == b,
    decreases a.len() + b.len(),
{
    if a.len() == 0 {
        if b.len() > 0 {
            assert(b.to_set().contains(b[0]));
            assert(a.to_set().contains(b[0]));
        }
        assert(a =~= b);
        return;
    }
    if b.len() == 0 {
        assert(a.to_set().contains(a[0]));
        assert(b.to_set().contains(a[0]));
        return;
    }
    // the first elements are both the least element
    assert(a.to_set().contains(a[0]));
    assert(b.to_set().contains(b[0]));
    let i = choose|i: int| 0 <= i < b.len() && b[i] == a[0];
    let j = choose|j: int| 0 <= j < a.len() && a[j] == b[0];
    if i > 0 {
        assert(lex_lt(b[0], b[i]));
        if j > 0 {
            assert(lex_lt(a[0], a[j]));
            lemma_lex_total(a[0], b[0]);
        }
    }
    if j > 0 && i == 0 {
        assert(lex_lt(a[0], a[j]));
        lemma_lex_total(a[0], a[0]);
    }
    assert(a[0] == b[0]) by {
        if i > 0 && j > 0 {
            lemma_lex_total(a[0], b[0]);
        }
        if i > 0 && j == 0 {
            lemma_lex_total(b[0], b[0]);
        }
    }
    let a1 = a.drop_first();
    let b1 = b.drop_first();
    assert(a1.to_set() =~= b1.to_set()) by {
        assert forall|x: Seq<char>| a1.to_set().contains(x) implies b1.to_set().contains(x) by {
            let k = choose|k: int| 0 <= k < a1.len() && a1[k] == x;
            assert(a[k + 1] == x);
            assert(lex_lt(a[0], a[k + 1]));
            assert(b.to_set().contains(x));
            let m = choose|m: int| 0 <= m < b.len() && b[m] == x;
            if m == 0 {
                lemma_lex_total(x, x);
            }
            assert(b1[m - 1] == x);
        }
        assert forall|x: Seq<char>| b1.to_set().contains(x) implies a1.to_set().contains(x) by {
            let k = choose|k: int| 0 <= k < b1.len() && b1[k] == x;
            assert(b[k + 1] == x);
            assert(lex_lt(b[0], b[k + 1]));
            assert(a.to_set().contains(x));
            let m = choose|m: int| 0 <= m < a.len() && a[m] == x;
            if m == 0 {
                lemma_lex_total(x, x);
            }
            assert(a1[m - 1] == x);
        }
    }
    assert(sorted_strict(a1)) by {
        assert forall|p: int, q: int| 0 <= p < q < a1.len() implies lex_lt(#[trigger] a1[p], #[trigger] a1[q]) by {
            assert(a1[p] == a[p + 1] && a1[q] == a[q + 1]);
        }
    }
    assert(sorted_strict(b1)) by {
        assert forall|p: int, q: int| 0 <= p < q < b1.len() implies lex_lt(#[trigger] b1[p], #[trigger] b1[q]) by {
            assert(b1[p] == b[p + 1] && b1[q] == b[q + 1]);
        }
    }
    lemma_sorted_unique(a1, b1);
    assert(a =~= seq![a[0]] + a1);
    assert(b =~= seq![b[0]] + b1);
}

/// Whether some name starts with `p`.
pub fn any_starts_with(names: &[Vec<char>], p: &[char]) -> (r: bool)
    ensures
        r == any_prefixed(texts(names@), p@),
{
    let mut i: usize = 0;
    while i < names.len()
        invariant
            0 <= i <= names@.len(),
            forall|k: int| 0 <= k < i ==> !is_prefix(p@, #[trigger] texts(names@)[k]),
        decreases names@.len() - i,
    {
        if starts_with(names[i].as_slice(), p) {
            assert(texts(names@)[i as int] == names@[i as int]@);
            return true;
        }
        assert(texts(names@)[i as int] == names@[i as int]@);
        i = i + 1;
    }
    false
}

/// Whether some name equals `t`.
pub fn any_equals(names: &[Vec<char>], t: &[char]) -> (r: bool)
    ensures
        r == any_equal(texts(names@), t@),
{
    let mut i: usize = 0;
    while i < names.len()
        invariant
            0 <= i <= names@.len(),
            forall|k: int| 0 <= k < i ==> #[trigger] texts(names@)[k] != t@,
        decreases names@.len() - i,
    {
        assert(texts(names@)[i as int] == names@[i as int]@);
        if seq_eq(names[i].as_slice(), t) {
            return true;
        }
        i = i + 1;
    }
    false
}

fn concat(a: &[char], b: &str) -> (r: Vec<char>)
    ensures
        r@ == a@ + b@,
{
    let mut out = copy_chars(a);
    let tail = chars_of(b);
    let mut i: usize = 0;
    while i < tail.len()
        invariant
            0 <= i <= tail@.len(),
            tail@ == b@,
            out@ == a@ + tail@.take(i as int),
        decreases tail@.len() - i,
    {
        out.push(tail[i]);
        i = i + 1;
        assert(out@ =~= a@ + tail@.take(i as int));
    }
    assert(tail@.take(tail@.len() as int) =~= tail@);
    out
}

/// Concatenation of two character sequences.
pub fn join(a: &[char], b: &[char]) -> (r: Vec<char>)
    ensures
        r@ == a@ + b@,
{
    let mut out = copy_chars(a);
    let mut i: usize = 0;
    while i < b.len()
        invariant
            0 <= i <= b@.len(),
            out@ == a@ + b@.take(i as int),
        decreases b@.len() - i,
    {
        out.push(b[i]);
        i = i + 1;
        assert(out@ =~= a@ + b@.take(i as int));
    }
    assert(b@.take(b@.len() as int) =~= b@);
    out
}

pub fn zip_layer_has_assets(names: &[Vec<char>], prefix: &[char]) -> (r: bool)
    ensures
        r == layer_has_assets(texts(names@), prefix@),
{
    let p = concat(prefix, "assets/");
    any_starts_with(names, p.as_slice())
}

pub fn names_contain_files(names: &[Vec<char>], directory: &[char]) -> (r: bool)
    ensures
        r == contains_files(texts(names@), directory@),
{
    let p = concat(directory, "/");
    any_starts_with(names, p.as_slice())
}

pub fn names_contain_directory(names: &[Vec<char>], directory: &[char]) -> (r: bool)
    ensures
        r == contains_directory(texts(names@), directory@),
{
    let p = concat(directory, "/");
    any_equals(names, p.as_slice()) || any_starts_with(names, p.as_slice())
}

/// The singular texture folders a core uses, unless a plural one is present.
pub fn core_modern_texture_paths(names: &[Vec<char>], files: &[Vec<char>], prefix: &[char]) -> (r:
    Vec<Vec<char>>)
    ensures
        texts(r@) == modern_paths(texts(names@), texts(files@), prefix@),
{
    if names_contain_directory(names, concat(prefix, "assets/minecraft/textures/items").as_slice())
        || names_contain_directory(
        names,
        concat(prefix, "assets/minecraft/textures/blocks").as_slice(),
    ) {
        let r: Vec<Vec<char>> = Vec::new();
        assert(texts(r@) =~= Seq::<Seq<char>>::empty());
        return r;
    }
    let mut modern: Vec<Vec<char>> = Vec::new();
    let item = names_contain_files(files, concat(prefix, "assets/minecraft/textures/item").as_slice());
    if item {
        modern.push(chars_of("assets/minecraft/textures/item"));
    }
    let block = names_contain_directory(
        names,
        concat(prefix, "assets/minecraft/textures/block").as_slice(),
    );
    if block {
        modern.push(chars_of("assets/minecraft/textures/block"));
    }
    assert(texts(modern@) =~= modern_paths(texts(names@), texts(files@), prefix@));
    modern
}

pub fn strip(n: &[char], prefix: &[char]) -> (r: Option<Vec<char>>)
    ensures
        r matches Some(v) ==> is_prefix(prefix@, n@) && v@ == n@.skip(prefix@.len() as int),
        r is None ==> !is_prefix(prefix@, n@),
{
    if !starts_with(n, prefix) {
        return None;
    }
    let mut out: Vec<char> = Vec::new();
    let mut i: usize = prefix.len();
    while i < n.len()
        invariant
            prefix@.len() <= i <= n@.len(),
            out@ == n@.subrange(prefix@.len() as int, i as int),
        decreases n@.len() - i,
    {
        out.push(n[i]);
        i = i + 1;
        assert(out@ =~= n@.subrange(prefix@.len() as int, i as int));
    }
    assert(n@.subrange(prefix@.len() as int, n@.len() as int) =~= n@.skip(prefix@.len() as int));
    Some(out)
}

fn take_chars(s: &[char], k: usize) -> (r: Vec<char>)
    requires
        k <= s@.len(),
    ensures
        r@ == s@.take(k as int),
{
    let mut out: Vec<char> = Vec::new();
    let mut i: usize = 0;
    while i < k
        invariant
            0 <= i <= k <= s@.len(),
            out@ == s@.take(i as int),
        decreases k - i,
    {
        out.push(s[i]);
        i = i + 1;
        assert(out@ =~= s@.take(i as int));
    }
    out
}

pub fn child_dir_exec(n: &[char], prefix: &[char]) -> (r: Option<Vec<char>>)
    ensures
        r matches Some(v) ==> child_dir_of(n@, prefix@) == Some(v@),
        r is None ==> child_dir_of(n@, prefix@) is None,
{
    match strip(n, prefix) {
        None => None,
        Some(rest) => {
            proof {
                lemma_first_index(rest@, '/');
            }
            match first_index_of(rest.as_slice(), '/') {
                Some(i) => {
                    let d = take_chars(rest.as_slice(), i);
                    if d.len() > 0 && !is_junk_chars(d.as_slice()) {
                        Some(d)
                    } else {
                        None
                    }
                },
                None => None,
            }
        },
    }
}

pub fn child_file_exec(n: &[char], prefix: &[char]) -> (r: Option<Vec<char>>)
    ensures
        r matches Some(v) ==> child_file_of(n@, prefix@) == Some(v@),
        r is None ==> child_file_of(n@, prefix@) is None,
{
    match strip(n, prefix) {
        None => None,
        Some(rest) => {
            if rest.len() > 0 && !has_char(rest.as_slice(), '/') && !is_junk_chars(rest.as_slice()) {
                Some(rest)
            } else {
                None
            }
        },
    }
}

/// Inserts `d` into a strictly sorted list unless it is already there.
fn insert_sorted(v: &mut Vec<Vec<char>>, d: Vec<char>)
    requires
        sorted_strict(texts(old(v)@)),
    ensures
        sorted_strict(texts(final(v)@)),
        texts(final(v)@).to_set() == texts(old(v)@).to_set().insert(d@),
{
    let ghost old_t = texts(v@);
    let mut i: usize = 0;
    while i < v.len() && lex_less(v[i].as_slice(), d.as_slice())
        invariant
            0 <= i <= v@.len(),
            texts(v@) == old_t,
            sorted_strict(old_t),
            forall|k: int| 0 <= k < i ==> lex_lt(#[trigger] old_t[k], d@),
        decreases v@.len() - i,
    {
        assert(old_t[i as int] == v@[i as int]@);
        i = i + 1;
    }
    if i < v.len() {
        assert(old_t[i as int] == v@[i as int]@);
        if seq_eq(v[i].as_slice(), d.as_slice()) {
            assert(old_t.to_set().insert(d@) =~= old_t.to_set()) by {
                assert(old_t.to_set().contains(d@)) by {
                    assert(old_t[i as int] == d@);
                }
            }
            return;
        }
        proof {
            lemma_lex_total(old_t[i as int], d@);
        }
    }
    v.insert(i, d);
    proof {
        let nt = texts(v@);
        assert(nt =~= old_t.take(i as int).push(d@) + old_t.skip(i as int));
        assert forall|a: int, b: int| 0 <= a < b < nt.len() implies lex_lt(#[trigger] nt[a], #[trigger] nt[b]) by {
            if a < i && b < i {
                assert(nt[a] == old_t[a] && nt[b] == old_t[b]);
            } else if a < i && b == i {
                assert(nt[a] == old_t[a]);
            } else if a < i {
                assert(nt[a] == old_t[a] && nt[b] == old_t[b - 1]);
                lemma_lex_trans(old_t[a], d@, old_t[i as int]);
                if b - 1 > i {
                    lemma_lex_trans(old_t[a], old_t[i as int], old_t[b - 1]);
                }
            } else if a == i {
                assert(nt[b] == old_t[b - 1]);
                if b - 1 > i {
                    lemma_lex_trans(d@, old_t[i as int], old_t[b - 1]);
                }
            } else {
                assert(nt[a] == old_t[a - 1] && nt[b] == old_t[b - 1]);
            }
        }
        assert(nt.to_set() =~= old_t.to_set().insert(d@)) by {
            assert forall|x: Seq<char>| nt.to_set().contains(x) implies old_t.to_set().insert(d@).contains(x) by {
                let k = choose|k: int| 0 <= k < nt.len() && nt[k] == x;
                if k < i {
                    assert(old_t[k] == x);
                } else if k > i {
                    assert(old_t[k - 1] == x);
                }
            }
            assert forall|x: Seq<char>| old_t.to_set().insert(d@).contains(x) implies nt.to_set().contains(x) by {
                if x == d@ {
                    assert(nt[i as int] == x);
                } else {
                    let k = choose|k: int| 0 <= k < old_t.len() && old_t[k] == x;
                    if k < i {
                        assert(nt[k] == x);
                    } else {
                        assert(nt[k + 1] == x);
                    }
                }
            }
        }
    }
}

/// The child folders of the layer at `prefix`, sorted and without repeats.
pub fn zip_child_dirs(names: &[Vec<char>], prefix: &[char]) -> (r: Vec<Vec<char>>)
    ensures
        sorted_strict(texts(r@)),
        texts(r@).to_set() == child_dir_set(texts(names@), prefix@),
        texts(r@) == sorted_child_dirs(texts(names@), prefix@),
{
    let mut out: Vec<Vec<char>> = Vec::new();
    let mut i: usize = 0;
    let ghost t = texts(names@);
    while i < names.len()
        invariant
            0 <= i <= names@.len(),
            t == texts(names@),
            sorted_strict(texts(out@)),
            texts(out@).to_set() == Set::new(|d: Seq<char>| exists|k: int| 0 <= k < i && child_dir_of(#[trigger] t[k], prefix@) == Some(d)),
        decreases names@.len() - i,
    {
        assert(t[i as int] == names@[i as int]@);
        let ghost before = texts(out@).to_set();
        match child_dir_exec(names[i].as_slice(), prefix) {
            Some(d) => {
                let ghost dv = d@;
                insert_sorted(&mut out, d);
                assert(texts(out@).to_set() =~= Set::new(|d: Seq<char>| exists|k: int| 0 <= k < i + 1 && child_dir_of(#[trigger] t[k], prefix@) == Some(d))) by {
                    assert forall|x: Seq<char>| #![auto] Set::new(|d: Seq<char>| exists|k: int| 0 <= k < i + 1 && child_dir_of(#[trigger] t[k], prefix@) == Some(d)).contains(x) implies texts(out@).to_set().contains(x) by {
                        let k = choose|k: int| 0 <= k < i + 1 && child_dir_of(#[trigger] t[k], prefix@) == Some(x);
                        if k < i {
                            assert(before.contains(x));
                        }
                    }
                }
            },
            None => {
                assert(texts(out@).to_set() =~= Set::new(|d: Seq<char>| exists|k: int| 0 <= k < i + 1 && child_dir_of(#[trigger] t[k], prefix@) == Some(d))) by {
                    assert forall|x: Seq<char>| #![auto] Set::new(|d: Seq<char>| exists|k: int| 0 <= k < i + 1 && child_dir_of(#[trigger] t[k], prefix@) == Some(d)).contains(x) implies texts(out@).to_set().contains(x) by {
                        let k = choose|k: int| 0 <= k < i + 1 && child_dir_of(#[trigger] t[k], prefix@) == Some(x);
                        assert(k < i);
                    }
                }
            },
        }
        i = i + 1;
    }
    assert(texts(out@).to_set() =~= child_dir_set(texts(names@), prefix@));
    proof {
        let c = sorted_child_dirs(texts(names@), prefix@);
        assert(sorted_strict(c) && c.to_set() == child_dir_set(texts(names@), prefix@));
        lemma_sorted_unique(texts(out@), c);
    }
    out
}

/// The child files of the layer at `prefix`, in listing order.
pub fn zip_child_files(names: &[Vec<char>], prefix: &[char]) -> (r: Vec<Vec<char>>)
    ensures
        texts(r@) == child_files(texts(names@), prefix@),
{
    let mut out: Vec<Vec<char>> = Vec::new();
    let mut i: usize = 0;
    while i < names.len()
        invariant
            0 <= i <= names@.len(),
            texts(out@) == child_files(texts(names@).take(i as int), prefix@),
        decreases names@.len() - i,
    {
        assert(texts(names@).take(i + 1).drop_last() =~= texts(names@).take(i as int));
        assert(texts(names@).take(i + 1).last() == names@[i as int]@);
        match child_file_exec(names[i].as_slice(), prefix) {
            Some(f) => {
                out.push(f);
                assert(texts(out@) =~= child_files(texts(names@).take(i + 1), prefix@));
            },
            None => {},
        }
        i = i + 1;
    }
    assert(texts(names@).take(names@.len() as int) =~= texts(names@));
    out
}

fn text_is(s: &[char], lit: &str) -> (r: bool)
    ensures
        r == (s@ == lit@),
{
    let l = chars_of(lit);
    seq_eq(s, l.as_slice())
}

fn is_extra_root(r: &[char]) -> (b: bool)
    ensures
        b == extra_root(r@),
{
    r.len() > 0 && !text_is(r, "assets") && !text_is(r, "pack.mcmeta") && !text_is(r, "pack.png")
        && !is_junk_chars(r) && !is_mcmeta_variant(r) && !is_png_variant(r)
}

/// What the names of a root layer say about the pack.
pub fn facts_from_zip_names(names: &[Vec<char>]) -> (f: RootFacts)
    ensures
        f == root_facts(texts(names@)),
{
    let ghost t = texts(names@);
    let has_assets = any_starts_with(names, chars_of("assets/").as_slice());
    let has_mcmeta = any_equals(names, chars_of("pack.mcmeta").as_slice());
    let mut mcmeta_rescuable = false;
    let mut png_rescuable = false;
    let mut has_extras = false;
    let mut dead = false;
    let mut i: usize = 0;
    while i < names.len()
        invariant
            0 <= i <= names@.len(),
            t == texts(names@),
            mcmeta_rescuable == exists|k: int| 0 <= k < i && !(#[trigger] t[k]).contains('/') && mcmeta_variant(t[k]),
            png_rescuable == exists|k: int| 0 <= k < i && !(#[trigger] t[k]).contains('/') && png_variant(t[k]),
            has_extras == exists|k: int| 0 <= k < i && extra_root(first_component(#[trigger] t[k])),
            dead == exists|k: int| 0 <= k < i && dead_path(#[trigger] t[k]),
        decreases names@.len() - i,
    {
        let n = names[i].as_slice();
        assert(t[i as int] == n@);
        let root_file = !has_char(n, '/');
        if root_file && is_mcmeta_variant(n) {
            mcmeta_rescuable = true;
        }
        if root_file && is_png_variant(n) {
            png_rescuable = true;
        }
        let parts = split_vec(n, '/');
        proof {
            lemma_split_nonempty(n@, '/');
        }
        if is_extra_root(parts[0].as_slice()) {
            has_extras = true;
        }
        if is_dead_path(n) {
            dead = true;
        }
        i = i + 1;
    }
    RootFacts {
        has_assets,
        has_mcmeta,
        mcmeta_rescuable,
        png_rescuable,
        has_extras,
        dead_path: dead,
    }
}

impl RootFacts {
    /// The bloat causes, in their fixed order.
    pub fn bloat_causes(&self) -> (r: Vec<String>)
        ensures
            r@.map_values(|s: String| s@) == bloat_cause_texts(*self),
    {
        let mut causes: Vec<String> = Vec::new();
        if self.has_extras {
            causes.push("root_extras".to_owned());
        }
        if self.dead_path {
            causes.push("dead_path".to_owned());
        }
        if self.png_rescuable {
            causes.push("png_rescue".to_owned());
        }
        assert(causes@.map_values(|s: String| s@) =~= bloat_cause_texts(*self));
        causes
    }
}

fn byte_at_is(bytes: &[u8], i: usize, b: u8) -> (r: bool)
    ensures
        r == (i < bytes@.len() && bytes@[i as int] == b),
{
    i < bytes.len() && bytes[i] == b
}

/// Container magic (zip, RAR, 7z) or a container extension.
pub fn is_container_payload(name: &[char], bytes: &[u8]) -> (r: bool)
    ensures
        r == container_payload(name@, bytes@),
{
    let lower_name = lower_vec(name);
    let pk = byte_at_is(bytes, 0, 0x50) && byte_at_is(bytes, 1, 0x4b);
    let rar = byte_at_is(bytes, 0, 0x52) && byte_at_is(bytes, 1, 0x61) && byte_at_is(bytes, 2, 0x72)
        && byte_at_is(bytes, 3, 0x21);
    let sevenz = byte_at_is(bytes, 0, 0x37) && byte_at_is(bytes, 1, 0x7a) && byte_at_is(bytes, 2, 0xbc)
        && byte_at_is(bytes, 3, 0xaf) && byte_at_is(bytes, 4, 0x27) && byte_at_is(bytes, 5, 0x1c);
    pk || rar || sevenz || ends_with(lower_name.as_slice(), chars_of(".zip").as_slice()) || ends_with(
        lower_name.as_slice(),
        chars_of(".rar").as_slice(),
    ) || ends_with(lower_name.as_slice(), chars_of(".7z").as_slice())
}

pub fn starts_with_pk(bytes: &[u8]) -> (r: bool)
    ensures
        r == starts_pk(bytes@),
{
    byte_at_is(bytes, 0, 0x50) && byte_at_is(bytes, 1, 0x4b)
}

} // verus!
