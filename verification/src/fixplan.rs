//! The decision list for rebuilding a pack's root layer: which entries go
//! into the clean zip, under which names, and whether an mcmeta must be made.
use vstd::prelude::*;
use crate::layout::{any_equal, any_equals, texts};
use crate::names::{
    candidate_lt, dead_path, is_dead_path, is_junk_chars, is_mcmeta_variant, is_png_variant,
    junk_name, mcmeta_candidate_before, mcmeta_variant, png_variant,
};
use crate::text::{
    chars_of, copy_chars, ends_with, has_char, is_prefix, is_suffix, lemma_lex_total, lemma_lex_trans,
    seq_eq, split, split_vec, starts_with, lower,
};

verus! {

pub open spec fn mc_candidate(n: Seq<char>) -> bool {
    !n.contains('/') && mcmeta_variant(n)
}

pub open spec fn png_candidate(n: Seq<char>) -> bool {
    !n.contains('/') && png_variant(n)
}

/// The best `pack.mcmeta` source among the first `k` names: the least
/// candidate in candidate order.
pub open spec fn best_mc(names: Seq<Seq<char>>, k: int) -> Option<Seq<char>>
    decreases k,
{
    if k <= 0 || k > names.len() {
        None
    } else {
        let r = best_mc(names, k - 1);
        let n = names[k - 1];
        if mc_candidate(n) {
            match r {
                None => Some(n),
                Some(b) => if candidate_lt(n, b) {
                    Some(n)
                } else {
                    Some(b)
                },
            }
        } else {
            r
        }
    }
}

/// The first `pack.png` source among the first `k` names.
pub open spec fn first_png(names: Seq<Seq<char>>, k: int) -> Option<Seq<char>>
    decreases k,
{
    if k <= 0 || k > names.len() {
        None
    } else {
        match first_png(names, k - 1) {
            Some(p) => Some(p),
            None => if png_candidate(names[k - 1]) {
                Some(names[k - 1])
            } else {
                None
            },
        }
    }
}

/// The name that becomes `pack.mcmeta` when the pack has none.
pub open spec fn chosen_mcmeta(names: Seq<Seq<char>>) -> Option<Seq<char>> {
    if any_equal(names, "pack.mcmeta"@) {
        None
    } else {
        best_mc(names, names.len() as int)
    }
}

/// The name that becomes `pack.png` when the pack has none.
pub open spec fn chosen_png(names: Seq<Seq<char>>) -> Option<Seq<char>> {
    if any_equal(names, "pack.png"@) {
        None
    } else {
        first_png(names, names.len() as int)
    }
}

/// Some component of the path is OS or archiver junk.
pub open spec fn junk_component(n: Seq<char>) -> bool {
    exists|i: int| 0 <= i < split(n, '/').len() && junk_name(#[trigger] split(n, '/')[i])
}

/// Where the entry named `n` goes in the rebuilt zip: the core files and
/// the chosen typo'd sources at the root, everything under `assets/` as it
/// is, nothing else (folders, junk, dead paths, extras).
pub open spec fn fix_target(names: Seq<Seq<char>>, n: Seq<char>) -> Option<Seq<char>> {
    if is_suffix("/"@, n) || junk_component(n) || dead_path(n) {
        None
    } else if !n.contains('/') {
        if n == "pack.mcmeta"@ || n == "pack.png"@ {
            Some(n)
        } else if chosen_mcmeta(names) == Some(n) {
            Some("pack.mcmeta"@)
        } else if chosen_png(names) == Some(n) {
            Some("pack.png"@)
        } else {
            None
        }
    } else if is_prefix("assets/"@, n) {
        Some(n)
    } else {
        None
    }
}

/// The rebuild plan: for each name, in order, its target (if kept), and
/// whether a default mcmeta must be written.
pub struct FixPlan {
    pub targets: Vec<Option<String>>,
    pub mcmeta_missing: bool,
}

pub open spec fn targets_view(t: Seq<Option<String>>) -> Seq<Option<Seq<char>>> {
    t.map_values(|o: Option<String>| match o {
        Some(s) => Some(s@),
        None => None,
    })
}

fn has_junk_component(n: &[char]) -> (r: bool)
    ensures
        r == junk_component(n@),
{
    let parts = split_vec(n, '/');
    let mut i: usize = 0;
    while i < parts.len()
        invariant
            0 <= i <= parts@.len(),
            parts@.len() == split(n@, '/').len(),
            forall|k: int| 0 <= k < parts@.len() ==> #[trigger] parts@[k]@ == split(n@, '/')[k],
            forall|k: int| 0 <= k < i ==> !junk_name(#[trigger] split(n@, '/')[k]),
        decreases parts@.len() - i,
    {
        assert(parts@[i as int]@ == split(n@, '/')[i as int]);
        if is_junk_chars(parts[i].as_slice()) {
            return true;
        }
        i = i + 1;
    }
    false
}

fn best_mc_exec(names: &[Vec<char>]) -> (r: Option<Vec<char>>)
    ensures
        match r {
            Some(v) => best_mc(texts(names@), names@.len() as int) == Some(v@),
            None => best_mc(texts(names@), names@.len() as int) is None,
        },
{
    let ghost t = texts(names@);
    let mut best: Option<Vec<char>> = None;
    let mut i: usize = 0;
    while i < names.len()
        invariant
            0 <= i <= names@.len(),
            t == texts(names@),
            match best {
                Some(v) => best_mc(t, i as int) == Some(v@),
                None => best_mc(t, i as int) is None,
            },
        decreases names@.len() - i,
    {
        let n = names[i].as_slice();
        assert(t[i as int] == n@);
        if !has_char(n, '/') && is_mcmeta_variant(n) {
            let replace = match &best {
                None => true,
                Some(b) => mcmeta_candidate_before(n, b.as_slice()),
            };
            if replace {
                best = Some(copy_chars(n));
            }
        }
        i = i + 1;
    }
    best
}

fn first_png_exec(names: &[Vec<char>]) -> (r: Option<Vec<char>>)
    ensures
        match r {
            Some(v) => first_png(texts(names@), names@.len() as int) == Some(v@),
            None => first_png(texts(names@), names@.len() as int) is None,
        },
{
    let ghost t = texts(names@);
    let mut i: usize = 0;
    while i < names.len()
        invariant
            0 <= i <= names@.len(),
            t == texts(names@),
            first_png(t, i as int) is None,
        decreases names@.len() - i,
    {
        let n = names[i].as_slice();
        assert(t[i as int] == n@);
        if !has_char(n, '/') && is_png_variant(n) {
            proof {
                lemma_first_png_stays(t, i as int + 1, names@.len() as int);
            }
            return Some(copy_chars(n));
        }
        i = i + 1;
    }
    None
}

proof fn lemma_first_png_stays(names: Seq<Seq<char>>, i: int, j: int)
    requires
        0 < i <= j <= names.len(),
        first_png(names, i) is Some,
    ensures
        first_png(names, j) == first_png(names, i),
    decreases j - i,
{
    if i < j {
        lemma_first_png_stays(names, i, j - 1);
    }
}

fn opt_eq(o: &Option<Vec<char>>, n: &[char]) -> (r: bool)
    ensures
        r == (match o {
            Some(v) => Some(v@),
            None => None::<Seq<char>>,
        } == Some(n@)),
{
    match o {
        Some(v) => seq_eq(v.as_slice(), n),
        None => false,
    }
}

/// Decides, for every entry name of a pack, where it goes in the rebuilt
/// clean zip.
pub fn build_root_fix_plan(names: &[Vec<char>]) -> (plan: FixPlan)
    ensures
        targets_view(plan.targets@).len() == names@.len(),
        forall|i: int| 0 <= i < names@.len() ==> #[trigger] targets_view(plan.targets@)[i] == fix_target(texts(names@), names@[i]@),
        plan.mcmeta_missing == (!any_equal(texts(names@), "pack.mcmeta"@) && chosen_mcmeta(texts(names@)) is None),
{
    let ghost t = texts(names@);
    let has_mc = any_equals(names, chars_of("pack.mcmeta").as_slice());
    let has_png = any_equals(names, chars_of("pack.png").as_slice());
    let chosen_mc = if has_mc {
        None
    } else {
        best_mc_exec(names)
    };
    let chosen_pn = if has_png {
        None
    } else {
        first_png_exec(names)
    };
    let slash = chars_of("/");
    let assets = chars_of("assets/");
    let mut targets: Vec<Option<String>> = Vec::new();
    let mut i: usize = 0;
    while i < names.len()
        invariant
            0 <= i <= names@.len(),
            t == texts(names@),
            slash@ == "/"@,
            assets@ == "assets/"@,
            match chosen_mc {
                Some(v) => chosen_mcmeta(t) == Some(v@),
                None => chosen_mcmeta(t) is None,
            },
            match chosen_pn {
                Some(v) => chosen_png(t) == Some(v@),
                None => chosen_png(t) is None,
            },
            targets_view(targets@).len() == i,
            forall|k: int| 0 <= k < i ==> #[trigger] targets_view(targets@)[k] == fix_target(t, names@[k]@),
        decreases names@.len() - i,
    {
        let n = names[i].as_slice();
        let target: Option<String> = if ends_with(n, slash.as_slice()) || has_junk_component(n) || is_dead_path(n) {
            None
        } else if !has_char(n, '/') {
            if seq_eq(n, chars_of("pack.mcmeta").as_slice()) || seq_eq(n, chars_of("pack.png").as_slice()) {
                Some(crate::text::string_of(n))
            } else if opt_eq(&chosen_mc, n) {
                Some("pack.mcmeta".to_owned())
            } else if opt_eq(&chosen_pn, n) {
                Some("pack.png".to_owned())
            } else {
                None
            }
        } else if starts_with(n, assets.as_slice()) {
            Some(crate::text::string_of(n))
        } else {
            None
        };
        let ghost before = targets_view(targets@);
        let ghost tv = match target {
            Some(ref s) => Some(s@),
            None => None::<Seq<char>>,
        };
        assert(tv == fix_target(t, n@));
        targets.push(target);
        assert(targets_view(targets@) =~= before.push(tv));
        i = i + 1;
    }
    FixPlan { targets, mcmeta_missing: !has_mc && chosen_mc.is_none() }
}

pub(crate) proof fn lemma_split_whole(n: Seq<char>, sep: char)
    requires
        !n.contains(sep),
    ensures
        split(n, sep) == seq![n],
    decreases n.len(),
{
    if n.len() == 0 {
        assert(n =~= Seq::<char>::empty());
    } else {
        assert(!n.drop_last().contains(sep)) by {
            if n.drop_last().contains(sep) {
                let k = choose|k: int| 0 <= k < n.drop_last().len() && n.drop_last()[k] == sep;
                assert(n[k] == sep);
            }
        }
        lemma_split_whole(n.drop_last(), sep);
        assert(n.last() != sep) by {
            assert(n[n.len() - 1] == n.last());
        }
        assert(n.drop_last().push(n.last()) =~= n);
    }
}

pub(crate) proof fn lemma_best_mc_member(names: Seq<Seq<char>>, k: int)
    ensures
        best_mc(names, k) matches Some(b) ==> exists|i: int| 0 <= i < k && i < names.len() && names[i] == b && mc_candidate(b),
    decreases k,
{
    if k > 0 && k <= names.len() {
        lemma_best_mc_member(names, k - 1);
    }
}

/// A root name that is not junk is neither a folder, junk, nor a dead path.
proof fn lemma_plain_root(n: Seq<char>)
    requires
        !n.contains('/'),
        !junk_name(n),
    ensures
        !is_suffix("/"@, n),
        !junk_component(n),
        !dead_path(n),
{
    reveal_strlit("/");
    lemma_split_whole(n, '/');
    if is_suffix("/"@, n) {
        assert(n.skip(n.len() - 1)[0] == n[n.len() - 1]);
        assert(n[n.len() - 1] == '/');
    }
    assert(split(n, '/')[0] == n);
}

/// A rescuable typo of `pack.mcmeta` or `pack.png` is not junk.
proof fn lemma_variant_not_junk(n: Seq<char>)
    requires
        mcmeta_variant(n) || png_variant(n),
    ensures
        !junk_name(n),
{
    reveal_strlit("pack.mcmeta");
    reveal_strlit("pack.mcmeta.mcmeta");
    reveal_strlit("pack.mcmeta.txt");
    reveal_strlit("pack.png");
    reveal_strlit("pack..png");
    reveal_strlit("pack.png.png");
    reveal_strlit("__macosx");
    reveal_strlit(".ds_store");
    reveal_strlit("thumbs.db");
    reveal_strlit("desktop.ini");
    let l = lower(n);
    assert(l[0] == 'p');
}

/// Every entry the rebuilt zip keeps lands on a core path: `pack.mcmeta`,
/// `pack.png`, or under `assets/`.
pub proof fn law_fix_targets_are_core_paths(names: Seq<Seq<char>>, n: Seq<char>)
    requires
        fix_target(names, n) is Some,
    ensures
        fix_target(names, n) == Some("pack.mcmeta"@) || fix_target(names, n) == Some("pack.png"@)
            || is_prefix("assets/"@, fix_target(names, n).unwrap()),
{
}

/// Two different entries of a pack never land on the same path of the
/// rebuilt zip.
pub proof fn law_fix_targets_distinct(names: Seq<Seq<char>>, i: int, j: int)
    requires
        0 <= i < names.len(),
        0 <= j < names.len(),
        names[i] != names[j],
        fix_target(names, names[i]) is Some,
        fix_target(names, names[j]) is Some,
    ensures
        fix_target(names, names[i]) != fix_target(names, names[j]),
{
    reveal_strlit("pack.mcmeta");
    reveal_strlit("pack.png");
    reveal_strlit("assets/");
    let a = names[i];
    let b = names[j];
    let ta = fix_target(names, a).unwrap();
    let tb = fix_target(names, b).unwrap();
    if a.contains('/') && !b.contains('/') {
        let k = choose|k: int| 0 <= k < a.len() && a[k] == '/';
        assert(ta == a);
        assert(!tb.contains('/'));
    } else if b.contains('/') && !a.contains('/') {
        let k = choose|k: int| 0 <= k < b.len() && b[k] == '/';
        assert(tb == b);
        assert(!ta.contains('/'));
    } else if !a.contains('/') && !b.contains('/') {
        if ta == tb {
            if ta == "pack.mcmeta"@ {
                if a == "pack.mcmeta"@ {
                    assert(any_equal(names, "pack.mcmeta"@));
                } else if b == "pack.mcmeta"@ {
                    assert(any_equal(names, "pack.mcmeta"@));
                }
            } else {
                if a == "pack.png"@ {
                    assert(any_equal(names, "pack.png"@));
                } else if b == "pack.png"@ {
                    assert(any_equal(names, "pack.png"@));
                }
            }
        }
    }
}

/// A rebuilt zip always gets a `pack.mcmeta`: a default is written exactly
/// when no entry lands on that path.
pub proof fn law_fix_plan_writes_one_mcmeta(names: Seq<Seq<char>>)
    ensures
        (!any_equal(names, "pack.mcmeta"@) && chosen_mcmeta(names) is None) <==> !(exists|i: int|
            0 <= i < names.len() && fix_target(names, #[trigger] names[i]) == Some("pack.mcmeta"@)),
{
    reveal_strlit("pack.mcmeta");
    reveal_strlit("pack.png");
    reveal_strlit("pack.mcmeta.mcmeta");
    reveal_strlit("pack.mcmeta.txt");
    if any_equal(names, "pack.mcmeta"@) {
        let i = choose|i: int| 0 <= i < names.len() && names[i] == "pack.mcmeta"@;
        assert(!"pack.mcmeta"@.contains('/'));
        assert(!junk_name("pack.mcmeta"@)) by {
            reveal_strlit("__macosx");
            reveal_strlit(".ds_store");
            reveal_strlit("thumbs.db");
            reveal_strlit("desktop.ini");
            assert(lower("pack.mcmeta"@)[0] == 'p');
        }
        lemma_plain_root("pack.mcmeta"@);
        assert(fix_target(names, names[i]) == Some("pack.mcmeta"@));
    } else {
        lemma_best_mc_member(names, names.len() as int);
        match chosen_mcmeta(names) {
            Some(b) => {
                let i = choose|i: int| 0 <= i < names.len() && names[i] == b && mc_candidate(b);
                lemma_variant_not_junk(b);
                lemma_plain_root(b);
                assert(b != "pack.png"@) by {
                    if b == "pack.png"@ {
                        assert(lower(b) =~= "pack.png"@);
                    }
                }
                assert(fix_target(names, names[i]) == Some("pack.mcmeta"@));
            },
            None => {
                assert forall|i: int| 0 <= i < names.len() implies fix_target(names, #[trigger] names[i]) != Some(
                    "pack.mcmeta"@,
                ) by {
                    let n = names[i];
                    if fix_target(names, n) == Some("pack.mcmeta"@) {
                        if n.contains('/') {
                            let k = choose|k: int| 0 <= k < n.len() && n[k] == '/';
                            assert(n == "pack.mcmeta"@);
                        } else {
                            assert(n == "pack.mcmeta"@ || chosen_mcmeta(names) == Some(n) || (chosen_png(names) == Some(n) && false) || n == "pack.png"@);
                        }
                    }
                }
            },
        }
    }
}

} // verus!
