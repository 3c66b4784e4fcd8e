//! Building and adjusting the outcome records a processing batch reports.
use vstd::prelude::*;
use crate::model::{strs, PackEntry, PackOutcome, SeparatedPack};
use crate::pack::opt_text;
use crate::text::{chars_of, last_index, last_index_of, lemma_last_index, string_of};

verus! {

/// The OS error code Windows gives for a sharing violation.
pub const LOCKED_OS_ERROR: i32 = 32;

/// An outcome as plain values: original name, action, products, causes,
/// detail, and the separated packs (name, parent).
pub open spec fn outcome_view(o: PackOutcome) -> (Seq<char>, Seq<char>, Seq<Seq<char>>, Seq<Seq<char>>, Option<Seq<char>>, Seq<(Seq<char>, Seq<char>)>) {
    (
        o.original_name@,
        o.action@,
        strs(o.products@),
        strs(o.causes@),
        opt_text(o.detail),
        o.separated@.map_values(|s: SeparatedPack| (s.name@, s.parent@)),
    )
}

pub fn clone_strings(v: &Vec<String>) -> (r: Vec<String>)
    ensures
        strs(r@) == strs(v@),
{
    let mut out: Vec<String> = Vec::new();
    let mut i: usize = 0;
    while i < v.len()
        invariant
            0 <= i <= v@.len(),
            strs(out@) == strs(v@).take(i as int),
        decreases v@.len() - i,
    {
        let ghost before = strs(out@);
        out.push(v[i].clone());
        assert(strs(out@) =~= before.push(v@[i as int]@));
        i = i + 1;
        assert(strs(v@).take(i as int) =~= strs(v@).take(i - 1).push(v@[i - 1]@));
    }
    assert(strs(v@).take(v@.len() as int) =~= strs(v@));
    out
}

/// The outcome of a pack that could not be moved: skipped when the file is
/// locked by another process, failed otherwise.
pub fn locked_or_failed_outcome(entry: &PackEntry, os_error: Option<i32>, message: String) -> (o: PackOutcome)
    ensures
        outcome_view(o) == (
            entry.name@,
            if os_error == Some(LOCKED_OS_ERROR) {
                "skipped_locked"@
            } else {
                "failed"@
            },
            Seq::<Seq<char>>::empty(),
            strs(entry.causes@),
            Some(message@),
            Seq::<(Seq<char>, Seq<char>)>::empty(),
        ),
{
    let locked = match os_error {
        Some(code) => code == LOCKED_OS_ERROR,
        None => false,
    };
    let action = if locked {
        "skipped_locked".to_owned()
    } else {
        "failed".to_owned()
    };
    let o = PackOutcome {
        original_name: entry.name.clone(),
        action,
        products: Vec::new(),
        causes: clone_strings(&entry.causes),
        detail: Some(message),
        separated: Vec::new(),
    };
    assert(strs(o.products@) =~= Seq::<Seq<char>>::empty());
    assert(o.separated@.map_values(|s: SeparatedPack| (s.name@, s.parent@)) =~= Seq::<(Seq<char>, Seq<char>)>::empty());
    o
}

/// The outcome of a step that failed with `detail`.
pub fn failed_outcome(original_name: String, causes: &Vec<String>, detail: String) -> (o: PackOutcome)
    ensures
        outcome_view(o) == (
            original_name@,
            "failed"@,
            Seq::<Seq<char>>::empty(),
            strs(causes@),
            Some(detail@),
            Seq::<(Seq<char>, Seq<char>)>::empty(),
        ),
{
    let o = PackOutcome {
        original_name,
        action: "failed".to_owned(),
        products: Vec::new(),
        causes: clone_strings(causes),
        detail: Some(detail),
        separated: Vec::new(),
    };
    assert(strs(o.products@) =~= Seq::<Seq<char>>::empty());
    assert(o.separated@.map_values(|s: SeparatedPack| (s.name@, s.parent@)) =~= Seq::<(Seq<char>, Seq<char>)>::empty());
    o
}

/// A failed repair of a pack that sat below a folder is put back where it
/// was.
pub open spec fn restore_needed(entry: PackEntry, o: PackOutcome) -> bool {
    o.action@ == "failed"@ && entry.parent_path is Some
}

pub fn needs_restore(entry: &PackEntry, outcome: &PackOutcome) -> (r: bool)
    ensures
        r == restore_needed(*entry, *outcome),
{
    crate::text::seq_eq(chars_of(outcome.action.as_str()).as_slice(), chars_of("failed").as_slice())
        && entry.parent_path.is_some()
}

/// The outcome after putting a failed pack back: when the restoring move
/// failed with `restore_error`, the detail says so.
pub fn restore_classified_failure(entry: &PackEntry, outcome: PackOutcome, restore_error: Option<String>) -> (o: PackOutcome)
    ensures
        !restore_needed(*entry, outcome) || restore_error is None ==> outcome_view(o) == outcome_view(outcome),
        restore_needed(*entry, outcome) && restore_error is Some ==> {
            let v = outcome_view(outcome);
            outcome_view(o) == (
                v.0,
                v.1,
                v.2,
                v.3,
                Some(
                    match v.4 {
                        Some(d) => d,
                        None => Seq::<char>::empty(),
                    } + "; restore failed: "@ + restore_error.unwrap()@,
                ),
                v.5,
            )
        },
{
    let mut outcome = outcome;
    if !needs_restore(entry, &outcome) {
        return outcome;
    }
    match restore_error {
        None => outcome,
        Some(err) => {
            let mut d = match outcome.detail {
                Some(d) => d,
                None => String::new(),
            };
            d.append("; restore failed: ");
            d.append(err.as_str());
            outcome.detail = Some(d);
            outcome
        },
    }
}

/// An outcome that left its pack where it was: failed or skipped as locked.
pub open spec fn left_in_place(o: PackOutcome) -> bool {
    o.action@ == "failed"@ || o.action@ == "skipped_locked"@
}

/// Whether the folder around an unpacked archive may be removed: none of the
/// archive's outcomes left anything in place.
pub fn shell_can_go(outcomes: &Vec<PackOutcome>) -> (r: bool)
    ensures
        r == (forall|j: int| 0 <= j < outcomes@.len() ==> !left_in_place(#[trigger] outcomes@[j])),
{
    let mut i: usize = 0;
    while i < outcomes.len()
        invariant
            0 <= i <= outcomes@.len(),
            forall|j: int| 0 <= j < i ==> !left_in_place(#[trigger] outcomes@[j]),
        decreases outcomes@.len() - i,
    {
        let a = chars_of(outcomes[i].action.as_str());
        if crate::text::seq_eq(a.as_slice(), chars_of("failed").as_slice())
            || crate::text::seq_eq(a.as_slice(), chars_of("skipped_locked").as_slice()) {
            return false;
        }
        i = i + 1;
    }
    true
}

/// The text before the last `/` of a relative path, when there is one.
pub open spec fn rel_parent(rel: Seq<char>) -> Option<Seq<char>> {
    match last_index(rel, '/') {
        Some(k) => if k > 0 {
            Some(rel.take(k))
        } else {
            None
        },
        None => None,
    }
}

/// Every backslash turned into a slash.
pub open spec fn slashed(s: Seq<char>) -> Seq<char> {
    s.map_values(|c: char| if c == '\\' {
        '/'
    } else {
        c
    })
}

/// A product name qualified by the folder of the entry it came from.
pub open spec fn qualified(parent: Option<Seq<char>>, name: Seq<char>) -> Seq<char> {
    match parent {
        Some(p) => slashed(p + "/"@ + name),
        None => name,
    }
}

fn rel_parent_exec(rel: &String) -> (r: Option<Vec<char>>)
    ensures
        match r {
            Some(v) => rel_parent(rel@) == Some(v@),
            None => rel_parent(rel@) is None,
        },
{
    let cs = chars_of(rel.as_str());
    match last_index_of(cs.as_slice(), '/') {
        Some(k) => {
            if k > 0 {
                let mut out: Vec<char> = Vec::new();
                let mut i: usize = 0;
                proof {
                    lemma_last_index(cs@, '/');
                }
                while i < k
                    invariant
                        0 <= i <= k,
                        k < cs@.len(),
                        out@ == cs@.take(i as int),
                    decreases k - i,
                {
                    out.push(cs[i]);
                    i = i + 1;
                    assert(out@ =~= cs@.take(i as int));
                }
                Some(out)
            } else {
                None
            }
        },
        None => None,
    }
}

fn qualify(parent: &Option<Vec<char>>, name: &String) -> (r: String)
    ensures
        r@ == qualified(match parent {
            Some(p) => Some(p@),
            None => None,
        }, name@),
{
    match parent {
        None => name.clone(),
        Some(p) => {
            let joined = crate::layout::join(
                crate::layout::join(p.as_slice(), chars_of("/").as_slice()).as_slice(),
                chars_of(name.as_str()).as_slice(),
            );
            let mut out: Vec<char> = Vec::new();
            let mut i: usize = 0;
            while i < joined.len()
                invariant
                    0 <= i <= joined@.len(),
                    out@ == slashed(joined@).take(i as int),
                decreases joined@.len() - i,
            {
                let c = joined[i];
                out.push(if c == '\\' {
                    '/'
                } else {
                    c
                });
                i = i + 1;
                assert(out@ =~= slashed(joined@).take(i as int));
            }
            assert(slashed(joined@).take(joined@.len() as int) =~= slashed(joined@));
            string_of(out.as_slice())
        },
    }
}

/// Reports an outcome by the entry's relative path: products and separated
/// packs are qualified by the entry's folder, and separated packs name the
/// entry as their parent.
pub fn qualify_outcome_paths(entry: &PackEntry, outcome: &mut PackOutcome)
    ensures
        final(outcome).original_name@ == entry.relative_path@,
        final(outcome).action@ == old(outcome).action@,
        strs(final(outcome).causes@) == strs(old(outcome).causes@),
        opt_text(final(outcome).detail) == opt_text(old(outcome).detail),
        strs(final(outcome).products@) == strs(old(outcome).products@).map_values(
            |n: Seq<char>| qualified(rel_parent(entry.relative_path@), n),
        ),
        final(outcome).separated@.map_values(|s: SeparatedPack| (s.name@, s.parent@))
            == old(outcome).separated@.map_values(
            |s: SeparatedPack| (qualified(rel_parent(entry.relative_path@), s.name@), entry.relative_path@),
        ),
{
    let parent = rel_parent_exec(&entry.relative_path);
    let ghost pv = rel_parent(entry.relative_path@);
    let mut products: Vec<String> = Vec::new();
    std::mem::swap(&mut products, &mut outcome.products);
    let ghost old_products = strs(products@);
    let mut new_products: Vec<String> = Vec::new();
    let mut i: usize = 0;
    while i < products.len()
        invariant
            0 <= i <= products@.len(),
            old_products == strs(products@),
            pv == match parent {
                Some(p) => Some(p@),
                None => None,
            },
            strs(new_products@) == old_products.take(i as int).map_values(|n: Seq<char>| qualified(pv, n)),
        decreases products@.len() - i,
    {
        let q = qualify(&parent, &products[i]);
        let ghost before = strs(new_products@);
        new_products.push(q);
        assert(strs(new_products@) =~= before.push(q@));
        i = i + 1;
        assert(old_products.take(i as int).map_values(|n: Seq<char>| qualified(pv, n)) =~= old_products.take(
            i - 1,
        ).map_values(|n: Seq<char>| qualified(pv, n)).push(qualified(pv, old_products[i - 1])));
    }
    assert(old_products.take(products@.len() as int) =~= old_products);
    let mut separated: Vec<SeparatedPack> = Vec::new();
    std::mem::swap(&mut separated, &mut outcome.separated);
    let ghost old_sep = separated@;
    let mut new_sep: Vec<SeparatedPack> = Vec::new();
    let mut j: usize = 0;
    while j < separated.len()
        invariant
            0 <= j <= separated@.len(),
            old_sep == separated@,
            pv == match parent {
                Some(p) => Some(p@),
                None => None,
            },
            new_sep@.map_values(|s: SeparatedPack| (s.name@, s.parent@)) == old_sep.take(j as int).map_values(
                |s: SeparatedPack| (qualified(pv, s.name@), entry.relative_path@),
            ),
        decreases separated@.len() - j,
    {
        let s = SeparatedPack { name: qualify(&parent, &separated[j].name), parent: entry.relative_path.clone() };
        let ghost before = new_sep@.map_values(|s: SeparatedPack| (s.name@, s.parent@));
        let ghost sv = (s.name@, s.parent@);
        new_sep.push(s);
        assert(new_sep@.map_values(|s: SeparatedPack| (s.name@, s.parent@)) =~= before.push(sv));
        j = j + 1;
        assert(old_sep.take(j as int).map_values(|s: SeparatedPack| (qualified(pv, s.name@), entry.relative_path@))
            =~= old_sep.take(j - 1).map_values(|s: SeparatedPack| (qualified(pv, s.name@), entry.relative_path@)).push(
            (qualified(pv, old_sep[j - 1].name@), entry.relative_path@),
        ));
    }
    assert(old_sep.take(separated@.len() as int) =~= old_sep);
    outcome.original_name = entry.relative_path.clone();
    outcome.products = new_products;
    outcome.separated = new_sep;
}

/// The names whose files are locked, in order: `locked[i]` says whether
/// the file named `names[i]` is held open by another process.
pub fn probe_locked(names: &Vec<String>, locked: &Vec<bool>) -> (r: Vec<String>)
    requires
        names@.len() == locked@.len(),
    ensures
        strs(r@) == locked_names(strs(names@), locked@, names@.len() as int),
{
    let mut out: Vec<String> = Vec::new();
    let mut i: usize = 0;
    while i < names.len()
        invariant
            0 <= i <= names@.len(),
            names@.len() == locked@.len(),
            strs(out@) == locked_names(strs(names@), locked@, i as int),
        decreases names@.len() - i,
    {
        if locked[i] {
            let ghost before = strs(out@);
            out.push(names[i].clone());
            assert(strs(out@) =~= before.push(names@[i as int]@));
        }
        i = i + 1;
    }
    out
}

/// The first `k` names whose flag is set, in order.
pub open spec fn locked_names(names: Seq<Seq<char>>, locked: Seq<bool>, k: int) -> Seq<Seq<char>>
    decreases k,
{
    if k <= 0 || k > names.len() || k > locked.len() {
        Seq::<Seq<char>>::empty()
    } else if locked[k - 1] {
        locked_names(names, locked, k - 1).push(names[k - 1])
    } else {
        locked_names(names, locked, k - 1)
    }
}

proof fn lemma_locked_positions(names: Seq<Seq<char>>, locked: Seq<bool>, k: int) -> (idx: Seq<int>)
    requires
        names.len() == locked.len(),
        0 <= k <= names.len(),
    ensures
        idx.len() == locked_names(names, locked, k).len(),
        forall|j: int| 0 <= j < idx.len() ==> 0 <= #[trigger] idx[j] < k && locked[idx[j]]
            && locked_names(names, locked, k)[j] == names[idx[j]],
        forall|a: int, b: int| 0 <= a < b < idx.len() ==> idx[a] < idx[b],
        forall|i: int| 0 <= i < k && locked[i] ==> exists|j: int| 0 <= j < idx.len() && #[trigger] idx[j] == i,
    decreases k,
{
    if k == 0 {
        Seq::<int>::empty()
    } else {
        let r = lemma_locked_positions(names, locked, k - 1);
        let prev = locked_names(names, locked, k - 1);
        if locked[k - 1] {
            let idx = r.push(k - 1);
            let out = locked_names(names, locked, k);
            assert(out == prev.push(names[k - 1]));
            assert forall|j: int| 0 <= j < idx.len() implies 0 <= #[trigger] idx[j] < k && locked[idx[j]]
                && out[j] == names[idx[j]] by {
                if j < r.len() {
                    assert(idx[j] == r[j]);
                    assert(out[j] == prev[j]);
                }
            }
            assert forall|i: int| 0 <= i < k && locked[i] implies exists|j: int| 0 <= j < idx.len() && #[trigger] idx[j] == i by {
                if i == k - 1 {
                    assert(idx[r.len() as int] == i);
                } else {
                    let j = choose|j: int| 0 <= j < r.len() && #[trigger] r[j] == i;
                    assert(idx[j] == i);
                }
            }
            idx
        } else {
            r
        }
    }
}

/// `out` is the names at the increasing positions `idx`, each position
/// locked, and every locked position among them.
pub open spec fn picks_locked(names: Seq<Seq<char>>, locked: Seq<bool>, out: Seq<Seq<char>>, idx: Seq<int>) -> bool {
    &&& idx.len() == out.len()
    &&& forall|j: int| 0 <= j < idx.len() ==> 0 <= #[trigger] idx[j] < names.len() && locked[idx[j]]
        && out[j] == names[idx[j]]
    &&& forall|a: int, b: int| 0 <= a < b < idx.len() ==> idx[a] < idx[b]
    &&& forall|i: int| 0 <= i < names.len() && locked[i] ==> exists|j: int| 0 <= j < idx.len() && #[trigger] idx[j] == i
}

/// Law: the lock preflight reports exactly the locked names, in order:
/// the result is the names at some increasing positions, each of them
/// locked, and every locked position is among them.
pub proof fn law_probe_locked_reports_every_locked_name(names: Seq<Seq<char>>, locked: Seq<bool>)
    requires
        names.len() == locked.len(),
    ensures
        exists|idx: Seq<int>| #[trigger] picks_locked(names, locked, locked_names(names, locked, names.len() as int), idx),
        forall|i: int| 0 <= i < names.len() && #[trigger] locked[i] ==> locked_names(names, locked, names.len() as int).contains(names[i]),
{
    let idx = lemma_locked_positions(names, locked, names.len() as int);
    let out = locked_names(names, locked, names.len() as int);
    assert(picks_locked(names, locked, out, idx));
    assert forall|i: int| 0 <= i < names.len() && #[trigger] locked[i] implies out.contains(names[i]) by {
        let j = choose|j: int| 0 <= j < idx.len() && #[trigger] idx[j] == i;
        assert(out[j] == names[i]);
    }
}

} // verus!
