//! Decisions made while unpacking a shell: what happens to each pack inside
//! it, where packs and attachments land, and how products are named.
use vstd::prelude::*;
use crate::model::{entries_view, strs, Category, EntryView, NodeKind, PackEntry};
use crate::names::{is_junk_chars, junk_name, sanitize_windows_name, sanitized};
use crate::plan::{has_lunar, path_measure};
use crate::text::{chars_of, is_prefix, is_suffix, seq_eq, split, split_vec, starts_with, string_of, ends_with, copy_chars};
use crate::layout::{join, texts};

verus! {

/// What happens to a pack found inside a wrapping zip.
#[derive(Debug, Clone, Copy, PartialEq, Eq, Structural)]
pub enum ChildAction {
    /// Copied to the illegal folder.
    Illegal,
    /// Released unchanged into the packs folder.
    Unchanged,
    /// Its inner cores are unwrapped into packs.
    Unwrap,
    /// Rebuilt as a clean zip.
    Fix,
}

/// What happens to the one pack inside a folder shell.
#[derive(Debug, Clone, Copy, PartialEq, Eq, Structural)]
pub enum ShellAction {
    /// The child is not a pack: nothing is done.
    Unsupported,
    /// The child is released into the packs folder and the shell removed.
    Release,
    /// The shell is set aside and the child copied to the illegal folder.
    Illegal,
    /// The shell is set aside and the child's cores unwrapped.
    Unwrap,
    /// The shell is set aside and the child rebuilt as a clean zip.
    Fix,
}

pub open spec fn child_action_of(e: EntryView) -> ChildAction {
    if e.4 == Category::Illegal {
        ChildAction::Illegal
    } else if (e.4 == Category::Normal || e.4 == Category::Ignored) && !has_lunar(e) {
        ChildAction::Unchanged
    } else if e.4 == Category::Nested && e.5.contains("nested_container"@) {
        ChildAction::Unwrap
    } else {
        ChildAction::Fix
    }
}

pub open spec fn shell_action_of(child: EntryView) -> ShellAction {
    if child.3 != NodeKind::Pack {
        ShellAction::Unsupported
    } else if (child.4 == Category::Normal || child.4 == Category::Ignored) && !has_lunar(child) {
        ShellAction::Release
    } else if child.4 == Category::Illegal {
        ShellAction::Illegal
    } else if child.4 == Category::Nested && child.5.contains("nested_container"@) {
        ShellAction::Unwrap
    } else {
        ShellAction::Fix
    }
}

fn has_cause(causes: &Vec<String>, key: &str) -> (r: bool)
    ensures
        r == strs(causes@).contains(key@),
{
    let lit = chars_of(key);
    let mut i: usize = 0;
    while i < causes.len()
        invariant
            0 <= i <= causes@.len(),
            lit@ == key@,
            forall|j: int| 0 <= j < i ==> strs(causes@)[j] != key@,
        decreases causes@.len() - i,
    {
        if seq_eq(chars_of(causes[i].as_str()).as_slice(), lit.as_slice()) {
            assert(strs(causes@)[i as int] == key@);
            return true;
        }
        i = i + 1;
    }
    false
}

/// What happens to a pack found inside a wrapping zip.
pub fn child_action(child: &PackEntry) -> (r: ChildAction)
    ensures
        r == child_action_of(child@),
{
    if child.category == Category::Illegal {
        ChildAction::Illegal
    } else if (child.category == Category::Normal || child.category == Category::Ignored) && !has_cause(
        &child.causes,
        "lunar_escape",
    ) {
        ChildAction::Unchanged
    } else if child.category == Category::Nested && has_cause(&child.causes, "nested_container") {
        ChildAction::Unwrap
    } else {
        ChildAction::Fix
    }
}

/// What happens to the one pack inside a folder shell.
pub fn shell_action(child: &PackEntry) -> (r: ShellAction)
    ensures
        r == shell_action_of(child@),
{
    if child.kind != NodeKind::Pack {
        ShellAction::Unsupported
    } else if (child.category == Category::Normal || child.category == Category::Ignored) && !has_cause(
        &child.causes,
        "lunar_escape",
    ) {
        ShellAction::Release
    } else if child.category == Category::Illegal {
        ShellAction::Illegal
    } else if child.category == Category::Nested && has_cause(&child.causes, "nested_container") {
        ShellAction::Unwrap
    } else {
        ShellAction::Fix
    }
}

/// The entries at the given indices.
pub open spec fn picked(es: Seq<EntryView>, idx: Seq<usize>) -> Seq<EntryView> {
    idx.map_values(|i: usize| es[i as int])
}

/// The last of the picked entries at `path`.
pub open spec fn picked_at(es: Seq<EntryView>, idx: Seq<usize>, path: Seq<char>) -> Option<EntryView>
    decreases idx.len(),
{
    if idx.len() == 0 {
        None
    } else if es[idx.last() as int].1 == path {
        Some(es[idx.last() as int])
    } else {
        picked_at(es, idx.drop_last(), path)
    }
}

fn picked_at_exec<'a>(entries: &'a Vec<PackEntry>, idx: &Vec<usize>, path: &[char]) -> (r: Option<&'a PackEntry>)
    requires
        forall|j: int| 0 <= j < idx@.len() ==> idx@[j] < entries@.len(),
    ensures
        match r {
            Some(e) => picked_at(entries_view(entries@), idx@, path@) == Some(e@),
            None => picked_at(entries_view(entries@), idx@, path@) is None,
        },
{
    let ghost ev = entries_view(entries@);
    let mut k: usize = idx.len();
    assert(idx@.take(k as int) =~= idx@);
    while k > 0
        invariant
            0 <= k <= idx@.len(),
            ev == entries_view(entries@),
            forall|j: int| 0 <= j < idx@.len() ==> idx@[j] < entries@.len(),
            picked_at(ev, idx@, path@) == picked_at(ev, idx@.take(k as int), path@),
        decreases k,
    {
        let ghost t = idx@.take(k as int);
        assert(t.last() == idx@[k - 1]);
        assert(t.drop_last() =~= idx@.take(k - 1));
        let e = &entries[idx[k - 1]];
        assert(ev[idx@[k - 1] as int] == e@);
        if seq_eq(chars_of(e.relative_path.as_str()).as_slice(), path) {
            return Some(e);
        }
        k = k - 1;
    }
    None
}

pub open spec fn preserved_kind(k: NodeKind) -> bool {
    k == NodeKind::ClassificationFolder || k == NodeKind::SupportingFolder
}

/// The folders between a shell and one of its packs that are kept around
/// the released pack, outermost first: classification and supporting
/// folders, named safely. The walk up stops at the shell, at a path with no
/// entry, and at a parent path not shorter than its entry's own.
pub open spec fn preserved_parts(es: Seq<EntryView>, idx: Seq<usize>, shell_rel: Seq<char>, parent: Option<Seq<char>>) -> Seq<Seq<char>>
    decreases path_measure(parent),
{
    match parent {
        None => Seq::<Seq<char>>::empty(),
        Some(p) => if p == shell_rel {
            Seq::<Seq<char>>::empty()
        } else {
            match picked_at(es, idx, p) {
                None => Seq::<Seq<char>>::empty(),
                Some(e) => {
                    let rest = match e.2 {
                        Some(q) => if q.len() < p.len() {
                            preserved_parts(es, idx, shell_rel, Some(q))
                        } else {
                            Seq::<Seq<char>>::empty()
                        },
                        None => Seq::<Seq<char>>::empty(),
                    };
                    rest + if preserved_kind(e.3) {
                        seq![sanitized(e.0)]
                    } else {
                        Seq::<Seq<char>>::empty()
                    }
                },
            }
        },
    }
}

/// The folders kept around a pack released from a shell, outermost first;
/// `children` are the indices of the shell's descendants.
pub fn archive_preserved_parent(entries: &Vec<PackEntry>, children: &Vec<usize>, shell: &PackEntry, child: &PackEntry) -> (r: Vec<Vec<char>>)
    requires
        forall|j: int| 0 <= j < children@.len() ==> children@[j] < entries@.len(),
    ensures
        texts(r@) == preserved_parts(entries_view(entries@), children@, shell.relative_path@, child@.2),
{
    let ghost ev = entries_view(entries@);
    let shell_rel = chars_of(shell.relative_path.as_str());
    let mut parts: Vec<Vec<char>> = Vec::new();
    let mut parent: Option<&String> = child.parent_path.as_ref();
    assert(texts(parts@).reverse() + Seq::<Seq<char>>::empty() =~= Seq::<Seq<char>>::empty());
    loop
        invariant
            ev == entries_view(entries@),
            shell_rel@ == shell.relative_path@,
            forall|j: int| 0 <= j < children@.len() ==> children@[j] < entries@.len(),
            preserved_parts(ev, children@, shell_rel@, child@.2) == preserved_parts(ev, children@, shell_rel@, match parent {
                Some(p) => Some(p@),
                None => None,
            }) + texts(parts@).reverse(),
        ensures
            preserved_parts(ev, children@, shell_rel@, child@.2) == texts(parts@).reverse(),
        decreases path_measure(match parent {
            Some(p) => Some(p@),
            None => None,
        }),
    {
        let p = match parent {
            None => {
                break;
            },
            Some(p) => p,
        };
        let pc = chars_of(p.as_str());
        if seq_eq(pc.as_slice(), shell_rel.as_slice()) {
            break;
        }
        let e = match picked_at_exec(entries, children, pc.as_slice()) {
            None => {
                break;
            },
            Some(e) => e,
        };
        let ghost before = texts(parts@);
        if e.kind == NodeKind::ClassificationFolder || e.kind == NodeKind::SupportingFolder {
            parts.push(sanitize_windows_name(chars_of(e.name.as_str()).as_slice()));
            assert(texts(parts@).reverse() =~= seq![sanitized(e@.0)] + before.reverse());
        } else {
            assert(texts(parts@) == before);
        }
        match &e.parent_path {
            Some(q) => {
                if chars_of(q.as_str()).len() < pc.len() {
                    parent = Some(q);
                } else {
                    parent = None;
                }
            },
            None => {
                parent = None;
            },
        }
    }
    let ghost fwd = texts(parts@);
    let mut out: Vec<Vec<char>> = Vec::new();
    let mut k: usize = parts.len();
    while k > 0
        invariant
            0 <= k <= parts@.len(),
            fwd == texts(parts@),
            texts(out@) == fwd.reverse().take(parts@.len() - k),
        decreases k,
    {
        let ghost before = texts(out@);
        let c = copy_chars(parts[k - 1].as_slice());
        assert(c@ == fwd[k - 1]);
        out.push(c);
        assert(texts(out@) =~= before.push(fwd[k - 1]));
        assert(fwd.reverse()[parts@.len() - k] == fwd[k - 1]);
        k = k - 1;
        assert(texts(out@) =~= fwd.reverse().take(parts@.len() - k));
    }
    assert(fwd.reverse().take(parts@.len() as int) =~= fwd.reverse());
    out
}

/// The non-empty pieces of `parts`, in order.
pub open spec fn nonempty(parts: Seq<Seq<char>>) -> Seq<Seq<char>>
    decreases parts.len(),
{
    if parts.len() == 0 {
        Seq::<Seq<char>>::empty()
    } else if parts.last().len() > 0 {
        nonempty(parts.drop_last()).push(parts.last())
    } else {
        nonempty(parts.drop_last())
    }
}

/// The shell's path followed by the first `k` components.
pub open spec fn cur_path(shell_rel: Seq<char>, comps: Seq<Seq<char>>, k: int) -> Seq<char>
    decreases k,
{
    if k <= 0 || k > comps.len() {
        shell_rel
    } else {
        cur_path(shell_rel, comps, k - 1) + "/"@ + comps[k - 1]
    }
}

/// After walking the first `k` folder components of an attachment's path:
/// the target folders so far and whether a kept folder was passed; `None`
/// once a pack was passed.
pub open spec fn attach_state(es: Seq<EntryView>, idx: Seq<usize>, shell_rel: Seq<char>, comps: Seq<Seq<char>>, k: int) -> Option<(Seq<Seq<char>>, bool)>
    decreases k,
{
    if k <= 0 || k > comps.len() {
        Some((Seq::<Seq<char>>::empty(), false))
    } else {
        match attach_state(es, idx, shell_rel, comps, k - 1) {
            None => None,
            Some(st) => {
                let c = comps[k - 1];
                match picked_at(es, idx, cur_path(shell_rel, comps, k)) {
                    Some(e) => if preserved_kind(e.3) {
                        Some((st.0.push(sanitized(c)), true))
                    } else if e.3 == NodeKind::Pack {
                        None
                    } else {
                        Some(st)
                    },
                    None => if st.1 {
                        Some((st.0.push(sanitized(c)), true))
                    } else {
                        Some(st)
                    },
                }
            },
        }
    }
}

/// Where a file found in a wrapping zip (not part of any pack) is released:
/// below the kept folders its path passes, named safely; nowhere when it sits
/// at the root, inside a pack, or outside every kept folder.
pub open spec fn attachment_target(es: Seq<EntryView>, idx: Seq<usize>, shell_rel: Seq<char>, inner: Seq<char>) -> Option<Seq<Seq<char>>> {
    let comps = nonempty(split(inner, '/'));
    if comps.len() < 2 {
        None
    } else {
        match attach_state(es, idx, shell_rel, comps, comps.len() - 1) {
            None => None,
            Some(st) => if !st.1 {
                None
            } else {
                Some(st.0.push(sanitized(comps.last())))
            },
        }
    }
}

fn nonempty_parts(s: &[char]) -> (r: Vec<Vec<char>>)
    ensures
        texts(r@) == nonempty(split(s@, '/')),
{
    let parts = split_vec(s, '/');
    let ghost sp = split(s@, '/');
    let mut out: Vec<Vec<char>> = Vec::new();
    let mut i: usize = 0;
    assert(sp.take(0) =~= Seq::<Seq<char>>::empty());
    while i < parts.len()
        invariant
            0 <= i <= parts@.len(),
            sp == split(s@, '/'),
            parts@.len() == sp.len(),
            forall|k: int| 0 <= k < parts@.len() ==> #[trigger] parts@[k]@ == sp[k],
            texts(out@) == nonempty(sp.take(i as int)),
        decreases parts@.len() - i,
    {
        assert(sp.take(i + 1).drop_last() =~= sp.take(i as int));
        assert(sp.take(i + 1).last() == parts@[i as int]@);
        if parts[i].len() > 0 {
            let ghost before = texts(out@);
            let c = copy_chars(parts[i].as_slice());
            out.push(c);
            assert(texts(out@) =~= before.push(c@));
        }
        i = i + 1;
    }
    assert(sp.take(parts@.len() as int) =~= sp);
    out
}

/// Where a file of a wrapping zip that belongs to no pack is released, as
/// folder components; `children` are the indices of the shell's descendants.
pub fn archive_attachment_target(entries: &Vec<PackEntry>, children: &Vec<usize>, shell: &PackEntry, inner_path: &[char]) -> (r: Option<Vec<Vec<char>>>)
    requires
        forall|j: int| 0 <= j < children@.len() ==> children@[j] < entries@.len(),
    ensures
        match r {
            Some(v) => attachment_target(entries_view(entries@), children@, shell.relative_path@, inner_path@) == Some(texts(v@)),
            None => attachment_target(entries_view(entries@), children@, shell.relative_path@, inner_path@) is None,
        },
{
    let ghost ev = entries_view(entries@);
    let comps = nonempty_parts(inner_path);
    let ghost cv = texts(comps@);
    if comps.len() < 2 {
        return None;
    }
    let mut current = chars_of(shell.relative_path.as_str());
    let mut target: Vec<Vec<char>> = Vec::new();
    let mut inside = false;
    let slash = chars_of("/");
    let last = comps.len() - 1;
    let mut k: usize = 0;
    assert(texts(target@) =~= Seq::<Seq<char>>::empty());
    while k < last
        invariant
            0 <= k <= last,
            last == comps@.len() - 1,
            cv == texts(comps@),
            cv == nonempty(split(inner_path@, '/')),
            ev == entries_view(entries@),
            slash@ == "/"@,
            forall|j: int| 0 <= j < children@.len() ==> children@[j] < entries@.len(),
            current@ == cur_path(shell.relative_path@, cv, k as int),
            attach_state(ev, children@, shell.relative_path@, cv, k as int) == Some((texts(target@), inside)),
        decreases last - k,
    {
        assert(cv[k as int] == comps@[k as int]@);
        current = join(join(current.as_slice(), slash.as_slice()).as_slice(), comps[k].as_slice());
        assert(current@ == cur_path(shell.relative_path@, cv, k + 1));
        let ghost before = texts(target@);
        match picked_at_exec(entries, children, current.as_slice()) {
            Some(e) => {
                if e.kind == NodeKind::ClassificationFolder || e.kind == NodeKind::SupportingFolder {
                    let c = sanitize_windows_name(comps[k].as_slice());
                    target.push(c);
                    assert(texts(target@) =~= before.push(c@));
                    inside = true;
                } else if e.kind == NodeKind::Pack {
                    proof {
                        lemma_attach_stays_none(ev, children@, shell.relative_path@, cv, k as int + 1, last as int);
                    }
                    return None;
                }
            },
            None => {
                if inside {
                    let c = sanitize_windows_name(comps[k].as_slice());
                    target.push(c);
                    assert(texts(target@) =~= before.push(c@));
                }
            },
        }
        k = k + 1;
    }
    if !inside {
        return None;
    }
    let ghost before = texts(target@);
    let c = sanitize_windows_name(comps[last].as_slice());
    target.push(c);
    assert(texts(target@) =~= before.push(c@));
    Some(target)
}

proof fn lemma_attach_stays_none(es: Seq<EntryView>, idx: Seq<usize>, shell_rel: Seq<char>, comps: Seq<Seq<char>>, k: int, j: int)
    requires
        0 < k <= j <= comps.len(),
        attach_state(es, idx, shell_rel, comps, k) is None,
    ensures
        attach_state(es, idx, shell_rel, comps, j) is None,
    decreases j - k,
{
    if k < j {
        lemma_attach_stays_none(es, idx, shell_rel, comps, k, j - 1);
    }
}

/// `target` taken relative to `base` when it lies below it.
pub open spec fn rel_after(base: Seq<Seq<char>>, target: Seq<Seq<char>>) -> Seq<Seq<char>> {
    if base.len() <= target.len() && target.take(base.len() as int) == base {
        target.skip(base.len() as int)
    } else {
        target
    }
}

/// Path components joined with `/`.
pub open spec fn slash_joined(comps: Seq<Seq<char>>) -> Seq<char>
    decreases comps.len(),
{
    if comps.len() == 0 {
        Seq::<char>::empty()
    } else if comps.len() == 1 {
        comps[0]
    } else {
        slash_joined(comps.drop_last()) + "/"@ + comps.last()
    }
}

/// How a product released from a shell is reported: its path below the
/// target root, under the shell's own folder, with `/` separators.
pub open spec fn shell_target_name(result_parent: Seq<Seq<char>>, base: Seq<Seq<char>>, target: Seq<Seq<char>>) -> Seq<char> {
    crate::outcome::slashed(slash_joined(result_parent + rel_after(base, target)))
}

fn comps_eq(a: &[Vec<char>], b: &[Vec<char>], n: usize) -> (r: bool)
    requires
        n <= a@.len(),
        n <= b@.len(),
    ensures
        r == (texts(a@).take(n as int) == texts(b@).take(n as int)),
{
    let mut i: usize = 0;
    while i < n
        invariant
            0 <= i <= n,
            n <= a@.len(),
            n <= b@.len(),
            texts(a@).take(i as int) == texts(b@).take(i as int),
        decreases n - i,
    {
        if !seq_eq(a[i].as_slice(), b[i].as_slice()) {
            assert(texts(a@).take(n as int)[i as int] != texts(b@).take(n as int)[i as int]);
            return false;
        }
        i = i + 1;
        assert(texts(a@).take(i as int) =~= texts(b@).take(i as int));
    }
    true
}

/// How a product released from a shell is reported.
pub fn archive_shell_target_name(result_parent: &Vec<Vec<char>>, base: &Vec<Vec<char>>, target: &Vec<Vec<char>>) -> (r: String)
    ensures
        r@ == shell_target_name(texts(result_parent@), texts(base@), texts(target@)),
{
    let below = base.len() <= target.len() && comps_eq(base.as_slice(), target.as_slice(), base.len());
    let start: usize = if below {
        base.len()
    } else {
        0
    };
    proof {
        if below {
            assert(texts(base@).take(base@.len() as int) =~= texts(base@));
            assert(texts(target@).take(base@.len() as int) == texts(base@));
        }
    }
    let mut all: Vec<Vec<char>> = Vec::new();
    let mut i: usize = 0;
    while i < result_parent.len()
        invariant
            0 <= i <= result_parent@.len(),
            texts(all@) == texts(result_parent@).take(i as int),
        decreases result_parent@.len() - i,
    {
        let ghost before = texts(all@);
        let c = copy_chars(result_parent[i].as_slice());
        all.push(c);
        assert(texts(all@) =~= before.push(c@));
        assert(texts(result_parent@).take(i + 1) =~= texts(result_parent@).take(i as int).push(result_parent@[i as int]@));
        i = i + 1;
    }
    let mut j: usize = start;
    while j < target.len()
        invariant
            start <= j <= target@.len(),
            texts(all@) == texts(result_parent@) + texts(target@).subrange(start as int, j as int),
        decreases target@.len() - j,
    {
        let ghost before = texts(all@);
        let c = copy_chars(target[j].as_slice());
        all.push(c);
        assert(texts(all@) =~= before.push(c@));
        assert(texts(target@).subrange(start as int, j + 1) =~= texts(target@).subrange(start as int, j as int).push(target@[j as int]@));
        j = j + 1;
    }
    proof {
        if below {
            assert(texts(target@).subrange(start as int, target@.len() as int) =~= texts(target@).skip(base@.len() as int));
        } else {
            assert(texts(target@).subrange(0, target@.len() as int) =~= texts(target@));
            if base@.len() <= target@.len() {
                assert(texts(base@).take(base@.len() as int) =~= texts(base@));
            }
        }
    }
    assert(texts(target@).subrange(start as int, target@.len() as int) == rel_after(texts(base@), texts(target@)));
    let ghost whole = texts(all@);
    let mut out: Vec<char> = Vec::new();
    let mut k: usize = 0;
    while k < all.len()
        invariant
            0 <= k <= all@.len(),
            whole == texts(all@),
            out@ == slash_joined(whole.take(k as int)),
        decreases all@.len() - k,
    {
        if k > 0 {
            out.push('/');
        }
        let ghost before = out@;
        let mut m: usize = 0;
        while m < all[k].len()
            invariant
                0 <= m <= all@[k as int]@.len(),
                0 <= k < all@.len(),
                out@ == before + all@[k as int]@.take(m as int),
            decreases all@[k as int]@.len() - m,
        {
            out.push(all[k][m]);
            m = m + 1;
            assert(out@ =~= before + all@[k as int]@.take(m as int));
        }
        assert(all@[k as int]@.take(all@[k as int]@.len() as int) =~= all@[k as int]@);
        proof {
            reveal_strlit("/");
            let t = whole.take(k + 1);
            assert(t.drop_last() =~= whole.take(k as int));
            assert(t.last() == all@[k as int]@);
            if k == 0 {
                assert(out@ =~= slash_joined(t));
            } else {
                assert(out@ =~= slash_joined(t));
            }
        }
        k = k + 1;
    }
    assert(whole.take(all@.len() as int) =~= whole);
    let mut fixed: Vec<char> = Vec::new();
    let mut q: usize = 0;
    while q < out.len()
        invariant
            0 <= q <= out@.len(),
            fixed@ == crate::outcome::slashed(out@).take(q as int),
        decreases out@.len() - q,
    {
        let c = out[q];
        fixed.push(if c == '\\' {
            '/'
        } else {
            c
        });
        q = q + 1;
        assert(fixed@ =~= crate::outcome::slashed(out@).take(q as int));
    }
    assert(crate::outcome::slashed(out@).take(out@.len() as int) =~= crate::outcome::slashed(out@));
    string_of(fixed.as_slice())
}

/// Where a pack sits inside its wrapping zip: its path below the shell, or
/// its name when its path does not lie below the shell.
pub open spec fn inner_path_of(shell_rel: Seq<char>, child: EntryView) -> Seq<char> {
    if is_prefix(shell_rel + "/"@, child.1) {
        child.1.skip(shell_rel.len() + 1int)
    } else {
        child.0
    }
}

pub fn inner_path(shell: &PackEntry, child: &PackEntry) -> (r: Vec<char>)
    ensures
        r@ == inner_path_of(shell.relative_path@, child@),
{
    let p = join(chars_of(shell.relative_path.as_str()).as_slice(), chars_of("/").as_slice());
    proof {
        reveal_strlit("/");
        assert(p@.len() == shell.relative_path@.len() + 1);
    }
    match crate::layout::strip(chars_of(child.relative_path.as_str()).as_slice(), p.as_slice()) {
        Some(v) => v,
        None => chars_of(child.name.as_str()),
    }
}

/// A pack of the zip is a folder when no file entry carries its path.
pub open spec fn folder_source(archive_names: Seq<Seq<char>>, inner: Seq<char>) -> bool {
    !(exists|i: int| 0 <= i < archive_names.len() && archive_names[i] == inner && !is_suffix("/"@, #[trigger] archive_names[i]))
}

pub fn is_folder_source(archive_names: &[Vec<char>], inner: &[char]) -> (r: bool)
    ensures
        r == folder_source(texts(archive_names@), inner@),
{
    let slash = chars_of("/");
    let mut i: usize = 0;
    while i < archive_names.len()
        invariant
            0 <= i <= archive_names@.len(),
            slash@ == "/"@,
            forall|k: int| 0 <= k < i ==> !(texts(archive_names@)[k] == inner@ && !is_suffix("/"@, #[trigger] texts(archive_names@)[k])),
        decreases archive_names@.len() - i,
    {
        assert(texts(archive_names@)[i as int] == archive_names@[i as int]@);
        if seq_eq(archive_names[i].as_slice(), inner) && !ends_with(archive_names[i].as_slice(), slash.as_slice()) {
            return false;
        }
        i = i + 1;
    }
    true
}

/// A file of a wrapping zip that is not released as an attachment: junk
/// somewhere on its path, or part of one of the packs.
pub open spec fn skipped_attachment(inner: Seq<char>, sources: Seq<(Seq<char>, bool)>) -> bool {
    crate::fixplan::junk_component(inner) || exists|j: int|
        0 <= j < sources.len() && (inner == (#[trigger] sources[j]).0 || (sources[j].1 && is_prefix(sources[j].0 + "/"@, inner)))
}

pub open spec fn sources_view(v: Seq<(Vec<char>, bool)>) -> Seq<(Seq<char>, bool)> {
    v.map_values(|s: (Vec<char>, bool)| (s.0@, s.1))
}

fn junk_in_path(n: &[char]) -> (r: bool)
    ensures
        r == crate::fixplan::junk_component(n@),
{
    let parts = split_vec(n, '/');
    let mut i: usize = 0;
    while i < parts.len()
        invariant
            0 <= i <= parts@.len(),
            parts@.len() == split(n@, '/').len(),
            forall|k: int| 0 <= k < parts@.len() ==> #[trigger] parts@[k]@ == split(n@, '/')[k],
            forall|k: int| 0 <= k < i ==> !junk_name(#[trigger] split(n@, '/')[k]),
        decreases parts@.len() - i,
    {
        assert(parts@[i as int]@ == split(n@, '/')[i as int]);
        if is_junk_chars(parts[i].as_slice()) {
            return true;
        }
        i = i + 1;
    }
    false
}

pub fn skip_attachment(inner: &[char], sources: &Vec<(Vec<char>, bool)>) -> (r: bool)
    ensures
        r == skipped_attachment(inner@, sources_view(sources@)),
{
    if junk_in_path(inner) {
        return true;
    }
    let ghost sv = sources_view(sources@);
    let mut j: usize = 0;
    while j < sources.len()
        invariant
            0 <= j <= sources@.len(),
            sv == sources_view(sources@),
            forall|k: int| 0 <= k < j ==> !(inner@ == (#[trigger] sv[k]).0 || (sv[k].1 && is_prefix(sv[k].0 + "/"@, inner@))),
        decreases sources@.len() - j,
    {
        assert(sv[j as int] == (sources@[j as int].0@, sources@[j as int].1));
        let src = &sources[j];
        let p = join(src.0.as_slice(), chars_of("/").as_slice());
        if seq_eq(inner, src.0.as_slice()) || (src.1 && starts_with(inner, p.as_slice())) {
            return true;
        }
        j = j + 1;
    }
    false
}

} // verus!
