use vstd::prelude::*;
use crate::text::{
    chars_of, copy_chars, last_index, lemma_last_index, last_index_of, lex_less, lex_lt, lower, lower_vec, push_char, seq_eq, split,
    split_vec,
};

verus! {

/// OS and archiver junk: never a pack, never worth surfacing.
pub open spec fn junk_name(name: Seq<char>) -> bool {
    let l = lower(name);
    l == "__macosx"@ || l == ".ds_store"@ || l == "thumbs.db"@ || l == "desktop.ini"@
}

/// A wrongly-cased or typo'd `pack.mcmeta` that a rename can rescue.
pub open spec fn mcmeta_variant(name: Seq<char>) -> bool {
    let l = lower(name);
    (l == "pack.mcmeta"@ && name != "pack.mcmeta"@) || l == "pack.mcmeta.mcmeta"@ || l
        == "pack.mcmeta.txt"@
}

/// A wrongly-cased or typo'd `pack.png` that a rename can rescue.
pub open spec fn png_variant(name: Seq<char>) -> bool {
    let l = lower(name);
    (l == "pack.png"@ && name != "pack.png"@) || l == "pack..png"@ || l == "pack.png.png"@
}

/// A path under `assets/<namespace>/records`, which no Minecraft version reads.
pub open spec fn dead_path(entry_name: Seq<char>) -> bool {
    let parts = split(entry_name, '/');
    parts.len() >= 3 && parts[0] == "assets"@ && parts[2] == "records"@
}

/// The name without its last extension; a name whose only dot leads it, or
/// that has no dot, is its own stem.
pub open spec fn stem_of(name: Seq<char>) -> Seq<char> {
    match last_index(name, '.') {
        Some(i) => if i > 0 {
            name.take(i)
        } else {
            name
        },
        None => name,
    }
}

/// The stem a product zip is named after.
pub open spec fn product_stem_of(name: Seq<char>, was_dir: bool) -> Seq<char> {
    if was_dir {
        name
    } else {
        stem_of(name)
    }
}

/// Characters that Windows refuses in a file name.
pub open spec fn windows_illegal(c: char) -> bool {
    c == '<' || c == '>' || c == ':' || c == '"' || c == '/' || c == '\\' || c == '|' || c == '?'
        || c == '*' || (c as u32) < 0x20
}

pub open spec fn sanitize_char(c: char) -> char {
    if windows_illegal(c) {
        '_'
    } else {
        c
    }
}

/// Drops trailing dots and spaces.
pub open spec fn trim_dots_spaces(s: Seq<char>) -> Seq<char>
    decreases s.len(),
{
    if s.len() > 0 && (s.last() == '.' || s.last() == ' ') {
        trim_dots_spaces(s.drop_last())
    } else {
        s
    }
}

/// A Windows-safe file name: illegal characters become `_`, trailing dots
/// and spaces go, and an empty result becomes `pack` (§ is legal and kept).
pub open spec fn sanitized(name: Seq<char>) -> Seq<char> {
    let t = trim_dots_spaces(name.map_values(|c: char| sanitize_char(c)));
    if t.len() == 0 {
        "pack"@
    } else {
        t
    }
}

/// Two paths that Windows treats as the same target (ASCII case-insensitive).
pub open spec fn same_target(left: Seq<char>, right: Seq<char>) -> bool {
    lower(left) == lower(right)
}

/// Source priority of a `pack.mcmeta` candidate: exact, then case variant,
/// then doubled extension, then the rest.
pub open spec fn candidate_rank(name: Seq<char>) -> u8 {
    if name == "pack.mcmeta"@ {
        0
    } else if lower(name) == "pack.mcmeta"@ {
        1
    } else if lower(name) == "pack.mcmeta.mcmeta"@ {
        2
    } else {
        3
    }
}

/// Strict candidate order: rank, then case-folded name, then exact name.
pub open spec fn candidate_lt(a: Seq<char>, b: Seq<char>) -> bool {
    candidate_rank(a) < candidate_rank(b) || (candidate_rank(a) == candidate_rank(b) && (lex_lt(
        lower(a),
        lower(b),
    ) || (lower(a) == lower(b) && lex_lt(a, b))))
}

/// JSON string-body escaping of backslash and double quote.
pub open spec fn json_escape(s: Seq<char>) -> Seq<char>
    decreases s.len(),
{
    if s.len() == 0 {
        Seq::<char>::empty()
    } else {
        let c = s.last();
        json_escape(s.drop_last()) + if c == '\\' {
            seq!['\\', '\\']
        } else if c == '"' {
            seq!['\\', '"']
        } else {
            seq![c]
        }
    }
}

/// The default `pack.mcmeta` written for a pack that has none.
pub open spec fn generated_mcmeta_text(stem: Seq<char>) -> Seq<char> {
    "{\"pack\":{\"pack_format\":1,\"description\":\""@ + json_escape(stem) + "\"}}"@
}

fn text_is(s: &[char], lit: &str) -> (r: bool)
    ensures
        r == (s@ == lit@),
{
    let l = chars_of(lit);
    seq_eq(s, l.as_slice())
}

pub fn is_junk_name(name: &str) -> (r: bool)
    ensures
        r == junk_name(name@),
{
    let l = lower_vec(chars_of(name).as_slice());
    text_is(l.as_slice(), "__macosx") || text_is(l.as_slice(), ".ds_store") || text_is(
        l.as_slice(),
        "thumbs.db",
    ) || text_is(l.as_slice(), "desktop.ini")
}

pub fn is_junk_chars(name: &[char]) -> (r: bool)
    ensures
        r == junk_name(name@),
{
    let l = lower_vec(name);
    text_is(l.as_slice(), "__macosx") || text_is(l.as_slice(), ".ds_store") || text_is(
        l.as_slice(),
        "thumbs.db",
    ) || text_is(l.as_slice(), "desktop.ini")
}

pub fn is_mcmeta_variant(name: &[char]) -> (r: bool)
    ensures
        r == mcmeta_variant(name@),
{
    let l = lower_vec(name);
    (text_is(l.as_slice(), "pack.mcmeta") && !text_is(name, "pack.mcmeta")) || text_is(
        l.as_slice(),
        "pack.mcmeta.mcmeta",
    ) || text_is(l.as_slice(), "pack.mcmeta.txt")
}

pub fn is_png_variant(name: &[char]) -> (r: bool)
    ensures
        r == png_variant(name@),
{
    let l = lower_vec(name);
    (text_is(l.as_slice(), "pack.png") && !text_is(name, "pack.png")) || text_is(
        l.as_slice(),
        "pack..png",
    ) || text_is(l.as_slice(), "pack.png.png")
}

pub fn is_dead_path(entry_name: &[char]) -> (r: bool)
    ensures
        r == dead_path(entry_name@),
{
    let parts = split_vec(entry_name, '/');
    parts.len() >= 3 && text_is(parts[0].as_slice(), "assets") && text_is(
        parts[2].as_slice(),
        "records",
    )
}

pub fn file_stem_of(name: &[char]) -> (r: Vec<char>)
    ensures
        r@ == stem_of(name@),
{
    proof {
        lemma_last_index(name@, '.');
    }
    match last_index_of(name, '.') {
        Some(i) => {
            if i > 0 {
                let mut out: Vec<char> = Vec::new();
                let mut k: usize = 0;
                while k < i
                    invariant
                        0 <= k <= i,
                        i < name@.len(),
                        out@ == name@.take(k as int),
                    decreases i - k,
                {
                    out.push(name[k]);
                    k = k + 1;
                    assert(out@ =~= name@.take(k as int));
                }
                out
            } else {
                copy_chars(name)
            }
        },
        None => copy_chars(name),
    }
}

pub fn product_stem(original_name: &[char], was_dir: bool) -> (r: Vec<char>)
    ensures
        r@ == product_stem_of(original_name@, was_dir),
{
    if was_dir {
        copy_chars(original_name)
    } else {
        file_stem_of(original_name)
    }
}

fn is_windows_illegal(c: char) -> (r: bool)
    ensures
        r == windows_illegal(c),
{
    c == '<' || c == '>' || c == ':' || c == '"' || c == '/' || c == '\\' || c == '|' || c == '?'
        || c == '*' || (c as u32) < 0x20
}

pub fn sanitize_windows_name(name: &[char]) -> (r: Vec<char>)
    ensures
        r@ == sanitized(name@),
{
    let mut out: Vec<char> = Vec::new();
    let mut i: usize = 0;
    while i < name.len()
        invariant
            0 <= i <= name@.len(),
            out@ == name@.take(i as int).map_values(|c: char| sanitize_char(c)),
        decreases name@.len() - i,
    {
        let c = name[i];
        let d = if is_windows_illegal(c) {
            '_'
        } else {
            c
        };
        out.push(d);
        i = i + 1;
        assert(out@ =~= name@.take(i as int).map_values(|c: char| sanitize_char(c)));
    }
    assert(name@.take(name@.len() as int) =~= name@);
    let ghost mapped = out@;
    while out.len() > 0 && (out[out.len() - 1] == '.' || out[out.len() - 1] == ' ')
        invariant
            trim_dots_spaces(mapped) == trim_dots_spaces(out@),
        decreases out@.len(),
    {
        let ghost before = out@;
        out.pop();
        assert(out@ =~= before.drop_last());
    }
    if out.len() == 0 {
        chars_of("pack")
    } else {
        out
    }
}

pub fn same_windows_target(left: &[char], right: &[char]) -> (r: bool)
    ensures
        r == same_target(left@, right@),
{
    let l = lower_vec(left);
    let m = lower_vec(right);
    seq_eq(l.as_slice(), m.as_slice())
}

pub fn mcmeta_candidate_rank(name: &[char]) -> (r: u8)
    ensures
        r == candidate_rank(name@),
{
    if text_is(name, "pack.mcmeta") {
        0
    } else {
        let l = lower_vec(name);
        if text_is(l.as_slice(), "pack.mcmeta") {
            1
        } else if text_is(l.as_slice(), "pack.mcmeta.mcmeta") {
            2
        } else {
            3
        }
    }
}

/// `a` goes before `b` as a `pack.mcmeta` source.
pub fn mcmeta_candidate_before(a: &[char], b: &[char]) -> (r: bool)
    ensures
        r == candidate_lt(a@, b@),
{
    let ra = mcmeta_candidate_rank(a);
    let rb = mcmeta_candidate_rank(b);
    if ra != rb {
        return ra < rb;
    }
    let la = lower_vec(a);
    let lb = lower_vec(b);
    if lex_less(la.as_slice(), lb.as_slice()) {
        return true;
    }
    seq_eq(la.as_slice(), lb.as_slice()) && lex_less(a, b)
}

pub fn generated_mcmeta(stem: &[char]) -> (r: String)
    ensures
        r@ == generated_mcmeta_text(stem@),
{
    let mut out = String::new();
    out.append("{\"pack\":{\"pack_format\":1,\"description\":\"");
    let ghost head = out@;
    let mut i: usize = 0;
    while i < stem.len()
        invariant
            0 <= i <= stem@.len(),
            out@ == head + json_escape(stem@.take(i as int)),
        decreases stem@.len() - i,
    {
        let c = stem[i];
        let ghost prev = out@;
        if c == '\\' {
            push_char(&mut out, '\\');
            push_char(&mut out, '\\');
        } else if c == '"' {
            push_char(&mut out, '\\');
            push_char(&mut out, '"');
        } else {
            push_char(&mut out, c);
        }
        i = i + 1;
        assert(stem@.take(i as int).drop_last() =~= stem@.take(i - 1));
        assert(out@ =~= head + json_escape(stem@.take(i as int)));
    }
    assert(stem@.take(stem@.len() as int) =~= stem@);
    out.append("\"}}");
    out
}

proof fn lemma_trim_dots_spaces(s: Seq<char>)
    ensures
        trim_dots_spaces(s).len() <= s.len(),
        forall|i: int| 0 <= i < trim_dots_spaces(s).len() ==> #[trigger] trim_dots_spaces(s)[i] == s[i],
        trim_dots_spaces(s).len() > 0 ==> trim_dots_spaces(s).last() != '.' && trim_dots_spaces(
            s,
        ).last() != ' ',
        (s.len() == 0 || (s.last() != '.' && s.last() != ' ')) ==> trim_dots_spaces(s) == s,
    decreases s.len(),
{
    if s.len() > 0 && (s.last() == '.' || s.last() == ' ') {
        lemma_trim_dots_spaces(s.drop_last());
    }
}

/// Law: a sanitized name is always a usable Windows file name: not empty,
/// no character Windows refuses, no trailing dot or space.
pub proof fn law_sanitized_is_windows_safe(name: Seq<char>)
    ensures
        sanitized(name).len() > 0,
        forall|i: int| 0 <= i < sanitized(name).len() ==> !windows_illegal(#[trigger] sanitized(name)[i]),
        sanitized(name).last() != '.' && sanitized(name).last() != ' ',
{
    let m = name.map_values(|c: char| sanitize_char(c));
    lemma_trim_dots_spaces(m);
    reveal_strlit("pack");
    let t = trim_dots_spaces(m);
    if t.len() > 0 {
        assert forall|i: int| 0 <= i < t.len() implies !windows_illegal(#[trigger] t[i]) by {
            assert(t[i] == m[i]);
        }
    }
}

/// Law: sanitizing is idempotent — a sanitized name is left as it is.
pub proof fn law_sanitize_idempotent(name: Seq<char>)
    ensures
        sanitized(sanitized(name)) == sanitized(name),
{
    let s = sanitized(name);
    law_sanitized_is_windows_safe(name);
    let m = s.map_values(|c: char| sanitize_char(c));
    assert(m =~= s);
    lemma_trim_dots_spaces(s);
}

} // verus!
