//! The one `pack.mcmeta` disease Lunar Client chokes on: an invalid JSON
//! escape sequence. Detection and the minimal repair.
use vstd::prelude::*;
use vstd::utf8::{encode_scalar, encode_utf8, has_width_1_encoding, valid_utf8};
use crate::names::{generated_mcmeta, generated_mcmeta_text};
use crate::text::string_of;
use crate::boundary::{
    lemma_valid_concat_after_ascii, lemma_valid_drop_ascii, lemma_valid_prefix_concat,
    lemma_valid_split_at_ascii,
};

verus! {

pub open spec fn backslash() -> u8 {
    0x5c
}

/// The characters that may follow a backslash as a one-character escape:
/// `"` `\` `/` `b` `f` `n` `r` `t`.
pub open spec fn simple_escape(b: u8) -> bool {
    b == 0x22 || b == 0x5c || b == 0x2f || b == 0x62 || b == 0x66 || b == 0x6e || b == 0x72 || b
        == 0x74
}

pub open spec fn is_hex(b: u8) -> bool {
    (0x30 <= b && b <= 0x39) || (0x41 <= b && b <= 0x46) || (0x61 <= b && b <= 0x66)
}

/// `s[2..6]` exists and holds four hex digits (the tail of `\uXXXX`).
pub open spec fn hex4_at_2(s: Seq<u8>) -> bool {
    s.len() >= 6 && is_hex(s[2]) && is_hex(s[3]) && is_hex(s[4]) && is_hex(s[5])
}

/// A backslash is taken at face value unless `guard` is on and the byte
/// before it is not ASCII (a legacy multi-byte character's trail byte).
pub open spec fn escape_start(s: Seq<u8>, guard: bool, prev_high: bool) -> bool {
    s.len() > 0 && s[0] == backslash() && !(guard && prev_high)
}

/// Scanning `s` from its start, with `prev_high` telling whether the byte
/// just before it is non-ASCII: is there an escape JSON does not define?
pub open spec fn has_bad_escape(s: Seq<u8>, guard: bool, prev_high: bool) -> bool
    decreases s.len(),
{
    if s.len() == 0 {
        false
    } else if !escape_start(s, guard, prev_high) {
        has_bad_escape(s.skip(1), guard, s[0] >= 0x80)
    } else if s.len() > 1 && simple_escape(s[1]) {
        has_bad_escape(s.skip(2), guard, false)
    } else if s.len() > 1 && s[1] == 0x75 {
        if hex4_at_2(s) {
            has_bad_escape(s.skip(6), guard, false)
        } else {
            true
        }
    } else {
        true
    }
}

/// The minimal repair: the backslash of every invalid escape is dropped and
/// every other byte is kept, in order.
pub open spec fn patched(s: Seq<u8>, guard: bool, prev_high: bool) -> Seq<u8>
    decreases s.len(),
{
    if s.len() == 0 {
        Seq::<u8>::empty()
    } else if !escape_start(s, guard, prev_high) {
        seq![s[0]] + patched(s.skip(1), guard, s[0] >= 0x80)
    } else if s.len() > 1 && simple_escape(s[1]) {
        s.take(2) + patched(s.skip(2), guard, false)
    } else if s.len() > 1 && s[1] == 0x75 && hex4_at_2(s) {
        s.take(6) + patched(s.skip(6), guard, false)
    } else {
        patched(s.skip(1), guard, false)
    }
}

/// Valid UTF-8 is read byte by byte; anything else is read with the guard on.
pub open spec fn lunar_bad(raw: Seq<u8>) -> bool {
    has_bad_escape(raw, !valid_utf8(raw), false)
}

pub open spec fn lunar_patched(raw: Seq<u8>) -> Seq<u8> {
    patched(raw, !valid_utf8(raw), false)
}

/// The bytes with every backslash removed: what a repair must keep.
pub open spec fn without_backslashes(s: Seq<u8>) -> Seq<u8>
    decreases s.len(),
{
    if s.len() == 0 {
        Seq::<u8>::empty()
    } else if s[0] == backslash() {
        without_backslashes(s.skip(1))
    } else {
        seq![s[0]] + without_backslashes(s.skip(1))
    }
}

/// A leading UTF-8 byte-order mark is dropped.
pub open spec fn without_bom(raw: Seq<u8>) -> Seq<u8> {
    if raw.len() >= 3 && raw[0] == 0xef && raw[1] == 0xbb && raw[2] == 0xbf {
        raw.skip(3)
    } else {
        raw
    }
}

pub open spec fn soften(b: u8) -> u8 {
    if b < 0x20 {
        0x20
    } else {
        b
    }
}

/// What is handed to the JSON parser: BOM dropped, control bytes made spaces.
pub open spec fn lunar_probe_input(raw: Seq<u8>) -> Seq<u8> {
    without_bom(raw).map_values(|b: u8| soften(b))
}

/// Whether `serde_json` accepts the bytes as one JSON document of any shape.
pub uninterp spec fn json_accepts(bytes: Seq<u8>) -> bool;

/// The mcmeta that a product carries: untouched when healthy, patched when
/// the patch parses, else regenerated from the stem.
pub open spec fn product_mcmeta_bytes(raw: Seq<u8>, stem: Seq<char>) -> Seq<u8> {
    if !lunar_bad(raw) {
        raw
    } else if json_accepts(lunar_probe_input(lunar_patched(raw))) {
        lunar_patched(raw)
    } else {
        vstd::utf8::encode_utf8(generated_mcmeta_text(stem))
    }
}

/// `std::str::from_utf8`: the text when the bytes are valid UTF-8.
#[verifier::external_body]
pub(crate) fn utf8_text(bytes: &[u8]) -> (r: Option<String>)
    ensures
        r is Some <==> valid_utf8(bytes@),
        r matches Some(s) ==> s@ == vstd::utf8::decode_utf8(bytes@),
{
    std::str::from_utf8(bytes).ok().map(|s| s.to_string())
}

/// `serde_json::from_slice::<IgnoredAny>` succeeds: the bytes are one
/// well-formed JSON document. What the parser accepts is named, not restated.
#[verifier::external_body]
fn json_well_formed(bytes: &[u8]) -> (r: bool)
    ensures
        r == json_accepts(bytes@),
{
    serde_json::from_slice::<serde::de::IgnoredAny>(bytes).is_ok()
}

fn is_hex_byte(b: u8) -> (r: bool)
    ensures
        r == is_hex(b),
{
    (0x30 <= b && b <= 0x39) || (0x41 <= b && b <= 0x46) || (0x61 <= b && b <= 0x66)
}

fn is_simple_escape(b: u8) -> (r: bool)
    ensures
        r == simple_escape(b),
{
    b == 0x22 || b == 0x5c || b == 0x2f || b == 0x62 || b == 0x66 || b == 0x6e || b == 0x72 || b
        == 0x74
}

spec fn prev_high_at(bytes: Seq<u8>, i: int) -> bool {
    i > 0 && bytes[i - 1] >= 0x80
}

proof fn lemma_skip_skip(s: Seq<u8>, i: int, k: int)
    requires
        0 <= i,
        0 <= k,
        i + k <= s.len(),
    ensures
        s.skip(i).skip(k) == s.skip(i + k),
{
    assert(s.skip(i).skip(k) =~= s.skip(i + k));
}

/// Scans for an escape that JSON does not define.
pub fn scan_invalid_escape(bytes: &[u8], ascii_guard: bool) -> (r: bool)
    ensures
        r == has_bad_escape(bytes@, ascii_guard, false),
{
    let n = bytes.len();
    let mut i: usize = 0;
    assert(bytes@.skip(0) =~= bytes@);
    while i < n
        invariant
            n == bytes@.len(),
            0 <= i <= n,
            has_bad_escape(bytes@, ascii_guard, false) == has_bad_escape(
                bytes@.skip(i as int),
                ascii_guard,
                prev_high_at(bytes@, i as int),
            ),
        decreases n - i,
    {
        let ghost s = bytes@.skip(i as int);
        assert(s[0] == bytes@[i as int]);
        if bytes[i] != 0x5c || (ascii_guard && i > 0 && bytes[i - 1] >= 0x80) {
            proof {
                lemma_skip_skip(bytes@, i as int, 1);
            }
            i = i + 1;
            continue;
        }
        if i + 1 < n && is_simple_escape(bytes[i + 1]) {
            assert(s[1] == bytes@[i + 1]);
            proof {
                lemma_skip_skip(bytes@, i as int, 2);
            }
            i = i + 2;
        } else if i + 1 < n && bytes[i + 1] == 0x75 {
            assert(s[1] == bytes@[i + 1]);
            if n - i >= 6 && is_hex_byte(bytes[i + 2]) && is_hex_byte(bytes[i + 3]) && is_hex_byte(
                bytes[i + 4],
            ) && is_hex_byte(bytes[i + 5]) {
                assert(s[2] == bytes@[i + 2] && s[3] == bytes@[i + 3] && s[4] == bytes@[i + 4]
                    && s[5] == bytes@[i + 5]);
                proof {
                    lemma_skip_skip(bytes@, i as int, 6);
                }
                i = i + 6;
            } else {
                assert(!hex4_at_2(s));
                return true;
            }
        } else {
            return true;
        }
    }
    false
}

/// The minimal Lunar repair under the given reading.
pub fn patch_escapes_with(raw: &[u8], ascii_guard: bool) -> (r: Vec<u8>)
    ensures
        r@ == patched(raw@, ascii_guard, false),
{
    let n = raw.len();
    let mut out: Vec<u8> = Vec::new();
    let mut i: usize = 0;
    assert(raw@.skip(0) =~= raw@);
    while i < n
        invariant
            n == raw@.len(),
            0 <= i <= n,
            out@ + patched(raw@.skip(i as int), ascii_guard, prev_high_at(raw@, i as int))
                == patched(raw@, ascii_guard, false),
        decreases n - i,
    {
        let ghost s = raw@.skip(i as int);
        let ghost before = out@;
        assert(s[0] == raw@[i as int]);
        if raw[i] != 0x5c || (ascii_guard && i > 0 && raw[i - 1] >= 0x80) {
            out.push(raw[i]);
            proof {
                lemma_skip_skip(raw@, i as int, 1);
                assert(out@ + patched(s.skip(1), ascii_guard, s[0] >= 0x80) =~= before + (seq![
                    s[0],
                ] + patched(s.skip(1), ascii_guard, s[0] >= 0x80)));
            }
            i = i + 1;
        } else if i + 1 < n && is_simple_escape(raw[i + 1]) {
            assert(s[1] == raw@[i + 1]);
            out.push(raw[i]);
            out.push(raw[i + 1]);
            proof {
                lemma_skip_skip(raw@, i as int, 2);
                assert(s.take(2) =~= seq![raw@[i as int], raw@[i + 1]]);
                assert(out@ + patched(s.skip(2), ascii_guard, false) =~= before + (s.take(2)
                    + patched(s.skip(2), ascii_guard, false)));
            }
            i = i + 2;
        } else if i + 1 < n && raw[i + 1] == 0x75 && n - i >= 6 && is_hex_byte(raw[i + 2])
            && is_hex_byte(raw[i + 3]) && is_hex_byte(raw[i + 4]) && is_hex_byte(raw[i + 5]) {
            assert(s[1] == raw@[i + 1] && s[2] == raw@[i + 2] && s[3] == raw@[i + 3] && s[4]
                == raw@[i + 4] && s[5] == raw@[i + 5]);
            let mut k: usize = 0;
            while k < 6
                invariant
                    0 <= k <= 6,
                    i + 6 <= n,
                    n == raw@.len(),
                    out@ == before + raw@.subrange(i as int, i + k),
                decreases 6 - k,
            {
                out.push(raw[i + k]);
                k = k + 1;
                assert(out@ =~= before + raw@.subrange(i as int, i + k));
            }
            proof {
                lemma_skip_skip(raw@, i as int, 6);
                assert(s.take(6) =~= raw@.subrange(i as int, i + 6));
                assert(out@ + patched(s.skip(6), ascii_guard, false) =~= before + (s.take(6)
                    + patched(s.skip(6), ascii_guard, false)));
            }
            i = i + 6;
        } else {
            proof {
                if i + 1 < n {
                    assert(s[1] == raw@[i + 1]);
                }
                if i + 6 <= n {
                    assert(s[2] == raw@[i + 2] && s[3] == raw@[i + 3] && s[4] == raw@[i + 4]
                        && s[5] == raw@[i + 5]);
                }
                lemma_skip_skip(raw@, i as int, 1);
            }
            i = i + 1;
        }
    }
    assert(raw@.skip(n as int) =~= Seq::<u8>::empty());
    assert(out@ =~= out@ + Seq::<u8>::empty());
    out
}

/// Does the mcmeta hold an escape Lunar's parser rejects? Sections signs,
/// a BOM, control bytes and legacy encodings are all tolerated.
pub fn mcmeta_has_lunar_escape(raw: &[u8]) -> (r: bool)
    ensures
        r == lunar_bad(raw@),
{
    match utf8_text(raw) {
        Some(_) => scan_invalid_escape(raw, false),
        None => scan_invalid_escape(raw, true),
    }
}

/// Minimal Lunar repair: drop the backslash of every invalid escape.
pub fn patch_lunar_escapes(raw: &[u8]) -> (r: Vec<u8>)
    ensures
        r@ == lunar_patched(raw@),
{
    let ascii_guard = utf8_text(raw).is_none();
    patch_escapes_with(raw, ascii_guard)
}

/// Structural probe mirroring Lunar's leniencies: a BOM and raw control
/// bytes are tolerated, broken structure is not.
pub fn parses_like_lunar(raw: &[u8]) -> (r: bool)
    ensures
        r == json_accepts(lunar_probe_input(raw@)),
{
    let start: usize = if raw.len() >= 3 && raw[0] == 0xef && raw[1] == 0xbb && raw[2] == 0xbf {
        3
    } else {
        0
    };
    let mut softened: Vec<u8> = Vec::new();
    let mut i: usize = start;
    while i < raw.len()
        invariant
            start <= i <= raw@.len(),
            without_bom(raw@) == raw@.skip(start as int),
            softened@ == raw@.subrange(start as int, i as int).map_values(|b: u8| soften(b)),
        decreases raw@.len() - i,
    {
        let b = raw[i];
        softened.push(
            if b < 0x20 {
                0x20
            } else {
                b
            },
        );
        i = i + 1;
        assert(softened@ =~= raw@.subrange(start as int, i as int).map_values(|b: u8| soften(b)));
    }
    assert(raw@.subrange(start as int, raw@.len() as int) =~= raw@.skip(start as int));
    json_well_formed(softened.as_slice())
}

/// Every product's mcmeta passes through the Lunar patch; a file the patch
/// cannot save falls back to a regenerated default.
pub fn product_mcmeta(raw: Vec<u8>, stem: &[char]) -> (r: Vec<u8>)
    ensures
        r@ == product_mcmeta_bytes(raw@, stem@),
{
    if !mcmeta_has_lunar_escape(raw.as_slice()) {
        return raw;
    }
    let patched = patch_lunar_escapes(raw.as_slice());
    if parses_like_lunar(patched.as_slice()) {
        patched
    } else {
        let text = generated_mcmeta(stem);
        text_bytes(&text)
    }
}

/// The UTF-8 encoding of a string.
pub fn text_bytes(s: &String) -> (r: Vec<u8>)
    ensures
        r@ == vstd::utf8::encode_utf8(s@),
{
    let b = s.as_str().as_bytes();
    let mut out: Vec<u8> = Vec::new();
    let mut i: usize = 0;
    while i < b.len()
        invariant
            0 <= i <= b@.len(),
            out@ == b@.take(i as int),
        decreases b@.len() - i,
    {
        out.push(b[i]);
        i = i + 1;
        assert(out@ =~= b@.take(i as int));
    }
    assert(b@.take(b@.len() as int) =~= b@);
    out
}

proof fn lemma_patch_clean(s: Seq<u8>, g: bool, p: bool, q: bool)
    requires
        (s.len() > 0 && s[0] == backslash()) ==> p == q,
    ensures
        !has_bad_escape(patched(s, g, p), g, q),
    decreases s.len(),
{
    if s.len() == 0 {
        return;
    }
    let out = patched(s, g, p);
    if !escape_start(s, g, p) {
        let rest = patched(s.skip(1), g, s[0] >= 0x80);
        lemma_patch_clean(s.skip(1), g, s[0] >= 0x80, s[0] >= 0x80);
        assert(out.skip(1) =~= rest);
        assert(out[0] == s[0]);
    } else if s.len() > 1 && simple_escape(s[1]) {
        let rest = patched(s.skip(2), g, false);
        lemma_patch_clean(s.skip(2), g, false, false);
        assert(out.skip(2) =~= rest);
        assert(out[0] == s[0] && out[1] == s[1]);
    } else if s.len() > 1 && s[1] == 0x75 && hex4_at_2(s) {
        let rest = patched(s.skip(6), g, false);
        lemma_patch_clean(s.skip(6), g, false, false);
        assert(out.skip(6) =~= rest);
        assert(out[0] == s[0] && out[1] == s[1] && out[2] == s[2] && out[3] == s[3] && out[4]
            == s[4] && out[5] == s[5]);
    } else {
        lemma_patch_clean(s.skip(1), g, false, q);
    }
}

proof fn lemma_patch_identity(s: Seq<u8>, g: bool, p: bool)
    requires
        !has_bad_escape(s, g, p),
    ensures
        patched(s, g, p) == s,
    decreases s.len(),
{
    if s.len() == 0 {
        return;
    }
    if !escape_start(s, g, p) {
        lemma_patch_identity(s.skip(1), g, s[0] >= 0x80);
        assert(seq![s[0]] + s.skip(1) =~= s);
    } else if s.len() > 1 && simple_escape(s[1]) {
        lemma_patch_identity(s.skip(2), g, false);
        assert(s.take(2) + s.skip(2) =~= s);
    } else {
        lemma_patch_identity(s.skip(6), g, false);
        assert(s.take(6) + s.skip(6) =~= s);
    }
}

proof fn lemma_without_backslashes_append(a: Seq<u8>, b: Seq<u8>)
    ensures
        without_backslashes(a + b) == without_backslashes(a) + without_backslashes(b),
    decreases a.len(),
{
    if a.len() == 0 {
        assert(a + b =~= b);
        assert(without_backslashes(a) + without_backslashes(b) =~= without_backslashes(b));
    } else {
        assert((a + b).skip(1) =~= a.skip(1) + b);
        lemma_without_backslashes_append(a.skip(1), b);
        if a[0] != backslash() {
            assert(seq![a[0]] + (without_backslashes(a.skip(1)) + without_backslashes(b))
                =~= (seq![a[0]] + without_backslashes(a.skip(1))) + without_backslashes(b));
        }
    }
}

proof fn lemma_without_backslashes_prefix(s: Seq<u8>, k: int)
    requires
        0 <= k <= s.len(),
    ensures
        without_backslashes(s) == without_backslashes(s.take(k)) + without_backslashes(s.skip(k)),
{
    assert(s =~= s.take(k) + s.skip(k));
    lemma_without_backslashes_append(s.take(k), s.skip(k));
}

proof fn lemma_patch_keeps_content(s: Seq<u8>, g: bool, p: bool)
    ensures
        without_backslashes(patched(s, g, p)) == without_backslashes(s),
        patched(s, g, p).len() <= s.len(),
    decreases s.len(),
{
    if s.len() == 0 {
        return;
    }
    if !escape_start(s, g, p) {
        lemma_patch_keeps_content(s.skip(1), g, s[0] >= 0x80);
        lemma_without_backslashes_append(seq![s[0]], patched(s.skip(1), g, s[0] >= 0x80));
        lemma_without_backslashes_prefix(s, 1);
        assert(s.take(1) =~= seq![s[0]]);
    } else if s.len() > 1 && simple_escape(s[1]) {
        lemma_patch_keeps_content(s.skip(2), g, false);
        lemma_without_backslashes_append(s.take(2), patched(s.skip(2), g, false));
        lemma_without_backslashes_prefix(s, 2);
    } else if s.len() > 1 && s[1] == 0x75 && hex4_at_2(s) {
        lemma_patch_keeps_content(s.skip(6), g, false);
        lemma_without_backslashes_append(s.take(6), patched(s.skip(6), g, false));
        lemma_without_backslashes_prefix(s, 6);
    } else {
        lemma_patch_keeps_content(s.skip(1), g, false);
        lemma_without_backslashes_prefix(s, 1);
        assert(s.take(1) =~= seq![s[0]]);
        assert(without_backslashes(s.take(1).skip(1)) =~= Seq::<u8>::empty()) by {
            assert(s.take(1).skip(1) =~= Seq::<u8>::empty());
        }
    }
}

/// Law: the Lunar repair cures the bytes for the reading it was made under:
/// scanned the same way again, the patched mcmeta holds no invalid escape.
pub proof fn law_patch_leaves_no_invalid_escape(raw: Seq<u8>)
    ensures
        !has_bad_escape(lunar_patched(raw), !valid_utf8(raw), false),
{
    lemma_patch_clean(raw, !valid_utf8(raw), false, false);
}

/// Law: a healthy mcmeta is left byte-for-byte as it is by the repair.
pub proof fn law_patch_keeps_healthy_mcmeta(raw: Seq<u8>)
    requires
        !lunar_bad(raw),
    ensures
        lunar_patched(raw) == raw,
{
    lemma_patch_identity(raw, !valid_utf8(raw), false);
}

/// Law: the repair only ever removes backslashes; every other byte (colour
/// codes, text, encoding) is kept in order.
pub proof fn law_patch_only_removes_backslashes(raw: Seq<u8>)
    ensures
        without_backslashes(lunar_patched(raw)) == without_backslashes(raw),
        lunar_patched(raw).len() <= raw.len(),
{
    lemma_patch_keeps_content(raw, !valid_utf8(raw), false);
}

/// Under the guarded reading, the repair keeps the bytes valid UTF-8
/// exactly when they were, whatever came before them.
proof fn lemma_patch_guarded_validity(u: Seq<u8>, s: Seq<u8>, p: bool)
    requires
        p == (u.len() > 0 && u.last() >= 0x80),
    ensures
        valid_utf8(u + patched(s, true, p)) == valid_utf8(u + s),
    decreases s.len(),
{
    if s.len() == 0 {
        assert(u + patched(s, true, p) =~= u + s);
        return;
    }
    let out = patched(s, true, p);
    if !escape_start(s, true, p) {
        let u2 = u + seq![s[0]];
        lemma_patch_guarded_validity(u2, s.skip(1), s[0] >= 0x80);
        assert(u + out =~= u2 + patched(s.skip(1), true, s[0] >= 0x80));
        assert(u + s =~= u2 + s.skip(1));
    } else if s.len() > 1 && simple_escape(s[1]) {
        let u2 = u + s.take(2);
        assert(u2.last() == s[1]);
        lemma_patch_guarded_validity(u2, s.skip(2), false);
        assert(u + out =~= u2 + patched(s.skip(2), true, false));
        assert(u + s =~= u2 + s.skip(2));
    } else if s.len() > 1 && s[1] == 0x75 && hex4_at_2(s) {
        let u2 = u + s.take(6);
        assert(u2.last() == s[5]);
        lemma_patch_guarded_validity(u2, s.skip(6), false);
        assert(u + out =~= u2 + patched(s.skip(6), true, false));
        assert(u + s =~= u2 + s.skip(6));
    } else {
        lemma_patch_guarded_validity(u, s.skip(1), false);
        lemma_valid_concat_after_ascii(u, s);
        lemma_valid_concat_after_ascii(u, s.skip(1));
        lemma_valid_drop_ascii(s);
    }
}

/// Under the plain reading, valid UTF-8 stays valid through the repair: a
/// dropped backslash is a whole character of its own.
proof fn lemma_patch_unguarded_validity(u: Seq<u8>, s: Seq<u8>, p: bool)
    requires
        valid_utf8(u + s),
    ensures
        valid_utf8(u + patched(s, false, p)),
    decreases s.len(),
{
    if s.len() == 0 {
        assert(u + patched(s, false, p) =~= u + s);
        return;
    }
    let out = patched(s, false, p);
    if !escape_start(s, false, p) {
        let u2 = u + seq![s[0]];
        assert(u + s =~= u2 + s.skip(1));
        lemma_patch_unguarded_validity(u2, s.skip(1), s[0] >= 0x80);
        assert(u + out =~= u2 + patched(s.skip(1), false, s[0] >= 0x80));
    } else if s.len() > 1 && simple_escape(s[1]) {
        let u2 = u + s.take(2);
        assert(u + s =~= u2 + s.skip(2));
        lemma_patch_unguarded_validity(u2, s.skip(2), false);
        assert(u + out =~= u2 + patched(s.skip(2), false, false));
    } else if s.len() > 1 && s[1] == 0x75 && hex4_at_2(s) {
        let u2 = u + s.take(6);
        assert(u + s =~= u2 + s.skip(6));
        lemma_patch_unguarded_validity(u2, s.skip(6), false);
        assert(u + out =~= u2 + patched(s.skip(6), false, false));
    } else {
        let us = u + s;
        assert(us[u.len() as int] == s[0]);
        lemma_valid_split_at_ascii(us, u.len() as int);
        assert(us.take(u.len() as int) =~= u);
        assert(us.skip(u.len() as int) =~= s);
        lemma_valid_drop_ascii(s);
        lemma_valid_prefix_concat(u, s.skip(1));
        lemma_patch_unguarded_validity(u, s.skip(1), false);
    }
}

/// Law: the repaired mcmeta is no longer illegal in Lunar, and it is read
/// the same way as before, since the repair keeps the bytes valid UTF-8
/// exactly when they were.
pub proof fn law_patch_cures_lunar(raw: Seq<u8>)
    ensures
        valid_utf8(lunar_patched(raw)) == valid_utf8(raw),
        !lunar_bad(lunar_patched(raw)),
{
    let e = Seq::<u8>::empty();
    assert(e + raw =~= raw);
    if valid_utf8(raw) {
        lemma_patch_unguarded_validity(e, raw, false);
        assert(e + lunar_patched(raw) =~= lunar_patched(raw));
    } else {
        lemma_patch_guarded_validity(e, raw, false);
        assert(e + lunar_patched(raw) =~= lunar_patched(raw));
    }
    law_patch_leaves_no_invalid_escape(raw);
}

/// `out` is `s` with some backslashes deleted in place: `keep` lists, in
/// increasing order, the position in `s` of each byte of `out`, and every
/// byte of `s` left out is a backslash.
pub open spec fn deleted_in_place(s: Seq<u8>, out: Seq<u8>, keep: Seq<int>) -> bool {
    &&& keep.len() == out.len()
    &&& forall|k: int| 0 <= k < keep.len() ==> 0 <= #[trigger] keep[k] < s.len() && out[k] == s[keep[k]]
    &&& forall|a: int, b: int| 0 <= a < b < keep.len() ==> keep[a] < keep[b]
    &&& forall|i: int| 0 <= i < s.len() && s[i] != backslash() ==> exists|k: int| 0 <= k < keep.len() && #[trigger] keep[k] == i
}

spec fn shifted(ks: Seq<int>, d: int) -> Seq<int> {
    ks.map_values(|x: int| x + d)
}

spec fn first_positions(d: int) -> Seq<int> {
    Seq::new(d as nat, |i: int| i)
}

proof fn lemma_keep_prefix(s: Seq<u8>, d: int, rest: Seq<u8>, rk: Seq<int>)
    requires
        0 < d <= s.len(),
        deleted_in_place(s.skip(d), rest, rk),
    ensures
        deleted_in_place(s, s.take(d) + rest, first_positions(d) + shifted(rk, d)),
{
    let out = s.take(d) + rest;
    let keep = first_positions(d) + shifted(rk, d);
    assert forall|k: int| 0 <= k < keep.len() implies 0 <= #[trigger] keep[k] < s.len() && out[k] == s[keep[k]] by {
        if k >= d {
            assert(keep[k] == rk[k - d] + d);
            assert(out[k] == rest[k - d]);
            assert(s.skip(d)[rk[k - d]] == s[rk[k - d] + d]);
        }
    }
    assert forall|a: int, b: int| 0 <= a < b < keep.len() implies keep[a] < keep[b] by {
        if b >= d {
            assert(keep[b] == rk[b - d] + d);
            if a >= d {
                assert(keep[a] == rk[a - d] + d);
            }
        }
    }
    assert forall|i: int| 0 <= i < s.len() && s[i] != backslash() implies exists|k: int| 0 <= k < keep.len() && #[trigger] keep[k] == i by {
        if i < d {
            assert(keep[i] == i);
        } else {
            assert(s.skip(d)[i - d] == s[i]);
            let k = choose|k: int| 0 <= k < rk.len() && #[trigger] rk[k] == i - d;
            assert(keep[k + d] == i);
        }
    }
}

proof fn lemma_drop_first(s: Seq<u8>, rest: Seq<u8>, rk: Seq<int>)
    requires
        s.len() > 0,
        s[0] == backslash(),
        deleted_in_place(s.skip(1), rest, rk),
    ensures
        deleted_in_place(s, rest, shifted(rk, 1)),
{
    let keep = shifted(rk, 1);
    assert forall|k: int| 0 <= k < keep.len() implies 0 <= #[trigger] keep[k] < s.len() && rest[k] == s[keep[k]] by {
        assert(s.skip(1)[rk[k]] == s[rk[k] + 1]);
    }
    assert forall|a: int, b: int| 0 <= a < b < keep.len() implies keep[a] < keep[b] by {}
    assert forall|i: int| 0 <= i < s.len() && s[i] != backslash() implies exists|k: int| 0 <= k < keep.len() && #[trigger] keep[k] == i by {
        assert(i >= 1);
        assert(s.skip(1)[i - 1] == s[i]);
        let k = choose|k: int| 0 <= k < rk.len() && #[trigger] rk[k] == i - 1;
        assert(keep[k] == i);
    }
}

proof fn lemma_patch_in_place(s: Seq<u8>, g: bool, p: bool) -> (keep: Seq<int>)
    ensures
        deleted_in_place(s, patched(s, g, p), keep),
    decreases s.len(),
{
    if s.len() == 0 {
        Seq::<int>::empty()
    } else if !escape_start(s, g, p) {
        let rk = lemma_patch_in_place(s.skip(1), g, s[0] >= 0x80);
        lemma_keep_prefix(s, 1, patched(s.skip(1), g, s[0] >= 0x80), rk);
        assert(s.take(1) =~= seq![s[0]]);
        first_positions(1) + shifted(rk, 1)
    } else if s.len() > 1 && simple_escape(s[1]) {
        let rk = lemma_patch_in_place(s.skip(2), g, false);
        lemma_keep_prefix(s, 2, patched(s.skip(2), g, false), rk);
        first_positions(2) + shifted(rk, 2)
    } else if s.len() > 1 && s[1] == 0x75 && hex4_at_2(s) {
        let rk = lemma_patch_in_place(s.skip(6), g, false);
        lemma_keep_prefix(s, 6, patched(s.skip(6), g, false), rk);
        first_positions(6) + shifted(rk, 6)
    } else {
        let rk = lemma_patch_in_place(s.skip(1), g, false);
        lemma_drop_first(s, patched(s.skip(1), g, false), rk);
        shifted(rk, 1)
    }
}

/// Law: the repair is the mcmeta with some backslashes deleted in place:
/// every byte it keeps stands where it stood, in the same order, and every
/// byte it leaves out is a backslash.
pub proof fn law_patch_deletes_backslashes_in_place(raw: Seq<u8>)
    ensures
        exists|keep: Seq<int>| deleted_in_place(raw, lunar_patched(raw), keep),
{
    let keep = lemma_patch_in_place(raw, !valid_utf8(raw), false);
    assert(deleted_in_place(raw, lunar_patched(raw), keep));
}

proof fn lemma_bad_escape_has_backslash(s: Seq<u8>, guard: bool, prev_high: bool)
    requires
        has_bad_escape(s, guard, prev_high),
    ensures
        s.contains(backslash()),
    decreases s.len(),
{
    if s.len() > 0 {
        if !escape_start(s, guard, prev_high) {
            lemma_bad_escape_has_backslash(s.skip(1), guard, s[0] >= 0x80);
            let k = choose|k: int| 0 <= k < s.skip(1).len() && s.skip(1)[k] == backslash();
            assert(s[k + 1] == backslash());
        } else {
            assert(s[0] == backslash());
        }
    }
}

/// Only a backslash can make an mcmeta illegal in Lunar: a `§`, a byte
/// order mark, control characters or a legacy encoding never do by
/// themselves.
pub proof fn law_lunar_needs_a_backslash(raw: Seq<u8>)
    requires
        !raw.contains(backslash()),
    ensures
        !lunar_bad(raw),
{
    if lunar_bad(raw) {
        lemma_bad_escape_has_backslash(raw, !valid_utf8(raw), false);
    }
}

/// Bytes a scan reads through in whole steps, each a plain byte or a
/// one-character escape.
spec fn clean(s: Seq<u8>) -> bool
    decreases s.len(),
{
    if s.len() == 0 {
        true
    } else if s[0] != backslash() {
        clean(s.skip(1))
    } else if s.len() > 1 && simple_escape(s[1]) {
        clean(s.skip(2))
    } else {
        false
    }
}

proof fn lemma_clean_has_no_bad_escape(s: Seq<u8>, prev_high: bool)
    requires
        clean(s),
    ensures
        !has_bad_escape(s, false, prev_high),
    decreases s.len(),
{
    if s.len() > 0 {
        if s[0] != backslash() {
            lemma_clean_has_no_bad_escape(s.skip(1), s[0] >= 0x80);
        } else {
            lemma_clean_has_no_bad_escape(s.skip(2), false);
        }
    }
}

proof fn lemma_clean_concat(a: Seq<u8>, b: Seq<u8>)
    requires
        clean(a),
        clean(b),
    ensures
        clean(a + b),
    decreases a.len(),
{
    if a.len() == 0 {
        assert(a + b =~= b);
    } else if a[0] != backslash() {
        lemma_clean_concat(a.skip(1), b);
        assert((a + b).skip(1) =~= a.skip(1) + b);
    } else {
        lemma_clean_concat(a.skip(2), b);
        assert((a + b).skip(2) =~= a.skip(2) + b);
        assert((a + b)[1] == a[1]);
    }
}

proof fn lemma_encode_concat(a: Seq<char>, b: Seq<char>)
    ensures
        encode_utf8(a + b) == encode_utf8(a) + encode_utf8(b),
    decreases a.len(),
{
    if a.len() == 0 {
        assert(a + b =~= b);
        assert(encode_utf8(a) =~= Seq::<u8>::empty());
        assert(encode_utf8(a) + encode_utf8(b) =~= encode_utf8(b));
    } else {
        lemma_encode_concat(a.drop_first(), b);
        assert((a + b).drop_first() =~= a.drop_first() + b);
        assert((a + b)[0] == a[0]);
        assert(encode_utf8(a + b) =~= encode_scalar(a[0] as u32) + (encode_utf8(a.drop_first()) + encode_utf8(b)));
    }
}

/// A character other than a backslash encodes to bytes none of which is
/// a backslash.
proof fn lemma_plain_char_clean(c: char)
    requires
        c != '\\',
    ensures
        clean(encode_scalar(c as u32)),
{
    let v = c as u32;
    let e = encode_scalar(v);
    if has_width_1_encoding(v) {
        assert((v & 0x7F) == v) by (bit_vector)
            requires
                v <= 0x7F,
        ;
        assert(e == seq![(v & 0x7F) as u8]);
        assert(v != 0x5c);
        assert(e[0] != backslash());
        assert(e.skip(1) =~= Seq::<u8>::empty());
        assert(clean(e.skip(1)));
    } else {
        let x = ((v >> 6u32) & 0x1Fu32) as u8;
        let y = ((v >> 12u32) & 0x0Fu32) as u8;
        let z = ((v >> 18u32) & 0x7u32) as u8;
        let l = (v & 0x3Fu32) as u8;
        let m = ((v >> 6u32) & 0x3Fu32) as u8;
        let n = ((v >> 12u32) & 0x3Fu32) as u8;
        assert((0xC0u8 | x) >= 0x80) by (bit_vector);
        assert((0xE0u8 | y) >= 0x80) by (bit_vector);
        assert((0xF0u8 | z) >= 0x80) by (bit_vector);
        assert((0x80u8 | l) >= 0x80) by (bit_vector);
        assert((0x80u8 | m) >= 0x80) by (bit_vector);
        assert((0x80u8 | n) >= 0x80) by (bit_vector);
        if vstd::utf8::has_width_2_encoding(v) {
            assert(e == seq![0xC0u8 | x, 0x80u8 | l]);
        } else if vstd::utf8::has_width_3_encoding(v) {
            assert(e == seq![0xE0u8 | y, 0x80u8 | m, 0x80u8 | l]);
        } else {
            assert(e == seq![0xF0u8 | z, 0x80u8 | n, 0x80u8 | m, 0x80u8 | l]);
        }
        lemma_high_bytes_clean(e);
    }
}

proof fn lemma_high_bytes_clean(e: Seq<u8>)
    requires
        forall|i: int| 0 <= i < e.len() ==> e[i] >= 0x80,
    ensures
        clean(e),
    decreases e.len(),
{
    if e.len() > 0 {
        assert forall|i: int| 0 <= i < e.skip(1).len() implies e.skip(1)[i] >= 0x80 by {
            assert(e.skip(1)[i] == e[i + 1]);
        }
        lemma_high_bytes_clean(e.skip(1));
    }
}

/// Text without a backslash encodes to clean bytes.
proof fn lemma_plain_text_clean(t: Seq<char>)
    requires
        forall|i: int| 0 <= i < t.len() ==> t[i] != '\\',
    ensures
        clean(encode_utf8(t)),
    decreases t.len(),
{
    if t.len() > 0 {
        lemma_plain_char_clean(t[0]);
        assert forall|i: int| 0 <= i < t.drop_first().len() implies t.drop_first()[i] != '\\' by {
            assert(t.drop_first()[i] == t[i + 1]);
        }
        lemma_plain_text_clean(t.drop_first());
        lemma_clean_concat(encode_scalar(t[0] as u32), encode_utf8(t.drop_first()));
    }
}

/// Escaped text encodes to clean bytes: every backslash is followed by
/// another or by a quote.
proof fn lemma_escaped_text_clean(s: Seq<char>)
    ensures
        clean(encode_utf8(crate::names::json_escape(s))),
    decreases s.len(),
{
    if s.len() > 0 {
        let c = s.last();
        lemma_escaped_text_clean(s.drop_last());
        let piece = if c == '\\' {
            seq!['\\', '\\']
        } else if c == '"' {
            seq!['\\', '"']
        } else {
            seq![c]
        };
        lemma_encode_concat(crate::names::json_escape(s.drop_last()), piece);
        let bs = '\\' as u32;
        assert((bs & 0x7F) == bs) by (bit_vector)
            requires
                bs == 0x5c,
        ;
        if c == '\\' || c == '"' {
            let q = piece[1] as u32;
            assert((q & 0x7F) == q) by (bit_vector)
                requires
                    q <= 0x7F,
            ;
            let rest = piece.drop_first();
            assert(rest.drop_first() =~= Seq::<char>::empty());
            assert(encode_utf8(rest.drop_first()) =~= Seq::<u8>::empty());
            assert(encode_scalar(q) == seq![(q & 0x7F) as u8]);
            assert(encode_utf8(rest) =~= seq![q as u8]);
            assert(encode_scalar(bs) == seq![(bs & 0x7F) as u8]);
            let e = encode_utf8(piece);
            assert(e =~= seq![0x5cu8] + seq![q as u8]);
            assert(e[0] == backslash());
            assert(simple_escape(e[1]));
            assert(e.skip(2) =~= Seq::<u8>::empty());
            assert(clean(e.skip(2)));
            assert(clean(e));
        } else {
            lemma_plain_char_clean(c);
            assert(piece.drop_first() =~= Seq::<char>::empty());
            assert(encode_utf8(piece.drop_first()) =~= Seq::<u8>::empty());
            assert(encode_utf8(piece) =~= encode_scalar(c as u32));
        }
        lemma_clean_concat(encode_utf8(crate::names::json_escape(s.drop_last())), encode_utf8(piece));
    }
}

/// The default `pack.mcmeta` written for a pack is never illegal in Lunar,
/// whatever the stem it names.
pub proof fn law_generated_mcmeta_is_lunar_legal(stem: Seq<char>)
    ensures
        !lunar_bad(vstd::utf8::encode_utf8(generated_mcmeta_text(stem))),
{
    let head = "{\"pack\":{\"pack_format\":1,\"description\":\""@;
    let tail = "\"}}"@;
    reveal_strlit("{\"pack\":{\"pack_format\":1,\"description\":\"");
    reveal_strlit("\"}}");
    let mid = crate::names::json_escape(stem);
    assert(generated_mcmeta_text(stem) == head + mid + tail);
    lemma_encode_concat(head + mid, tail);
    lemma_encode_concat(head, mid);
    lemma_plain_text_clean(head);
    lemma_escaped_text_clean(stem);
    lemma_plain_text_clean(tail);
    lemma_clean_concat(encode_utf8(head), encode_utf8(mid));
    lemma_clean_concat(encode_utf8(head) + encode_utf8(mid), encode_utf8(tail));
    let bytes = encode_utf8(generated_mcmeta_text(stem));
    vstd::utf8::encode_utf8_valid_utf8(generated_mcmeta_text(stem));
    lemma_clean_has_no_bad_escape(bytes, false);
}

/// Law: the `pack.mcmeta` a rebuilt pack carries is never illegal in
/// Lunar: kept when healthy, repaired, or written anew.
pub proof fn law_product_mcmeta_is_lunar_legal(raw: Seq<u8>, stem: Seq<char>)
    ensures
        !lunar_bad(product_mcmeta_bytes(raw, stem)),
{
    if lunar_bad(raw) {
        if json_accepts(lunar_probe_input(lunar_patched(raw))) {
            law_patch_cures_lunar(raw);
        } else {
            law_generated_mcmeta_is_lunar_legal(stem);
        }
    }
}

} // verus!
