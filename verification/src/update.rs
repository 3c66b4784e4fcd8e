//! Release-tag comparison and download selection for the update check.
use vstd::prelude::*;
use crate::text::{chars_of, copy_chars, ends_with, lower, lower_vec, split, split_vec, string_of, is_suffix, is_prefix, starts_with};

verus! {

/// `char::is_whitespace`: the Unicode `White_Space` characters.
pub open spec fn is_ws(c: char) -> bool {
    let u = c as u32;
    (0x09 <= u && u <= 0x0d) || u == 0x20 || u == 0x85 || u == 0xa0 || u == 0x1680 || (0x2000 <= u
        && u <= 0x200a) || u == 0x2028 || u == 0x2029 || u == 0x202f || u == 0x205f || u == 0x3000
}

pub open spec fn trim_start_ws(s: Seq<char>) -> Seq<char>
    decreases s.len(),
{
    if s.len() > 0 && is_ws(s[0]) {
        trim_start_ws(s.drop_first())
    } else {
        s
    }
}

pub open spec fn trim_end_ws(s: Seq<char>) -> Seq<char>
    decreases s.len(),
{
    if s.len() > 0 && is_ws(s.last()) {
        trim_end_ws(s.drop_last())
    } else {
        s
    }
}

/// `str::trim`.
pub open spec fn trimmed(s: Seq<char>) -> Seq<char> {
    trim_end_ws(trim_start_ws(s))
}

/// Every leading `v` or `V` removed.
pub open spec fn strip_v(s: Seq<char>) -> Seq<char>
    decreases s.len(),
{
    if s.len() > 0 && (s[0] == 'v' || s[0] == 'V') {
        strip_v(s.drop_first())
    } else {
        s
    }
}

pub open spec fn is_digit(c: char) -> bool {
    '0' <= c && c <= '9'
}

pub open spec fn digit_value(c: char) -> nat {
    ((c as u32) - ('0' as u32)) as nat
}

pub open spec fn digits_value(d: Seq<char>) -> nat
    decreases d.len(),
{
    if d.len() == 0 {
        0
    } else {
        10 * digits_value(d.drop_last()) + digit_value(d.last())
    }
}

pub open spec fn all_digits(d: Seq<char>) -> bool {
    forall|i: int| 0 <= i < d.len() ==> is_digit(#[trigger] d[i])
}

/// The text with one leading `+` removed.
pub open spec fn without_plus(s: Seq<char>) -> Seq<char> {
    if s.len() > 0 && s[0] == '+' {
        s.drop_first()
    } else {
        s
    }
}

/// `u64::from_str`: an optional `+`, then one or more ASCII digits whose
/// value fits in 64 bits.
pub open spec fn parse_u64(s: Seq<char>) -> Option<u64> {
    let d = without_plus(s);
    if d.len() > 0 && all_digits(d) && digits_value(d) <= u64::MAX {
        Some(digits_value(d) as u64)
    } else {
        None
    }
}

pub open spec fn first_sep(s: Seq<char>) -> Option<int>
    decreases s.len(),
{
    if s.len() == 0 {
        None
    } else if s[0] == '-' || s[0] == '+' {
        Some(0)
    } else {
        match first_sep(s.drop_first()) {
            Some(i) => Some(i + 1),
            None => None,
        }
    }
}

/// The text before the first `-` or `+`.
pub open spec fn before_sep(s: Seq<char>) -> Seq<char> {
    match first_sep(s) {
        Some(i) => s.take(i),
        None => s,
    }
}

/// Leading `v`/`V` stripped, then `major.minor.patch` with missing parts 0;
/// pre-release, build metadata and parts past the third are ignored.
pub open spec fn semver(raw: Seq<char>) -> Option<(u64, u64, u64)> {
    let parts = split(before_sep(strip_v(trimmed(raw))), '.');
    let major = parse_u64(parts[0]);
    let minor = if parts.len() > 1 {
        parse_u64(parts[1])
    } else {
        Some(0u64)
    };
    let patch = if parts.len() > 2 {
        parse_u64(parts[2])
    } else {
        Some(0u64)
    };
    if major is Some && minor is Some && patch is Some {
        Some((major->0, minor->0, patch->0))
    } else {
        None
    }
}

/// Lexicographic order on version triples.
pub open spec fn version_gt(a: (u64, u64, u64), b: (u64, u64, u64)) -> bool {
    a.0 > b.0 || (a.0 == b.0 && (a.1 > b.1 || (a.1 == b.1 && a.2 > b.2)))
}

pub open spec fn newer(remote: Seq<char>, local: Seq<char>) -> bool {
    match (semver(remote), semver(local)) {
        (Some(r), Some(l)) => version_gt(r, l),
        _ => false,
    }
}

fn is_ws_char(c: char) -> (r: bool)
    ensures
        r == is_ws(c),
{
    let u = c as u32;
    (0x09 <= u && u <= 0x0d) || u == 0x20 || u == 0x85 || u == 0xa0 || u == 0x1680 || (0x2000 <= u
        && u <= 0x200a) || u == 0x2028 || u == 0x2029 || u == 0x202f || u == 0x205f || u == 0x3000
}

fn slice_range(s: &[char], from: usize, to: usize) -> (r: Vec<char>)
    requires
        from <= to <= s@.len(),
    ensures
        r@ == s@.subrange(from as int, to as int),
{
    let mut out: Vec<char> = Vec::new();
    let mut i: usize = from;
    while i < to
        invariant
            from <= i <= to <= s@.len(),
            out@ == s@.subrange(from as int, i as int),
        decreases to - i,
    {
        out.push(s[i]);
        i = i + 1;
        assert(out@ =~= s@.subrange(from as int, i as int));
    }
    out
}

/// `str::trim`.
pub fn trim_ws(s: &[char]) -> (r: Vec<char>)
    ensures
        r@ == trimmed(s@),
{
    let mut a: usize = 0;
    assert(s@.skip(0) =~= s@);
    while a < s.len() && is_ws_char(s[a])
        invariant
            0 <= a <= s@.len(),
            trim_start_ws(s@) == trim_start_ws(s@.skip(a as int)),
        decreases s@.len() - a,
    {
        assert(s@.skip(a as int).drop_first() =~= s@.skip(a + 1));
        a = a + 1;
    }
    let mut b: usize = s.len();
    assert(s@.skip(a as int) =~= s@.subrange(a as int, b as int));
    while b > a && is_ws_char(s[b - 1])
        invariant
            a <= b <= s@.len(),
            trim_start_ws(s@) == s@.skip(a as int),
            trimmed(s@) == trim_end_ws(s@.subrange(a as int, b as int)),
        decreases b,
    {
        assert(s@.subrange(a as int, b as int).drop_last() =~= s@.subrange(a as int, b - 1));
        b = b - 1;
    }
    slice_range(s, a, b)
}

fn strip_v_vec(s: &[char]) -> (r: Vec<char>)
    ensures
        r@ == strip_v(s@),
{
    let mut a: usize = 0;
    assert(s@.skip(0) =~= s@);
    while a < s.len() && (s[a] == 'v' || s[a] == 'V')
        invariant
            0 <= a <= s@.len(),
            strip_v(s@) == strip_v(s@.skip(a as int)),
        decreases s@.len() - a,
    {
        assert(s@.skip(a as int).drop_first() =~= s@.skip(a + 1));
        a = a + 1;
    }
    assert(s@.skip(a as int) =~= s@.subrange(a as int, s@.len() as int));
    slice_range(s, a, s.len())
}

fn before_sep_vec(s: &[char]) -> (r: Vec<char>)
    ensures
        r@ == before_sep(s@),
{
    let mut i: usize = 0;
    assert(s@.skip(0) =~= s@);
    while i < s.len() && s[i] != '-' && s[i] != '+'
        invariant
            0 <= i <= s@.len(),
            first_sep(s@) == (match first_sep(s@.skip(i as int)) {
                Some(k) => Some(k + i),
                None => None,
            }),
        decreases s@.len() - i,
    {
        assert(s@.skip(i as int).drop_first() =~= s@.skip(i + 1));
        i = i + 1;
    }
    if i < s.len() {
        assert(s@.skip(i as int)[0] == s@[i as int]);
    } else {
        assert(s@.skip(i as int).len() == 0);
    }
    if i == s.len() {
        assert(s@.take(i as int) =~= s@);
    }
    slice_range(s, 0, i)
}

proof fn lemma_digits_take(d: Seq<char>, i: int)
    requires
        0 <= i < d.len(),
    ensures
        digits_value(d.take(i + 1)) == 10 * digits_value(d.take(i)) + digit_value(d[i]),
{
    assert(d.take(i + 1).drop_last() =~= d.take(i));
}

/// `u64::from_str`.
pub fn parse_u64_chars(s: &[char]) -> (r: Option<u64>)
    ensures
        r == parse_u64(s@),
{
    let start: usize = if s.len() > 0 && s[0] == '+' {
        1
    } else {
        0
    };
    let ghost d = without_plus(s@);
    assert(d =~= s@.skip(start as int));
    if start == s.len() {
        return None;
    }
    let mut v: u64 = 0;
    let mut i: usize = start;
    assert(d.take(0) =~= Seq::<char>::empty());
    while i < s.len()
        invariant
            start <= i <= s@.len(),
            d == s@.skip(start as int),
            d == without_plus(s@),
            forall|k: int| 0 <= k < i - start ==> is_digit(#[trigger] d[k]),
            v as nat == digits_value(d.take(i - start)),
        decreases s@.len() - i,
    {
        let c = s[i];
        assert(d[i - start] == c);
        if !('0' <= c && c <= '9') {
            assert(!is_digit(d[i - start]));
            assert(!all_digits(d));
            return None;
        }
        proof {
            lemma_digits_take(d, i - start);
        }
        let dv: u64 = ((c as u32) - ('0' as u32)) as u64;
        let m = v.checked_mul(10);
        match m {
            Some(m) => {
                match m.checked_add(dv) {
                    Some(w) => {
                        v = w;
                    },
                    None => {
                        proof {
                            lemma_digits_grow(d, i - start + 1);
                        }
                        assert(digits_value(d) > u64::MAX);
                        return None;
                    },
                }
            },
            None => {
                proof {
                    lemma_digits_grow(d, i - start + 1);
                }
                assert(digits_value(d) > u64::MAX);
                return None;
            },
        }
        i = i + 1;
    }
    assert(d.take(d.len() as int) =~= d);
    Some(v)
}

proof fn lemma_digits_grow(d: Seq<char>, k: int)
    requires
        0 < k <= d.len(),
    ensures
        digits_value(d.take(k)) <= digits_value(d),
    decreases d.len() - k,
{
    if k < d.len() {
        lemma_digits_grow(d, k + 1);
        assert(d.take(k + 1).drop_last() =~= d.take(k));
    } else {
        assert(d.take(k) =~= d);
    }
}

/// Strips a leading `v`/`V` and parses `major.minor.patch`; pre-release and
/// build metadata are ignored, missing parts count as 0.
pub fn parse_semver(raw: &str) -> (r: Option<(u64, u64, u64)>)
    ensures
        r == semver(raw@),
{
    let t = trim_ws(chars_of(raw).as_slice());
    let v = strip_v_vec(t.as_slice());
    let core = before_sep_vec(v.as_slice());
    let parts = split_vec(core.as_slice(), '.');
    proof {
        crate::text::lemma_split_nonempty(core@, '.');
    }
    let major = parse_u64_chars(parts[0].as_slice());
    let minor = if parts.len() > 1 {
        parse_u64_chars(parts[1].as_slice())
    } else {
        Some(0u64)
    };
    let patch = if parts.len() > 2 {
        parse_u64_chars(parts[2].as_slice())
    } else {
        Some(0u64)
    };
    match (major, minor, patch) {
        (Some(a), Some(b), Some(c)) => Some((a, b, c)),
        _ => None,
    }
}

/// The remote tag names a strictly greater version than the local one.
pub fn is_newer(remote: &str, local: &str) -> (r: bool)
    ensures
        r == newer(remote@, local@),
{
    match (parse_semver(remote), parse_semver(local)) {
        (Some(r), Some(l)) => r.0 > l.0 || (r.0 == l.0 && (r.1 > l.1 || (r.1 == l.1 && r.2
            > l.2))),
        _ => false,
    }
}

/// The asset is a Windows executable (`.exe`, any case).
pub open spec fn exe_asset(name: Seq<char>) -> bool {
    is_suffix(".exe"@, lower(name))
}

/// Index of the first executable asset.
pub open spec fn first_exe(assets: Seq<(String, String)>) -> Option<int>
    decreases assets.len(),
{
    if assets.len() == 0 {
        None
    } else if exe_asset(assets[0].0@) {
        Some(0)
    } else {
        match first_exe(assets.drop_first()) {
            Some(i) => Some(i + 1),
            None => None,
        }
    }
}

pub open spec fn download_url(assets: Seq<(String, String)>, html_url: Seq<char>) -> Seq<char> {
    match first_exe(assets) {
        Some(i) => assets[i].1@,
        None => html_url,
    }
}

/// The first `.exe` asset's URL, else the release page.
pub fn pick_download_url(assets: &[(String, String)], html_url: &str) -> (r: String)
    ensures
        r@ == download_url(assets@, html_url@),
{
    let exe = chars_of(".exe");
    let mut i: usize = 0;
    assert(assets@.skip(0) =~= assets@);
    while i < assets.len()
        invariant
            0 <= i <= assets@.len(),
            exe@ == ".exe"@,
            first_exe(assets@) == (match first_exe(assets@.skip(i as int)) {
                Some(k) => Some(k + i),
                None => None,
            }),
        decreases assets@.len() - i,
    {
        let name = lower_vec(chars_of(assets[i].0.as_str()).as_slice());
        assert(assets@.skip(i as int)[0] == assets@[i as int]);
        if ends_with(name.as_slice(), exe.as_slice()) {
            return assets[i].1.clone();
        }
        assert(assets@.skip(i as int).drop_first() =~= assets@.skip(i + 1));
        i = i + 1;
    }
    html_url.to_owned()
}

/// One downloadable file of a release.
pub struct GhAsset {
    pub name: String,
    pub browser_download_url: String,
}

/// The latest release as the releases API describes it.
pub struct GhRelease {
    pub tag_name: String,
    pub body: Option<String>,
    pub html_url: String,
    pub assets: Vec<GhAsset>,
}

/// What the UI is told about an available update.
pub struct UpdateInfo {
    pub version: String,
    pub tag: String,
    pub body: String,
    pub download_url: String,
    pub html_url: String,
    pub current_version: String,
}

pub open spec fn asset_pairs(assets: Seq<GhAsset>) -> Seq<(String, String)> {
    assets.map_values(|a: GhAsset| (a.name, a.browser_download_url))
}

/// The update the UI is offered for a release, when it is newer.
pub open spec fn release_update(release: GhRelease, current: Seq<char>) -> Option<
    (Seq<char>, Seq<char>, Seq<char>, Seq<char>, Seq<char>, Seq<char>),
> {
    if !newer(release.tag_name@, current) {
        None
    } else {
        Some(
            (
                strip_v(trimmed(release.tag_name@)),
                release.tag_name@,
                match release.body {
                    Some(b) => b@,
                    None => Seq::<char>::empty(),
                },
                download_url(asset_pairs(release.assets@), release.html_url@),
                release.html_url@,
                current,
            ),
        )
    }
}

impl UpdateInfo {
    pub open spec fn fields(self) -> (Seq<char>, Seq<char>, Seq<char>, Seq<char>, Seq<char>, Seq<char>) {
        (self.version@, self.tag@, self.body@, self.download_url@, self.html_url@, self.current_version@)
    }
}

/// `Some` exactly when the release tag is newer than `current`.
pub fn update_from_release(release: &GhRelease, current: &str) -> (r: Option<UpdateInfo>)
    ensures
        match r {
            Some(u) => release_update(*release, current@) == Some(u.fields()),
            None => release_update(*release, current@) is None,
        },
{
    if !is_newer(release.tag_name.as_str(), current) {
        return None;
    }
    let t = trim_ws(chars_of(release.tag_name.as_str()).as_slice());
    let version = string_of(strip_v_vec(t.as_slice()).as_slice());
    let mut assets: Vec<(String, String)> = Vec::new();
    let mut i: usize = 0;
    while i < release.assets.len()
        invariant
            0 <= i <= release.assets@.len(),
            assets@ == asset_pairs(release.assets@.take(i as int)),
        decreases release.assets@.len() - i,
    {
        let a = &release.assets[i];
        assets.push((a.name.clone(), a.browser_download_url.clone()));
        i = i + 1;
        assert(assets@ =~= asset_pairs(release.assets@.take(i as int)));
    }
    assert(release.assets@.take(release.assets@.len() as int) =~= release.assets@);
    let body = match &release.body {
        Some(b) => b.clone(),
        None => String::new(),
    };
    let download_url = pick_download_url(assets.as_slice(), release.html_url.as_str());
    Some(
        UpdateInfo {
            version,
            tag: release.tag_name.clone(),
            body,
            download_url,
            html_url: release.html_url.clone(),
            current_version: current.to_owned(),
        },
    )
}

/// Law: "newer" is a strict order on release tags — never newer than
/// itself, never both ways, and transitive.
pub proof fn law_newer_is_strict_order(a: Seq<char>, b: Seq<char>, c: Seq<char>)
    ensures
        !newer(a, a),
        newer(a, b) ==> !newer(b, a),
        newer(a, b) && newer(b, c) ==> newer(a, c),
{
}

/// Law: a release is newer exactly when both tags parse and its version is
/// greater, major first, then minor, then patch: in particular a release
/// with the same major and minor and a greater patch is newer.
pub proof fn law_newer_compares_major_minor_patch(remote: Seq<char>, local: Seq<char>)
    ensures
        newer(remote, local) == (semver(remote) matches Some(r) && semver(local) matches Some(l) && (r.0 > l.0
            || (r.0 == l.0 && r.1 > l.1) || (r.0 == l.0 && r.1 == l.1 && r.2 > l.2))),
        (semver(remote) matches Some(r) && semver(local) matches Some(l) && r.0 == l.0 && r.1 == l.1 && r.2 > l.2)
            ==> newer(remote, local),
{
}

/// Law: of two parseable tags naming different versions, exactly one is
/// newer than the other.
pub proof fn law_newer_is_total(a: Seq<char>, b: Seq<char>)
    requires
        semver(a) is Some,
        semver(b) is Some,
        semver(a) != semver(b),
    ensures
        newer(a, b) != newer(b, a),
{
    let x = semver(a).unwrap();
    let y = semver(b).unwrap();
    assert(x.0 != y.0 || x.1 != y.1 || x.2 != y.2);
}

/// The tag `major.minor.patch` written in decimal.
pub open spec fn version_text(v: (u64, u64, u64)) -> Seq<char> {
    crate::naming::decimal(v.0 as nat) + seq!['.'] + crate::naming::decimal(v.1 as nat) + seq!['.']
        + crate::naming::decimal(v.2 as nat)
}

proof fn lemma_decimal_digits(n: nat)
    ensures
        crate::naming::decimal(n).len() > 0,
        all_digits(crate::naming::decimal(n)),
    decreases n,
{
    let d = crate::naming::decimal(n);
    if n >= 10 {
        lemma_decimal_digits(n / 10);
        let p = crate::naming::decimal(n / 10);
        assert forall|i: int| 0 <= i < d.len() implies is_digit(#[trigger] d[i]) by {
            if i < p.len() {
                assert(d[i] == p[i]);
            }
        }
    }
}

proof fn lemma_split_join(x: Seq<char>, y: Seq<char>, sep: char)
    ensures
        split(x + seq![sep] + y, sep) == split(x, sep) + split(y, sep),
    decreases y.len(),
{
    let s = x + seq![sep] + y;
    if y.len() == 0 {
        assert(s.drop_last() =~= x);
        assert(split(y, sep) == seq![Seq::<char>::empty()]);
        assert(split(x, sep).push(Seq::<char>::empty()) =~= split(x, sep) + split(y, sep));
    } else {
        assert(s.drop_last() =~= x + seq![sep] + y.drop_last());
        lemma_split_join(x, y.drop_last(), sep);
        crate::text::lemma_split_nonempty(y.drop_last(), sep);
        let a = split(x, sep);
        let b = split(y.drop_last(), sep);
        assert(s.last() == y.last());
        if y.last() == sep {
            assert((a + b).push(Seq::<char>::empty()) =~= a + b.push(Seq::<char>::empty()));
        } else {
            let r = a + b;
            assert(r.last() == b.last());
            assert(r.update(r.len() - 1, r.last().push(y.last())) =~= a + b.update(
                b.len() - 1,
                b.last().push(y.last()),
            ));
        }
    }
}

proof fn lemma_no_first_sep(t: Seq<char>)
    requires
        forall|i: int| 0 <= i < t.len() ==> t[i] != '-' && t[i] != '+',
    ensures
        first_sep(t) is None,
    decreases t.len(),
{
    if t.len() > 0 {
        assert forall|i: int| 0 <= i < t.drop_first().len() implies t.drop_first()[i] != '-' && t.drop_first()[i]
            != '+' by {
            assert(t.drop_first()[i] == t[i + 1]);
        }
        lemma_no_first_sep(t.drop_first());
    }
}

proof fn lemma_parse_decimal(n: u64)
    ensures
        parse_u64(crate::naming::decimal(n as nat)) == Some(n),
{
    let d = crate::naming::decimal(n as nat);
    lemma_decimal_digits(n as nat);
    crate::naming::lemma_decimal_value(n as nat);
    assert(d[0] != '+');
    assert(without_plus(d) == d);
}

/// Law: a tag written as `major.minor.patch` in decimal reads back as
/// those three numbers.
pub proof fn law_semver_reads_its_text(v: (u64, u64, u64))
    ensures
        semver(version_text(v)) == Some(v),
{
    let da = crate::naming::decimal(v.0 as nat);
    let db = crate::naming::decimal(v.1 as nat);
    let dc = crate::naming::decimal(v.2 as nat);
    lemma_decimal_digits(v.0 as nat);
    lemma_decimal_digits(v.1 as nat);
    lemma_decimal_digits(v.2 as nat);
    let t = version_text(v);
    assert forall|i: int| 0 <= i < t.len() implies (is_digit(#[trigger] t[i]) || t[i] == '.') by {
        if i < da.len() {
            assert(t[i] == da[i]);
        } else if i == da.len() {
        } else if i < da.len() + 1 + db.len() {
            assert(t[i] == db[i - da.len() - 1]);
        } else if i == da.len() + 1 + db.len() {
        } else {
            assert(t[i] == dc[i - da.len() - 2 - db.len()]);
        }
    }
    assert(t[0] == da[0]);
    assert(t.last() == t[t.len() - 1]);
    assert(trim_start_ws(t) == t);
    assert(trim_end_ws(t) == t);
    assert(trimmed(t) == t);
    assert(strip_v(t) == t);
    lemma_no_first_sep(t);
    assert(before_sep(t) == t);
    crate::text::lemma_split_no_sep(da, '.');
    crate::text::lemma_split_no_sep(db, '.');
    crate::text::lemma_split_no_sep(dc, '.');
    lemma_split_join(da + seq!['.'] + db, dc, '.');
    lemma_split_join(da, db, '.');
    let parts = split(t, '.');
    assert(parts =~= seq![da, db, dc]);
    lemma_parse_decimal(v.0);
    lemma_parse_decimal(v.1);
    lemma_parse_decimal(v.2);
}

/// Law: between two tags written as `major.minor.patch`, the remote one is
/// newer exactly when its version is greater, major first, then minor, then
/// patch; so `0.1.1` is newer than `0.1.0`.
pub proof fn law_newer_on_written_versions(r: (u64, u64, u64), l: (u64, u64, u64))
    ensures
        newer(version_text(r), version_text(l)) == (r.0 > l.0 || (r.0 == l.0 && r.1 > l.1) || (r.0 == l.0 && r.1
            == l.1 && r.2 > l.2)),
{
    law_semver_reads_its_text(r);
    law_semver_reads_its_text(l);
}

/// What an answer of the releases API means before its body is read.
pub enum ReleaseStatus {
    /// No release is published (404).
    NoRelease,
    /// The API answered with an error status; the message says which.
    Failed(String),
    /// The body holds the latest release.
    Read,
}

/// The meaning of the status of an answer of the releases API.
pub fn release_status(status: u16) -> (r: ReleaseStatus)
    ensures
        status == 404 ==> r is NoRelease,
        status != 404 && status >= 400 ==> (r matches ReleaseStatus::Failed(m) && m@ == "GitHub API HTTP "@
            + crate::naming::decimal(status as nat)),
        status < 400 ==> r is Read,
{
    if status == 404 {
        ReleaseStatus::NoRelease
    } else if status >= 400 {
        let digits = crate::naming::decimal_exec(status as u64);
        let mut m = "GitHub API HTTP ".to_owned();
        let d = string_of(digits.as_slice());
        m.append(d.as_str());
        ReleaseStatus::Failed(m)
    } else {
        ReleaseStatus::Read
    }
}

/// Only web links are handed to the system to open.
pub fn is_web_url(url: &str) -> (r: bool)
    ensures
        r == (is_prefix("https://"@, url@) || is_prefix("http://"@, url@)),
{
    let u = chars_of(url);
    starts_with(u.as_slice(), chars_of("https://").as_slice()) || starts_with(u.as_slice(), chars_of("http://").as_slice())
}

} // verus!
