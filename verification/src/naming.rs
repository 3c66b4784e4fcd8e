//! Names for new files and folders that must not collide: the numbered
//! candidates tried in turn, and when a candidate is free to take.
use vstd::prelude::*;
use crate::names::{same_target, same_windows_target, stem_of, file_stem_of};
use crate::update::{digit_value, digits_value};
use crate::text::{chars_of, copy_chars};
use crate::layout::{join, texts};

verus! {

pub open spec fn digit_char(d: nat) -> char {
    (('0' as u32) + d) as char
}

/// The decimal digits of `n`, most significant first.
pub open spec fn decimal(n: nat) -> Seq<char>
    decreases n,
{
    if n < 10 {
        seq![digit_char(n)]
    } else {
        decimal(n / 10).push(digit_char(n % 10))
    }
}

/// Reading the digits back gives the number.
pub proof fn lemma_decimal_value(n: nat)
    ensures
        digits_value(decimal(n)) == n,
    decreases n,
{
    if n >= 10 {
        lemma_decimal_value(n / 10);
        vstd::arithmetic::div_mod::lemma_fundamental_div_mod(n as int, 10);
        let d = decimal(n);
        assert(d.drop_last() =~= decimal(n / 10));
        assert(d.last() == digit_char(n % 10));
        assert((digit_char(n % 10) as u32) == 48 + n % 10);
        assert(digit_value(d.last()) == n % 10);
        assert(d.len() > 0);
        assert(digits_value(d) == 10 * digits_value(d.drop_last()) + digit_value(d.last()));
        assert(10 * (n / 10) + n % 10 == n);
    } else {
        assert(decimal(n).drop_last() =~= Seq::<char>::empty());
        assert((digit_char(n) as u32) == 48 + n);
        assert(digit_value(decimal(n).last()) == n);
        assert(decimal(n).len() == 1);
        assert(digits_value(decimal(n)) == 10 * digits_value(decimal(n).drop_last()) + digit_value(decimal(n).last()));
        assert(digits_value(Seq::<char>::empty()) == 0);
    }
}

/// The extension a numbered name keeps: from the last dot on, unless that
/// dot leads the name.
pub open spec fn ext_of(name: Seq<char>) -> Seq<char> {
    name.skip(stem_of(name).len() as int)
}

/// `stem (n)ext`.
pub open spec fn numbered(name: Seq<char>, n: nat) -> Seq<char> {
    stem_of(name) + " ("@ + decimal(n) + ")"@ + ext_of(name)
}

/// The `k`-th name tried for `name` in a folder: the name itself, then
/// `stem (1)ext`, `stem (2)ext`, and so on.
pub open spec fn target_candidate_spec(name: Seq<char>, k: nat) -> Seq<char> {
    if k == 0 {
        name
    } else {
        numbered(name, k)
    }
}

/// The `k`-th name tried for a run folder: the base, then `base (1)`, ...
pub open spec fn run_root_candidate_spec(base: Seq<char>, k: nat) -> Seq<char> {
    if k == 0 {
        base
    } else {
        base + " ("@ + decimal(k) + ")"@
    }
}

proof fn lemma_stem_len(name: Seq<char>)
    ensures
        stem_of(name).len() <= name.len(),
        stem_of(name) == name.take(stem_of(name).len() as int),
{
    crate::text::lemma_last_index(name, '.');
    if stem_of(name) == name {
        assert(name.take(name.len() as int) =~= name);
    }
}

proof fn lemma_numbered_len(name: Seq<char>, n: nat)
    ensures
        numbered(name, n).len() == name.len() + 3 + decimal(n).len(),
{
    reveal_strlit(" (");
    reveal_strlit(")");
    lemma_stem_len(name);
}

/// Different turns give different names, so trying them in turn always
/// reaches a free one.
pub proof fn law_target_candidates_distinct(name: Seq<char>, a: nat, b: nat)
    requires
        a != b,
    ensures
        target_candidate_spec(name, a) != target_candidate_spec(name, b),
{
    reveal_strlit(" (");
    reveal_strlit(")");
    lemma_stem_len(name);
    if a == 0 {
        lemma_numbered_len(name, b);
    } else if b == 0 {
        lemma_numbered_len(name, a);
    } else {
        lemma_numbered_len(name, a);
        lemma_numbered_len(name, b);
        if numbered(name, a) == numbered(name, b) {
            let s: int = stem_of(name).len() + 2int;
            let da = decimal(a);
            let db = decimal(b);
            assert(da.len() == db.len());
            assert(numbered(name, a).subrange(s, s + da.len() as int) =~= da);
            assert(numbered(name, b).subrange(s, s + db.len() as int) =~= db);
            lemma_decimal_value(a);
            lemma_decimal_value(b);
        }
    }
}

/// Different turns give different run folder names.
pub proof fn law_run_root_candidates_distinct(base: Seq<char>, a: nat, b: nat)
    requires
        a != b,
    ensures
        run_root_candidate_spec(base, a) != run_root_candidate_spec(base, b),
{
    reveal_strlit(" (");
    reveal_strlit(")");
    if a != 0 && b != 0 && run_root_candidate_spec(base, a) == run_root_candidate_spec(base, b) {
        let s: int = base.len() + 2int;
        let da = decimal(a);
        let db = decimal(b);
        assert(run_root_candidate_spec(base, a).len() == base.len() + 3 + da.len());
        assert(da.len() == db.len());
        assert(run_root_candidate_spec(base, a).subrange(s, s + da.len() as int) =~= da);
        assert(run_root_candidate_spec(base, b).subrange(s, s + db.len() as int) =~= db);
        lemma_decimal_value(a);
        lemma_decimal_value(b);
    }
}

fn digit_of(d: u64) -> (c: char)
    requires
        d < 10,
    ensures
        c == digit_char(d as nat),
{
    if d == 0 {
        '0'
    } else if d == 1 {
        '1'
    } else if d == 2 {
        '2'
    } else if d == 3 {
        '3'
    } else if d == 4 {
        '4'
    } else if d == 5 {
        '5'
    } else if d == 6 {
        '6'
    } else if d == 7 {
        '7'
    } else if d == 8 {
        '8'
    } else {
        '9'
    }
}

/// The decimal digits of `n`.
pub fn decimal_exec(n: u64) -> (r: Vec<char>)
    ensures
        r@ == decimal(n as nat),
{
    let mut rev: Vec<char> = Vec::new();
    let mut m: u64 = n;
    let ghost mut parts: Seq<nat> = Seq::empty();
    loop
        invariant_except_break
            decimal(n as nat) == decimal(m as nat) + rev@.reverse(),
        ensures
            decimal(n as nat) == rev@.reverse(),
        decreases m,
    {
        let d = m % 10;
        let c = digit_of(d);
        let ghost old_rev = rev@;
        if m < 10 {
            assert(decimal(m as nat) == seq![digit_char(m as nat)]);
            rev.push(c);
            assert(rev@.reverse() =~= seq![c] + rev@.drop_last().reverse());
            assert(rev@.drop_last() =~= old_rev);
            break;
        }
        assert(decimal(m as nat) == decimal((m / 10) as nat).push(digit_char((m % 10) as nat)));
        let ghost before = rev@.reverse();
        rev.push(c);
        assert(rev@.reverse() =~= seq![c] + before);
        m = m / 10;
    }
    assert(decimal(n as nat) =~= rev@.reverse());
    let mut out: Vec<char> = Vec::new();
    let mut k: usize = rev.len();
    while k > 0
        invariant
            0 <= k <= rev@.len(),
            out@ == rev@.reverse().take(rev@.len() - k),
        decreases k,
    {
        out.push(rev[k - 1]);
        assert(rev@.reverse()[rev@.len() - k] == rev@[k - 1]);
        k = k - 1;
        assert(out@ =~= rev@.reverse().take(rev@.len() - k));
    }
    assert(rev@.reverse().take(rev@.len() as int) =~= rev@.reverse());
    out
}

fn ext_exec(name: &[char], stem_len: usize) -> (r: Vec<char>)
    requires
        stem_len <= name@.len(),
    ensures
        r@ == name@.skip(stem_len as int),
{
    let mut out: Vec<char> = Vec::new();
    let mut i: usize = stem_len;
    while i < name.len()
        invariant
            stem_len <= i <= name@.len(),
            out@ == name@.subrange(stem_len as int, i as int),
        decreases name@.len() - i,
    {
        out.push(name[i]);
        i = i + 1;
        assert(out@ =~= name@.subrange(stem_len as int, i as int));
    }
    assert(name@.subrange(stem_len as int, name@.len() as int) =~= name@.skip(stem_len as int));
    out
}

/// The `k`-th name tried for `name` in a folder.
pub fn target_candidate(name: &[char], k: u64) -> (r: Vec<char>)
    ensures
        r@ == target_candidate_spec(name@, k as nat),
{
    if k == 0 {
        return copy_chars(name);
    }
    let stem = file_stem_of(name);
    proof {
        lemma_stem_len(name@);
    }
    let ext = ext_exec(name, stem.len());
    let a = join(stem.as_slice(), chars_of(" (").as_slice());
    let b = join(a.as_slice(), decimal_exec(k).as_slice());
    let c = join(b.as_slice(), chars_of(")").as_slice());
    join(c.as_slice(), ext.as_slice())
}

/// The `k`-th name tried for a run folder.
pub fn run_root_candidate(base: &[char], k: u64) -> (r: Vec<char>)
    ensures
        r@ == run_root_candidate_spec(base@, k as nat),
{
    if k == 0 {
        return copy_chars(base);
    }
    let a = join(base, chars_of(" (").as_slice());
    let b = join(a.as_slice(), decimal_exec(k).as_slice());
    join(b.as_slice(), chars_of(")").as_slice())
}

/// The decimal digits of `n`, with zeros in front up to `width` digits.
pub open spec fn padded(n: nat, width: nat) -> Seq<char> {
    let d = decimal(n);
    if d.len() >= width {
        d
    } else {
        Seq::new((width - d.len()) as nat, |i: int| '0') + d
    }
}

fn padded_exec(n: u64, width: usize) -> (r: Vec<char>)
    ensures
        r@ == padded(n as nat, width as nat),
{
    let d = decimal_exec(n);
    if d.len() >= width {
        return d;
    }
    let mut out: Vec<char> = Vec::new();
    let fill = width - d.len();
    let mut i: usize = 0;
    while i < fill
        invariant
            0 <= i <= fill,
            fill == width - d@.len(),
            out@ == Seq::new(i as nat, |j: int| '0'),
        decreases fill - i,
    {
        out.push('0');
        i = i + 1;
        assert(out@ =~= Seq::new(i as nat, |j: int| '0'));
    }
    join(out.as_slice(), d.as_slice())
}

/// The name of a batch's run folder for a local date and time:
/// `Plot_YYYY-MM-DD_HH.mm.ss` (dots, since Windows refuses colons in names).
pub open spec fn run_dir_name_spec(year: u16, month: u8, day: u8, hour: u8, minute: u8, second: u8) -> Seq<char> {
    "Plot_"@ + padded(year as nat, 4) + "-"@ + padded(month as nat, 2) + "-"@ + padded(day as nat, 2) + "_"@
        + padded(hour as nat, 2) + "."@ + padded(minute as nat, 2) + "."@ + padded(second as nat, 2)
}

/// The run folder's name for a date and time read from the clock.
pub fn run_dir_name(year: u16, month: u8, day: u8, hour: u8, minute: u8, second: u8) -> (r: String)
    ensures
        r@ == run_dir_name_spec(year, month, day, hour, minute, second),
{
    let mut v = chars_of("Plot_");
    v = join(v.as_slice(), padded_exec(year as u64, 4).as_slice());
    v = join(v.as_slice(), chars_of("-").as_slice());
    v = join(v.as_slice(), padded_exec(month as u64, 2).as_slice());
    v = join(v.as_slice(), chars_of("-").as_slice());
    v = join(v.as_slice(), padded_exec(day as u64, 2).as_slice());
    v = join(v.as_slice(), chars_of("_").as_slice());
    v = join(v.as_slice(), padded_exec(hour as u64, 2).as_slice());
    v = join(v.as_slice(), chars_of(".").as_slice());
    v = join(v.as_slice(), padded_exec(minute as u64, 2).as_slice());
    v = join(v.as_slice(), chars_of(".").as_slice());
    v = join(v.as_slice(), padded_exec(second as u64, 2).as_slice());
    crate::text::string_of(v.as_slice())
}

/// A candidate path is free: nothing exists there and no target already
/// reserved in this batch is the same path to Windows.
pub open spec fn free_reserved(candidate: Seq<char>, occupied: bool, reserved: Seq<Seq<char>>) -> bool {
    !occupied && !(exists|i: int| 0 <= i < reserved.len() && same_target(#[trigger] reserved[i], candidate))
}

/// As `free_reserved`, except that an existing file that is the same path
/// as `ignored` (the archive being unpacked, which leaves) does not count.
pub open spec fn free_ignoring(candidate: Seq<char>, occupied: bool, reserved: Seq<Seq<char>>, ignored: Seq<char>) -> bool {
    (!occupied || same_target(candidate, ignored)) && !(exists|i: int|
        0 <= i < reserved.len() && same_target(#[trigger] reserved[i], candidate))
}

fn any_reserved(candidate: &[char], reserved: &Vec<Vec<char>>) -> (r: bool)
    ensures
        r == exists|i: int| 0 <= i < reserved@.len() && same_target(#[trigger] texts(reserved@)[i], candidate@),
{
    let mut i: usize = 0;
    while i < reserved.len()
        invariant
            0 <= i <= reserved@.len(),
            forall|k: int| 0 <= k < i ==> !same_target(#[trigger] texts(reserved@)[k], candidate@),
        decreases reserved@.len() - i,
    {
        assert(texts(reserved@)[i as int] == reserved@[i as int]@);
        if same_windows_target(reserved[i].as_slice(), candidate) {
            return true;
        }
        i = i + 1;
    }
    false
}

/// Whether a candidate path can be taken (`occupied`: something is there).
pub fn is_free_reserved(candidate: &[char], occupied: bool, reserved: &Vec<Vec<char>>) -> (r: bool)
    ensures
        r == free_reserved(candidate@, occupied, texts(reserved@)),
{
    !occupied && !any_reserved(candidate, reserved)
}

/// Whether a candidate path can be taken when the file at `ignored` is
/// about to leave.
pub fn is_free_ignoring(candidate: &[char], occupied: bool, reserved: &Vec<Vec<char>>, ignored: &[char]) -> (r: bool)
    ensures
        r == free_ignoring(candidate@, occupied, texts(reserved@), ignored@),
{
    (!occupied || same_windows_target(candidate, ignored)) && !any_reserved(candidate, reserved)
}

} // verus!
