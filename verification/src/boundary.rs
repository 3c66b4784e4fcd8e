//! Facts about UTF-8 validity at ASCII bytes: an ASCII byte always stands
//! between two whole characters, so text may be cut or joined there.
use vstd::prelude::*;
use vstd::utf8::{
    is_continuation_byte, length_of_first_scalar, pop_first_scalar, valid_first_scalar, valid_utf8,
};

verus! {

/// How many bytes the character led by `b` takes (1 for a byte that leads
/// nothing).
pub open spec fn lead_width(b: u8) -> int {
    if b <= 0x7f {
        1
    } else if 0xc0 <= b <= 0xdf {
        2
    } else if 0xe0 <= b <= 0xef {
        3
    } else if 0xf0 <= b <= 0xf7 {
        4
    } else {
        1
    }
}

/// A well-formed first character spans `lead_width` bytes, all but the
/// first of them continuation bytes.
proof fn lemma_first_scalar_shape(x: Seq<u8>)
    requires
        valid_first_scalar(x),
    ensures
        lead_width(x[0]) <= x.len(),
        length_of_first_scalar(x) == lead_width(x[0]),
        forall|i: int| 1 <= i < lead_width(x[0]) ==> is_continuation_byte(#[trigger] x[i]),
{
}

/// Whether the first character is well formed depends only on its bytes.
proof fn lemma_first_scalar_local(x: Seq<u8>, y: Seq<u8>)
    requires
        x.len() >= 1,
        lead_width(x[0]) <= x.len(),
        lead_width(x[0]) <= y.len(),
        forall|i: int| 0 <= i < lead_width(x[0]) ==> x[i] == y[i],
    ensures
        valid_first_scalar(x) == valid_first_scalar(y),
        length_of_first_scalar(x) == length_of_first_scalar(y),
{
    let w = lead_width(x[0]);
    assert(x[0] == y[0]);
    if w >= 2 {
        assert(x[1] == y[1]);
    }
    if w >= 3 {
        assert(x[2] == y[2]);
    }
    if w >= 4 {
        assert(x[3] == y[3]);
    }
}

/// Valid text followed by anything: the whole is valid exactly when the
/// rest is.
pub(crate) proof fn lemma_valid_prefix_concat(a: Seq<u8>, b: Seq<u8>)
    requires
        valid_utf8(a),
    ensures
        valid_utf8(a + b) == valid_utf8(b),
    decreases a.len(),
{
    if a.len() == 0 {
        assert(a + b =~= b);
    } else {
        let ab = a + b;
        lemma_first_scalar_shape(a);
        let w = length_of_first_scalar(a);
        assert forall|i: int| 0 <= i < lead_width(a[0]) implies a[i] == ab[i] by {}
        lemma_first_scalar_local(a, ab);
        assert(pop_first_scalar(ab) =~= pop_first_scalar(a) + b);
        lemma_valid_prefix_concat(pop_first_scalar(a), b);
    }
}

/// Valid text cut just before an ASCII byte leaves two valid halves.
pub(crate) proof fn lemma_valid_split_at_ascii(s: Seq<u8>, k: int)
    requires
        valid_utf8(s),
        0 <= k < s.len(),
        s[k] < 0x80,
    ensures
        valid_utf8(s.take(k)),
        valid_utf8(s.skip(k)),
    decreases s.len(),
{
    if k == 0 {
        assert(s.take(0).len() == 0);
        assert(s.skip(0) =~= s);
    } else {
        lemma_first_scalar_shape(s);
        let w = length_of_first_scalar(s);
        if k < w {
            assert(is_continuation_byte(s[k]));
        }
        let t = s.take(k);
        assert forall|i: int| 0 <= i < lead_width(s[0]) implies s[i] == t[i] by {}
        lemma_first_scalar_local(s, t);
        let rest = pop_first_scalar(s);
        assert(rest[k - w] == s[k]);
        lemma_valid_split_at_ascii(rest, k - w);
        assert(pop_first_scalar(t) =~= rest.take(k - w));
        assert(s.skip(k) =~= rest.skip(k - w));
    }
}

/// Text that ends in an ASCII byte (or is empty), followed by anything: the
/// whole is valid exactly when both parts are.
pub(crate) proof fn lemma_valid_concat_after_ascii(a: Seq<u8>, c: Seq<u8>)
    requires
        a.len() == 0 || a.last() < 0x80,
    ensures
        valid_utf8(a + c) == (valid_utf8(a) && valid_utf8(c)),
    decreases a.len(),
{
    if valid_utf8(a) {
        lemma_valid_prefix_concat(a, c);
        return;
    }
    let ac = a + c;
    let w = lead_width(a[0]);
    if !valid_first_scalar(a) {
        if w <= a.len() {
            assert forall|i: int| 0 <= i < w implies a[i] == ac[i] by {}
            lemma_first_scalar_local(a, ac);
        } else {
            let j = a.len() - 1;
            assert(ac[j] == a.last());
            assert(ac[0] == a[0]);
            if valid_first_scalar(ac) {
                lemma_first_scalar_shape(ac);
                assert(is_continuation_byte(ac[j]));
            }
        }
    } else {
        lemma_first_scalar_shape(a);
        let rest = pop_first_scalar(a);
        assert(!valid_utf8(rest));
        assert(rest.len() > 0);
        assert(rest.last() == a.last());
        lemma_valid_concat_after_ascii(rest, c);
        assert forall|i: int| 0 <= i < w implies a[i] == ac[i] by {}
        lemma_first_scalar_local(a, ac);
        assert(pop_first_scalar(ac) =~= rest + c);
    }
}

/// A leading ASCII byte is a whole character of its own.
pub(crate) proof fn lemma_valid_drop_ascii(s: Seq<u8>)
    requires
        s.len() > 0,
        s[0] < 0x80,
    ensures
        valid_utf8(s) == valid_utf8(s.skip(1)),
{
    assert(valid_first_scalar(s));
    assert(pop_first_scalar(s) =~= s.skip(1));
}

} // verus!
