//! Exact decimal numbers: reading a decimal lexeme into its canonical form.
use crate::ast::{Number, SpecNumber};
use vstd::prelude::*;

verus! {

/// The digits with their leading zeros removed.
pub open spec fn strip_leading(d: Seq<u8>) -> Seq<u8>
    decreases d.len(),
{
    if d.len() > 0 && d[0] == 0 {
        strip_leading(d.subrange(1, d.len() as int))
    } else {
        d
    }
}

/// How many zero digits end the sequence.
pub open spec fn trailing_zero_count(d: Seq<u8>) -> nat
    decreases d.len(),
{
    if d.len() > 0 && d.last() == 0 {
        1 + trailing_zero_count(d.drop_last())
    } else {
        0
    }
}

/// The canonical form of the number `d * 10^e` (digits most significant
/// first): leading zeros dropped, trailing zeros moved into the exponent.
pub open spec fn canonical(d: Seq<u8>, e: int) -> SpecNumber {
    let s = strip_leading(d);
    if s.len() == 0 {
        SpecNumber { digits: Seq::empty(), exponent: 0 }
    } else {
        let t = trailing_zero_count(s);
        SpecNumber { digits: s.subrange(0, s.len() - t), exponent: e + t }
    }
}

/// The bound on exponents handled exactly while reading a literal; beyond
/// it no canonical exponent can fit an `i64`.
pub const EXPONENT_CAP: i128 = 1329227995784915872903807060280344576i128;

/// Whether the canonical exponent of `d * 10^e` fits an `i64`.
pub open spec fn canonical_fits(d: Seq<u8>, e: int) -> bool {
    let c = canonical(d, e);
    i64::MIN <= c.exponent <= i64::MAX
}

proof fn lemma_strip_leading_suffix(d: Seq<u8>, i: int)
    requires
        0 <= i <= d.len(),
        forall|k: int| 0 <= k < i ==> d[k] == 0,
    ensures
        strip_leading(d) == strip_leading(d.subrange(i, d.len() as int)),
    decreases i,
{
    if i > 0 {
        let tail = d.subrange(1, d.len() as int);
        assert forall|k: int| 0 <= k < i - 1 implies tail[k] == 0 by {
            assert(tail[k] == d[k + 1]);
        }
        lemma_strip_leading_suffix(tail, i - 1);
        assert(tail.subrange(i - 1, tail.len() as int) =~= d.subrange(i, d.len() as int));
    } else {
        assert(d.subrange(0, d.len() as int) =~= d);
    }
}

proof fn lemma_trailing_prefix(s: Seq<u8>, j: int)
    requires
        0 <= j <= s.len(),
        forall|k: int| j <= k < s.len() ==> s[k] == 0,
    ensures
        trailing_zero_count(s) == (s.len() - j) + trailing_zero_count(s.subrange(0, j)),
    decreases s.len() - j,
{
    if j < s.len() {
        let p = s.drop_last();
        assert forall|k: int| j <= k < p.len() implies p[k] == 0 by {
            assert(p[k] == s[k]);
        }
        lemma_trailing_prefix(p, j);
        assert(p.subrange(0, j) =~= s.subrange(0, j));
    } else {
        assert(s.subrange(0, j) =~= s);
    }
}

proof fn lemma_strip_leading_len(d: Seq<u8>)
    ensures
        strip_leading(d).len() <= d.len(),
    decreases d.len(),
{
    if d.len() > 0 && d[0] == 0 {
        lemma_strip_leading_len(d.subrange(1, d.len() as int));
    }
}

proof fn lemma_trailing_len(d: Seq<u8>)
    ensures
        trailing_zero_count(d) <= d.len(),
    decreases d.len(),
{
    if d.len() > 0 && d.last() == 0 {
        lemma_trailing_len(d.drop_last());
    }
}

/// The number `d * 10^e` reads as: its canonical form; when the canonical
/// exponent is beyond what an `i64` holds, a value too large keeps its
/// digits at the largest exponent (infinite as a binary64) and a value too
/// small is zero (as it is as a binary64).
pub open spec fn reading(d: Seq<u8>, e: int) -> SpecNumber {
    let c = canonical(d, e);
    if c.exponent > i64::MAX {
        SpecNumber { digits: c.digits, exponent: i64::MAX as int }
    } else if c.exponent < i64::MIN {
        SpecNumber { digits: Seq::empty(), exponent: 0 }
    } else {
        c
    }
}

/// Far outside the `i64` range, two exponents give the same outcome.
pub proof fn lemma_canonical_exponent_shift(d: Seq<u8>, raw: int, exact: int)
    requires
        d.len() <= usize::MAX,
        raw == exact || (raw >= 0x8_0000_0000_0000_0000_0000_0000 && exact
            >= 0x8_0000_0000_0000_0000_0000_0000) || (raw <= -0x8_0000_0000_0000_0000_0000_0000
            && exact <= -0x8_0000_0000_0000_0000_0000_0000),
    ensures
        canonical_fits(d, raw) == canonical_fits(d, exact),
        canonical_fits(d, raw) ==> canonical(d, raw) == canonical(d, exact),
        reading(d, raw) == reading(d, exact),
{
    lemma_strip_leading_len(d);
    lemma_trailing_len(strip_leading(d));
}

/// The canonical form of digits in `0..10` is well-formed.
pub proof fn lemma_canonical_wf(d: Seq<u8>, e: int, a: int, b: int)
    requires
        forall|k: int| 0 <= k < d.len() ==> #[trigger] d[k] < 10,
        0 <= a < b <= d.len(),
        forall|k: int| 0 <= k < a ==> d[k] == 0,
        d[a] != 0,
        d[b - 1] != 0,
        forall|k: int| b <= k < d.len() ==> d[k] == 0,
    ensures
        strip_leading(d) == d.subrange(a, d.len() as int),
        canonical(d, e) == (SpecNumber { digits: d.subrange(a, b), exponent: e + (d.len() - b) }),
        canonical(d, e).wf(),
{
    lemma_strip_leading_suffix(d, a);
    let s = d.subrange(a, d.len() as int);
    assert(strip_leading(s) == s);
    assert forall|k: int| b - a <= k < s.len() implies s[k] == 0 by {
        assert(s[k] == d[k + a]);
    }
    lemma_trailing_prefix(s, b - a);
    let p = s.subrange(0, b - a);
    assert(p.last() == d[b - 1]);
    assert(trailing_zero_count(p) == 0);
    assert(s.subrange(0, s.len() - trailing_zero_count(s)) =~= d.subrange(a, b));
    let c = canonical(d, e);
    assert forall|i: int| 0 <= i < c.digits.len() implies #[trigger] c.digits[i] < 10 by {
        assert(c.digits[i] == d[a + i]);
    }
}

/// All-zero digits have the canonical form zero.
pub proof fn lemma_canonical_zero(d: Seq<u8>, e: int)
    requires
        forall|k: int| 0 <= k < d.len() ==> d[k] == 0,
    ensures
        canonical(d, e) == (SpecNumber { digits: Seq::empty(), exponent: 0 }),
{
    lemma_strip_leading_suffix(d, d.len() as int);
    assert(d.subrange(d.len() as int, d.len() as int) =~= Seq::<u8>::empty());
}

/// The number `digits * 10^exponent` reads as (see [`reading`]).
pub fn canonicalize(digits: &Vec<u8>, exponent: i128) -> (r: Number)
    requires
        forall|k: int| 0 <= k < digits@.len() ==> #[trigger] digits@[k] < 10,
        -EXPONENT_CAP <= exponent <= EXPONENT_CAP,
    ensures
        r@ == reading(digits@, exponent as int),
        r.wf(),
{
    let len = digits.len();
    let mut a: usize = 0;
    while a < len && digits[a] == 0
        invariant
            a <= len == digits@.len(),
            forall|k: int| 0 <= k < a ==> digits@[k] == 0,
        decreases len - a,
    {
        a = a + 1;
    }
    if a == len {
        proof {
            lemma_canonical_zero(digits@, exponent as int);
        }
        let zero = Number { digits: Vec::new(), exponent: 0 };
        assert(zero@ == canonical(digits@, exponent as int));
        return zero;
    }
    let mut b: usize = len;
    while b > a + 1 && digits[b - 1] == 0
        invariant
            a < len == digits@.len(),
            digits@[a as int] != 0,
            a + 1 <= b <= len,
            forall|k: int| b <= k < len ==> digits@[k] == 0,
        decreases b,
    {
        b = b - 1;
    }
    proof {
        lemma_canonical_wf(digits@, exponent as int, a as int, b as int);
    }
    let wide: i128 = exponent + (len - b) as i128;
    if wide < i64::MIN as i128 {
        let zero = Number { digits: Vec::new(), exponent: 0 };
        assert(zero@.digits =~= Seq::<u8>::empty());
        return zero;
    }
    let new_exponent: i64 = if wide > i64::MAX as i128 {
        i64::MAX
    } else {
        wide as i64
    };
    let mut out: Vec<u8> = Vec::new();
    let mut i = a;
    while i < b
        invariant
            a <= i <= b <= len == digits@.len(),
            out@ == digits@.subrange(a as int, i as int),
        decreases b - i,
    {
        out.push(digits[i]);
        i = i + 1;
        assert(out@ =~= digits@.subrange(a as int, i as int));
    }
    Number { digits: out, exponent: new_exponent }
}

} // verus!
