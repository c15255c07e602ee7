//! The names of layer files.
//!
//! A name is made of tokens joined by `_`: the tokens that name the
//! relish, the segment number, and the LSN of an image layer or the two
//! LSNs of a delta layer. Numbers are decimal, without leading zeros; an
//! LSN is sixteen hex digits, in capitals.

use crate::lsn::Lsn;
use crate::relish::{RelTag, RelishTag, SegmentTag, SlruKind};
use vstd::prelude::*;

verus! {

/// The character between the tokens of a name.
pub const SEP: u8 = 95;

/// The digit for `n`, which is below ten.
pub open spec fn dec_digit(n: int) -> u8 {
    (48 + n) as u8
}

/// The decimal digits of `n`, without leading zeros.
pub open spec fn dec(n: nat) -> Seq<u8>
    decreases n,
{
    if n < 10 {
        seq![dec_digit(n as int)]
    } else {
        dec(n / 10).push(dec_digit((n % 10) as int))
    }
}

/// Whether `c` is a decimal digit.
pub open spec fn is_dec(c: u8) -> bool {
    48 <= c <= 57
}

/// The number that a string of decimal digits stands for.
pub open spec fn dec_value(s: Seq<u8>) -> nat
    decreases s.len(),
{
    if s.len() == 0 {
        0
    } else {
        dec_value(s.drop_last()) * 10 + (s.last() - 48) as nat
    }
}

/// Whether `s` is a decimal number as `dec` writes it: digits only, at
/// least one, and no zero in front of others.
pub open spec fn canonical_dec(s: Seq<u8>) -> bool {
    s.len() >= 1 && (forall|i: int| 0 <= i < s.len() ==> is_dec(#[trigger] s[i])) && (s.len() == 1 || s[0] != 48)
}

pub proof fn lemma_dec_canonical(n: nat)
    ensures
        canonical_dec(dec(n)),
        dec_value(dec(n)) == n,
        n >= 10 ==> dec(n).len() >= 2,
        n > 0 ==> dec(n)[0] != 48,
    decreases n,
{
    if n < 10 {
        assert(dec(n).drop_last() =~= Seq::empty());
        assert(dec_value(dec(n).drop_last()) == 0);
    } else {
        lemma_dec_canonical(n / 10);
        let p = dec(n / 10);
        let s = dec(n);
        assert(s.drop_last() =~= p);
        assert(s[0] == p[0]);
        assert forall|i: int| 0 <= i < s.len() implies is_dec(#[trigger] s[i]) by {
            if i < p.len() {
                assert(s[i] == p[i]);
            }
        }
    }
}

pub proof fn lemma_dec_of_value(s: Seq<u8>)
    requires
        canonical_dec(s),
    ensures
        dec(dec_value(s)) == s,
        s.len() >= 2 ==> dec_value(s) >= 10,
        s[0] != 48 ==> dec_value(s) > 0,
    decreases s.len(),
{
    if s.len() == 1 {
        assert(s.drop_last() =~= Seq::empty());
        assert(dec_value(s.drop_last()) == 0);
        assert(is_dec(s[0]));
        assert(dec(dec_value(s)) =~= s);
    } else {
        let p = s.drop_last();
        assert(is_dec(s[s.len() - 1]));
        assert(p[0] == s[0]);
        assert forall|i: int| 0 <= i < p.len() implies is_dec(#[trigger] p[i]) by {
            assert(p[i] == s[i]);
        }
        lemma_dec_of_value(p);
        let v = dec_value(s);
        assert(dec_value(p) > 0);
        assert(v / 10 == dec_value(p) && v % 10 == s.last() - 48);
        assert(dec(v) =~= s);
    }
}

/// A number only grows as digits are added.
pub proof fn lemma_dec_value_grows(s: Seq<u8>, k: int)
    requires
        0 <= k <= s.len(),
        forall|i: int| 0 <= i < s.len() ==> is_dec(#[trigger] s[i]),
    ensures
        dec_value(s.take(k)) <= dec_value(s),
    decreases s.len() - k,
{
    if k < s.len() {
        assert(s.take(k + 1).drop_last() =~= s.take(k));
        assert(is_dec(s[k]));
        assert(s.take(k + 1).last() == s[k]);
        lemma_dec_value_grows(s, k + 1);
    } else {
        assert(s.take(k) =~= s);
    }
}

/// Adds the decimal digits of `n` to `v`.
pub fn push_dec(v: &mut Vec<u8>, n: u32)
    ensures
        final(v)@ == old(v)@ + dec(n as nat),
    decreases n,
{
    if n < 10 {
        v.push((48 + n) as u8);
        assert(v@ =~= old(v)@ + dec(n as nat));
    } else {
        push_dec(v, n / 10);
        v.push((48 + n % 10) as u8);
        assert(v@ =~= old(v)@ + dec(n as nat));
    }
}

/// Reads a decimal number as `dec` writes it, if it fits.
pub fn parse_dec(s: &Vec<u8>) -> (r: Option<u32>)
    ensures
        r == if canonical_dec(s@) && dec_value(s@) <= u32::MAX {
            Some(dec_value(s@) as u32)
        } else {
            None
        },
{
    let n: usize = s.len();
    if n == 0 {
        return None;
    }
    if n > 1 && s[0] == 48 {
        return None;
    }
    let mut v: u64 = 0;
    let mut i: usize = 0;
    assert(s@.take(0) =~= Seq::empty());
    while i < n
        invariant
            i <= n,
            n == s@.len(),
            v == dec_value(s@.take(i as int)),
            v <= u32::MAX,
            forall|j: int| 0 <= j < i ==> is_dec(#[trigger] s@[j]),
        decreases n - i,
    {
        let c = s[i];
        if c < 48 || c > 57 {
            assert(!is_dec(s@[i as int]));
            return None;
        }
        assert(s@.take(i + 1).drop_last() =~= s@.take(i as int));
        v = v * 10 + (c - 48) as u64;
        i = i + 1;
        if v > u32::MAX as u64 {
            proof {
                if forall|j: int| 0 <= j < s@.len() ==> is_dec(#[trigger] s@[j]) {
                    lemma_dec_value_grows(s@, i as int);
                }
            }
            return None;
        }
    }
    assert(s@.take(n as int) =~= s@);
    Some(v as u32)
}

/// The hex digit for `n`, which is below sixteen.
pub open spec fn hex_digit(n: u64) -> u8 {
    if n < 10 {
        (48 + n) as u8
    } else {
        (55 + n) as u8
    }
}

/// Whether `c` is a hex digit, in capitals.
pub open spec fn is_hex(c: u8) -> bool {
    (48 <= c <= 57) || (65 <= c <= 70)
}

/// The number that a hex digit stands for.
pub open spec fn hex_value(c: u8) -> u64 {
    if c <= 57 {
        (c - 48) as u64
    } else {
        (c - 55) as u64
    }
}

/// The nibble of `x` that starts at bit `at`.
pub open spec fn nibble(x: u64, at: u64) -> u64 {
    (x >> at) & 0xf
}

/// The sixteen hex digits of `x`, in capitals.
pub open spec fn hex16(x: u64) -> Seq<u8> {
    seq![
        hex_digit(nibble(x, 60)),
        hex_digit(nibble(x, 56)),
        hex_digit(nibble(x, 52)),
        hex_digit(nibble(x, 48)),
        hex_digit(nibble(x, 44)),
        hex_digit(nibble(x, 40)),
        hex_digit(nibble(x, 36)),
        hex_digit(nibble(x, 32)),
        hex_digit(nibble(x, 28)),
        hex_digit(nibble(x, 24)),
        hex_digit(nibble(x, 20)),
        hex_digit(nibble(x, 16)),
        hex_digit(nibble(x, 12)),
        hex_digit(nibble(x, 8)),
        hex_digit(nibble(x, 4)),
        hex_digit(nibble(x, 0)),
    ]
}

/// The number that sixteen nibbles make, the most significant first.
pub open spec fn compose(d: Seq<u64>) -> u64 {
    d[0] << 60 | d[1] << 56 | d[2] << 52 | d[3] << 48 | d[4] << 44 | d[5] << 40 | d[6] << 36 | d[7] << 32 | d[8]
        << 28 | d[9] << 24 | d[10] << 20 | d[11] << 16 | d[12] << 12 | d[13] << 8 | d[14] << 4 | d[15]
}

/// Whether `s` is sixteen hex digits, in capitals.
pub open spec fn is_hex16(s: Seq<u8>) -> bool {
    s.len() == 16 && forall|i: int| 0 <= i < 16 ==> is_hex(#[trigger] s[i])
}

/// The number that sixteen hex digits stand for.
pub open spec fn hex16_value(s: Seq<u8>) -> u64 {
    compose(Seq::new(16, |i: int| hex_value(s[i])))
}

proof fn lemma_nibbles_compose(x: u64)
    ensures
        ((x >> 60) & 0xf) << 60 | ((x >> 56) & 0xf) << 56 | ((x >> 52) & 0xf) << 52 | ((x >> 48) & 0xf) << 48 | ((x
            >> 44) & 0xf) << 44 | ((x >> 40) & 0xf) << 40 | ((x >> 36) & 0xf) << 36 | ((x >> 32) & 0xf) << 32 | ((x
            >> 28) & 0xf) << 28 | ((x >> 24) & 0xf) << 24 | ((x >> 20) & 0xf) << 20 | ((x >> 16) & 0xf) << 16 | ((x
            >> 12) & 0xf) << 12 | ((x >> 8) & 0xf) << 8 | ((x >> 4) & 0xf) << 4 | ((x >> 0) & 0xf) == x,
{
    assert(((x >> 60) & 0xf) << 60 | ((x >> 56) & 0xf) << 56 | ((x >> 52) & 0xf) << 52 | ((x >> 48) & 0xf) << 48 | ((
    x >> 44) & 0xf) << 44 | ((x >> 40) & 0xf) << 40 | ((x >> 36) & 0xf) << 36 | ((x >> 32) & 0xf) << 32 | ((x >> 28)
        & 0xf) << 28 | ((x >> 24) & 0xf) << 24 | ((x >> 20) & 0xf) << 20 | ((x >> 16) & 0xf) << 16 | ((x >> 12) & 0xf)
        << 12 | ((x >> 8) & 0xf) << 8 | ((x >> 4) & 0xf) << 4 | ((x >> 0) & 0xf) == x) by (bit_vector);
}

proof fn lemma_compose_nibbles(
    d0: u64,
    d1: u64,
    d2: u64,
    d3: u64,
    d4: u64,
    d5: u64,
    d6: u64,
    d7: u64,
    d8: u64,
    d9: u64,
    d10: u64,
    d11: u64,
    d12: u64,
    d13: u64,
    d14: u64,
    d15: u64,
)
    by (bit_vector)
    requires
        d0 < 16 && d1 < 16 && d2 < 16 && d3 < 16 && d4 < 16 && d5 < 16 && d6 < 16 && d7 < 16,
        d8 < 16 && d9 < 16 && d10 < 16 && d11 < 16 && d12 < 16 && d13 < 16 && d14 < 16 && d15 < 16,
    ensures
        ({
            let x = d0 << 60 | d1 << 56 | d2 << 52 | d3 << 48 | d4 << 44 | d5 << 40 | d6 << 36 | d7 << 32 | d8 << 28
                | d9 << 24 | d10 << 20 | d11 << 16 | d12 << 12 | d13 << 8 | d14 << 4 | d15;
            &&& (x >> 60) & 0xf == d0
            &&& (x >> 56) & 0xf == d1
            &&& (x >> 52) & 0xf == d2
            &&& (x >> 48) & 0xf == d3
            &&& (x >> 44) & 0xf == d4
            &&& (x >> 40) & 0xf == d5
            &&& (x >> 36) & 0xf == d6
            &&& (x >> 32) & 0xf == d7
            &&& (x >> 28) & 0xf == d8
            &&& (x >> 24) & 0xf == d9
            &&& (x >> 20) & 0xf == d10
            &&& (x >> 16) & 0xf == d11
            &&& (x >> 12) & 0xf == d12
            &&& (x >> 8) & 0xf == d13
            &&& (x >> 4) & 0xf == d14
            &&& (x >> 0) & 0xf == d15
        }),
{
}

proof fn lemma_nibble_small(x: u64, at: u64)
    by (bit_vector)
    ensures
        (x >> at) & 0xf < 16,
{
}

/// What `hex16` writes is sixteen hex digits that stand for the number.
pub proof fn lemma_hex16_value(x: u64)
    ensures
        is_hex16(hex16(x)),
        hex16_value(hex16(x)) == x,
{
    let s = hex16(x);
    lemma_nibble_small(x, 60);
    lemma_nibble_small(x, 56);
    lemma_nibble_small(x, 52);
    lemma_nibble_small(x, 48);
    lemma_nibble_small(x, 44);
    lemma_nibble_small(x, 40);
    lemma_nibble_small(x, 36);
    lemma_nibble_small(x, 32);
    lemma_nibble_small(x, 28);
    lemma_nibble_small(x, 24);
    lemma_nibble_small(x, 20);
    lemma_nibble_small(x, 16);
    lemma_nibble_small(x, 12);
    lemma_nibble_small(x, 8);
    lemma_nibble_small(x, 4);
    lemma_nibble_small(x, 0);
    lemma_nibbles_compose(x);
    let d = Seq::new(16, |i: int| hex_value(s[i]));
    assert(d[0] == nibble(x, 60) && d[1] == nibble(x, 56) && d[2] == nibble(x, 52) && d[3] == nibble(x, 48));
    assert(d[4] == nibble(x, 44) && d[5] == nibble(x, 40) && d[6] == nibble(x, 36) && d[7] == nibble(x, 32));
    assert(d[8] == nibble(x, 28) && d[9] == nibble(x, 24) && d[10] == nibble(x, 20) && d[11] == nibble(x, 16));
    assert(d[12] == nibble(x, 12) && d[13] == nibble(x, 8) && d[14] == nibble(x, 4) && d[15] == nibble(x, 0));
}

/// Sixteen hex digits are what `hex16` writes for the number they stand for.
pub proof fn lemma_hex16_of_value(s: Seq<u8>)
    requires
        is_hex16(s),
    ensures
        hex16(hex16_value(s)) == s,
{
    let d = Seq::new(16, |i: int| hex_value(s[i]));
    assert forall|i: int| 0 <= i < 16 implies (#[trigger] d[i]) < 16 && hex_digit(d[i]) == s[i] by {
        assert(is_hex(s[i]));
    }
    lemma_compose_nibbles(
        d[0],
        d[1],
        d[2],
        d[3],
        d[4],
        d[5],
        d[6],
        d[7],
        d[8],
        d[9],
        d[10],
        d[11],
        d[12],
        d[13],
        d[14],
        d[15],
    );
    let x = hex16_value(s);
    assert(hex16(x) =~= s);
}

fn hex_char(n: u64) -> (c: u8)
    requires
        n < 16,
    ensures
        c == hex_digit(n),
{
    if n < 10 {
        (48 + n) as u8
    } else {
        (55 + n) as u8
    }
}

/// Adds the sixteen hex digits of `x` to `v`.
pub fn push_hex16(v: &mut Vec<u8>, x: u64)
    ensures
        final(v)@ == old(v)@ + hex16(x),
{
    let mut at: u64 = 64;
    let ghost start = v@;
    while at > 0
        invariant
            at <= 64,
            at % 4 == 0,
            v@.len() == start.len() + (64 - at) / 4,
            forall|i: int| 0 <= i < start.len() ==> v@[i] == start[i],
            forall|i: int| 0 <= i < (64 - at) / 4 ==> v@[start.len() + i] == hex16(x)[i],
        decreases at,
    {
        at = at - 4;
        proof {
            lemma_nibble_small(x, at);
        }
        v.push(hex_char((x >> at) & 0xf));
    }
    assert(v@ =~= start + hex16(x));
}

/// Reads sixteen hex digits.
pub fn parse_hex16(s: &Vec<u8>) -> (r: Option<u64>)
    ensures
        r == if is_hex16(s@) {
            Some(hex16_value(s@))
        } else {
            None
        },
{
    if s.len() != 16 {
        return None;
    }
    let mut d: Vec<u64> = Vec::new();
    let mut i: usize = 0;
    while i < 16
        invariant
            i <= 16,
            s@.len() == 16,
            d@.len() == i,
            forall|j: int| 0 <= j < i ==> is_hex(#[trigger] s@[j]) && d@[j] == hex_value(s@[j]),
        decreases 16 - i,
    {
        let c = s[i];
        if c >= 48 && c <= 57 {
            d.push((c - 48) as u64);
        } else if c >= 65 && c <= 70 {
            d.push((c - 55) as u64);
        } else {
            assert(!is_hex(s@[i as int]));
            return None;
        }
        i = i + 1;
    }
    assert(d@ =~= Seq::new(16, |i: int| hex_value(s@[i])));
    Some(
        d[0] << 60 | d[1] << 56 | d[2] << 52 | d[3] << 48 | d[4] << 44 | d[5] << 40 | d[6] << 36 | d[7] << 32 | d[8]
            << 28 | d[9] << 24 | d[10] << 20 | d[11] << 16 | d[12] << 12 | d[13] << 8 | d[14] << 4 | d[15],
    )
}

/// The tokens of `ts`, joined by the separator.
pub open spec fn join(ts: Seq<Seq<u8>>) -> Seq<u8>
    decreases ts.len(),
{
    if ts.len() == 0 {
        Seq::empty()
    } else if ts.len() == 1 {
        ts[0]
    } else {
        join(ts.drop_last()) + seq![SEP] + ts.last()
    }
}

/// The tokens that `b` falls into at its separators; at least one.
pub open spec fn split(b: Seq<u8>) -> Seq<Seq<u8>>
    decreases b.len(),
{
    if b.len() == 0 {
        seq![Seq::empty()]
    } else {
        let p = split(b.drop_last());
        if b.last() == SEP {
            p.push(Seq::empty())
        } else {
            p.drop_last().push(p.last().push(b.last()))
        }
    }
}

/// Whether a token holds no separator.
pub open spec fn clean(t: Seq<u8>) -> bool {
    forall|i: int| 0 <= i < t.len() ==> #[trigger] t[i] != SEP
}

pub proof fn lemma_split_nonempty(b: Seq<u8>)
    ensures
        split(b).len() >= 1,
    decreases b.len(),
{
    if b.len() > 0 {
        lemma_split_nonempty(b.drop_last());
    }
}

proof fn lemma_split_append(x: Seq<u8>, t: Seq<u8>)
    requires
        clean(t),
    ensures
        split(x + t) == split(x).drop_last().push(split(x).last() + t),
    decreases t.len(),
{
    lemma_split_nonempty(x);
    if t.len() == 0 {
        assert(x + t =~= x);
        assert(split(x).last() + t =~= split(x).last());
        assert(split(x).drop_last().push(split(x).last()) =~= split(x));
    } else {
        let t0 = t.drop_last();
        assert forall|i: int| 0 <= i < t0.len() implies #[trigger] t0[i] != SEP by {
            assert(t0[i] == t[i]);
        }
        lemma_split_append(x, t0);
        assert((x + t).drop_last() =~= x + t0);
        assert(t[t.len() - 1] != SEP);
        assert((x + t).last() == t.last());
        let p = split(x + t0);
        assert(p.drop_last() =~= split(x).drop_last());
        assert(p.last().push(t.last()) =~= split(x).last() + t);
    }
}

/// Joining clean tokens and splitting again gives the tokens back.
pub proof fn lemma_split_join(ts: Seq<Seq<u8>>)
    requires
        ts.len() >= 1,
        forall|i: int| 0 <= i < ts.len() ==> clean(#[trigger] ts[i]),
    ensures
        split(join(ts)) == ts,
    decreases ts.len(),
{
    if ts.len() == 1 {
        let e = Seq::<u8>::empty();
        lemma_split_append(e, ts[0]);
        assert(e + ts[0] =~= ts[0]);
        assert(split(e) =~= seq![e]);
        assert(split(e).drop_last().push(split(e).last() + ts[0]) =~= ts);
    } else {
        let p = ts.drop_last();
        assert forall|i: int| 0 <= i < p.len() implies clean(#[trigger] p[i]) by {
            assert(p[i] == ts[i]);
        }
        lemma_split_join(p);
        let x = join(p) + seq![SEP];
        assert(x.drop_last() =~= join(p));
        assert(split(x) == p.push(Seq::empty()));
        assert(clean(ts[ts.len() - 1]));
        lemma_split_append(x, ts.last());
        assert(join(ts) =~= x + ts.last());
        assert(Seq::<u8>::empty() + ts.last() =~= ts.last());
        assert(p.push(Seq::empty()).drop_last().push(ts.last()) =~= ts);
    }
}

/// Splitting and joining again gives the bytes back.
pub proof fn lemma_join_split(b: Seq<u8>)
    ensures
        join(split(b)) == b,
    decreases b.len(),
{
    lemma_split_nonempty(b);
    if b.len() == 0 {
        assert(join(split(b)) =~= b);
    } else {
        let d = b.drop_last();
        lemma_join_split(d);
        lemma_split_nonempty(d);
        let p = split(d);
        if b.last() == SEP {
            let q = p.push(Seq::empty());
            assert(q.drop_last() =~= p);
            assert(join(q) =~= join(p) + seq![SEP] + Seq::<u8>::empty());
            assert(join(q) =~= b);
        } else {
            let q = p.drop_last().push(p.last().push(b.last()));
            if p.len() == 1 {
                assert(join(p) == p[0]);
                assert(join(q) =~= p[0].push(b.last()));
                assert(join(q) =~= b);
            } else {
                assert(q.drop_last() =~= p.drop_last());
                assert(join(p) == join(p.drop_last()) + seq![SEP] + p.last());
                assert(join(q) == join(p.drop_last()) + seq![SEP] + p.last().push(b.last()));
                assert(join(q) =~= join(p).push(b.last()));
                assert(join(q) =~= b);
            }
        }
    }
}

pub open spec fn toks(v: Seq<Vec<u8>>) -> Seq<Seq<u8>> {
    Seq::new(v.len(), |i: int| v[i]@)
}

/// Cuts `b` into its tokens.
pub fn split_tokens(b: &Vec<u8>) -> (v: Vec<Vec<u8>>)
    ensures
        toks(v@) == split(b@),
        v@.len() >= 1,
{
    let mut done: Vec<Vec<u8>> = Vec::new();
    let mut cur: Vec<u8> = Vec::new();
    let mut i: usize = 0;
    assert(b@.take(0) =~= Seq::empty());
    assert(toks(done@).push(cur@) =~= split(b@.take(0)));
    while i < b.len()
        invariant
            i <= b@.len(),
            toks(done@).push(cur@) == split(b@.take(i as int)),
        decreases b@.len() - i,
    {
        let ghost p = split(b@.take(i as int));
        assert(b@.take(i + 1).drop_last() =~= b@.take(i as int));
        assert(p.drop_last() =~= toks(done@));
        assert(p.last() == cur@);
        let c = b[i];
        if c == SEP {
            let ghost before = toks(done@);
            done.push(cur);
            cur = Vec::new();
            assert(toks(done@) =~= p);
            assert(toks(done@).push(cur@) =~= split(b@.take(i + 1)));
        } else {
            cur.push(c);
            assert(toks(done@).push(cur@) =~= split(b@.take(i + 1)));
        }
        i = i + 1;
    }
    assert(b@.take(i as int) =~= b@);
    let ghost before = toks(done@);
    let ghost last = cur@;
    done.push(cur);
    assert(toks(done@) =~= before.push(last));
    done
}

pub open spec fn t_rel() -> Seq<u8> {
    seq![114u8, 101u8, 108u8]
}

pub open spec fn t_pg() -> Seq<u8> {
    seq![112u8, 103u8]
}

pub open spec fn t_xact() -> Seq<u8> {
    seq![120u8, 97u8, 99u8, 116u8]
}

pub open spec fn t_multixact() -> Seq<u8> {
    seq![109u8, 117u8, 108u8, 116u8, 105u8, 120u8, 97u8, 99u8, 116u8]
}

pub open spec fn t_members() -> Seq<u8> {
    seq![109u8, 101u8, 109u8, 98u8, 101u8, 114u8, 115u8]
}

pub open spec fn t_offsets() -> Seq<u8> {
    seq![111u8, 102u8, 102u8, 115u8, 101u8, 116u8, 115u8]
}

pub open spec fn t_filenodemap() -> Seq<u8> {
    seq![102u8, 105u8, 108u8, 101u8, 110u8, 111u8, 100u8, 101u8, 109u8, 97u8, 112u8]
}

pub open spec fn t_twophase() -> Seq<u8> {
    seq![116u8, 119u8, 111u8, 112u8, 104u8, 97u8, 115u8, 101u8]
}

pub open spec fn t_control() -> Seq<u8> {
    seq![99u8, 111u8, 110u8, 116u8, 114u8, 111u8, 108u8]
}

pub open spec fn t_checkpoint() -> Seq<u8> {
    seq![99u8, 104u8, 101u8, 99u8, 107u8, 112u8, 111u8, 105u8, 110u8, 116u8]
}

/// The tokens that name a relish.
pub open spec fn rel_tokens(rel: RelishTag) -> Seq<Seq<u8>> {
    match rel {
        RelishTag::Relation(r) => seq![
            t_rel(),
            dec(r.spcnode as nat),
            dec(r.dbnode as nat),
            dec(r.relnode as nat),
            dec(r.forknum as nat),
        ],
        RelishTag::Slru { slru, segno } => match slru {
            SlruKind::Clog => seq![t_pg(), t_xact(), dec(segno as nat)],
            SlruKind::MultiXactMembers => seq![t_pg(), t_multixact(), t_members(), dec(segno as nat)],
            SlruKind::MultiXactOffsets => seq![t_pg(), t_multixact(), t_offsets(), dec(segno as nat)],
        },
        RelishTag::FileNodeMap { spcnode, dbnode } => seq![
            t_pg(),
            t_filenodemap(),
            dec(spcnode as nat),
            dec(dbnode as nat),
        ],
        RelishTag::TwoPhase { xid } => seq![t_pg(), t_twophase(), dec(xid as nat)],
        RelishTag::ControlFile => seq![t_pg(), t_control()],
        RelishTag::Checkpoint => seq![t_pg(), t_control(), t_checkpoint()],
    }
}

/// The tokens that name a segment: those of its relish, and its number.
pub open spec fn seg_tokens(seg: SegmentTag) -> Seq<Seq<u8>> {
    rel_tokens(seg.rel).push(dec(seg.segno as nat))
}

fn tok_eq(a: &Vec<u8>, b: &Vec<u8>) -> (r: bool)
    ensures
        r == (a@ == b@),
{
    if a.len() != b.len() {
        return false;
    }
    let mut i: usize = 0;
    while i < a.len()
        invariant
            i <= a@.len(),
            a@.len() == b@.len(),
            forall|j: int| 0 <= j < i ==> a@[j] == b@[j],
        decreases a@.len() - i,
    {
        if a[i] != b[i] {
            return false;
        }
        i = i + 1;
    }
    assert(a@ =~= b@);
    true
}

fn lit(a: u8, b: u8, c: u8, rest: &[u8]) -> (v: Vec<u8>)
    ensures
        v@ == seq![a, b, c] + rest@,
{
    let mut v: Vec<u8> = Vec::new();
    v.push(a);
    v.push(b);
    v.push(c);
    let mut i: usize = 0;
    while i < rest.len()
        invariant
            i <= rest@.len(),
            v@ == seq![a, b, c] + rest@.take(i as int),
        decreases rest@.len() - i,
    {
        v.push(rest[i]);
        i = i + 1;
        assert(v@ =~= seq![a, b, c] + rest@.take(i as int));
    }
    assert(rest@.take(i as int) =~= rest@);
    v
}

/// Which of the words of a relish's name a token is.
#[derive(Clone, Copy, PartialEq, Eq, Structural)]
pub enum Word {
    Rel,
    Pg,
    Xact,
    Multixact,
    Members,
    Offsets,
    Filenodemap,
    Twophase,
    Control,
    Checkpoint,
    Other,
}

pub open spec fn word_of(t: Seq<u8>) -> Word {
    if t == t_rel() {
        Word::Rel
    } else if t == t_pg() {
        Word::Pg
    } else if t == t_xact() {
        Word::Xact
    } else if t == t_multixact() {
        Word::Multixact
    } else if t == t_members() {
        Word::Members
    } else if t == t_offsets() {
        Word::Offsets
    } else if t == t_filenodemap() {
        Word::Filenodemap
    } else if t == t_twophase() {
        Word::Twophase
    } else if t == t_control() {
        Word::Control
    } else if t == t_checkpoint() {
        Word::Checkpoint
    } else {
        Word::Other
    }
}

fn word(t: &Vec<u8>) -> (w: Word)
    ensures
        w == word_of(t@),
{
    let n = t.len();
    if n < 2 || n > 11 {
        return Word::Other;
    }
    if n == 2 {
        if t[0] == 112 && t[1] == 103 {
            assert(t@ =~= t_pg());
            return Word::Pg;
        }
        return Word::Other;
    }
    let rest3: [u8; 0] = [];
    let rest_xact: [u8; 1] = [116];
    let rest_multixact: [u8; 6] = [116, 105, 120, 97, 99, 116];
    let rest_members: [u8; 4] = [98, 101, 114, 115];
    let rest_offsets: [u8; 4] = [115, 101, 116, 115];
    let rest_filenodemap: [u8; 8] = [101, 110, 111, 100, 101, 109, 97, 112];
    let rest_twophase: [u8; 5] = [112, 104, 97, 115, 101];
    let rest_control: [u8; 4] = [116, 114, 111, 108];
    let rest_checkpoint: [u8; 7] = [99, 107, 112, 111, 105, 110, 116];
    let w_rel = lit(114, 101, 108, rest3.as_slice());
    let w_xact = lit(120, 97, 99, rest_xact.as_slice());
    let w_multixact = lit(109, 117, 108, rest_multixact.as_slice());
    let w_members = lit(109, 101, 109, rest_members.as_slice());
    let w_offsets = lit(111, 102, 102, rest_offsets.as_slice());
    let w_filenodemap = lit(102, 105, 108, rest_filenodemap.as_slice());
    let w_twophase = lit(116, 119, 111, rest_twophase.as_slice());
    let w_control = lit(99, 111, 110, rest_control.as_slice());
    let w_checkpoint = lit(99, 104, 101, rest_checkpoint.as_slice());
    assert(w_rel@ =~= t_rel());
    assert(w_xact@ =~= t_xact());
    assert(w_multixact@ =~= t_multixact());
    assert(w_members@ =~= t_members());
    assert(w_offsets@ =~= t_offsets());
    assert(w_filenodemap@ =~= t_filenodemap());
    assert(w_twophase@ =~= t_twophase());
    assert(w_control@ =~= t_control());
    assert(w_checkpoint@ =~= t_checkpoint());
    assert(t@ != t_pg());
    if tok_eq(t, &w_rel) {
        Word::Rel
    } else if tok_eq(t, &w_xact) {
        Word::Xact
    } else if tok_eq(t, &w_multixact) {
        Word::Multixact
    } else if tok_eq(t, &w_members) {
        Word::Members
    } else if tok_eq(t, &w_offsets) {
        Word::Offsets
    } else if tok_eq(t, &w_filenodemap) {
        Word::Filenodemap
    } else if tok_eq(t, &w_twophase) {
        Word::Twophase
    } else if tok_eq(t, &w_control) {
        Word::Control
    } else if tok_eq(t, &w_checkpoint) {
        Word::Checkpoint
    } else {
        Word::Other
    }
}

proof fn lemma_dec_clean(n: nat)
    ensures
        clean(dec(n)),
{
    lemma_dec_canonical(n);
    assert forall|i: int| 0 <= i < dec(n).len() implies #[trigger] dec(n)[i] != SEP by {
        assert(is_dec(dec(n)[i]));
    }
}

proof fn lemma_hex16_clean(x: u64)
    ensures
        clean(hex16(x)),
{
    lemma_hex16_value(x);
    assert forall|i: int| 0 <= i < hex16(x).len() implies #[trigger] hex16(x)[i] != SEP by {
        assert(is_hex(hex16(x)[i]));
    }
}

proof fn lemma_seg_tokens_clean(seg: SegmentTag)
    ensures
        forall|i: int| 0 <= i < seg_tokens(seg).len() ==> clean(#[trigger] seg_tokens(seg)[i]),
        seg_tokens(seg).len() >= 3,
{
    lemma_dec_clean(seg.segno as nat);
    match seg.rel {
        RelishTag::Relation(r) => {
            lemma_dec_clean(r.spcnode as nat);
            lemma_dec_clean(r.dbnode as nat);
            lemma_dec_clean(r.relnode as nat);
            lemma_dec_clean(r.forknum as nat);
        },
        RelishTag::Slru { slru, segno } => {
            lemma_dec_clean(segno as nat);
        },
        RelishTag::FileNodeMap { spcnode, dbnode } => {
            lemma_dec_clean(spcnode as nat);
            lemma_dec_clean(dbnode as nat);
        },
        RelishTag::TwoPhase { xid } => {
            lemma_dec_clean(xid as nat);
        },
        _ => {},
    }
}

/// The number that a token stands for, where it is one that `dec` writes and fits.
pub open spec fn number(t: Seq<u8>) -> Option<u32> {
    if canonical_dec(t) && dec_value(t) <= u32::MAX {
        Some(dec_value(t) as u32)
    } else {
        None
    }
}

proof fn lemma_number(n: u32)
    ensures
        number(dec(n as nat)) == Some(n),
{
    lemma_dec_canonical(n as nat);
}

proof fn lemma_number_dec(t: Seq<u8>)
    requires
        number(t) is Some,
    ensures
        dec(number(t)->0 as nat) == t,
{
    lemma_dec_of_value(t);
}

/// The relish that tokens name, if they name one.
pub open spec fn rel_of(t: Seq<Seq<u8>>) -> Option<RelishTag> {
    if t.len() == 2 && word_of(t[0]) == Word::Pg && word_of(t[1]) == Word::Control {
        Some(RelishTag::ControlFile)
    } else if t.len() == 3 && word_of(t[0]) == Word::Pg && word_of(t[1]) == Word::Control && word_of(t[2])
        == Word::Checkpoint {
        Some(RelishTag::Checkpoint)
    } else if t.len() == 3 && word_of(t[0]) == Word::Pg && word_of(t[1]) == Word::Xact && number(t[2]) is Some {
        Some(RelishTag::Slru { slru: SlruKind::Clog, segno: number(t[2])->0 })
    } else if t.len() == 3 && word_of(t[0]) == Word::Pg && word_of(t[1]) == Word::Twophase && number(t[2]) is Some {
        Some(RelishTag::TwoPhase { xid: number(t[2])->0 })
    } else if t.len() == 4 && word_of(t[0]) == Word::Pg && word_of(t[1]) == Word::Multixact && word_of(t[2])
        == Word::Members && number(t[3]) is Some {
        Some(RelishTag::Slru { slru: SlruKind::MultiXactMembers, segno: number(t[3])->0 })
    } else if t.len() == 4 && word_of(t[0]) == Word::Pg && word_of(t[1]) == Word::Multixact && word_of(t[2])
        == Word::Offsets && number(t[3]) is Some {
        Some(RelishTag::Slru { slru: SlruKind::MultiXactOffsets, segno: number(t[3])->0 })
    } else if t.len() == 4 && word_of(t[0]) == Word::Pg && word_of(t[1]) == Word::Filenodemap && number(t[2]) is Some
        && number(t[3]) is Some {
        Some(RelishTag::FileNodeMap { spcnode: number(t[2])->0, dbnode: number(t[3])->0 })
    } else if t.len() == 5 && word_of(t[0]) == Word::Rel && number(t[1]) is Some && number(t[2]) is Some && number(
        t[3],
    ) is Some && number(t[4]) is Some && number(t[4])->0 <= 255 {
        Some(
            RelishTag::Relation(
                RelTag {
                    spcnode: number(t[1])->0,
                    dbnode: number(t[2])->0,
                    relnode: number(t[3])->0,
                    forknum: number(t[4])->0 as u8,
                },
            ),
        )
    } else {
        None
    }
}

/// The tokens of a relish name that relish.
pub proof fn lemma_rel_of_tokens(rel: RelishTag)
    ensures
        rel_of(rel_tokens(rel)) == Some(rel),
{
    match rel {
        RelishTag::Relation(r) => {
            lemma_number(r.spcnode);
            lemma_number(r.dbnode);
            lemma_number(r.relnode);
            lemma_number(r.forknum as u32);
        },
        RelishTag::Slru { slru, segno } => {
            lemma_number(segno);
        },
        RelishTag::FileNodeMap { spcnode, dbnode } => {
            lemma_number(spcnode);
            lemma_number(dbnode);
        },
        RelishTag::TwoPhase { xid } => {
            lemma_number(xid);
        },
        _ => {},
    }
}

/// Tokens that name a relish are the tokens of that relish.
pub proof fn lemma_tokens_of_rel(t: Seq<Seq<u8>>)
    requires
        rel_of(t) is Some,
    ensures
        rel_tokens(rel_of(t)->0) == t,
{
    match rel_of(t)->0 {
        RelishTag::Relation(r) => {
            lemma_number_dec(t[1]);
            lemma_number_dec(t[2]);
            lemma_number_dec(t[3]);
            lemma_number_dec(t[4]);
        },
        RelishTag::Slru { slru, segno } => {
            match slru {
                SlruKind::Clog => {
                    lemma_number_dec(t[2]);
                },
                _ => {
                    lemma_number_dec(t[3]);
                },
            }
        },
        RelishTag::FileNodeMap { spcnode, dbnode } => {
            lemma_number_dec(t[2]);
            lemma_number_dec(t[3]);
        },
        RelishTag::TwoPhase { xid } => {
            lemma_number_dec(t[2]);
        },
        _ => {},
    }
    assert(rel_tokens(rel_of(t)->0) =~= t);
}

/// The relish that the first `m` tokens name.
fn parse_rel(tokens: &Vec<Vec<u8>>, m: usize) -> (r: Option<RelishTag>)
    requires
        m <= tokens@.len(),
    ensures
        r == rel_of(toks(tokens@).take(m as int)),
{
    let ghost t = toks(tokens@).take(m as int);
    if m < 2 || m > 5 {
        return None;
    }
    let w0 = word(&tokens[0]);
    let w1 = word(&tokens[1]);
    assert(t[0] == tokens@[0]@ && t[1] == tokens@[1]@);
    if m == 2 {
        return if w0 == Word::Pg && w1 == Word::Control {
            Some(RelishTag::ControlFile)
        } else {
            None
        };
    }
    assert(t[2] == tokens@[2]@);
    if m == 3 {
        if w0 != Word::Pg {
            return None;
        }
        if w1 == Word::Control {
            return if word(&tokens[2]) == Word::Checkpoint {
                Some(RelishTag::Checkpoint)
            } else {
                None
            };
        }
        let n = parse_dec(&tokens[2]);
        return match n {
            Some(n) => if w1 == Word::Xact {
                Some(RelishTag::Slru { slru: SlruKind::Clog, segno: n })
            } else if w1 == Word::Twophase {
                Some(RelishTag::TwoPhase { xid: n })
            } else {
                None
            },
            None => None,
        };
    }
    assert(t[3] == tokens@[3]@);
    if m == 4 {
        if w0 != Word::Pg {
            return None;
        }
        let n3 = match parse_dec(&tokens[3]) {
            Some(n) => n,
            None => { return None; },
        };
        if w1 == Word::Multixact {
            let w2 = word(&tokens[2]);
            return if w2 == Word::Members {
                Some(RelishTag::Slru { slru: SlruKind::MultiXactMembers, segno: n3 })
            } else if w2 == Word::Offsets {
                Some(RelishTag::Slru { slru: SlruKind::MultiXactOffsets, segno: n3 })
            } else {
                None
            };
        }
        if w1 == Word::Filenodemap {
            return match parse_dec(&tokens[2]) {
                Some(n2) => Some(RelishTag::FileNodeMap { spcnode: n2, dbnode: n3 }),
                None => None,
            };
        }
        return None;
    }
    assert(t[4] == tokens@[4]@);
    if w0 != Word::Rel {
        return None;
    }
    let a = parse_dec(&tokens[1]);
    let b = parse_dec(&tokens[2]);
    let c = parse_dec(&tokens[3]);
    let d = parse_dec(&tokens[4]);
    match (a, b, c, d) {
        (Some(a), Some(b), Some(c), Some(d)) => if d <= 255 {
            Some(RelishTag::Relation(RelTag { spcnode: a, dbnode: b, relnode: c, forknum: d as u8 }))
        } else {
            None
        },
        _ => None,
    }
}

/// The name of an image layer file.
#[derive(Clone, Copy, Debug, PartialEq, Eq, Structural)]
pub struct ImageFileName {
    pub seg: SegmentTag,
    pub lsn: Lsn,
}

/// The name of a delta layer file.
#[derive(Clone, Copy, Debug, PartialEq, Eq, Structural)]
pub struct DeltaFileName {
    pub seg: SegmentTag,
    pub start_lsn: Lsn,
    pub end_lsn: Lsn,
}

/// The tokens of the name of an image layer file.
pub open spec fn image_tokens(n: ImageFileName) -> Seq<Seq<u8>> {
    seg_tokens(n.seg).push(hex16(n.lsn.0))
}

/// The tokens of the name of a delta layer file.
pub open spec fn delta_tokens(n: DeltaFileName) -> Seq<Seq<u8>> {
    seg_tokens(n.seg).push(hex16(n.start_lsn.0)).push(hex16(n.end_lsn.0))
}

/// The name of an image layer file, as bytes.
pub open spec fn image_name(n: ImageFileName) -> Seq<u8> {
    join(image_tokens(n))
}

/// The name of a delta layer file, as bytes.
pub open spec fn delta_name(n: DeltaFileName) -> Seq<u8> {
    join(delta_tokens(n))
}

/// The image layer file that tokens name, if they name one.
pub open spec fn image_of(t: Seq<Seq<u8>>) -> Option<ImageFileName> {
    if t.len() >= 4 && is_hex16(t[t.len() - 1]) && number(t[t.len() - 2]) is Some && rel_of(t.take(t.len() - 2))
        is Some {
        Some(
            ImageFileName {
                seg: SegmentTag { rel: rel_of(t.take(t.len() - 2))->0, segno: number(t[t.len() - 2])->0 },
                lsn: Lsn(hex16_value(t[t.len() - 1])),
            },
        )
    } else {
        None
    }
}

/// The delta layer file that tokens name, if they name one.
pub open spec fn delta_of(t: Seq<Seq<u8>>) -> Option<DeltaFileName> {
    if t.len() >= 5 && is_hex16(t[t.len() - 1]) && is_hex16(t[t.len() - 2]) && number(t[t.len() - 3]) is Some
        && rel_of(t.take(t.len() - 3)) is Some {
        Some(
            DeltaFileName {
                seg: SegmentTag { rel: rel_of(t.take(t.len() - 3))->0, segno: number(t[t.len() - 3])->0 },
                start_lsn: Lsn(hex16_value(t[t.len() - 2])),
                end_lsn: Lsn(hex16_value(t[t.len() - 1])),
            },
        )
    } else {
        None
    }
}

/// The name of an image layer file is read back as that file, and as no delta layer file.
pub proof fn lemma_image_name_parses(n: ImageFileName)
    ensures
        image_of(split(image_name(n))) == Some(n),
        delta_of(split(image_name(n))) is None,
{
    let t = image_tokens(n);
    lemma_seg_tokens_clean(n.seg);
    lemma_hex16_clean(n.lsn.0);
    assert forall|i: int| 0 <= i < t.len() implies clean(#[trigger] t[i]) by {
        if i < seg_tokens(n.seg).len() {
            assert(t[i] == seg_tokens(n.seg)[i]);
        }
    }
    lemma_split_join(t);
    lemma_hex16_value(n.lsn.0);
    lemma_number(n.seg.segno);
    assert(t.take(t.len() - 2) =~= rel_tokens(n.seg.rel));
    lemma_rel_of_tokens(n.seg.rel);
    lemma_dec_canonical(n.seg.segno as nat);
    assert(t[t.len() - 2] == dec(n.seg.segno as nat));
    assert(!is_hex16(t[t.len() - 2])) by {
        if is_hex16(dec(n.seg.segno as nat)) {
            lemma_dec_long(dec(n.seg.segno as nat));
        }
    }
}

/// A number of sixteen digits does not fit.
proof fn lemma_dec_long(s: Seq<u8>)
    requires
        canonical_dec(s),
        s.len() == 16,
    ensures
        dec_value(s) > u32::MAX,
{
    let p = s.take(11);
    assert(canonical_dec(p)) by {
        assert forall|i: int| 0 <= i < p.len() implies is_dec(#[trigger] p[i]) by {
            assert(p[i] == s[i]);
        }
        assert(p[0] == s[0]);
    }
    lemma_ten_digits(p);
    lemma_dec_value_grows(s, 11);
}

/// A number of eleven digits, the first of them no zero, does not fit.
proof fn lemma_ten_digits(p: Seq<u8>)
    requires
        canonical_dec(p),
        p.len() == 11,
    ensures
        dec_value(p) >= 10_000_000_000,
{
    reveal_with_fuel(dec_value, 12);
    let first_ten = p.drop_last();
    let first_nine = first_ten.drop_last();
    let first_eight = first_nine.drop_last();
    let first_seven = first_eight.drop_last();
    let first_six = first_seven.drop_last();
    let first_five = first_six.drop_last();
    let first_four = first_five.drop_last();
    let first_three = first_four.drop_last();
    let first_two = first_three.drop_last();
    let first_one = first_two.drop_last();
    assert(first_one.len() == 1 && first_one[0] == p[0]);
    assert(is_dec(p[0]));
    assert(first_one.drop_last().len() == 0);
    assert(dec_value(first_one) >= 1);
    assert(dec_value(first_two) >= 10);
    assert(dec_value(first_three) >= 100);
    assert(dec_value(first_four) >= 1000);
    assert(dec_value(first_five) >= 10000);
    assert(dec_value(first_six) >= 100000);
    assert(dec_value(first_seven) >= 1000000);
    assert(dec_value(first_eight) >= 10000000);
    assert(dec_value(first_nine) >= 100000000);
    assert(dec_value(first_ten) >= 1000000000);
}

/// The name of a delta layer file is read back as that file.
pub proof fn lemma_delta_name_parses(n: DeltaFileName)
    ensures
        delta_of(split(delta_name(n))) == Some(n),
{
    let t = delta_tokens(n);
    lemma_seg_tokens_clean(n.seg);
    lemma_hex16_clean(n.start_lsn.0);
    lemma_hex16_clean(n.end_lsn.0);
    assert forall|i: int| 0 <= i < t.len() implies clean(#[trigger] t[i]) by {
        if i < seg_tokens(n.seg).len() {
            assert(t[i] == seg_tokens(n.seg)[i]);
        }
    }
    lemma_split_join(t);
    lemma_hex16_value(n.start_lsn.0);
    lemma_hex16_value(n.end_lsn.0);
    lemma_number(n.seg.segno);
    assert(t.take(t.len() - 3) =~= rel_tokens(n.seg.rel));
    lemma_rel_of_tokens(n.seg.rel);
}

/// The name of a delta layer file is read as no image layer file: where an
/// image layer file has the number of its segment, it has an LSN.
pub proof fn lemma_delta_name_no_image(n: DeltaFileName)
    ensures
        image_of(split(delta_name(n))) is None,
{
    let t = delta_tokens(n);
    lemma_seg_tokens_clean(n.seg);
    lemma_hex16_clean(n.start_lsn.0);
    lemma_hex16_clean(n.end_lsn.0);
    assert forall|i: int| 0 <= i < t.len() implies clean(#[trigger] t[i]) by {
        if i < seg_tokens(n.seg).len() {
            assert(t[i] == seg_tokens(n.seg)[i]);
        }
    }
    lemma_split_join(t);
    assert(t[t.len() - 2] == hex16(n.start_lsn.0));
    if canonical_dec(hex16(n.start_lsn.0)) {
        lemma_dec_long(hex16(n.start_lsn.0));
    }
}

/// Bytes that are read as an image layer file are the name of that file.
pub proof fn lemma_image_of_name(b: Seq<u8>)
    requires
        image_of(split(b)) is Some,
    ensures
        image_name(image_of(split(b))->0) == b,
{
    let t = split(b);
    let n = image_of(t)->0;
    lemma_tokens_of_rel(t.take(t.len() - 2));
    lemma_number_dec(t[t.len() - 2]);
    lemma_hex16_of_value(t[t.len() - 1]);
    assert(image_tokens(n) =~= t);
    lemma_join_split(b);
}

/// Bytes that are read as a delta layer file are the name of that file.
pub proof fn lemma_delta_of_name(b: Seq<u8>)
    requires
        delta_of(split(b)) is Some,
    ensures
        delta_name(delta_of(split(b))->0) == b,
{
    let t = split(b);
    let n = delta_of(t)->0;
    lemma_tokens_of_rel(t.take(t.len() - 3));
    lemma_number_dec(t[t.len() - 3]);
    lemma_hex16_of_value(t[t.len() - 2]);
    lemma_hex16_of_value(t[t.len() - 1]);
    assert(delta_tokens(n) =~= t);
    lemma_join_split(b);
}

fn push_bytes(v: &mut Vec<u8>, w: &[u8])
    ensures
        final(v)@ == old(v)@ + w@,
{
    let mut i: usize = 0;
    assert(w@.take(0) =~= Seq::empty());
    assert(v@ =~= old(v)@ + w@.take(0));
    while i < w.len()
        invariant
            i <= w@.len(),
            v@ == old(v)@ + w@.take(i as int),
        decreases w@.len() - i,
    {
        v.push(w[i]);
        i = i + 1;
        assert(v@ =~= old(v)@ + w@.take(i as int));
    }
    assert(w@.take(i as int) =~= w@);
}

/// Adds a separator and the digits of `n`.
fn push_sep_dec(v: &mut Vec<u8>, n: u32)
    ensures
        final(v)@ == old(v)@ + seq![SEP] + dec(n as nat),
{
    v.push(SEP);
    push_dec(v, n);
    assert(v@ =~= old(v)@ + seq![SEP] + dec(n as nat));
}

fn push_rel(v: &mut Vec<u8>, rel: RelishTag)
    ensures
        final(v)@ == old(v)@ + join(rel_tokens(rel)),
{
    reveal_with_fuel(join, 6);
    let ghost start = v@;
    match rel {
        RelishTag::Relation(r) => {
            let w: [u8; 3] = [114, 101, 108];
            push_bytes(v, w.as_slice());
            assert(w@ =~= t_rel());
            push_sep_dec(v, r.spcnode);
            push_sep_dec(v, r.dbnode);
            push_sep_dec(v, r.relnode);
            push_sep_dec(v, r.forknum as u32);
            let ghost t = rel_tokens(rel);
            assert(t.drop_last().drop_last().drop_last().drop_last() =~= seq![t_rel()]);
            assert(v@ =~= start + join(t));
        },
        RelishTag::Slru { slru, segno } => {
            match slru {
                SlruKind::Clog => {
                    let w: [u8; 7] = [112, 103, 95, 120, 97, 99, 116];
                    push_bytes(v, w.as_slice());
                    assert(w@ =~= t_pg() + seq![SEP] + t_xact());
                    push_sep_dec(v, segno);
                    let ghost t = rel_tokens(rel);
                    assert(t.drop_last().drop_last() =~= seq![t_pg()]);
                    assert(v@ =~= start + join(t));
                },
                SlruKind::MultiXactMembers => {
                    let w: [u8; 20] = [
                        112,
                        103,
                        95,
                        109,
                        117,
                        108,
                        116,
                        105,
                        120,
                        97,
                        99,
                        116,
                        95,
                        109,
                        101,
                        109,
                        98,
                        101,
                        114,
                        115,
                    ];
                    push_bytes(v, w.as_slice());
                    assert(w@ =~= t_pg() + seq![SEP] + t_multixact() + seq![SEP] + t_members());
                    push_sep_dec(v, segno);
                    let ghost t = rel_tokens(rel);
                    assert(t.drop_last().drop_last().drop_last() =~= seq![t_pg()]);
                    assert(v@ =~= start + join(t));
                },
                SlruKind::MultiXactOffsets => {
                    let w: [u8; 20] = [
                        112,
                        103,
                        95,
                        109,
                        117,
                        108,
                        116,
                        105,
                        120,
                        97,
                        99,
                        116,
                        95,
                        111,
                        102,
                        102,
                        115,
                        101,
                        116,
                        115,
                    ];
                    push_bytes(v, w.as_slice());
                    assert(w@ =~= t_pg() + seq![SEP] + t_multixact() + seq![SEP] + t_offsets());
                    push_sep_dec(v, segno);
                    let ghost t = rel_tokens(rel);
                    assert(t.drop_last().drop_last().drop_last() =~= seq![t_pg()]);
                    assert(v@ =~= start + join(t));
                },
            }
        },
        RelishTag::FileNodeMap { spcnode, dbnode } => {
            let w: [u8; 14] = [112, 103, 95, 102, 105, 108, 101, 110, 111, 100, 101, 109, 97, 112];
            push_bytes(v, w.as_slice());
            assert(w@ =~= t_pg() + seq![SEP] + t_filenodemap());
            push_sep_dec(v, spcnode);
            push_sep_dec(v, dbnode);
            let ghost t = rel_tokens(rel);
            assert(t.drop_last().drop_last().drop_last() =~= seq![t_pg()]);
            assert(v@ =~= start + join(t));
        },
        RelishTag::TwoPhase { xid } => {
            let w: [u8; 11] = [112, 103, 95, 116, 119, 111, 112, 104, 97, 115, 101];
            push_bytes(v, w.as_slice());
            assert(w@ =~= t_pg() + seq![SEP] + t_twophase());
            push_sep_dec(v, xid);
            let ghost t = rel_tokens(rel);
            assert(t.drop_last().drop_last() =~= seq![t_pg()]);
            assert(v@ =~= start + join(t));
        },
        RelishTag::ControlFile => {
            let w: [u8; 10] = [112, 103, 95, 99, 111, 110, 116, 114, 111, 108];
            push_bytes(v, w.as_slice());
            assert(w@ =~= t_pg() + seq![SEP] + t_control());
            let ghost t = rel_tokens(rel);
            assert(t.drop_last() =~= seq![t_pg()]);
            assert(v@ =~= start + join(t));
        },
        RelishTag::Checkpoint => {
            let w: [u8; 21] = [
                112,
                103,
                95,
                99,
                111,
                110,
                116,
                114,
                111,
                108,
                95,
                99,
                104,
                101,
                99,
                107,
                112,
                111,
                105,
                110,
                116,
            ];
            push_bytes(v, w.as_slice());
            assert(w@ =~= t_pg() + seq![SEP] + t_control() + seq![SEP] + t_checkpoint());
            let ghost t = rel_tokens(rel);
            assert(t.drop_last().drop_last() =~= seq![t_pg()]);
            assert(v@ =~= start + join(t));
        },
    }
}

fn push_seg(v: &mut Vec<u8>, seg: SegmentTag)
    ensures
        final(v)@ == old(v)@ + join(seg_tokens(seg)),
{
    let ghost start = v@;
    push_rel(v, seg.rel);
    push_sep_dec(v, seg.segno);
    assert(seg_tokens(seg).drop_last() =~= rel_tokens(seg.rel));
    assert(v@ =~= start + join(seg_tokens(seg)));
}

impl ImageFileName {
    /// The name, as the bytes of the file's name.
    pub fn to_bytes(&self) -> (v: Vec<u8>)
        ensures
            v@ == image_name(*self),
    {
        let mut v: Vec<u8> = Vec::new();
        push_seg(&mut v, self.seg);
        v.push(SEP);
        push_hex16(&mut v, self.lsn.0);
        proof {
            lemma_seg_tokens_clean(self.seg);
            assert(image_tokens(*self).drop_last() =~= seg_tokens(self.seg));
            assert(v@ =~= image_name(*self));
        }
        v
    }

    /// Reads the name of an image layer file.
    pub fn parse_str(fname: &Vec<u8>) -> (r: Option<ImageFileName>)
        ensures
            r == image_of(split(fname@)),
    {
        let tokens = split_tokens(fname);
        let k = tokens.len();
        if k < 4 {
            return None;
        }
        let lsn = parse_hex16(&tokens[k - 1]);
        let segno = parse_dec(&tokens[k - 2]);
        let rel = parse_rel(&tokens, k - 2);
        match (lsn, segno, rel) {
            (Some(lsn), Some(segno), Some(rel)) => Some(
                ImageFileName { seg: SegmentTag { rel, segno }, lsn: Lsn(lsn) },
            ),
            _ => None,
        }
    }
}

impl DeltaFileName {
    /// The name, as the bytes of the file's name.
    pub fn to_bytes(&self) -> (v: Vec<u8>)
        ensures
            v@ == delta_name(*self),
    {
        let mut v: Vec<u8> = Vec::new();
        push_seg(&mut v, self.seg);
        v.push(SEP);
        push_hex16(&mut v, self.start_lsn.0);
        v.push(SEP);
        push_hex16(&mut v, self.end_lsn.0);
        proof {
            lemma_seg_tokens_clean(self.seg);
            let t = delta_tokens(*self);
            assert(t.drop_last().drop_last() =~= seg_tokens(self.seg));
            assert(t.drop_last().len() >= 2);
            assert(join(t.drop_last()) =~= join(seg_tokens(self.seg)) + seq![SEP] + hex16(self.start_lsn.0));
            assert(v@ =~= delta_name(*self));
        }
        v
    }

    /// Reads the name of a delta layer file.
    pub fn parse_str(fname: &Vec<u8>) -> (r: Option<DeltaFileName>)
        ensures
            r == delta_of(split(fname@)),
    {
        let tokens = split_tokens(fname);
        let k = tokens.len();
        if k < 5 {
            return None;
        }
        let end = parse_hex16(&tokens[k - 1]);
        let start = parse_hex16(&tokens[k - 2]);
        let segno = parse_dec(&tokens[k - 3]);
        let rel = parse_rel(&tokens, k - 3);
        match (start, end, segno, rel) {
            (Some(start), Some(end), Some(segno), Some(rel)) => Some(
                DeltaFileName { seg: SegmentTag { rel, segno }, start_lsn: Lsn(start), end_lsn: Lsn(end) },
            ),
            _ => None,
        }
    }
}

} // verus!
