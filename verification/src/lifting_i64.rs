use vstd::prelude::*;
use vstd::wrapping::i16_specs;

use crate::lifting::{LiftingFilter, MAX_LIFTING_LEN, predict, spec_predict};

verus! {

/// The samples at even positions, truncated to 16 bits.
pub open spec fn even_samples(x: Seq<i64>) -> Seq<i16> {
    Seq::new(((x.len() + 1) / 2) as nat, |n: int| x[2 * n] as i16)
}

/// The samples at odd positions, truncated to 16 bits.
pub open spec fn odd_samples(x: Seq<i64>) -> Seq<i16> {
    Seq::new(x.len() / 2, |n: int| x[2 * n + 1] as i16)
}

/// The CDF 5/3 update of approximation `n` from the details `d`; past the
/// last detail the last one stands for the missing neighbour.
pub open spec fn edge_update(d: Seq<i16>, n: int) -> int {
    let left = if n > 0 { d[n - 1] as i32 } else { d[n] as i32 };
    let right = if n < d.len() { d[n] as i32 } else { d[n - 1] as i32 };
    ((left + right + 2) as i32 >> 2u32) as int
}

/// Details: odd samples minus the CDF 5/3 prediction from the even ones.
pub open spec fn lifting_details(e: Seq<i16>, o: Seq<i16>) -> Seq<i16> {
    Seq::new(o.len(), |n: int| i16_specs::wrapping_sub(o[n], spec_predict(LiftingFilter::Cdf53, e, n) as i16))
}

/// Approximations: even samples plus their update from the details.
pub open spec fn lifting_approx(e: Seq<i16>, d: Seq<i16>) -> Seq<i16> {
    Seq::new(e.len(), |n: int| i16_specs::wrapping_add(e[n], edge_update(d, n) as i16))
}

/// Even samples recovered from approximations and details.
pub open spec fn restored_even_samples(s: Seq<i16>, d: Seq<i16>) -> Seq<i16> {
    Seq::new(s.len(), |n: int| i16_specs::wrapping_sub(s[n], edge_update(d, n) as i16))
}

/// Odd samples recovered from even samples and details.
pub open spec fn restored_odd_samples(e: Seq<i16>, d: Seq<i16>) -> Seq<i16> {
    Seq::new(d.len(), |n: int| i16_specs::wrapping_add(d[n], spec_predict(LiftingFilter::Cdf53, e, n) as i16))
}

/// 16-bit values widened to 64 bits.
pub open spec fn widen(s: Seq<i16>) -> Seq<i64> {
    Seq::new(s.len(), |n: int| s[n] as i64)
}

/// 64-bit values truncated to 16 bits.
pub open spec fn narrow(s: Seq<i64>) -> Seq<i16> {
    Seq::new(s.len(), |n: int| s[n] as i16)
}

/// `len` samples taken alternately from `e` and `o`, widened to 64 bits.
pub open spec fn interleave(e: Seq<i16>, o: Seq<i16>, len: nat) -> Seq<i64> {
    Seq::new(len, |i: int| if i % 2 == 0 { e[i / 2] as i64 } else { o[i / 2] as i64 })
}

/// One CDF 5/3 lifting level on 64-bit samples computed in wrapping 16-bit
/// arithmetic: the approximations and the details.
pub open spec fn spec_forward_lifting_53_i64(x: Seq<i64>) -> (Seq<i64>, Seq<i64>) {
    let e = even_samples(x);
    let d = lifting_details(e, odd_samples(x));
    (widen(lifting_approx(e, d)), widen(d))
}

/// The `len` samples that approximations `s` and details `d` stand for.
pub open spec fn spec_inverse_lifting_53_i64(s: Seq<i64>, d: Seq<i64>, len: nat) -> Seq<i64> {
    let dn = narrow(d);
    let e = restored_even_samples(narrow(s), dn);
    interleave(e, restored_odd_samples(e, dn), len)
}

/// Whether `half_e` approximations and `half_o` details can be inverted into
/// `len` samples without reading past either.
pub open spec fn inverse_fits(half_e: nat, half_o: nat, len: nat) -> bool {
    &&& half_e > 0 ==> half_o > 0
    &&& half_o <= half_e <= half_o + 1
    &&& (len + 1) / 2 <= half_e
    &&& len / 2 <= half_o
}

/// The CDF 5/3 update of approximation `n`.
fn edge_update_of(d: &Vec<i16>, n: usize) -> (res: i32)
    requires
        d@.len() > 0,
        n <= d@.len(),
    ensures
        res == edge_update(d@, n as int),
{
    let left = if n > 0 { d[n - 1] as i32 } else { d[n] as i32 };
    let right = if n < d.len() { d[n] as i32 } else { d[n - 1] as i32 };
    (left + right + 2) >> 2u32
}

/// One CDF 5/3 lifting level of `x` in wrapping 16-bit arithmetic: the
/// approximations (one per even position) and details (one per odd position).
pub fn forward_lifting_53_i64(x: &[i64]) -> (res: (Vec<i64>, Vec<i64>))
    requires
        x@.len() != 1,
        x@.len() <= MAX_LIFTING_LEN,
    ensures
        res.0@ == spec_forward_lifting_53_i64(x@).0,
        res.1@ == spec_forward_lifting_53_i64(x@).1,
{
    let len = x.len();
    let half_e = (len + 1) / 2;
    let half_o = len / 2;
    let mut e: Vec<i16> = Vec::new();
    let mut n: usize = 0;
    while n < half_e
        invariant
            n <= half_e,
            half_e == (len + 1) / 2,
            len == x@.len(),
            e@ =~= even_samples(x@).subrange(0, n as int),
        decreases half_e - n,
    {
        e.push(x[2 * n] as i16);
        n += 1;
    }
    let mut o: Vec<i16> = Vec::new();
    let mut n: usize = 0;
    while n < half_o
        invariant
            n <= half_o,
            half_o == len / 2,
            len == x@.len(),
            o@ =~= odd_samples(x@).subrange(0, n as int),
        decreases half_o - n,
    {
        o.push(x[2 * n + 1] as i16);
        n += 1;
    }
    assert(e@ =~= even_samples(x@));
    assert(o@ =~= odd_samples(x@));
    let ghost det = lifting_details(e@, o@);
    let mut d: Vec<i16> = Vec::new();
    let mut n: usize = 0;
    while n < half_o
        invariant
            n <= half_o,
            half_o <= half_e,
            e@.len() == half_e,
            o@.len() == half_o,
            half_e <= MAX_LIFTING_LEN,
            det == lifting_details(e@, o@),
            d@ =~= det.subrange(0, n as int),
        decreases half_o - n,
    {
        let pred = predict(LiftingFilter::Cdf53, e.as_slice(), n);
        d.push(o[n].wrapping_sub(pred as i16));
        n += 1;
    }
    assert(d@ =~= det);
    let ghost app = lifting_approx(e@, d@);
    let mut s: Vec<i16> = Vec::new();
    let mut n: usize = 0;
    while n < half_e
        invariant
            n <= half_e,
            e@.len() == half_e,
            d@.len() == half_o,
            half_e > 0 ==> half_o > 0,
            half_e <= half_o + 1,
            app == lifting_approx(e@, d@),
            s@ =~= app.subrange(0, n as int),
        decreases half_e - n,
    {
        let upd = edge_update_of(&d, n);
        s.push(e[n].wrapping_add(upd as i16));
        n += 1;
    }
    assert(s@ =~= app);
    (widen_vec(&s), widen_vec(&d))
}

/// The values of `v` widened to 64 bits.
fn widen_vec(v: &Vec<i16>) -> (res: Vec<i64>)
    ensures
        res@ == widen(v@),
{
    let mut out: Vec<i64> = Vec::new();
    let mut n: usize = 0;
    while n < v.len()
        invariant
            n <= v@.len(),
            out@ =~= widen(v@).subrange(0, n as int),
        decreases v@.len() - n,
    {
        out.push(v[n] as i64);
        n += 1;
    }
    assert(out@ =~= widen(v@));
    out
}

/// The values of `v` truncated to 16 bits.
fn narrow_vec(v: &[i64]) -> (res: Vec<i16>)
    ensures
        res@ == narrow(v@),
{
    let mut out: Vec<i16> = Vec::new();
    let mut n: usize = 0;
    while n < v.len()
        invariant
            n <= v@.len(),
            out@ =~= narrow(v@).subrange(0, n as int),
        decreases v@.len() - n,
    {
        out.push(v[n] as i16);
        n += 1;
    }
    assert(out@ =~= narrow(v@));
    out
}

/// The `original_len` samples that the approximations `s` and details `d`
/// of [`forward_lifting_53_i64`] stand for.
pub fn inverse_lifting_53_i64(s: &[i64], d: &[i64], original_len: usize) -> (res: Vec<i64>)
    requires
        inverse_fits(s@.len(), d@.len(), original_len as nat),
        s@.len() <= MAX_LIFTING_LEN,
    ensures
        res@ == spec_inverse_lifting_53_i64(s@, d@, original_len as nat),
{
    let half_e = s.len();
    let half_o = d.len();
    let sn = narrow_vec(s);
    let dn = narrow_vec(d);
    let ghost ev = restored_even_samples(sn@, dn@);
    let mut e: Vec<i16> = Vec::new();
    let mut n: usize = 0;
    while n < half_e
        invariant
            n <= half_e,
            sn@.len() == half_e,
            dn@.len() == half_o,
            half_e > 0 ==> half_o > 0,
            half_e <= half_o + 1,
            ev == restored_even_samples(sn@, dn@),
            e@ =~= ev.subrange(0, n as int),
        decreases half_e - n,
    {
        let upd = edge_update_of(&dn, n);
        e.push(sn[n].wrapping_sub(upd as i16));
        n += 1;
    }
    assert(e@ =~= ev);
    let ghost od = restored_odd_samples(e@, dn@);
    let mut o: Vec<i16> = Vec::new();
    let mut n: usize = 0;
    while n < half_o
        invariant
            n <= half_o,
            half_o <= half_e,
            half_e <= MAX_LIFTING_LEN,
            e@.len() == half_e,
            dn@.len() == half_o,
            od == restored_odd_samples(e@, dn@),
            o@ =~= od.subrange(0, n as int),
        decreases half_o - n,
    {
        let pred = predict(LiftingFilter::Cdf53, e.as_slice(), n);
        o.push(dn[n].wrapping_add(pred as i16));
        n += 1;
    }
    assert(o@ =~= od);
    let ghost full = interleave(e@, o@, original_len as nat);
    let mut out: Vec<i64> = Vec::new();
    let mut i: usize = 0;
    while i < original_len
        invariant
            i <= original_len,
            e@.len() == half_e,
            o@.len() == half_o,
            (original_len + 1) / 2 <= half_e,
            original_len / 2 <= half_o,
            full == interleave(e@, o@, original_len as nat),
            out@ =~= full.subrange(0, i as int),
        decreases original_len - i,
    {
        if i % 2 == 0 {
            out.push(e[i / 2] as i64);
        } else {
            out.push(o[i / 2] as i64);
        }
        i += 1;
    }
    assert(out@ =~= full);
    out
}

/// Truncating 16-bit values widened to 64 bits gives them back.
proof fn lemma_narrow_widen(s: Seq<i16>)
    ensures
        narrow(widen(s)) == s,
{
    assert(narrow(widen(s)) =~= s);
}

/// The inverse level gives back every sample of a 16-bit signal, of any
/// length but 1.
pub proof fn lemma_lifting_53_i64_roundtrip(x: Seq<i64>)
    requires
        x.len() != 1,
        forall|i: int| 0 <= i < x.len() ==> i16::MIN <= #[trigger] x[i] <= i16::MAX,
    ensures
        inverse_fits(
            spec_forward_lifting_53_i64(x).0.len(),
            spec_forward_lifting_53_i64(x).1.len(),
            x.len(),
        ),
        spec_inverse_lifting_53_i64(spec_forward_lifting_53_i64(x).0, spec_forward_lifting_53_i64(x).1, x.len())
            == x,
{
    let e = even_samples(x);
    let o = odd_samples(x);
    let d = lifting_details(e, o);
    let s = lifting_approx(e, d);
    lemma_narrow_widen(s);
    lemma_narrow_widen(d);
    let e2 = restored_even_samples(s, d);
    assert(e2 =~= e);
    let o2 = restored_odd_samples(e2, d);
    assert(o2 =~= o);
    let r = spec_inverse_lifting_53_i64(widen(s), widen(d), x.len());
    assert forall|i: int| 0 <= i < x.len() implies #[trigger] r[i] == x[i] by {
        if i % 2 == 0 {
            assert(e[i / 2] == x[2 * (i / 2)] as i16);
        } else {
            assert(o[i / 2] == x[2 * (i / 2) + 1] as i16);
        }
    }
    assert(r =~= x);
}

/// One CDF 5/3 level of `x`, with approximations and details each split
/// into their even- and odd-position halves: four bands of `x.len() / 4`
/// values.
pub open spec fn spec_forward_packet_4_band(x: Seq<i64>) -> (Seq<i64>, Seq<i64>, Seq<i64>, Seq<i64>) {
    let (s, d) = spec_forward_lifting_53_i64(x);
    let q = (x.len() / 2) / 2;
    (
        Seq::new(q, |i: int| s[2 * i]),
        Seq::new(q, |i: int| s[2 * i + 1]),
        Seq::new(q, |i: int| d[2 * i]),
        Seq::new(q, |i: int| d[2 * i + 1]),
    )
}

/// `half` values taken alternately from `a` and `b`, zero past `2 * (half / 2)`.
pub open spec fn merge_bands(a: Seq<i64>, b: Seq<i64>, half: nat) -> Seq<i64> {
    Seq::new(half, |k: int| if k < 2 * (half / 2) { if k % 2 == 0 { a[k / 2] } else { b[k / 2] } } else { 0 })
}

/// The `len` samples that the four bands stand for.
pub open spec fn spec_inverse_packet_4_band(
    s_even: Seq<i64>,
    s_odd: Seq<i64>,
    d_even: Seq<i64>,
    d_odd: Seq<i64>,
    len: nat,
) -> Seq<i64> {
    let half = len / 2;
    spec_inverse_lifting_53_i64(merge_bands(s_even, s_odd, half), merge_bands(d_even, d_odd, half), len)
}

/// The first `n` values at even (`odd == false`) or odd positions of `v`.
fn take_every_other(v: &Vec<i64>, n: usize, odd: bool) -> (res: Vec<i64>)
    requires
        2 * n <= v@.len(),
    ensures
        res@ == Seq::new(n as nat, |i: int| if odd { v@[2 * i + 1] } else { v@[2 * i] }),
{
    let total = v.len();
    let mut out: Vec<i64> = Vec::new();
    let mut i: usize = 0;
    while i < n
        invariant
            i <= n,
            total == v@.len(),
            2 * n <= v@.len(),
            out@ =~= Seq::new(n as nat, |i: int| if odd { v@[2 * i + 1] } else { v@[2 * i] }).subrange(0, i as int),
        decreases n - i,
    {
        if odd {
            out.push(v[2 * i + 1]);
        } else {
            out.push(v[2 * i]);
        }
        i += 1;
    }
    assert(out@ =~= Seq::new(n as nat, |i: int| if odd { v@[2 * i + 1] } else { v@[2 * i] }));
    out
}

/// Four-band split of one CDF 5/3 level of `x`: even and odd approximations,
/// even and odd details.
pub fn forward_packet_4_band(x: &[i64]) -> (res: (Vec<i64>, Vec<i64>, Vec<i64>, Vec<i64>))
    requires
        x@.len() != 1,
        x@.len() <= MAX_LIFTING_LEN,
    ensures
        res.0@ == spec_forward_packet_4_band(x@).0,
        res.1@ == spec_forward_packet_4_band(x@).1,
        res.2@ == spec_forward_packet_4_band(x@).2,
        res.3@ == spec_forward_packet_4_band(x@).3,
{
    let (s_full, d_full) = forward_lifting_53_i64(x);
    let half = x.len() / 2;
    let q = half / 2;
    (
        take_every_other(&s_full, q, false),
        take_every_other(&s_full, q, true),
        take_every_other(&d_full, q, false),
        take_every_other(&d_full, q, true),
    )
}

/// `half` values taken alternately from `a` and `b`, zero past `2 * (half / 2)`.
fn merge_bands_vec(a: &[i64], b: &[i64], half: usize) -> (res: Vec<i64>)
    requires
        half / 2 <= a@.len(),
        half / 2 <= b@.len(),
    ensures
        res@ == merge_bands(a@, b@, half as nat),
{
    let mut out: Vec<i64> = Vec::new();
    let mut k: usize = 0;
    while k < half
        invariant
            k <= half,
            half / 2 <= a@.len(),
            half / 2 <= b@.len(),
            out@ =~= merge_bands(a@, b@, half as nat).subrange(0, k as int),
        decreases half - k,
    {
        if k < 2 * (half / 2) {
            if k % 2 == 0 {
                out.push(a[k / 2]);
            } else {
                out.push(b[k / 2]);
            }
        } else {
            out.push(0);
        }
        k += 1;
    }
    assert(out@ =~= merge_bands(a@, b@, half as nat));
    out
}

/// The `original_len` samples that the four bands of [`forward_packet_4_band`] stand for.
pub fn inverse_packet_4_band(
    s_even: &[i64],
    s_odd: &[i64],
    d_even: &[i64],
    d_odd: &[i64],
    original_len: usize,
) -> (res: Vec<i64>)
    requires
        original_len % 2 == 0,
        original_len / 2 <= MAX_LIFTING_LEN,
        original_len / 4 <= s_even@.len(),
        original_len / 4 <= s_odd@.len(),
        original_len / 4 <= d_even@.len(),
        original_len / 4 <= d_odd@.len(),
    ensures
        res@ == spec_inverse_packet_4_band(s_even@, s_odd@, d_even@, d_odd@, original_len as nat),
{
    let half = original_len / 2;
    let s_full = merge_bands_vec(s_even, s_odd, half);
    let d_full = merge_bands_vec(d_even, d_odd, half);
    inverse_lifting_53_i64(s_full.as_slice(), d_full.as_slice(), original_len)
}

/// The four-band split is undone for every 16-bit signal whose length is a
/// multiple of four.
pub proof fn lemma_packet_4_band_roundtrip(x: Seq<i64>)
    requires
        x.len() % 4 == 0,
        forall|i: int| 0 <= i < x.len() ==> i16::MIN <= #[trigger] x[i] <= i16::MAX,
    ensures
        ({
            let (se, so, de, dd) = spec_forward_packet_4_band(x);
            spec_inverse_packet_4_band(se, so, de, dd, x.len()) == x
        }),
{
    let (s, d) = spec_forward_lifting_53_i64(x);
    let (se, so, de, dd) = spec_forward_packet_4_band(x);
    let half = x.len() / 2;
    assert(merge_bands(se, so, half) =~= s);
    assert(merge_bands(de, dd, half) =~= d);
    if x.len() != 1 {
        lemma_lifting_53_i64_roundtrip(x);
    }
}

} // verus!
