use vstd::prelude::*;
use vstd::arithmetic::power2::pow2;

verus! {

/// Whether `v` is a value of `i64`.
pub open spec fn in_i64(v: int) -> bool {
    i64::MIN <= v <= i64::MAX
}

/// `x / 2^bits` rounded to the nearest integer, halves away from zero.
pub open spec fn spec_round_fixed(x: int, bits: nat) -> int {
    let den = pow2(bits) as int;
    let half = den / 2;
    if x >= 0 {
        (x + half) / den
    } else {
        -((-x + half) / den)
    }
}

/// Whether rounding `x` by `bits` stays within `i64`.
pub open spec fn round_fits(x: int, bits: nat) -> bool {
    &&& bits <= 62
    &&& in_i64(x)
    &&& if x >= 0 { x + pow2(bits) / 2 <= i64::MAX } else { -x + pow2(bits) / 2 <= i64::MAX }
}

/// Fixed-point rounding: `x / 2^bits` to the nearest integer, halves away from zero.
pub fn round_fixed_rust(x: i64, bits: u32) -> (res: i64)
    requires
        round_fits(x as int, bits as nat),
    ensures
        res == spec_round_fixed(x as int, bits as nat),
{
    proof {
        vstd::bits::lemma_u64_pow2_no_overflow(bits as nat);
        vstd::bits::lemma_u64_shl_is_mul(1, bits as u64);
        vstd::arithmetic::power2::lemma_pow2_pos(bits as nat);
        if bits < 62 {
            vstd::arithmetic::power2::lemma_pow2_strictly_increases(bits as nat, 62);
        }
        vstd::arithmetic::power2::lemma2_to64_rest();
    }
    let den = (1u64 << (bits as u64)) as i64;
    let half = den / 2;
    if x >= 0 {
        (x + half) / den
    } else {
        -((-x + half) / den)
    }
}

/// Sample `k` of `e`, the end samples standing for those past either end.
pub open spec fn tap(e: Seq<i64>, k: int) -> int {
    if k < 0 {
        e[0] as int
    } else if k >= e.len() {
        e[e.len() - 1] as int
    } else {
        e[k] as int
    }
}

/// The symmetric five-tap sum at `k`: `c[0]` on the centre, `c[1]` on the
/// neighbours, `c[2]` on the samples two away.
pub open spec fn fir_acc(e: Seq<i64>, c: Seq<i64>, k: int) -> int {
    c[0] * tap(e, k) + c[1] * (tap(e, k - 1) + tap(e, k + 1)) + c[2] * (tap(e, k - 2) + tap(e, k + 2))
}

/// Whether every step of the filter at `k` stays within `i64`.
pub open spec fn fir_tap_fits(e: Seq<i64>, c: Seq<i64>, k: int) -> bool {
    let s1 = tap(e, k - 1) + tap(e, k + 1);
    let s2 = tap(e, k - 2) + tap(e, k + 2);
    &&& in_i64(s1)
    &&& in_i64(s2)
    &&& in_i64(c[0] * tap(e, k))
    &&& in_i64(c[1] * s1)
    &&& in_i64(c[2] * s2)
    &&& in_i64(c[0] * tap(e, k) + c[1] * s1)
    &&& round_fits(fir_acc(e, c, k), 20)
}

/// Whether the filter stays within `i64` at every sample.
pub open spec fn fir_fits(e: Seq<i64>, c: Seq<i64>) -> bool {
    forall|k: int| 0 <= k < e.len() ==> #[trigger] fir_tap_fits(e, c, k)
}

/// The filter output: the five-tap sum at each sample, rounded by `2^20`.
pub open spec fn spec_filter_fir(e: Seq<i64>, c: Seq<i64>) -> Seq<i64> {
    Seq::new(e.len(), |k: int| spec_round_fixed(fir_acc(e, c, k), 20) as i64)
}

/// Symmetric five-tap filter with edge replication and 20-bit fixed-point rounding.
pub fn filter_fir_rust(e: &[i64], coefs: &[i64; 3]) -> (res: Vec<i64>)
    requires
        fir_fits(e@, coefs@),
    ensures
        res@ == spec_filter_fir(e@, coefs@),
{
    let len = e.len();
    if len == 0 {
        let out: Vec<i64> = Vec::new();
        assert(out@ =~= spec_filter_fir(e@, coefs@));
        return out;
    }
    let mut out: Vec<i64> = Vec::new();
    let mut k: usize = 0;
    while k < len
        invariant
            len == e@.len(),
            len > 0,
            k <= len,
            fir_fits(e@, coefs@),
            out@ =~= spec_filter_fir(e@, coefs@).subrange(0, k as int),
        decreases len - k,
    {
        assert(fir_tap_fits(e@, coefs@, k as int));
        let em2 = e[if k >= 2 { k - 2 } else { 0 }];
        let em1 = e[if k >= 1 { k - 1 } else { 0 }];
        let ec = e[k];
        let last = len - 1;
        let ep1 = e[if k < last { k + 1 } else { last }];
        let ep2 = e[if last >= 2 && k <= last - 2 { k + 2 } else { last }];
        assert(em2 == tap(e@, k - 2));
        assert(em1 == tap(e@, k - 1));
        assert(ep1 == tap(e@, k + 1));
        assert(ep2 == tap(e@, k + 2));
        let acc = coefs[0] * ec + coefs[1] * (em1 + ep1) + coefs[2] * (em2 + ep2);
        out.push(round_fixed_rust(acc, 20));
        k += 1;
    }
    assert(out@ =~= spec_filter_fir(e@, coefs@));
    out
}

/// The predictor of detail band `j` (1 to 3).
pub open spec fn predict_coefs(j: int) -> Seq<i64> {
    if j == 2 {
        seq![450000i64, 150000i64, 30000i64]
    } else {
        seq![300000i64, 100000i64, 20000i64]
    }
}

/// The update filter of the approximation band.
pub open spec fn update_coefs() -> Seq<i64> {
    seq![200000i64, 80000i64, 15000i64]
}

/// Band `j` (0 to 3) of `x`: samples `j`, `j + 4`, `j + 8`, ... of the
/// first `4 * (x.len() / 4)` samples.
pub open spec fn band(x: Seq<i64>, j: int) -> Seq<i64> {
    Seq::new(x.len() / 4, |i: int| x[4 * i + j])
}

/// Prediction of detail band `j` from the samples `e`.
pub open spec fn prediction(e: Seq<i64>, j: int) -> Seq<i64> {
    spec_filter_fir(e, predict_coefs(j))
}

/// Update of the approximations from the detail band `d`.
pub open spec fn update(d: Seq<i64>) -> Seq<i64> {
    spec_filter_fir(d, update_coefs())
}

/// The sum of the three updates at `i`.
pub open spec fn update_total(d1: Seq<i64>, d2: Seq<i64>, d3: Seq<i64>, i: int) -> int {
    update(d1)[i] + update(d2)[i] + update(d3)[i]
}

/// Detail band `j` (1 to 3) of `x`: the band minus its prediction from band 0.
pub open spec fn mband_detail(x: Seq<i64>, j: int) -> Seq<i64> {
    Seq::new(x.len() / 4, |i: int| (band(x, j)[i] - prediction(band(x, 0), j)[i]) as i64)
}

/// Four-band polyphase lifting of `x`: the updated approximation band and
/// the three detail bands.
pub open spec fn spec_forward_mband_4(x: Seq<i64>) -> (Seq<i64>, Seq<i64>, Seq<i64>, Seq<i64>) {
    let e = band(x, 0);
    let d1 = mband_detail(x, 1);
    let d2 = mband_detail(x, 2);
    let d3 = mband_detail(x, 3);
    (Seq::new(e.len(), |i: int| (e[i] + update_total(d1, d2, d3, i)) as i64), d1, d2, d3)
}

/// Whether the three predictions from `e` stay within `i64`.
pub open spec fn predictions_fit(e: Seq<i64>) -> bool {
    &&& fir_fits(e, predict_coefs(1))
    &&& fir_fits(e, predict_coefs(2))
    &&& fir_fits(e, predict_coefs(3))
}

/// Whether the three updates, and their sums at the first `n` positions,
/// stay within `i64`.
pub open spec fn updates_fit(d1: Seq<i64>, d2: Seq<i64>, d3: Seq<i64>, n: int) -> bool {
    &&& fir_fits(d1, update_coefs())
    &&& fir_fits(d2, update_coefs())
    &&& fir_fits(d3, update_coefs())
    &&& forall|i: int|
        0 <= i < n ==> in_i64(update(d1)[i] + update(d2)[i]) && in_i64(#[trigger] update_total(d1, d2, d3, i))
}

/// Whether every step of the forward transform of `x` stays within `i64`.
pub open spec fn forward_mband_fits(x: Seq<i64>) -> bool {
    let e = band(x, 0);
    let d1 = mband_detail(x, 1);
    let d2 = mband_detail(x, 2);
    let d3 = mband_detail(x, 3);
    &&& predictions_fit(e)
    &&& forall|j: int, i: int|
        1 <= j <= 3 && 0 <= i < x.len() / 4 ==> in_i64(#[trigger] band(x, j)[i] - prediction(e, j)[i])
    &&& updates_fit(d1, d2, d3, e.len() as int)
    &&& forall|i: int| 0 <= i < e.len() ==> in_i64(e[i] + #[trigger] update_total(d1, d2, d3, i))
}

/// The even samples recovered from approximations and details.
pub open spec fn restored_band0(s: Seq<i64>, d1: Seq<i64>, d2: Seq<i64>, d3: Seq<i64>) -> Seq<i64> {
    Seq::new(s.len(), |i: int| (s[i] - update_total(d1, d2, d3, i)) as i64)
}

/// Band `j` (1 to 3) recovered from its details and the recovered band 0.
pub open spec fn restored_band(e: Seq<i64>, d: Seq<i64>, j: int) -> Seq<i64> {
    Seq::new(e.len(), |i: int| (d[i] + prediction(e, j)[i]) as i64)
}

/// The `len` samples that the four bands stand for; zero past the bands.
pub open spec fn spec_inverse_mband_4(s: Seq<i64>, d1: Seq<i64>, d2: Seq<i64>, d3: Seq<i64>, len: nat) -> Seq<i64> {
    let e = restored_band0(s, d1, d2, d3);
    let o1 = restored_band(e, d1, 1);
    let o2 = restored_band(e, d2, 2);
    let o3 = restored_band(e, d3, 3);
    Seq::new(
        len,
        |k: int|
            if k / 4 < s.len() {
                if k % 4 == 0 {
                    e[k / 4]
                } else if k % 4 == 1 {
                    o1[k / 4]
                } else if k % 4 == 2 {
                    o2[k / 4]
                } else {
                    o3[k / 4]
                }
            } else {
                0
            },
    )
}

/// Whether every step of the inverse transform stays within `i64` and
/// within the detail bands.
pub open spec fn inverse_mband_fits(s: Seq<i64>, d1: Seq<i64>, d2: Seq<i64>, d3: Seq<i64>) -> bool {
    let e = restored_band0(s, d1, d2, d3);
    &&& d1.len() >= s.len()
    &&& d2.len() >= s.len()
    &&& d3.len() >= s.len()
    &&& updates_fit(d1, d2, d3, s.len() as int)
    &&& forall|i: int| 0 <= i < s.len() ==> in_i64(s[i] - #[trigger] update_total(d1, d2, d3, i))
    &&& predictions_fit(e)
    &&& forall|i: int| 0 <= i < s.len() ==> in_i64(d1[i] + #[trigger] prediction(e, 1)[i])
    &&& forall|i: int| 0 <= i < s.len() ==> in_i64(d2[i] + #[trigger] prediction(e, 2)[i])
    &&& forall|i: int| 0 <= i < s.len() ==> in_i64(d3[i] + #[trigger] prediction(e, 3)[i])
}

/// Band `j` of `x`.
fn band_of(x: &[i64], j: usize) -> (res: Vec<i64>)
    requires
        j < 4,
    ensures
        res@ == band(x@, j as int),
{
    let total = x.len();
    let half = total / 4;
    let mut out: Vec<i64> = Vec::new();
    let mut i: usize = 0;
    while i < half
        invariant
            total == x@.len(),
            j < 4,
            half == x@.len() / 4,
            i <= half,
            out@ =~= band(x@, j as int).subrange(0, i as int),
        decreases half - i,
    {
        out.push(x[4 * i + j]);
        i += 1;
    }
    assert(out@ =~= band(x@, j as int));
    out
}

/// The predictor of detail band `j` (1 to 3).
fn predict_coefs_of(j: usize) -> (res: [i64; 3])
    ensures
        res@ == predict_coefs(j as int),
{
    let c: [i64; 3] = if j == 2 { [450000, 150000, 30000] } else { [300000, 100000, 20000] };
    assert(c@ =~= predict_coefs(j as int));
    c
}

/// The update filter of the approximation band.
fn update_coefs_of() -> (res: [i64; 3])
    ensures
        res@ == update_coefs(),
{
    let c: [i64; 3] = [200000, 80000, 15000];
    assert(c@ =~= update_coefs());
    c
}

/// Detail band `j` (1 to 3) of `x`.
fn detail_of(x: &[i64], e: &Vec<i64>, j: usize) -> (res: Vec<i64>)
    requires
        1 <= j <= 3,
        e@ == band(x@, 0),
        forward_mband_fits(x@),
    ensures
        res@ == mband_detail(x@, j as int),
{
    let o = band_of(x, j);
    let c = predict_coefs_of(j);
    let pred = filter_fir_rust(e.as_slice(), &c);
    let half = e.len();
    let mut out: Vec<i64> = Vec::new();
    let mut i: usize = 0;
    while i < half
        invariant
            1 <= j <= 3,
            half == x@.len() / 4,
            e@ == band(x@, 0),
            o@ == band(x@, j as int),
            pred@ == prediction(e@, j as int),
            forward_mband_fits(x@),
            i <= half,
            out@ =~= mband_detail(x@, j as int).subrange(0, i as int),
        decreases half - i,
    {
        assert(in_i64(band(x@, j as int)[i as int] - prediction(e@, j as int)[i as int]));
        out.push(o[i] - pred[i]);
        i += 1;
    }
    assert(out@ =~= mband_detail(x@, j as int));
    out
}

/// The approximations: `e` plus the sum of the three updates from the details.
fn add_updates(e: &Vec<i64>, d1: &Vec<i64>, d2: &Vec<i64>, d3: &Vec<i64>) -> (res: Vec<i64>)
    requires
        d1@.len() == e@.len(),
        d2@.len() == e@.len(),
        d3@.len() == e@.len(),
        updates_fit(d1@, d2@, d3@, e@.len() as int),
        forall|i: int| 0 <= i < e@.len() ==> in_i64(e@[i] + #[trigger] update_total(d1@, d2@, d3@, i)),
    ensures
        res@ == Seq::new(e@.len(), |i: int| (e@[i] + update_total(d1@, d2@, d3@, i)) as i64),
{
    let u = update_coefs_of();
    let upd1 = filter_fir_rust(d1.as_slice(), &u);
    let upd2 = filter_fir_rust(d2.as_slice(), &u);
    let upd3 = filter_fir_rust(d3.as_slice(), &u);
    let half = e.len();
    let ghost target = Seq::new(e@.len(), |i: int| (e@[i] + update_total(d1@, d2@, d3@, i)) as i64);
    let mut s: Vec<i64> = Vec::new();
    let mut i: usize = 0;
    while i < half
        invariant
            half == e@.len(),
            upd1@ == update(d1@),
            upd2@ == update(d2@),
            upd3@ == update(d3@),
            d1@.len() == half,
            d2@.len() == half,
            d3@.len() == half,
            updates_fit(d1@, d2@, d3@, half as int),
            forall|i: int| 0 <= i < e@.len() ==> in_i64(e@[i] + #[trigger] update_total(d1@, d2@, d3@, i)),
            target == Seq::new(e@.len(), |i: int| (e@[i] + update_total(d1@, d2@, d3@, i)) as i64),
            i <= half,
            s@ =~= target.subrange(0, i as int),
        decreases half - i,
    {
        assert(in_i64(update_total(d1@, d2@, d3@, i as int)));
        assert(in_i64(update(d1@)[i as int] + update(d2@)[i as int]));
        assert(in_i64(e@[i as int] + update_total(d1@, d2@, d3@, i as int)));
        s.push(e[i] + (upd1[i] + upd2[i] + upd3[i]));
        i += 1;
    }
    assert(s@ =~= target);
    s
}

/// Four-band polyphase lifting of `x`: the approximation band (every fourth
/// sample, updated) and three detail bands (the other samples minus their
/// prediction). Samples past the last whole group of four are dropped.
pub fn forward_mband_4_rust(x: &[i64]) -> (res: (Vec<i64>, Vec<i64>, Vec<i64>, Vec<i64>))
    requires
        forward_mband_fits(x@),
    ensures
        res.0@ == spec_forward_mband_4(x@).0,
        res.1@ == spec_forward_mband_4(x@).1,
        res.2@ == spec_forward_mband_4(x@).2,
        res.3@ == spec_forward_mband_4(x@).3,
{
    let e = band_of(x, 0);
    let d1 = detail_of(x, &e, 1);
    let d2 = detail_of(x, &e, 2);
    let d3 = detail_of(x, &e, 3);
    assert(updates_fit(d1@, d2@, d3@, e@.len() as int));
    let s = add_updates(&e, &d1, &d2, &d3);
    assert(s@ =~= spec_forward_mband_4(x@).0);
    (s, d1, d2, d3)
}

/// Band 0 recovered from the approximations and the details.
fn subtract_updates(s: &[i64], d1: &[i64], d2: &[i64], d3: &[i64]) -> (res: Vec<i64>)
    requires
        inverse_mband_fits(s@, d1@, d2@, d3@),
    ensures
        res@ == restored_band0(s@, d1@, d2@, d3@),
{
    let u = update_coefs_of();
    let upd1 = filter_fir_rust(d1, &u);
    let upd2 = filter_fir_rust(d2, &u);
    let upd3 = filter_fir_rust(d3, &u);
    let half = s.len();
    let ghost target = restored_band0(s@, d1@, d2@, d3@);
    let mut e: Vec<i64> = Vec::new();
    let mut i: usize = 0;
    while i < half
        invariant
            half == s@.len(),
            upd1@ == update(d1@),
            upd2@ == update(d2@),
            upd3@ == update(d3@),
            d1@.len() >= half,
            d2@.len() >= half,
            d3@.len() >= half,
            updates_fit(d1@, d2@, d3@, half as int),
            forall|i: int| 0 <= i < s@.len() ==> in_i64(s@[i] - #[trigger] update_total(d1@, d2@, d3@, i)),
            target == restored_band0(s@, d1@, d2@, d3@),
            i <= half,
            e@ =~= target.subrange(0, i as int),
        decreases half - i,
    {
        assert(in_i64(update_total(d1@, d2@, d3@, i as int)));
        assert(in_i64(update(d1@)[i as int] + update(d2@)[i as int]));
        assert(in_i64(s@[i as int] - update_total(d1@, d2@, d3@, i as int)));
        e.push(s[i] - (upd1[i] + upd2[i] + upd3[i]));
        i += 1;
    }
    assert(e@ =~= target);
    e
}

/// Band `j` (1 to 3) recovered from its details and band 0.
fn restore_band_of(e: &Vec<i64>, d: &[i64], j: usize) -> (res: Vec<i64>)
    requires
        1 <= j <= 3,
        d@.len() >= e@.len(),
        predictions_fit(e@),
        forall|i: int| 0 <= i < e@.len() ==> in_i64(d@[i] + #[trigger] prediction(e@, j as int)[i]),
    ensures
        res@ == restored_band(e@, d@, j as int),
{
    let c = predict_coefs_of(j);
    let pred = filter_fir_rust(e.as_slice(), &c);
    let half = e.len();
    let mut out: Vec<i64> = Vec::new();
    let mut i: usize = 0;
    while i < half
        invariant
            half == e@.len(),
            d@.len() >= half,
            pred@ == prediction(e@, j as int),
            forall|i: int| 0 <= i < e@.len() ==> in_i64(d@[i] + #[trigger] prediction(e@, j as int)[i]),
            i <= half,
            out@ =~= restored_band(e@, d@, j as int).subrange(0, i as int),
        decreases half - i,
    {
        assert(in_i64(d@[i as int] + prediction(e@, j as int)[i as int]));
        out.push(d[i] + pred[i]);
        i += 1;
    }
    assert(out@ =~= restored_band(e@, d@, j as int));
    out
}

/// The `original_len` samples that the four bands of
/// [`forward_mband_4_rust`] stand for; zero past the bands.
pub fn inverse_mband_4_rust(s: &[i64], d1: &[i64], d2: &[i64], d3: &[i64], original_len: usize) -> (res: Vec<i64>)
    requires
        inverse_mband_fits(s@, d1@, d2@, d3@),
    ensures
        res@ == spec_inverse_mband_4(s@, d1@, d2@, d3@, original_len as nat),
{
    let half = s.len();
    let e = subtract_updates(s, d1, d2, d3);
    let o1 = restore_band_of(&e, d1, 1);
    let o2 = restore_band_of(&e, d2, 2);
    let o3 = restore_band_of(&e, d3, 3);
    let ghost target = spec_inverse_mband_4(s@, d1@, d2@, d3@, original_len as nat);
    let mut out: Vec<i64> = Vec::new();
    let mut k: usize = 0;
    while k < original_len
        invariant
            half == s@.len(),
            e@ == restored_band0(s@, d1@, d2@, d3@),
            o1@ == restored_band(e@, d1@, 1),
            o2@ == restored_band(e@, d2@, 2),
            o3@ == restored_band(e@, d3@, 3),
            target == spec_inverse_mband_4(s@, d1@, d2@, d3@, original_len as nat),
            k <= original_len,
            out@ =~= target.subrange(0, k as int),
        decreases original_len - k,
    {
        let i = k / 4;
        let v = if i < half {
            let t = k % 4;
            if t == 0 {
                e[i]
            } else if t == 1 {
                o1[i]
            } else if t == 2 {
                o2[i]
            } else {
                o3[i]
            }
        } else {
            0
        };
        out.push(v);
        k += 1;
    }
    assert(out@ =~= target);
    out
}

/// Subtracting the updates gives back the samples they were added to.
proof fn lemma_band0_restored(e: Seq<i64>, d1: Seq<i64>, d2: Seq<i64>, d3: Seq<i64>, s: Seq<i64>)
    requires
        s == Seq::new(e.len(), |i: int| (e[i] + update_total(d1, d2, d3, i)) as i64),
        forall|i: int| 0 <= i < e.len() ==> in_i64(e[i] + #[trigger] update_total(d1, d2, d3, i)),
    ensures
        restored_band0(s, d1, d2, d3) == e,
        forall|i: int| 0 <= i < s.len() ==> in_i64(s[i] - #[trigger] update_total(d1, d2, d3, i)),
{
    assert forall|i: int| 0 <= i < s.len() implies in_i64(s[i] - #[trigger] update_total(d1, d2, d3, i)) by {
        assert(in_i64(e[i] + update_total(d1, d2, d3, i)));
    }
    assert forall|i: int| 0 <= i < e.len() implies #[trigger] restored_band0(s, d1, d2, d3)[i] == e[i] by {
        assert(in_i64(e[i] + update_total(d1, d2, d3, i)));
    }
    assert(restored_band0(s, d1, d2, d3) =~= e);
}

/// Adding the prediction back to the details gives back the band.
proof fn lemma_band_restored(e: Seq<i64>, o: Seq<i64>, d: Seq<i64>, j: int)
    requires
        o.len() == e.len(),
        d == Seq::new(o.len(), |i: int| (o[i] - prediction(e, j)[i]) as i64),
        forall|i: int| 0 <= i < o.len() ==> in_i64(#[trigger] o[i] - prediction(e, j)[i]),
    ensures
        restored_band(e, d, j) == o,
        forall|i: int| 0 <= i < e.len() ==> in_i64(d[i] + #[trigger] prediction(e, j)[i]),
{
    assert forall|i: int| 0 <= i < e.len() implies in_i64(d[i] + #[trigger] prediction(e, j)[i]) by {
        assert(in_i64(o[i] - prediction(e, j)[i]));
    }
    assert forall|i: int| 0 <= i < e.len() implies #[trigger] restored_band(e, d, j)[i] == o[i] by {
        assert(in_i64(o[i] - prediction(e, j)[i]));
    }
    assert(restored_band(e, d, j) =~= o);
}

/// Band `j` of `x` and its details meet the requirements of [`lemma_band_restored`].
proof fn lemma_detail_fits(x: Seq<i64>, j: int)
    requires
        1 <= j <= 3,
        forward_mband_fits(x),
    ensures
        forall|i: int| 0 <= i < band(x, j).len() ==> in_i64(#[trigger] band(x, j)[i] - prediction(band(x, 0), j)[i]),
        mband_detail(x, j) == Seq::new(
            band(x, j).len(),
            |i: int| (band(x, j)[i] - prediction(band(x, 0), j)[i]) as i64,
        ),
{
    assert(mband_detail(x, j) =~= Seq::new(
        band(x, j).len(),
        |i: int| (band(x, j)[i] - prediction(band(x, 0), j)[i]) as i64,
    ));
}

/// The inverse four-band transform gives back every sample of a signal
/// whose length is a multiple of four and whose forward transform stays
/// within `i64`.
pub proof fn lemma_mband_roundtrip(x: Seq<i64>)
    requires
        x.len() % 4 == 0,
        forward_mband_fits(x),
    ensures
        ({
            let (s, d1, d2, d3) = spec_forward_mband_4(x);
            &&& inverse_mband_fits(s, d1, d2, d3)
            &&& spec_inverse_mband_4(s, d1, d2, d3, x.len()) == x
        }),
{
    let (s, d1, d2, d3) = spec_forward_mband_4(x);
    let e = band(x, 0);
    assert(updates_fit(d1, d2, d3, e.len() as int));
    lemma_band0_restored(e, d1, d2, d3, s);
    lemma_detail_fits(x, 1);
    lemma_detail_fits(x, 2);
    lemma_detail_fits(x, 3);
    lemma_band_restored(e, band(x, 1), d1, 1);
    lemma_band_restored(e, band(x, 2), d2, 2);
    lemma_band_restored(e, band(x, 3), d3, 3);
    let r = spec_inverse_mband_4(s, d1, d2, d3, x.len());
    assert forall|k: int| 0 <= k < x.len() implies #[trigger] r[k] == x[k] by {
        assert(k == 4 * (k / 4) + k % 4);
    }
    assert(r =~= x);
}

} // verus!
