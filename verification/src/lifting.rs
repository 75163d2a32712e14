use vstd::prelude::*;
use vstd::wrapping::i16_specs;

verus! {

/// Integer division rounding toward zero, as Rust's `/` does on signed integers.
pub open spec fn tdiv(x: int, d: int) -> int {
    if x >= 0 {
        x / d
    } else {
        -((-x) / d)
    }
}

/// Symmetric mirroring of an index into `[0, half)`: indices below zero are
/// reflected about `-1/2`, indices past the end about `half - 1/2`, and the
/// result is clamped to the valid range.
pub open spec fn mirror_index(half: int, idx: int) -> int {
    if idx < 0 {
        if -idx - 1 < half - 1 { -idx - 1 } else { half - 1 }
    } else if idx >= half {
        if 2 * half - idx - 1 > 0 { 2 * half - idx - 1 } else { 0 }
    } else {
        idx
    }
}

/// The filters that one lifting step can use.
#[derive(Clone, Copy, PartialEq, Eq, Debug)]
pub enum LiftingFilter {
    /// The interpolating predictors of order `0` (2 taps), `1` (4 taps) or
    /// any other value (6 taps), with a 2-tap update that divides by 4.
    Interpolating(u32),
    /// The integer CDF 5/3 lifting scheme, with floor rounding by shifts and
    /// edge replication.
    Cdf53,
}

/// The even sample at a mirrored index, widened to `int`.
pub open spec fn spec_get_even(even: Seq<i16>, idx: int) -> int {
    even[mirror_index(even.len() as int, idx)] as int
}

/// The value that predicts the odd sample `i` from the even samples.
#[verifier::opaque]
pub open spec fn spec_predict(filter: LiftingFilter, even: Seq<i16>, i: int) -> int {
    match filter {
        LiftingFilter::Interpolating(order) => {
            let e = |k: int| spec_get_even(even, i + k);
            if order == 0 {
                tdiv(e(0) + e(1), 2)
            } else if order == 1 {
                tdiv(-e(-1) + 9 * e(0) + 9 * e(1) - e(2) + 8, 16)
            } else {
                tdiv(3 * e(-2) - 25 * e(-1) + 150 * e(0) + 150 * e(1) - 25 * e(2) + 3 * e(3) + 128, 256)
            }
        },
        LiftingFilter::Cdf53 => {
            let left = even[i] as i32;
            let right = if i + 1 < even.len() { even[i + 1] as i32 } else { even[i] as i32 };
            ((left + right) as i32 >> 1u32) as int
        },
    }
}

/// The value added to the even sample `i` from the detail samples.
#[verifier::opaque]
pub open spec fn spec_update(filter: LiftingFilter, odd: Seq<i16>, i: int) -> int {
    let prev = if i > 0 { odd[i - 1] as i32 } else { odd[0] as i32 };
    let curr = odd[i] as i32;
    match filter {
        LiftingFilter::Interpolating(_) => tdiv(prev + curr + 2, 4),
        LiftingFilter::Cdf53 => ((prev + curr + 2) as i32 >> 2u32) as int,
    }
}

/// The even-indexed samples of `s`.
pub open spec fn evens(s: Seq<i16>) -> Seq<i16> {
    Seq::new(s.len() / 2, |i: int| s[2 * i])
}

/// The odd-indexed samples of `s`.
pub open spec fn odds(s: Seq<i16>) -> Seq<i16> {
    Seq::new(s.len() / 2, |i: int| s[2 * i + 1])
}

/// Detail coefficients: odd samples minus their prediction, in wrapping arithmetic.
pub open spec fn predicted_details(filter: LiftingFilter, even: Seq<i16>, odd: Seq<i16>) -> Seq<i16> {
    Seq::new(odd.len(), |i: int| i16_specs::wrapping_sub(odd[i], spec_predict(filter, even, i) as i16))
}

/// Odd samples recovered from detail coefficients.
pub open spec fn restored_odds(filter: LiftingFilter, even: Seq<i16>, detail: Seq<i16>) -> Seq<i16> {
    Seq::new(detail.len(), |i: int| i16_specs::wrapping_add(detail[i], spec_predict(filter, even, i) as i16))
}

/// Approximation coefficients: even samples plus their update.
pub open spec fn updated_evens(filter: LiftingFilter, even: Seq<i16>, detail: Seq<i16>) -> Seq<i16> {
    Seq::new(even.len(), |i: int| i16_specs::wrapping_add(even[i], spec_update(filter, detail, i) as i16))
}

/// Even samples recovered from approximation coefficients.
pub open spec fn restored_evens(filter: LiftingFilter, approx: Seq<i16>, detail: Seq<i16>) -> Seq<i16> {
    Seq::new(approx.len(), |i: int| i16_specs::wrapping_sub(approx[i], spec_update(filter, detail, i) as i16))
}

/// One forward lifting level: the approximation coefficients followed by the
/// detail coefficients; a last sample of odd-length input is left in place.
pub open spec fn spec_forward_step(filter: LiftingFilter, s: Seq<i16>) -> Seq<i16> {
    if s.len() < 2 {
        s
    } else {
        let half = s.len() / 2;
        let detail = predicted_details(filter, evens(s), odds(s));
        let approx = updated_evens(filter, evens(s), detail);
        Seq::new(s.len(), |k: int| if k < half { approx[k] } else if k < 2 * half { detail[k - half] } else { s[k] })
    }
}

/// One inverse lifting level: undoes [`spec_forward_step`].
pub open spec fn spec_inverse_step(filter: LiftingFilter, s: Seq<i16>) -> Seq<i16> {
    if s.len() < 2 {
        s
    } else {
        let half = s.len() / 2;
        let approx = s.subrange(0, half as int);
        let detail = s.subrange(half as int, 2 * half as int);
        let even = restored_evens(filter, approx, detail);
        let odd = restored_odds(filter, even, detail);
        Seq::new(s.len(), |k: int| if k < 2 * half { if k % 2 == 0 { even[k / 2] } else { odd[k / 2] } } else { s[k] })
    }
}

proof fn lemma_restored_evens(filter: LiftingFilter, even: Seq<i16>, detail: Seq<i16>)
    requires
        even.len() == detail.len(),
    ensures
        restored_evens(filter, updated_evens(filter, even, detail), detail) == even,
{
    assert(restored_evens(filter, updated_evens(filter, even, detail), detail) =~= even);
}

proof fn lemma_restored_odds(filter: LiftingFilter, even: Seq<i16>, odd: Seq<i16>)
    ensures
        restored_odds(filter, even, predicted_details(filter, even, odd)) == odd,
{
    assert(restored_odds(filter, even, predicted_details(filter, even, odd)) =~= odd);
}

/// The inverse lifting level undoes the forward one.
pub proof fn lemma_inverse_step_of_forward_step(filter: LiftingFilter, s: Seq<i16>)
    ensures
        spec_inverse_step(filter, spec_forward_step(filter, s)) == s,
{
    if s.len() >= 2 {
        let half = s.len() / 2;
        let even = evens(s);
        let odd = odds(s);
        let detail = predicted_details(filter, even, odd);
        let approx = updated_evens(filter, even, detail);
        let t = spec_forward_step(filter, s);
        assert(t.subrange(0, half as int) =~= approx);
        assert(t.subrange(half as int, 2 * half as int) =~= detail);
        lemma_restored_evens(filter, even, detail);
        lemma_restored_odds(filter, even, odd);
        let r = spec_inverse_step(filter, t);
        assert forall|k: int| 0 <= k < s.len() implies r[k] == s[k] by {
            if k < 2 * half {
                if k % 2 == 0 {
                    assert(even[k / 2] == s[k]);
                } else {
                    assert(odd[k / 2] == s[k]);
                }
            }
        }
        assert(r =~= s);
    }
}

/// `s` with the samples from `start` on replaced by `w`.
#[verifier::opaque]
pub open spec fn splice(s: Seq<i16>, start: int, w: Seq<i16>) -> Seq<i16> {
    s.subrange(0, start) + w + s.subrange(start + w.len(), s.len() as int)
}


/// Facts about a spliced sequence: its length, the spliced part and the rest.
pub proof fn lemma_splice(a: Seq<i16>, start: int, w: Seq<i16>)
    requires
        0 <= start,
        start + w.len() <= a.len(),
    ensures
        splice(a, start, w).len() == a.len(),
        splice(a, start, w).subrange(start, start + w.len()) == w,
        forall|k: int| 0 <= k < a.len() && !(start <= k < start + w.len()) ==> #[trigger] splice(a, start, w)[k] == a[k],
        forall|k: int| start <= k < start + w.len() ==> #[trigger] splice(a, start, w)[k] == w[k - start],
{
    reveal(splice);
    assert(splice(a, start, w).subrange(start, start + w.len()) =~= w);
}

/// A part of a spliced sequence taken inside the spliced range.
pub proof fn lemma_splice_part(a: Seq<i16>, start: int, w: Seq<i16>, off: int, n: int)
    requires
        0 <= start,
        start + w.len() <= a.len(),
        0 <= off,
        0 <= n,
        off + n <= w.len(),
    ensures
        splice(a, start, w).subrange(start + off, start + off + n) == w.subrange(off, off + n),
{
    lemma_splice(a, start, w);
    assert(splice(a, start, w).subrange(start + off, start + off + n) =~= w.subrange(off, off + n));
}

/// Splicing twice into the same range is one splice of the spliced range.
pub proof fn lemma_splice_twice(a: Seq<i16>, start: int, w: Seq<i16>, off: int, v: Seq<i16>)
    requires
        0 <= start,
        start + w.len() <= a.len(),
        0 <= off,
        off + v.len() <= w.len(),
    ensures
        splice(splice(a, start, w), start + off, v) == splice(a, start, splice(w, off, v)),
{
    lemma_splice(a, start, w);
    lemma_splice(splice(a, start, w), start + off, v);
    lemma_splice(w, off, v);
    lemma_splice(a, start, splice(w, off, v));
    assert(splice(splice(a, start, w), start + off, v) =~= splice(a, start, splice(w, off, v)));
}

/// Splicing the two parts of a sequence one after the other gives their concatenation.
pub proof fn lemma_splice_halves(t: Seq<i16>, x: Seq<i16>, y: Seq<i16>)
    requires
        x.len() + y.len() == t.len(),
    ensures
        splice(splice(t, 0, x), x.len() as int, y) == x + y,
{
    lemma_splice(t, 0, x);
    lemma_splice(splice(t, 0, x), x.len() as int, y);
    assert(splice(splice(t, 0, x), x.len() as int, y) =~= x + y);
}

/// Splicing a sequence over its own range changes nothing.
pub proof fn lemma_splice_same(a: Seq<i16>, start: int, len: int)
    requires
        0 <= start,
        0 <= len,
        start + len <= a.len(),
    ensures
        splice(a, start, a.subrange(start, start + len)) == a,
{
    reveal(splice);
    assert(splice(a, start, a.subrange(start, start + len)) =~= a);
}

/// [`inverse_lifting_53`] undoes [`forward_lifting_53`] at every depth: the
/// floor roundings of the CDF 5/3 steps cancel, 16-bit wrapping included.
pub proof fn lemma_lifting_53_roundtrip(s: Seq<i16>, depth: nat)
    ensures
        spec_inverse_dyadic(LiftingFilter::Cdf53, spec_forward_dyadic(LiftingFilter::Cdf53, s, depth), depth) == s,
{
    lemma_inverse_dyadic_of_forward_dyadic(LiftingFilter::Cdf53, s, depth);
}

/// [`inverse_dwt`] undoes [`forward_dwt`] for every filter order and depth.
pub proof fn lemma_dwt_roundtrip(s: Seq<i16>, depth: nat, wavelet_type: u32)
    ensures
        spec_inverse_dyadic(
            LiftingFilter::Interpolating(wavelet_type),
            spec_forward_dyadic(LiftingFilter::Interpolating(wavelet_type), s, depth),
            depth,
        ) == s,
{
    lemma_inverse_dyadic_of_forward_dyadic(LiftingFilter::Interpolating(wavelet_type), s, depth);
}

/// [`inverse_wpd`] undoes [`forward_wpd`] for every filter order and depth.
pub proof fn lemma_wpd_roundtrip(s: Seq<i16>, depth: nat, wavelet_type: u32)
    ensures
        spec_inverse_packet(
            LiftingFilter::Interpolating(wavelet_type),
            spec_forward_packet(LiftingFilter::Interpolating(wavelet_type), s, depth),
            depth,
        ) == s,
{
    lemma_inverse_packet_of_forward_packet(LiftingFilter::Interpolating(wavelet_type), s, depth);
}

/// Largest length of a sample buffer that the lifting transforms handle.
pub const MAX_LIFTING_LEN: usize = 0x3fff_ffff;

/// The even sample at `idx`, mirrored symmetrically at both edges.
pub fn get_even(even: &[i16], idx: i32) -> (res: i32)
    requires
        1 <= even@.len() <= MAX_LIFTING_LEN,
        -0x4000_0000 <= idx <= 0x4000_0003,
    ensures
        res == spec_get_even(even@, idx as int),
{
    let half = even.len() as i32;
    if idx < 0 {
        let k = if -idx - 1 < half - 1 { -idx - 1 } else { half - 1 };
        even[k as usize] as i32
    } else if idx >= half {
        let k = if 2 * half - idx - 1 > 0 { 2 * half - idx - 1 } else { 0 };
        even[k as usize] as i32
    } else {
        even[idx as usize] as i32
    }
}

/// The prediction of the odd sample `i` from the even samples.
pub fn predict(filter: LiftingFilter, even: &[i16], i: usize) -> (res: i32)
    requires
        i < even@.len() <= MAX_LIFTING_LEN,
    ensures
        res == spec_predict(filter, even@, i as int),
{
    reveal(spec_predict);
    let i = i as i32;
    match filter {
        LiftingFilter::Interpolating(order) => {
            if order == 0 {
                let e0 = get_even(even, i);
                let e1 = get_even(even, i + 1);
                (e0 + e1) / 2
            } else if order == 1 {
                let e_prev = get_even(even, i - 1);
                let e0 = get_even(even, i);
                let e1 = get_even(even, i + 1);
                let e_next = get_even(even, i + 2);
                (-e_prev + 9 * e0 + 9 * e1 - e_next + 8) / 16
            } else {
                let e_prev2 = get_even(even, i - 2);
                let e_prev1 = get_even(even, i - 1);
                let e0 = get_even(even, i);
                let e1 = get_even(even, i + 1);
                let e_next1 = get_even(even, i + 2);
                let e_next2 = get_even(even, i + 3);
                (3 * e_prev2 - 25 * e_prev1 + 150 * e0 + 150 * e1 - 25 * e_next1 + 3 * e_next2 + 128) / 256
            }
        },
        LiftingFilter::Cdf53 => {
            let iu = i as usize;
            let left = even[iu] as i32;
            let right = if iu + 1 < even.len() { even[iu + 1] as i32 } else { even[iu] as i32 };
            (left + right) >> 1u32
        },
    }
}

/// The update of the even sample `i` from the detail samples.
pub fn update(filter: LiftingFilter, odd: &[i16], i: usize) -> (res: i32)
    requires
        i < odd@.len(),
    ensures
        res == spec_update(filter, odd@, i as int),
{
    reveal(spec_update);
    let prev = if i > 0 { odd[i - 1] as i32 } else { odd[0] as i32 };
    let curr = odd[i] as i32;
    match filter {
        LiftingFilter::Interpolating(_) => (prev + curr + 2) / 4,
        LiftingFilter::Cdf53 => (prev + curr + 2) >> 2u32,
    }
}

/// One forward lifting level on the samples `a[start..start + len]`.
pub fn forward_step_at(filter: LiftingFilter, a: &mut [i16], start: usize, len: usize)
    requires
        start + len <= old(a)@.len(),
        len <= MAX_LIFTING_LEN,
    ensures
        final(a)@ == splice(
            old(a)@,
            start as int,
            spec_forward_step(filter, old(a)@.subrange(start as int, start + len)),
        ),
{
    let ghost a0 = a@;
    let ghost w = a@.subrange(start as int, start + len);
    let alen = a.len();
    if len < 2 {
        proof { lemma_splice_same(a0, start as int, len as int); }
        return;
    }
    let half = len / 2;
    let mut even: Vec<i16> = Vec::new();
    let mut odd: Vec<i16> = Vec::new();
    for i in 0..half
        invariant
            half == len / 2,
            start + len <= a@.len(),
            alen == a@.len(),
            a@ == a0,
            w == a0.subrange(start as int, start + len),
            even@ == evens(w).subrange(0, i as int),
            odd@ == odds(w).subrange(0, i as int),
    {
        even.push(a[start + 2 * i]);
        odd.push(a[start + 2 * i + 1]);
        assert(even@ =~= evens(w).subrange(0, i + 1));
        assert(odd@ =~= odds(w).subrange(0, i + 1));
    }
    assert(even@ =~= evens(w));
    assert(odd@ =~= odds(w));
    let ghost even0 = even@;
    let ghost odd0 = odd@;
    let ghost detail = predicted_details(filter, even0, odd0);
    for i in 0..half
        invariant
            half == len / 2,
            half <= MAX_LIFTING_LEN,
            even@ == even0,
            even0.len() == half,
            odd@.len() == half,
            odd0.len() == half,
            detail == predicted_details(filter, even0, odd0),
            forall|k: int| 0 <= k < half ==> #[trigger] odd@[k] == (if k < i { detail[k] } else { odd0[k] }),
    {
        let p = predict(filter, even.as_slice(), i);
        let v = odd[i].wrapping_sub(#[verifier::truncate] (p as i16));
        odd.set(i, v);
    }
    assert(odd@ =~= detail);
    let ghost approx = updated_evens(filter, even0, detail);
    for i in 0..half
        invariant
            half == len / 2,
            odd@ == detail,
            detail.len() == half,
            even@.len() == half,
            even0.len() == half,
            approx == updated_evens(filter, even0, detail),
            forall|k: int| 0 <= k < half ==> #[trigger] even@[k] == (if k < i { approx[k] } else { even0[k] }),
    {
        let u = update(filter, odd.as_slice(), i);
        let v = even[i].wrapping_add(#[verifier::truncate] (u as i16));
        even.set(i, v);
    }
    assert(even@ =~= approx);
    let ghost target = spec_forward_step(filter, w);
    for i in 0..half
        invariant
            half == len / 2,
            start + len <= a@.len(),
            alen == a@.len(),
            a@.len() == a0.len(),
            even@ == approx,
            odd@ == detail,
            approx.len() == half,
            detail.len() == half,
            target == spec_forward_step(filter, w),
            w == a0.subrange(start as int, start + len),
            len >= 2,
            forall|k: int| 0 <= k < a@.len() ==> #[trigger] a@[k] == (
                if start <= k < start + i { approx[k - start] }
                else if start + half <= k < start + half + i { detail[k - start - half] }
                else { a0[k] }),
    {
        a[start + i] = even[i];
        a[start + half + i] = odd[i];
    }
    assert(target.len() == len);
    proof { lemma_splice(a0, start as int, target); }
    assert(a@ =~= splice(a0, start as int, target));
}

/// One inverse lifting level on the samples `a[start..start + len]`.
pub fn inverse_step_at(filter: LiftingFilter, a: &mut [i16], start: usize, len: usize)
    requires
        start + len <= old(a)@.len(),
        len <= MAX_LIFTING_LEN,
    ensures
        final(a)@ == splice(
            old(a)@,
            start as int,
            spec_inverse_step(filter, old(a)@.subrange(start as int, start + len)),
        ),
{
    let ghost a0 = a@;
    let ghost w = a@.subrange(start as int, start + len);
    let alen = a.len();
    if len < 2 {
        proof { lemma_splice_same(a0, start as int, len as int); }
        return;
    }
    let half = len / 2;
    let mut even: Vec<i16> = Vec::new();
    let mut odd: Vec<i16> = Vec::new();
    let ghost approx = w.subrange(0, half as int);
    let ghost detail = w.subrange(half as int, 2 * half as int);
    for i in 0..half
        invariant
            half == len / 2,
            start + len <= a@.len(),
            alen == a@.len(),
            a@ == a0,
            w == a0.subrange(start as int, start + len),
            approx == w.subrange(0, half as int),
            detail == w.subrange(half as int, 2 * half as int),
            even@ == approx.subrange(0, i as int),
            odd@ == detail.subrange(0, i as int),
    {
        even.push(a[start + i]);
        odd.push(a[start + half + i]);
        assert(even@ =~= approx.subrange(0, i + 1));
        assert(odd@ =~= detail.subrange(0, i + 1));
    }
    assert(even@ =~= approx);
    assert(odd@ =~= detail);
    let ghost even0 = restored_evens(filter, approx, detail);
    for i in 0..half
        invariant
            half == len / 2,
            odd@ == detail,
            detail.len() == half,
            approx.len() == half,
            even@.len() == half,
            even0 == restored_evens(filter, approx, detail),
            forall|k: int| 0 <= k < half ==> #[trigger] even@[k] == (if k < i { even0[k] } else { approx[k] }),
    {
        let u = update(filter, odd.as_slice(), i);
        let v = even[i].wrapping_sub(#[verifier::truncate] (u as i16));
        even.set(i, v);
    }
    assert(even@ =~= even0);
    let ghost odd0 = restored_odds(filter, even0, detail);
    for i in 0..half
        invariant
            half == len / 2,
            half <= MAX_LIFTING_LEN,
            even@ == even0,
            even0.len() == half,
            odd@.len() == half,
            detail.len() == half,
            odd0 == restored_odds(filter, even0, detail),
            forall|k: int| 0 <= k < half ==> #[trigger] odd@[k] == (if k < i { odd0[k] } else { detail[k] }),
    {
        let p = predict(filter, even.as_slice(), i);
        let v = odd[i].wrapping_add(#[verifier::truncate] (p as i16));
        odd.set(i, v);
    }
    assert(odd@ =~= odd0);
    let ghost target = spec_inverse_step(filter, w);
    for i in 0..half
        invariant
            half == len / 2,
            start + len <= a@.len(),
            alen == a@.len(),
            a@.len() == a0.len(),
            even@ == even0,
            odd@ == odd0,
            even0.len() == half,
            odd0.len() == half,
            target == spec_inverse_step(filter, w),
            w == a0.subrange(start as int, start + len),
            len >= 2,
            forall|k: int| 0 <= k < a@.len() ==> #[trigger] a@[k] == (
                if start <= k < start + 2 * i {
                    if (k - start) % 2 == 0 { even0[(k - start) / 2] } else { odd0[(k - start) / 2] }
                } else { a0[k] }),
    {
        a[start + 2 * i] = even[i];
        a[start + 2 * i + 1] = odd[i];
    }
    assert(target.len() == len);
    proof { lemma_splice(a0, start as int, target); }
    assert(a@ =~= splice(a0, start as int, target));
}

/// Wavelet packet decomposition: one lifting level, then the same
/// decomposition of both halves, `depth` levels deep.
pub open spec fn spec_forward_packet(filter: LiftingFilter, s: Seq<i16>, depth: nat) -> Seq<i16>
    decreases depth,
{
    if depth == 0 || s.len() < 2 {
        s
    } else {
        let t = spec_forward_step(filter, s);
        let half = s.len() / 2;
        spec_forward_packet(filter, t.subrange(0, half as int), (depth - 1) as nat)
            + spec_forward_packet(filter, t.subrange(half as int, s.len() as int), (depth - 1) as nat)
    }
}

/// Inverse of [`spec_forward_packet`]: both halves first, then one inverse level.
pub open spec fn spec_inverse_packet(filter: LiftingFilter, s: Seq<i16>, depth: nat) -> Seq<i16>
    decreases depth,
{
    if depth == 0 || s.len() < 2 {
        s
    } else {
        let half = s.len() / 2;
        spec_inverse_step(
            filter,
            spec_inverse_packet(filter, s.subrange(0, half as int), (depth - 1) as nat)
                + spec_inverse_packet(filter, s.subrange(half as int, s.len() as int), (depth - 1) as nat),
        )
    }
}

/// Dyadic (Mallat) decomposition: one lifting level, then the same
/// decomposition of the approximation half only.
pub open spec fn spec_forward_dyadic(filter: LiftingFilter, s: Seq<i16>, depth: nat) -> Seq<i16>
    decreases depth,
{
    if depth == 0 || s.len() < 2 {
        s
    } else {
        let t = spec_forward_step(filter, s);
        let half = s.len() / 2;
        spec_forward_dyadic(filter, t.subrange(0, half as int), (depth - 1) as nat)
            + t.subrange(half as int, s.len() as int)
    }
}

/// Inverse of [`spec_forward_dyadic`].
pub open spec fn spec_inverse_dyadic(filter: LiftingFilter, s: Seq<i16>, depth: nat) -> Seq<i16>
    decreases depth,
{
    if depth == 0 || s.len() < 2 {
        s
    } else {
        let half = s.len() / 2;
        spec_inverse_step(
            filter,
            spec_inverse_dyadic(filter, s.subrange(0, half as int), (depth - 1) as nat)
                + s.subrange(half as int, s.len() as int),
        )
    }
}

/// The lifting steps keep the number of samples.
pub proof fn lemma_step_lengths(filter: LiftingFilter, s: Seq<i16>)
    ensures
        spec_forward_step(filter, s).len() == s.len(),
        spec_inverse_step(filter, s).len() == s.len(),
{
}

/// The packet decompositions keep the number of samples.
pub proof fn lemma_packet_lengths(filter: LiftingFilter, s: Seq<i16>, depth: nat)
    ensures
        spec_forward_packet(filter, s, depth).len() == s.len(),
        spec_inverse_packet(filter, s, depth).len() == s.len(),
    decreases depth,
{
    if depth > 0 && s.len() >= 2 {
        let t = spec_forward_step(filter, s);
        let half = s.len() / 2;
        lemma_step_lengths(filter, s);
        lemma_packet_lengths(filter, t.subrange(0, half as int), (depth - 1) as nat);
        lemma_packet_lengths(filter, t.subrange(half as int, s.len() as int), (depth - 1) as nat);
        lemma_packet_lengths(filter, s.subrange(0, half as int), (depth - 1) as nat);
        lemma_packet_lengths(filter, s.subrange(half as int, s.len() as int), (depth - 1) as nat);
        lemma_step_lengths(
            filter,
            spec_inverse_packet(filter, s.subrange(0, half as int), (depth - 1) as nat)
                + spec_inverse_packet(filter, s.subrange(half as int, s.len() as int), (depth - 1) as nat),
        );
    }
}

/// The dyadic decompositions keep the number of samples.
pub proof fn lemma_dyadic_lengths(filter: LiftingFilter, s: Seq<i16>, depth: nat)
    ensures
        spec_forward_dyadic(filter, s, depth).len() == s.len(),
        spec_inverse_dyadic(filter, s, depth).len() == s.len(),
    decreases depth,
{
    if depth > 0 && s.len() >= 2 {
        let t = spec_forward_step(filter, s);
        let half = s.len() / 2;
        lemma_step_lengths(filter, s);
        lemma_dyadic_lengths(filter, t.subrange(0, half as int), (depth - 1) as nat);
        lemma_dyadic_lengths(filter, s.subrange(0, half as int), (depth - 1) as nat);
        lemma_step_lengths(
            filter,
            spec_inverse_dyadic(filter, s.subrange(0, half as int), (depth - 1) as nat)
                + s.subrange(half as int, s.len() as int),
        );
    }
}

/// The inverse wavelet packet transform undoes the forward one, for every
/// filter, depth and length.
pub proof fn lemma_inverse_packet_of_forward_packet(filter: LiftingFilter, s: Seq<i16>, depth: nat)
    ensures
        spec_inverse_packet(filter, spec_forward_packet(filter, s, depth), depth) == s,
    decreases depth,
{
    if depth > 0 && s.len() >= 2 {
        let t = spec_forward_step(filter, s);
        let half = s.len() / 2;
        let lo = t.subrange(0, half as int);
        let hi = t.subrange(half as int, s.len() as int);
        let d = (depth - 1) as nat;
        lemma_step_lengths(filter, s);
        lemma_packet_lengths(filter, lo, d);
        lemma_packet_lengths(filter, hi, d);
        let f = spec_forward_packet(filter, lo, d) + spec_forward_packet(filter, hi, d);
        assert(f.subrange(0, half as int) =~= spec_forward_packet(filter, lo, d));
        assert(f.subrange(half as int, f.len() as int) =~= spec_forward_packet(filter, hi, d));
        lemma_inverse_packet_of_forward_packet(filter, lo, d);
        lemma_inverse_packet_of_forward_packet(filter, hi, d);
        assert(lo + hi =~= t);
        lemma_inverse_step_of_forward_step(filter, s);
    }
}

/// The inverse dyadic transform undoes the forward one, for every filter,
/// depth and length.
pub proof fn lemma_inverse_dyadic_of_forward_dyadic(filter: LiftingFilter, s: Seq<i16>, depth: nat)
    ensures
        spec_inverse_dyadic(filter, spec_forward_dyadic(filter, s, depth), depth) == s,
    decreases depth,
{
    if depth > 0 && s.len() >= 2 {
        let t = spec_forward_step(filter, s);
        let half = s.len() / 2;
        let lo = t.subrange(0, half as int);
        let hi = t.subrange(half as int, s.len() as int);
        let d = (depth - 1) as nat;
        lemma_step_lengths(filter, s);
        lemma_dyadic_lengths(filter, lo, d);
        let f = spec_forward_dyadic(filter, lo, d) + hi;
        assert(f.subrange(0, half as int) =~= spec_forward_dyadic(filter, lo, d));
        assert(f.subrange(half as int, f.len() as int) =~= hi);
        lemma_inverse_dyadic_of_forward_dyadic(filter, lo, d);
        assert(lo + hi =~= t);
        lemma_inverse_step_of_forward_step(filter, s);
    }
}

fn forward_packet_at(filter: LiftingFilter, a: &mut [i16], start: usize, len: usize, depth: usize)
    requires
        start + len <= old(a)@.len(),
        len <= MAX_LIFTING_LEN,
    ensures
        final(a)@ == splice(
            old(a)@,
            start as int,
            spec_forward_packet(filter, old(a)@.subrange(start as int, start + len), depth as nat),
        ),
    decreases depth,
{
    let total = a.len();
    let ghost a0 = a@;
    let ghost w = a0.subrange(start as int, start + len);
    if depth == 0 || len < 2 {
        proof { lemma_splice_same(a0, start as int, len as int); }
        return;
    }
    let ghost t = spec_forward_step(filter, w);
    let ghost d = (depth - 1) as nat;
    forward_step_at(filter, a, start, len);
    let half = len / 2;
    let ghost x = spec_forward_packet(filter, t.subrange(0, half as int), d);
    proof {
        lemma_step_lengths(filter, w);
        lemma_splice(a0, start as int, t);
        lemma_splice_part(a0, start as int, t, 0, half as int);
        lemma_packet_lengths(filter, t.subrange(0, half as int), d);
    }
    forward_packet_at(filter, a, start, half, depth - 1);
    let ghost y = spec_forward_packet(filter, t.subrange(half as int, len as int), d);
    proof {
        lemma_splice_twice(a0, start as int, t, 0, x);
        lemma_splice(t, 0, x);
        lemma_splice(a0, start as int, splice(t, 0, x));
        lemma_splice_part(a0, start as int, splice(t, 0, x), half as int, (len - half) as int);
        assert(splice(t, 0, x).subrange(half as int, len as int) =~= t.subrange(half as int, len as int));
        lemma_packet_lengths(filter, t.subrange(half as int, len as int), d);
    }
    assert(start + half <= total);
    forward_packet_at(filter, a, start + half, len - half, depth - 1);
    proof {
        lemma_splice_twice(a0, start as int, splice(t, 0, x), half as int, y);
        lemma_splice_halves(t, x, y);
    }
}

fn inverse_packet_at(filter: LiftingFilter, a: &mut [i16], start: usize, len: usize, depth: usize)
    requires
        start + len <= old(a)@.len(),
        len <= MAX_LIFTING_LEN,
    ensures
        final(a)@ == splice(
            old(a)@,
            start as int,
            spec_inverse_packet(filter, old(a)@.subrange(start as int, start + len), depth as nat),
        ),
    decreases depth,
{
    let total = a.len();
    let ghost a0 = a@;
    let ghost w = a0.subrange(start as int, start + len);
    if depth == 0 || len < 2 {
        proof { lemma_splice_same(a0, start as int, len as int); }
        return;
    }
    let half = len / 2;
    let ghost d = (depth - 1) as nat;
    let ghost lo = w.subrange(0, half as int);
    let ghost hi = w.subrange(half as int, len as int);
    let ghost x = spec_inverse_packet(filter, lo, d);
    let ghost y = spec_inverse_packet(filter, hi, d);
    proof {
        assert(a0.subrange(start as int, start + half) =~= lo);
        lemma_packet_lengths(filter, lo, d);
        lemma_packet_lengths(filter, hi, d);
    }
    inverse_packet_at(filter, a, start, half, depth - 1);
    proof {
        lemma_splice_same(a0, start as int, len as int);
        lemma_splice_twice(a0, start as int, w, 0, x);
        lemma_splice(w, 0, x);
        lemma_splice(a0, start as int, splice(w, 0, x));
        lemma_splice_part(a0, start as int, splice(w, 0, x), half as int, (len - half) as int);
        assert(splice(w, 0, x).subrange(half as int, len as int) =~= hi);
    }
    assert(start + half <= total);
    inverse_packet_at(filter, a, start + half, len - half, depth - 1);
    proof {
        lemma_splice_twice(a0, start as int, splice(w, 0, x), half as int, y);
        lemma_splice_halves(w, x, y);
        lemma_splice(a0, start as int, x + y);
        lemma_step_lengths(filter, x + y);
    }
    inverse_step_at(filter, a, start, len);
    proof {
        lemma_splice_twice(a0, start as int, x + y, 0, spec_inverse_step(filter, x + y));
        lemma_splice(x + y, 0, spec_inverse_step(filter, x + y));
        assert(splice(x + y, 0, spec_inverse_step(filter, x + y)) =~= spec_inverse_step(filter, x + y));
    }
}

fn forward_dyadic_at(filter: LiftingFilter, a: &mut [i16], start: usize, len: usize, depth: usize)
    requires
        start + len <= old(a)@.len(),
        len <= MAX_LIFTING_LEN,
    ensures
        final(a)@ == splice(
            old(a)@,
            start as int,
            spec_forward_dyadic(filter, old(a)@.subrange(start as int, start + len), depth as nat),
        ),
    decreases depth,
{
    let ghost a0 = a@;
    let ghost w = a0.subrange(start as int, start + len);
    if depth == 0 || len < 2 {
        proof { lemma_splice_same(a0, start as int, len as int); }
        return;
    }
    let ghost t = spec_forward_step(filter, w);
    let ghost d = (depth - 1) as nat;
    forward_step_at(filter, a, start, len);
    let half = len / 2;
    let ghost x = spec_forward_dyadic(filter, t.subrange(0, half as int), d);
    proof {
        lemma_step_lengths(filter, w);
        lemma_splice(a0, start as int, t);
        lemma_splice_part(a0, start as int, t, 0, half as int);
        lemma_dyadic_lengths(filter, t.subrange(0, half as int), d);
    }
    forward_dyadic_at(filter, a, start, half, depth - 1);
    proof {
        lemma_splice_twice(a0, start as int, t, 0, x);
        lemma_splice(t, 0, x);
        lemma_splice(t, 0, t.subrange(0, half as int));
        assert(splice(t, 0, x) =~= x + t.subrange(half as int, len as int));
    }
}

fn inverse_dyadic_at(filter: LiftingFilter, a: &mut [i16], start: usize, len: usize, depth: usize)
    requires
        start + len <= old(a)@.len(),
        len <= MAX_LIFTING_LEN,
    ensures
        final(a)@ == splice(
            old(a)@,
            start as int,
            spec_inverse_dyadic(filter, old(a)@.subrange(start as int, start + len), depth as nat),
        ),
    decreases depth,
{
    let ghost a0 = a@;
    let ghost w = a0.subrange(start as int, start + len);
    if depth == 0 || len < 2 {
        proof { lemma_splice_same(a0, start as int, len as int); }
        return;
    }
    let half = len / 2;
    let ghost d = (depth - 1) as nat;
    let ghost lo = w.subrange(0, half as int);
    let ghost hi = w.subrange(half as int, len as int);
    let ghost x = spec_inverse_dyadic(filter, lo, d);
    proof {
        assert(a0.subrange(start as int, start + half) =~= lo);
        lemma_dyadic_lengths(filter, lo, d);
    }
    inverse_dyadic_at(filter, a, start, half, depth - 1);
    proof {
        lemma_splice_same(a0, start as int, len as int);
        lemma_splice_twice(a0, start as int, w, 0, x);
        lemma_splice(w, 0, x);
        assert(splice(w, 0, x) =~= x + hi);
        lemma_splice(a0, start as int, x + hi);
        lemma_step_lengths(filter, x + hi);
    }
    inverse_step_at(filter, a, start, len);
    proof {
        lemma_splice_twice(a0, start as int, x + hi, 0, spec_inverse_step(filter, x + hi));
        lemma_splice(x + hi, 0, spec_inverse_step(filter, x + hi));
        assert(splice(x + hi, 0, spec_inverse_step(filter, x + hi)) =~= spec_inverse_step(filter, x + hi));
    }
}

proof fn lemma_splice_whole(a: Seq<i16>, w: Seq<i16>)
    requires
        w.len() == a.len(),
    ensures
        splice(a, 0, w) == w,
{
    lemma_splice(a, 0, w);
    assert(splice(a, 0, w) =~= w);
}

/// One level of the interpolating lifting transform of order `wavelet_type`:
/// approximations to the first half of `a`, details to the second.
pub fn forward_1d(a: &mut [i16], wavelet_type: u32)
    requires
        old(a)@.len() <= MAX_LIFTING_LEN,
    ensures
        final(a)@ == spec_forward_step(LiftingFilter::Interpolating(wavelet_type), old(a)@),
{
    let ghost a0 = a@;
    let len = a.len();
    forward_step_at(LiftingFilter::Interpolating(wavelet_type), a, 0, len);
    proof {
        assert(a0.subrange(0, len as int) =~= a0);
        lemma_step_lengths(LiftingFilter::Interpolating(wavelet_type), a0);
        lemma_splice_whole(a0, spec_forward_step(LiftingFilter::Interpolating(wavelet_type), a0));
    }
}

/// Inverse of [`forward_1d`].
pub fn inverse_1d(a: &mut [i16], wavelet_type: u32)
    requires
        old(a)@.len() <= MAX_LIFTING_LEN,
    ensures
        final(a)@ == spec_inverse_step(LiftingFilter::Interpolating(wavelet_type), old(a)@),
{
    let ghost a0 = a@;
    let len = a.len();
    inverse_step_at(LiftingFilter::Interpolating(wavelet_type), a, 0, len);
    proof {
        assert(a0.subrange(0, len as int) =~= a0);
        lemma_step_lengths(LiftingFilter::Interpolating(wavelet_type), a0);
        lemma_splice_whole(a0, spec_inverse_step(LiftingFilter::Interpolating(wavelet_type), a0));
    }
}

/// Wavelet packet decomposition of `a`, `depth` levels deep, with the
/// interpolating filter of order `wavelet_type`.
pub fn forward_wpd(a: &mut [i16], depth: usize, wavelet_type: u32)
    requires
        old(a)@.len() <= MAX_LIFTING_LEN,
    ensures
        final(a)@ == spec_forward_packet(LiftingFilter::Interpolating(wavelet_type), old(a)@, depth as nat),
{
    let ghost a0 = a@;
    let len = a.len();
    forward_packet_at(LiftingFilter::Interpolating(wavelet_type), a, 0, len, depth);
    proof {
        assert(a0.subrange(0, len as int) =~= a0);
        lemma_packet_lengths(LiftingFilter::Interpolating(wavelet_type), a0, depth as nat);
        lemma_splice_whole(a0, spec_forward_packet(LiftingFilter::Interpolating(wavelet_type), a0, depth as nat));
    }
}

/// Inverse of [`forward_wpd`].
pub fn inverse_wpd(a: &mut [i16], depth: usize, wavelet_type: u32)
    requires
        old(a)@.len() <= MAX_LIFTING_LEN,
    ensures
        final(a)@ == spec_inverse_packet(LiftingFilter::Interpolating(wavelet_type), old(a)@, depth as nat),
{
    let ghost a0 = a@;
    let len = a.len();
    inverse_packet_at(LiftingFilter::Interpolating(wavelet_type), a, 0, len, depth);
    proof {
        assert(a0.subrange(0, len as int) =~= a0);
        lemma_packet_lengths(LiftingFilter::Interpolating(wavelet_type), a0, depth as nat);
        lemma_splice_whole(a0, spec_inverse_packet(LiftingFilter::Interpolating(wavelet_type), a0, depth as nat));
    }
}

/// Dyadic wavelet transform of `a`, `depth` levels deep, with the
/// interpolating filter of order `wavelet_type`.
pub fn forward_dwt(a: &mut [i16], depth: usize, wavelet_type: u32)
    requires
        old(a)@.len() <= MAX_LIFTING_LEN,
    ensures
        final(a)@ == spec_forward_dyadic(LiftingFilter::Interpolating(wavelet_type), old(a)@, depth as nat),
{
    let ghost a0 = a@;
    let len = a.len();
    forward_dyadic_at(LiftingFilter::Interpolating(wavelet_type), a, 0, len, depth);
    proof {
        assert(a0.subrange(0, len as int) =~= a0);
        lemma_dyadic_lengths(LiftingFilter::Interpolating(wavelet_type), a0, depth as nat);
        lemma_splice_whole(a0, spec_forward_dyadic(LiftingFilter::Interpolating(wavelet_type), a0, depth as nat));
    }
}

/// Inverse of [`forward_dwt`].
pub fn inverse_dwt(a: &mut [i16], depth: usize, wavelet_type: u32)
    requires
        old(a)@.len() <= MAX_LIFTING_LEN,
    ensures
        final(a)@ == spec_inverse_dyadic(LiftingFilter::Interpolating(wavelet_type), old(a)@, depth as nat),
{
    let ghost a0 = a@;
    let len = a.len();
    inverse_dyadic_at(LiftingFilter::Interpolating(wavelet_type), a, 0, len, depth);
    proof {
        assert(a0.subrange(0, len as int) =~= a0);
        lemma_dyadic_lengths(LiftingFilter::Interpolating(wavelet_type), a0, depth as nat);
        lemma_splice_whole(a0, spec_inverse_dyadic(LiftingFilter::Interpolating(wavelet_type), a0, depth as nat));
    }
}

/// Dyadic CDF 5/3 integer lifting transform of `a`, `depth` levels deep.
pub fn forward_lifting_53(a: &mut [i16], depth: usize)
    requires
        old(a)@.len() <= MAX_LIFTING_LEN,
    ensures
        final(a)@ == spec_forward_dyadic(LiftingFilter::Cdf53, old(a)@, depth as nat),
{
    let ghost a0 = a@;
    let len = a.len();
    forward_dyadic_at(LiftingFilter::Cdf53, a, 0, len, depth);
    proof {
        assert(a0.subrange(0, len as int) =~= a0);
        lemma_dyadic_lengths(LiftingFilter::Cdf53, a0, depth as nat);
        lemma_splice_whole(a0, spec_forward_dyadic(LiftingFilter::Cdf53, a0, depth as nat));
    }
}

/// Inverse of [`forward_lifting_53`].
pub fn inverse_lifting_53(a: &mut [i16], depth: usize)
    requires
        old(a)@.len() <= MAX_LIFTING_LEN,
    ensures
        final(a)@ == spec_inverse_dyadic(LiftingFilter::Cdf53, old(a)@, depth as nat),
{
    let ghost a0 = a@;
    let len = a.len();
    inverse_dyadic_at(LiftingFilter::Cdf53, a, 0, len, depth);
    proof {
        assert(a0.subrange(0, len as int) =~= a0);
        lemma_dyadic_lengths(LiftingFilter::Cdf53, a0, depth as nat);
        lemma_splice_whole(a0, spec_inverse_dyadic(LiftingFilter::Cdf53, a0, depth as nat));
    }
}

} // verus!
