//! Streaming weighted reservoir sampling.
//!
//! One pass over `(item, weight)` pairs keeps up to `k` items. Every item
//! draws a random priority — an approximately exponential variate divided by
//! `weight + 1` — and the `k` smallest priorities survive. Higher weight
//! lowers the expected priority, so heavier items are kept more often, while
//! the `+ 1` keeps zero-weight items from being starved forever. The
//! contracts pin down the sample's size and membership; which eligible items
//! are picked is up to the random draws.

use vstd::prelude::*;

verus! {

/// The items of a weighted sequence, in order.
pub open spec fn firsts<T>(s: Seq<(T, u64)>) -> Seq<T> {
    s.map_values(|p: (T, u64)| p.0)
}

/// ln 2 in 32-bit fixed point.
const LN2_Q32: u64 = 2977044472;

/// The base-2 logarithm of `v` in 32-bit fixed point, by mantissa squaring.
fn log2_q32(v: u64) -> (r: u64)
    requires
        v >= 1,
    ensures
        r < 0x4000000000u64,
{
    let mut e: u32 = 0;
    while e < 63 && (v >> (e + 1)) > 0
        invariant
            e <= 63,
        decreases 63 - e,
    {
        e += 1;
    }
    let mut m: u64 = v << (63 - e);
    let mut frac: u64 = 0;
    let mut t: u32 = 0;
    proof {
        assert(0u64 < (1u64 << 0u32)) by (bit_vector);
    }
    while t < 32
        invariant
            t <= 32,
            frac < (1u64 << t),
        decreases 32 - t,
    {
        proof {
            assert((m as u128) * (m as u128) <= 0xffffffffffffffffu128 * 0xffffffffffffffffu128)
                by (nonlinear_arith)
                requires
                    (m as u128) <= 0xffffffffffffffffu128,
            ;
        }
        let mm: u128 = (m as u128) * (m as u128);
        let ghost f0 = frac;
        if (mm >> 127) > 0 {
            m = #[verifier::truncate] ((mm >> 64) as u64);
            frac = (frac << 1) | 1;
        } else {
            m = #[verifier::truncate] ((mm >> 63) as u64);
            frac = frac << 1;
        }
        proof {
            assert(((f0 << 1) | 1) < (1u64 << ((t + 1) as u32)) && (f0 << 1) < (1u64 << ((
            t + 1) as u32))) by (bit_vector)
                requires
                    t < 32,
                    f0 < (1u64 << t),
            ;
        }
        t += 1;
    }
    let ghost e64 = e as u64;
    proof {
        assert(((e64 << 32) as u64) + frac < 0x4000000000u64 && ((e as u64) << 32) == (e64
            << 32)) by (bit_vector)
            requires
                e64 <= 63,
                frac < (1u64 << 32),
                e64 == e as u64,
        ;
    }
    ((e as u64) << 32) + frac
}

/// The priority a random draw gives an item of the given weight: an
/// approximately exponential variate in 64-bit fixed point, divided by
/// `weight + 1`. Smaller priorities are kept in preference to larger ones.
fn priority_from(draw: u64, weight: u64) -> (r: u128) {
    if draw == u64::MAX {
        return 0;
    }
    let v: u64 = draw + 1;
    let l = log2_q32(v);
    let d: u64 = 0x4000000000u64 - l;
    proof {
        assert((d as u128) * (LN2_Q32 as u128) <= 0x4000000000u128 * 0x100000000u128)
            by (nonlinear_arith)
            requires
                (d as u128) <= 0x4000000000u128,
                (LN2_Q32 as u128) <= 0x100000000u128,
        ;
    }
    let prod: u128 = (d as u128) * (LN2_Q32 as u128);
    let e_q32: u128 = prod >> 32;
    let num: u128 = e_q32 << 32;
    num / ((weight as u128) + 1)
}

/// Select up to `k` of the given items, weighted and without replacement:
/// the result has exactly `min(k, n)` entries, every entry is one of the
/// given items, no input position is used twice, and when `k` covers the
/// whole input every item is returned.
#[verifier::loop_isolation(false)]
pub fn weighted_sample<T: Copy>(items: &Vec<(T, u64)>, k: usize) -> (r: Vec<T>)
    ensures
        k <= items@.len() ==> r@.len() == k,
        k > items@.len() ==> r@.len() == items@.len(),
        forall|j: int| 0 <= j < r@.len() ==> firsts(items@).contains(#[trigger] r@[j]),
        firsts(items@).no_duplicates() ==> r@.no_duplicates(),
        k >= items@.len() ==> forall|idx: int|
            0 <= idx < items@.len() ==> r@.contains(#[trigger] firsts(items@)[idx]),
{
    let n = items.len();
    if k == 0 {
        let r: Vec<T> = Vec::new();
        return r;
    }
    let mut res: Vec<(T, u128)> = Vec::new();
    let ghost mut src: Seq<int> = Seq::empty();
    let mut i: usize = 0;
    while i < n
        invariant
            0 <= i <= n,
            res@.len() == src.len(),
            res@.len() == if i <= k {
                i as int
            } else {
                k as int
            },
            forall|j: int| 0 <= j < src.len() ==> 0 <= #[trigger] src[j] < i,
            forall|j1: int, j2: int| 0 <= j1 < j2 < src.len() ==> src[j1] != src[j2],
            forall|j: int| 0 <= j < src.len() ==> res@[j].0 == items@[#[trigger] src[j]].0,
            i <= k ==> src =~= Seq::new(i as nat, |j: int| j),
        decreases n - i,
    {
        let draw: u64 = rand::random::<u64>();
        let pr = priority_from(draw, items[i].1);
        if res.len() < k {
            res.push((items[i].0, pr));
            proof {
                src = src.push(i as int);
                if i + 1 <= k {
                    assert(src =~= Seq::new((i + 1) as nat, |j: int| j));
                }
            }
        } else {
            let mut mx: usize = 0;
            let mut t: usize = 1;
            while t < res.len()
                invariant
                    res@.len() > 0,
                    mx < res@.len(),
                    1 <= t <= res@.len(),
                    forall|j: int| 0 <= j < t ==> res@[j].1 <= res@[mx as int].1,
                decreases res@.len() - t,
            {
                if res[t].1 > res[mx].1 {
                    mx = t;
                }
                t += 1;
            }
            if pr < res[mx].1 {
                res[mx] = (items[i].0, pr);
                proof {
                    src = src.update(mx as int, i as int);
                }
            }
        }
        i += 1;
    }
    let mut out: Vec<T> = Vec::new();
    let mut j: usize = 0;
    while j < res.len()
        invariant
            0 <= j <= res@.len(),
            out@.len() == j,
            forall|q: int| 0 <= q < j ==> out@[q] == res@[q].0,
        decreases res@.len() - j,
    {
        out.push(res[j].0);
        j += 1;
    }
    proof {
        let fs = firsts(items@);
        assert(fs.len() == items@.len());
        assert forall|q: int| 0 <= q < out@.len() implies fs.contains(#[trigger] out@[q]) by {
            assert(out@[q] == items@[src[q]].0);
            assert(fs[src[q]] == items@[src[q]].0);
        }
        if fs.no_duplicates() {
            assert forall|j1: int, j2: int| 0 <= j1 < j2 < out@.len() implies out@[j1]
                != out@[j2] by {
                assert(out@[j1] == fs[src[j1]] && out@[j2] == fs[src[j2]]);
                assert(src[j1] != src[j2]);
            }
        }
        if k >= n {
            assert forall|idx: int| 0 <= idx < items@.len() implies out@.contains(
                #[trigger] fs[idx],
            ) by {
                assert(src[idx] == idx);
                assert(out@[idx] == items@[idx].0);
            }
        }
    }
    out
}

} // verus!
