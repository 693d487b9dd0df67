//! The seed search: which seeds' shuffles lay a set of items out at observed offsets.
//! A scan tries seeds in order and reports the first that fits; running it in parallel
//! over chunks of the seed space is left to the caller.

use vstd::prelude::*;

use crate::shuffle::{identity, params_for, precompute_params, shuffle_inplace_vec, shuffled, ShuffleParam};

verus! {

/// Where the item at place `k` of `perm` starts: the lengths of the items before it
/// added up, those of 0 or less counted as 0, in wrapping 32-bit arithmetic.
pub open spec fn offset_at(perm: Seq<u32>, lens: Seq<i32>, k: nat) -> i32
    decreases k,
{
    if k == 0 {
        0
    } else {
        let o = offset_at(perm, lens, (k - 1) as nat);
        let ln = lens[perm[k - 1] as int];
        if ln > 0 {
            o.wrapping_add(ln)
        } else {
            o
        }
    }
}

/// The offset table after the first `k` items of `perm` were placed: entry `perm[m]` holds
/// where item `m` of the order starts; entries not yet placed hold 0.
pub open spec fn fill_offsets(perm: Seq<u32>, lens: Seq<i32>, k: nat) -> Seq<i32>
    decreases k,
{
    if k == 0 {
        Seq::new(lens.len(), |i: int| 0i32)
    } else {
        fill_offsets(perm, lens, (k - 1) as nat).update(
            perm[k - 1] as int,
            offset_at(perm, lens, (k - 1) as nat),
        )
    }
}

/// The offset of each item, by its original index, when the items are laid out in the
/// order `perm`.
pub open spec fn layout_offsets(perm: Seq<u32>, lens: Seq<i32>) -> Seq<i32> {
    fill_offsets(perm, lens, perm.len())
}

/// The shuffle from `seed` lays out items of lengths `lens` at the offsets `target_ofs`.
#[verifier::opaque]
pub open spec fn seed_fits(seed: u32, lens: Seq<i32>, target_ofs: Seq<i32>) -> bool {
    layout_offsets(shuffled(seed, lens.len()).0, lens) == target_ofs
}

/// The seed that attempt `a` of a scan from `seed0` tries.
pub open spec fn seed_at(seed0: u32, a: int) -> u32 {
    ((seed0 as int + a) % 0x1_0000_0000) as u32
}

/// `r` is what a scan of the attempts `start..end` from `seed0` finds: the seed of the
/// first attempt that fits, or none where none does.
pub open spec fn scan_outcome(
    r: Option<u32>,
    seed0: u32,
    start: int,
    end: int,
    lens: Seq<i32>,
    target_ofs: Seq<i32>,
) -> bool {
    match r {
        Some(s) => exists|a: int|
            {
                &&& start <= a < end
                &&& s == seed_at(seed0, a)
                &&& #[trigger] seed_fits(seed_at(seed0, a), lens, target_ofs)
                &&& forall|b: int|
                    start <= b < a ==> !#[trigger] seed_fits(seed_at(seed0, b), lens, target_ofs)
            },
        None => forall|a: int|
            start <= a < end ==> !#[trigger] seed_fits(seed_at(seed0, a), lens, target_ofs),
    }
}

/// The offsets of a target layout, in the order of its entries.
pub open spec fn layout_ofs(target: Seq<(i32, i32)>) -> Seq<i32> {
    Seq::new(target.len(), |i: int| target[i].0)
}

/// The lengths of a target layout, in the order of its entries.
pub open spec fn layout_lens(target: Seq<(i32, i32)>) -> Seq<i32> {
    Seq::new(target.len(), |i: int| target[i].1)
}

/// Whether the shuffle from `seed` lays out items of lengths `lens` at the offsets
/// `target_ofs`. `buf` and `ofs_out` are room to work in, of the items' count.
pub fn seed_matches(
    seed: u32,
    params: &Vec<ShuffleParam>,
    lens: &Vec<i32>,
    target_ofs: &Vec<i32>,
    buf: &mut Vec<u32>,
    ofs_out: &mut Vec<i32>,
) -> (r: bool)
    requires
        lens@.len() <= u32::MAX,
        target_ofs@.len() == lens@.len(),
        params_for(params@, lens@.len()),
        old(buf)@.len() == lens@.len(),
        old(ofs_out)@.len() == lens@.len(),
    ensures
        r == seed_fits(seed, lens@, target_ofs@),
        final(buf)@.len() == lens@.len(),
        final(ofs_out)@.len() == lens@.len(),
{
    let n = lens.len();
    let mut i: usize = 0;
    while i < n
        invariant
            i <= n,
            n == lens@.len(),
            n <= u32::MAX,
            buf@.len() == n,
            ofs_out@.len() == n,
            forall|m: int| 0 <= m < i ==> #[trigger] buf@[m] == m as u32,
            forall|m: int| 0 <= m < i ==> #[trigger] ofs_out@[m] == 0,
        decreases n - i,
    {
        buf.set(i, i as u32);
        ofs_out.set(i, 0);
        i += 1;
    }
    assert(buf@ =~= identity(n as nat));
    assert(ofs_out@ =~= fill_offsets(buf@, lens@, 0));
    let _ = shuffle_inplace_vec(seed, buf, params);
    let ghost perm = buf@;
    proof {
        crate::shuffle::lemma_shuffle_is_permutation(seed, n as nat);
        assert(ofs_out@ =~= fill_offsets(perm, lens@, 0));
    }

    let mut ofs: i32 = 0;
    let mut k: usize = 0;
    while k < n
        invariant
            k <= n,
            n == lens@.len(),
            n <= u32::MAX,
            perm == buf@,
            crate::shuffle::is_permutation(perm, n as nat),
            ofs_out@ == fill_offsets(perm, lens@, k as nat),
            ofs_out@.len() == n,
            ofs == offset_at(perm, lens@, k as nat),
        decreases n - k,
    {
        let orig = buf[k] as usize;
        ofs_out.set(orig, ofs);
        let ln = lens[orig];
        if ln > 0 {
            ofs = ofs.wrapping_add(ln);
        }
        k += 1;
    }
    assert(perm.len() == n);
    let mut ok = true;
    let mut i0: usize = 0;
    while i0 < n
        invariant_except_break
            ok,
        invariant
            i0 <= n,
            n == lens@.len(),
            ofs_out@.len() == n,
            target_ofs@.len() == n,
            forall|m: int| 0 <= m < i0 ==> #[trigger] ofs_out@[m] == target_ofs@[m],
        ensures
            ok == (ofs_out@ =~= target_ofs@),
        decreases n - i0,
    {
        if ofs_out[i0] != target_ofs[i0] {
            ok = false;
            break;
        }
        i0 += 1;
    }
    proof {
        reveal(seed_fits);
    }
    ok
}

/// Tries the attempts `start..end` in order, attempt `a` with seed `seed0 + a` (modulo
/// 2^32), and returns the seed of the first whose shuffle lays out items of lengths
/// `lens` at the offsets `target_ofs`, or `None` where none does.
pub fn scan_seeds(
    seed0: u32,
    start: u64,
    end: u64,
    params: &Vec<ShuffleParam>,
    lens: &Vec<i32>,
    target_ofs: &Vec<i32>,
) -> (r: Option<u32>)
    requires
        end <= 0x1_0000_0000,
        lens@.len() <= u32::MAX,
        target_ofs@.len() == lens@.len(),
        params_for(params@, lens@.len()),
    ensures
        scan_outcome(r, seed0, start as int, end as int, lens@, target_ofs@),
{
    let n = lens.len();
    let mut buf: Vec<u32> = vec![0u32; n];
    let mut ofs_out: Vec<i32> = vec![0i32; n];
    let mut a: u64 = start;
    while a < end
        invariant
            start <= a,
            end <= 0x1_0000_0000,
            lens@.len() <= u32::MAX,
            target_ofs@.len() == lens@.len(),
            params_for(params@, lens@.len()),
            buf@.len() == lens@.len(),
            ofs_out@.len() == lens@.len(),
            forall|b: int| start <= b < a ==> !#[trigger] seed_fits(seed_at(seed0, b), lens@, target_ofs@),
        decreases end - a,
    {
        let seed = seed0.wrapping_add(a as u32);
        assert(seed == seed_at(seed0, a as int));
        if seed_matches(seed, params, lens, target_ofs, &mut buf, &mut ofs_out) {
            assert(seed_fits(seed_at(seed0, a as int), lens@, target_ofs@));
            return Some(seed);
        }
        a += 1;
    }
    None
}

/// Splits a layout into its offsets and its lengths.
pub fn split_layout(target: &Vec<(i32, i32)>) -> (r: (Vec<i32>, Vec<i32>))
    ensures
        r.0@ == layout_ofs(target@),
        r.1@ == layout_lens(target@),
{
    let mut ofs: Vec<i32> = Vec::with_capacity(target.len());
    let mut lens: Vec<i32> = Vec::with_capacity(target.len());
    let mut i: usize = 0;
    while i < target.len()
        invariant
            i <= target@.len(),
            ofs@ =~= layout_ofs(target@).take(i as int),
            lens@ =~= layout_lens(target@).take(i as int),
        decreases target@.len() - i,
    {
        ofs.push(target[i].0);
        lens.push(target[i].1);
        i += 1;
    }
    assert(ofs@ =~= layout_ofs(target@));
    assert(lens@ =~= layout_lens(target@));
    (ofs, lens)
}

/// The first seed, in the order `seed0, seed0 + 1, ...` (modulo 2^32) through all 2^32
/// of them, whose shuffle lays the entries of `target` out at their offsets, the
/// lengths being those of `target`; `None` where no seed does.
pub fn find_seed_for_layout(target: &Vec<(i32, i32)>, seed0: u32) -> (r: Option<u32>)
    requires
        target@.len() <= u32::MAX,
    ensures
        scan_outcome(r, seed0, 0, 0x1_0000_0000, layout_lens(target@), layout_ofs(target@)),
{
    let n = target.len();
    let params = precompute_params(n);
    let (target_ofs, lens) = split_layout(target);
    scan_seeds(seed0, 0, 0x1_0000_0000, &params, &lens, &target_ofs)
}

/// A scan finds what is there: where some attempt of the range lays the items out at the
/// target offsets, the scan returns a seed, and that seed lays them out there too.
pub proof fn lemma_scan_sound(
    r: Option<u32>,
    seed0: u32,
    start: int,
    end: int,
    lens: Seq<i32>,
    target_ofs: Seq<i32>,
    a: int,
)
    requires
        scan_outcome(r, seed0, start, end, lens, target_ofs),
        start <= a < end,
        seed_fits(seed_at(seed0, a), lens, target_ofs),
    ensures
        r is Some,
        seed_fits(r->0, lens, target_ofs),
{
    if r is None {
        assert(!seed_fits(seed_at(seed0, a), lens, target_ofs));
    }
}

/// A scan reports nothing false: where no attempt of the range lays the items out at the
/// target offsets, the scan returns `None`.
pub proof fn lemma_scan_exhaustive(
    r: Option<u32>,
    seed0: u32,
    start: int,
    end: int,
    lens: Seq<i32>,
    target_ofs: Seq<i32>,
)
    requires
        scan_outcome(r, seed0, start, end, lens, target_ofs),
        forall|a: int| start <= a < end ==> !#[trigger] seed_fits(seed_at(seed0, a), lens, target_ofs),
    ensures
        r is None,
{
}

} // verus!
