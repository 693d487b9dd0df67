//! The engine's linear-congruential generator and the shuffle it drives: each step draws
//! an unbiased index by rejection, from one or more concatenated 15-bit draws.

use vstd::prelude::*;

verus! {

/// Multiplier of the legacy linear-congruential generator.
pub const LCG_MUL: u32 = 214013;

/// Increment of the legacy linear-congruential generator.
pub const LCG_ADD: u32 = 2531011;

/// Largest value of one draw: draws are 15 bits wide.
pub const RAND15_MAX: u32 = 0x7FFF;

/// How many more times one step of the shuffle draws after its first attempt before it
/// takes the last value drawn as it is. The generator runs through all 2^32 states before
/// it repeats, so within 2^32 attempts every attempt that the step could ever make has been
/// made: a step that accepts nothing by then never would, and the bound only gives the
/// loop an end.
pub const DRAW_ATTEMPTS: u64 = 0x1_0000_0000;

/// The generator's next state: `x * 214013 + 2531011` modulo 2^32.
pub open spec fn lcg_next(x: u32) -> u32 {
    ((x as int * 214013 + 2531011) % 0x1_0000_0000) as u32
}

/// The 15-bit value that a state yields: bits 16 to 30.
pub open spec fn rand15_of(x: u32) -> u32 {
    (x >> 16) & 0x7FFF
}

/// The generator's next state.
pub fn msvc_next(x: u32) -> (r: u32)
    ensures
        r == lcg_next(x),
{
    let m = x.wrapping_mul(LCG_MUL);
    let r = m.wrapping_add(LCG_ADD);
    proof {
        let a = x as int * 214013;
        vstd::arithmetic::div_mod::lemma_add_mod_noop(a, 2531011, 0x1_0000_0000);
        assert(m as int == a % 0x1_0000_0000);
    }
    r
}

/// Advances the state and returns the 15-bit value of the new state.
pub fn msvc_rand15(x: &mut u32) -> (r: u32)
    ensures
        *final(x) == lcg_next(*old(x)),
        r == rand15_of(*final(x)),
{
    *x = msvc_next(*x);
    (*x >> 16) & 0x7FFF
}

/// What one step of the shuffle, the one that draws an index below `iu`, needs to know:
/// how many 15-bit draws make up one value, and the quotient and remainder of the
/// largest such value by `iu`, which decide whether a value is accepted.
#[derive(Clone, Copy)]
pub struct ShuffleParam {
    pub iu: u32,
    pub chunks: u32,
    pub q1: u32,
    pub r1: u32,
}

/// How many 15-bit draws it takes to reach `iu - 1`: one value is the draws
/// concatenated, at most 32 bits.
pub open spec fn chunks_for(iu: u32) -> u32 {
    if iu - 1 <= 0x7FFF {
        1
    } else if iu - 1 <= 0x3FFF_FFFF {
        2
    } else {
        3
    }
}

/// The largest value of `chunks_for(iu)` concatenated draws.
pub open spec fn mask_for(iu: u32) -> u32 {
    if chunks_for(iu) == 1 {
        0x7FFF
    } else if chunks_for(iu) == 2 {
        0x3FFF_FFFF
    } else {
        0xFFFF_FFFF
    }
}

/// The parameters of the step that draws an index below `iu`.
pub open spec fn param_for(iu: u32) -> ShuffleParam {
    ShuffleParam {
        iu,
        chunks: chunks_for(iu),
        q1: mask_for(iu) / iu,
        r1: mask_for(iu) % iu,
    }
}

/// `params` holds the parameters of the steps of a shuffle of `n` items, for `i` in
/// `2..=n`, in that order.
pub open spec fn params_for(params: Seq<ShuffleParam>, n: nat) -> bool {
    &&& params.len() == (if n < 2 {
        0
    } else {
        n - 1
    })
    &&& forall|k: int| 0 <= k < params.len() ==> #[trigger] params[k] == param_for((k + 2) as u32)
}

/// The parameters of the steps of a shuffle of `n` items: one for each `i` in `2..=n`.
pub fn precompute_params(n: usize) -> (r: Vec<ShuffleParam>)
    requires
        n <= u32::MAX,
    ensures
        params_for(r@, n as nat),
{
    if n < 2 {
        return Vec::new();
    }
    let maxv: u32 = RAND15_MAX;
    let mut out: Vec<ShuffleParam> = Vec::with_capacity(n - 1);
    let mut k: usize = 0;
    while k < n - 1
        invariant
            2 <= n <= u32::MAX,
            k <= n - 1,
            maxv == 0x7FFF,
            out@.len() == k,
            forall|m: int| 0 <= m < out@.len() ==> #[trigger] out@[m] == param_for((m + 2) as u32),
        decreases n - 1 - k,
    {
        let iu = (k + 2) as u32;
        let mut mask: u32 = 0;
        let mut chunks: u32 = 0;
        while mask < iu - 1 && mask != u32::MAX
            invariant
                iu >= 2,
                maxv == 0x7FFF,
                chunks <= 3,
                chunks == 0 ==> mask == 0,
                chunks == 1 ==> mask == 0x7FFF,
                chunks == 2 ==> mask == 0x3FFF_FFFF,
                chunks == 3 ==> mask == 0xFFFF_FFFF,
                chunks <= chunks_for(iu),
            decreases 3 - chunks,
        {
            assert(mask == 0 ==> (mask << 15) | 0x7FFF == 0x7FFF) by (bit_vector);
            assert(mask == 0x7FFF ==> (mask << 15) | 0x7FFF == 0x3FFF_FFFF) by (bit_vector);
            assert(mask == 0x3FFF_FFFF ==> (mask << 15) | 0x7FFF == 0xFFFF_FFFF) by (bit_vector);
            mask = (mask << 15) | maxv;
            chunks += 1;
        }
        let q1 = mask / iu;
        let r1 = mask % iu;
        out.push(ShuffleParam { iu, chunks, q1, r1 });
        k += 1;
    }
    out
}

/// `chunks` draws from state `x`, each shifted in below the ones before, 32 bits kept:
/// the value and the state after them.
pub open spec fn draw_bits(x: u32, chunks: nat) -> (u32, u32)
    decreases chunks,
{
    if chunks == 0 {
        (0, x)
    } else {
        let (rnd, y) = draw_bits(x, (chunks - 1) as nat);
        let z = lcg_next(y);
        (((rnd << 15) | rand15_of(z)) as u32, z)
    }
}

/// A drawn value can stand for an index below `p.iu` without bias.
pub open spec fn accepted(rnd: u32, p: ShuffleParam) -> bool {
    rnd / p.iu < p.q1 || p.r1 == p.iu - 1
}

/// The index below `p.iu` that the step draws from state `x`, and the state after: values
/// are drawn until one is accepted, with `fuel` more attempts allowed after this one.
pub open spec fn pick(x: u32, p: ShuffleParam, fuel: nat) -> (u32, u32)
    decreases fuel,
{
    let (rnd, y) = draw_bits(x, p.chunks as nat);
    if accepted(rnd, p) || fuel == 0 {
        (rnd % p.iu, y)
    } else {
        pick(y, p, (fuel - 1) as nat)
    }
}

/// `a` with the items at `p` and `q` exchanged.
pub open spec fn swap_at(a: Seq<u32>, p: int, q: int) -> Seq<u32> {
    a.update(p, a[q]).update(q, a[p])
}

/// The first `k` steps of the shuffle from state `x`: step `i` (from 2) exchanges item
/// `i - 1` with the item at the index that it draws below `i`.
pub open spec fn shuffle_steps(a: Seq<u32>, x: u32, k: nat) -> (Seq<u32>, u32)
    decreases k,
{
    if k == 0 {
        (a, x)
    } else {
        let (b, y) = shuffle_steps(a, x, (k - 1) as nat);
        let (j, z) = pick(y, param_for((k + 1) as u32), DRAW_ATTEMPTS as nat);
        (swap_at(b, k as int, j as int), z)
    }
}

/// The number of steps of a shuffle of `n` items.
pub open spec fn step_count(n: nat) -> nat {
    if n < 2 {
        0
    } else {
        (n - 1) as nat
    }
}

/// `0, 1, ..., n - 1`.
pub open spec fn identity(n: nat) -> Seq<u32> {
    Seq::new(n, |i: int| i as u32)
}

/// The order that a shuffle of `0..n` from `seed` gives, and the generator's state after.
pub open spec fn shuffled(seed: u32, n: nat) -> (Seq<u32>, u32) {
    shuffle_steps(identity(n), seed, step_count(n))
}

/// `a` holds each of `0..n` once.
pub open spec fn is_permutation(a: Seq<u32>, n: nat) -> bool {
    &&& a.len() == n
    &&& forall|i: int| 0 <= i < n ==> #[trigger] a[i] < n
    &&& forall|i: int, j: int| 0 <= i < j < n ==> #[trigger] a[i] != #[trigger] a[j]
}

proof fn lemma_pick_below(x: u32, p: ShuffleParam, fuel: nat)
    requires
        p.iu >= 1,
    ensures
        pick(x, p, fuel).0 < p.iu,
    decreases fuel,
{
    let (rnd, y) = draw_bits(x, p.chunks as nat);
    if !(accepted(rnd, p) || fuel == 0) {
        lemma_pick_below(y, p, (fuel - 1) as nat);
    }
}

/// Draws the index for one step: values are drawn until one is accepted.
fn draw_index(x: &mut u32, p: &ShuffleParam) -> (j: u32)
    requires
        p.iu >= 2,
        p.chunks <= 3,
    ensures
        (j, *final(x)) == pick(*old(x), *p, DRAW_ATTEMPTS as nat),
{
    let iu = p.iu;
    let mut attempts: u64 = 0;
    loop
        invariant
            attempts <= DRAW_ATTEMPTS,
            iu == p.iu,
            p.iu >= 2,
            pick(*x, *p, (DRAW_ATTEMPTS - attempts) as nat) == pick(
                *old(x),
                *p,
                DRAW_ATTEMPTS as nat,
            ),
        decreases DRAW_ATTEMPTS - attempts,
    {
        let ghost x0 = *x;
        let mut rnd: u32 = 0;
        let mut c: u32 = 0;
        while c < p.chunks
            invariant
                c <= p.chunks,
                (rnd, *x) == draw_bits(x0, c as nat),
            decreases p.chunks - c,
        {
            let r = msvc_rand15(x);
            rnd = (rnd << 15) | r;
            c += 1;
        }
        let q2 = rnd / iu;
        let r2 = rnd % iu;
        if q2 < p.q1 || p.r1 == iu - 1 || attempts == DRAW_ATTEMPTS {
            return r2;
        }
        attempts += 1;
    }
}

/// Runs the steps of the shuffle on `a` from state `x0`, one for each entry of `params`,
/// and returns the state after them. A list of fewer than two items stays as it is.
pub fn shuffle_inplace_vec(x0: u32, a: &mut Vec<u32>, params: &Vec<ShuffleParam>) -> (r: u32)
    requires
        old(a)@.len() <= u32::MAX,
        params_for(params@, old(a)@.len()),
    ensures
        (final(a)@, r) == shuffle_steps(old(a)@, x0, step_count(old(a)@.len())),
{
    let mut x = x0;
    if a.len() < 2 {
        return x;
    }
    let mut k: usize = 0;
    while k < params.len()
        invariant
            k <= params@.len(),
            params@.len() == a@.len() - 1,
            a@.len() == old(a)@.len(),
            a@.len() <= u32::MAX,
            params_for(params@, old(a)@.len()),
            (a@, x) == shuffle_steps(old(a)@, x0, k as nat),
        decreases params@.len() - k,
    {
        let p = params[k];
        assert(p == param_for((k + 2) as u32));
        let j = draw_index(&mut x, &p);
        proof {
            lemma_pick_below(shuffle_steps(old(a)@, x0, k as nat).1, p, DRAW_ATTEMPTS as nat);
        }
        let ii = k + 1;
        let ju = j as usize;
        if ii != ju {
            let t = a[ii];
            let u = a[ju];
            a.set(ii, u);
            a.set(ju, t);
        }
        proof {
            assert(a@ =~= swap_at(shuffle_steps(old(a)@, x0, k as nat).0, ii as int, ju as int));
        }
        k += 1;
    }
    x
}

proof fn lemma_steps_permute(n: nat, x: u32, k: nat)
    requires
        k <= step_count(n),
        n <= u32::MAX,
    ensures
        is_permutation(shuffle_steps(identity(n), x, k).0, n),
    decreases k,
{
    if k == 0 {
        assert(is_permutation(identity(n), n));
    } else {
        lemma_steps_permute(n, x, (k - 1) as nat);
        let (b, y) = shuffle_steps(identity(n), x, (k - 1) as nat);
        let p = param_for((k + 1) as u32);
        lemma_pick_below(y, p, DRAW_ATTEMPTS as nat);
        let j = pick(y, p, DRAW_ATTEMPTS as nat).0;
        let c = swap_at(b, k as int, j as int);
        assert forall|i1: int, i2: int| 0 <= i1 < i2 < n implies #[trigger] c[i1] != #[trigger] c[i2] by {
            let s1 = if i1 == k { j as int } else if i1 == j { k as int } else { i1 };
            let s2 = if i2 == k { j as int } else if i2 == j { k as int } else { i2 };
            assert(c[i1] == b[s1]);
            assert(c[i2] == b[s2]);
            if s1 < s2 {
                assert(b[s1] != b[s2]);
            } else {
                assert(b[s2] != b[s1]);
            }
        }
    }
}

/// A shuffle of `0..n` from `seed`: the order it gives, and the generator's state after.
pub fn shuffle(seed: u32, n: usize) -> (r: (Vec<u32>, u32))
    requires
        n <= u32::MAX,
    ensures
        (r.0@, r.1) == shuffled(seed, n as nat),
        is_permutation(r.0@, n as nat),
{
    let mut a: Vec<u32> = Vec::with_capacity(n);
    let mut i: usize = 0;
    while i < n
        invariant
            i <= n,
            n <= u32::MAX,
            a@ =~= identity(i as nat),
        decreases n - i,
    {
        a.push(i as u32);
        i += 1;
    }
    let params = precompute_params(n);
    let x = shuffle_inplace_vec(seed, &mut a, &params);
    proof {
        lemma_steps_permute(n as nat, seed, step_count(n as nat));
    }
    (a, x)
}

/// A shuffle is a function of its seed and length: two shuffles from the same seed and of
/// the same length give the same order and leave the generator in the same state.
pub proof fn lemma_shuffle_deterministic(seed: u32, n: nat, r1: (Seq<u32>, u32), r2: (Seq<u32>, u32))
    requires
        r1 == shuffled(seed, n),
        r2 == shuffled(seed, n),
    ensures
        r1 == r2,
{
}

/// A shuffle of `0..n` holds each of `0..n` exactly once.
pub proof fn lemma_shuffle_is_permutation(seed: u32, n: nat)
    requires
        n <= u32::MAX,
    ensures
        is_permutation(shuffled(seed, n).0, n),
{
    lemma_steps_permute(n, seed, step_count(n));
}

} // verus!
