//! The LZSS stream format and its codec: `pack` searches the sliding window with a
//! binary tree for the longest match ahead, `unpack` decodes leniently up to the size the
//! header gives, and what `pack` writes `unpack` reads back.

use vstd::prelude::*;

use crate::match_tree::{back_offset, find_steps, initial_links, FindState, LzssTreeFind};

verus! {

/// Number of bits of a match token that hold the window offset.
pub const INDEX_BITS: usize = 12;

/// Number of bits of a match token that hold the match length.
pub const LENGTH_BITS: usize = 4;

/// Longest match length for which a literal is at least as cheap.
pub const BREAK_EVEN: usize = 1;

/// Longest match the encoder may emit: `2^LENGTH_BITS + BREAK_EVEN`.
pub const LOOK_AHEAD: usize = 17;

/// Size of the sliding window: `2^INDEX_BITS`.
pub const WINDOW_SIZE: usize = 4096;

/// The little-endian 32-bit value stored in `b[at..at + 4]`.
pub open spec fn le_u32(b: Seq<u8>, at: int) -> int {
    b[at] as int + 256 * b[at + 1] as int + 65536 * b[at + 2] as int + 16777216 * b[at + 3] as int
}

fn read_le_u32(b: &[u8], at: usize) -> (r: u32)
    requires
        at <= 4,
        8 <= b@.len(),
    ensures
        r as int == le_u32(b@, at as int),
{
    (b[at] as u32) + (b[at + 1] as u32) * 256 + (b[at + 2] as u32) * 65536 + (b[at + 3] as u32) * 16777216
}

} // verus!

verus! {

/// Appends the bytes of a back-reference to `out`: for `j` in `from..ln` the byte at
/// `st + j` is copied, one at a time, so a source that overlaps what is being written
/// repeats it. A source index outside what exists is skipped; copying stops once
/// `org` bytes are out.
pub open spec fn copy_back(out: Seq<u8>, st: int, from: nat, ln: nat, org: nat) -> Seq<u8>
    decreases ln - from,
{
    if from >= ln || out.len() >= org {
        out
    } else {
        let idx = st + from;
        let next = if 0 <= idx < out.len() {
            out.push(out[idx])
        } else {
            out
        };
        copy_back(next, st, from + 1, ln, org)
    }
}

/// What the decoder produces from the stream `s`, reading at `si`, with `left` units of
/// the current block still governed by the flag bits `fl` (lowest bit first), having
/// produced `out` so far, and stopping once `org` bytes are out.
///
/// A new block begins with its flag byte. A set bit is a literal: the next byte, if
/// there is one. A clear bit is a back-reference: two bytes forming the little-endian
/// token `offset * 16 + (length - 2)`; where the stream holds less than two bytes the
/// block ends. The stream ends when it is read through.
pub open spec fn decode_from(s: Seq<u8>, si: nat, left: nat, fl: u8, out: Seq<u8>, org: nat) -> Seq<u8>
    decreases s.len() - si, left,
{
    if out.len() >= org {
        out
    } else if left == 0 {
        if si < s.len() {
            decode_from(s, si + 1, 8, s[si as int], out, org)
        } else {
            out
        }
    } else if fl & 1 != 0 {
        if si < s.len() {
            decode_from(s, si + 1, (left - 1) as nat, fl >> 1, out.push(s[si as int]), org)
        } else {
            decode_from(s, si, (left - 1) as nat, fl >> 1, out, org)
        }
    } else if si + 1 >= s.len() {
        decode_from(s, si, 0, 0, out, org)
    } else {
        let tok = s[si as int] as int + 256 * s[si + 1 as int] as int;
        let out2 = copy_back(out, out.len() - tok / 16, 0, (tok % 16 + 2) as nat, org);
        decode_from(s, si + 2, (left - 1) as nat, fl >> 1, out2, org)
    }
}

/// The result of decompressing `s`: nothing where the 8-byte header is missing,
/// else the body decoded up to the original size that the header gives.
pub open spec fn unpacked(s: Seq<u8>) -> Seq<u8> {
    if s.len() < 8 {
        seq![]
    } else {
        decode_from(s, 8, 0, 0, seq![], le_u32(s, 4) as nat)
    }
}

proof fn lemma_token_bits(lo: usize, hi: usize)
    requires
        lo < 256,
        hi < 256,
    ensures
        (lo | (hi << 8)) == lo + 256 * hi,
        (lo | (hi << 8)) >> 4 == (lo + 256 * hi) / 16,
        (lo | (hi << 8)) & 0xF == (lo + 256 * hi) % 16,
{
    assert((lo | (hi << 8)) == lo + 256 * hi) by (bit_vector)
        requires lo < 256, hi < 256;
    let t: usize = (lo + 256 * hi) as usize;
    assert(t >> 4 == t / 16) by (bit_vector);
    assert(t & 0xF == t % 16) by (bit_vector);
}

/// LZSS decompression.
///
/// Reads the original size from the header and decodes the body up to that size. An
/// input shorter than the header, or one whose original size is 0, gives an empty
/// result; a body that ends early gives what was decoded until then.
pub fn unpack(src: &[u8]) -> (r: Vec<u8>)
    ensures
        r@ == unpacked(src@),
{
    if src.len() < 8 {
        return Vec::new();
    }
    let org = read_le_u32(src, 4) as usize;
    if org == 0 {
        return Vec::new();
    }
    let mut out: Vec<u8> = Vec::with_capacity(org);
    let mut si: usize = 8;
    while out.len() < org && si < src.len()
        invariant
            8 <= si <= src@.len(),
            out@.len() <= org,
            org <= u32::MAX,
            org as int == le_u32(src@, 4),
            decode_from(src@, si as nat, 0, 0, out@, org as nat) == unpacked(src@),
        decreases src@.len() - si,
    {
        let ghost si0 = si;
        let mut fl: u8 = src[si];
        si += 1;
        let mut k: usize = 0;
        while k < 8
            invariant
                8 <= si <= src@.len(),
                si0 < si,
                k <= 8,
                out@.len() <= org,
                org <= u32::MAX,
                decode_from(src@, si as nat, (8 - k) as nat, fl, out@, org as nat) == unpacked(src@),
            ensures
                8 <= si <= src@.len(),
                si0 < si,
                out@.len() <= org,
                decode_from(src@, si as nat, 0, 0, out@, org as nat) == unpacked(src@),
            decreases 8 - k,
        {
            if out.len() >= org {
                break;
            }
            if fl & 1 != 0 {
                if si < src.len() {
                    out.push(src[si]);
                    si += 1;
                }
            } else {
                if si >= src.len() - 1 {
                    break;
                }
                proof {
                    lemma_token_bits(src@[si as int] as usize, src@[si + 1] as usize);
                }
                let tok = (src[si] as usize) | ((src[si + 1] as usize) << 8);
                si += 2;
                let off = tok >> 4;
                let ln = (tok & 0xF) + 2;
                let l0 = out.len();
                let ghost st = l0 - off;
                let ghost out0 = out@;
                let mut j: usize = 0;
                while j < ln
                    invariant
                        j <= ln,
                        ln <= 17,
                        l0 <= out@.len() <= org,
                        org <= u32::MAX,
                        st == l0 - off,
                        copy_back(out@, st, j as nat, ln as nat, org as nat)
                            == copy_back(out0, st, 0, ln as nat, org as nat),
                    ensures
                        out@.len() <= org,
                        out@ == copy_back(out0, st, 0, ln as nat, org as nat),
                    decreases ln - j,
                {
                    if out.len() >= org {
                        break;
                    }
                    if off <= l0 {
                        if j < out.len() - (l0 - off) {
                            let b = out[(l0 - off) + j];
                            out.push(b);
                        }
                    } else if j >= off - l0 && j - (off - l0) < out.len() {
                        let b = out[j - (off - l0)];
                        out.push(b);
                    }
                    j += 1;
                }
            }
            fl >>= 1;
            k += 1;
        }
    }
    out
}

/// One unit of a compressed body: a literal byte, or a back-reference that repeats
/// `length` bytes from `offset` bytes back.
pub enum Token {
    Literal(u8),
    Backref { offset: u16, length: u8 },
}

pub open spec fn is_literal(t: Token) -> bool {
    t is Literal
}

/// The bytes that stand for a unit in the body.
pub open spec fn token_bytes(t: Token) -> Seq<u8> {
    match t {
        Token::Literal(b) => seq![b],
        Token::Backref { offset, length } => {
            let tok = offset as int * 16 + length as int - 2;
            seq![(tok % 256) as u8, (tok / 256) as u8]
        },
    }
}

/// `2^k`.
pub open spec fn bit_value(k: nat) -> nat
    decreases k,
{
    if k == 0 {
        1
    } else {
        2 * bit_value((k - 1) as nat)
    }
}

/// The flag byte of a block: bit `k` is set where unit `k` is a literal.
pub open spec fn flag_bits(ts: Seq<Token>) -> nat
    decreases ts.len(),
{
    if ts.len() == 0 {
        0
    } else {
        (if is_literal(ts[0]) {
            1nat
        } else {
            0nat
        }) + 2 * flag_bits(ts.drop_first())
    }
}

/// The bytes of the units of a block, one after another.
pub open spec fn payload(ts: Seq<Token>) -> Seq<u8>
    decreases ts.len(),
{
    if ts.len() == 0 {
        seq![]
    } else {
        token_bytes(ts[0]) + payload(ts.drop_first())
    }
}

/// A block: its flag byte, then its units.
pub open spec fn block(ts: Seq<Token>) -> Seq<u8> {
    seq![flag_bits(ts) as u8] + payload(ts)
}

/// The blocks of eight units that `ts` begins with, leaving out the last
/// `ts.len() % 8` units.
pub open spec fn full_blocks(ts: Seq<Token>) -> Seq<u8>
    decreases ts.len(),
{
    if ts.len() < 8 {
        seq![]
    } else {
        block(ts.take(8)) + full_blocks(ts.skip(8))
    }
}

/// A compressed body: blocks of eight units, then one block with the rest, which may
/// hold none.
pub open spec fn body(ts: Seq<Token>) -> Seq<u8>
    decreases ts.len(),
{
    if ts.len() < 8 {
        block(ts)
    } else {
        block(ts.take(8)) + body(ts.skip(8))
    }
}

/// The output after one more unit, stopping at `org` bytes.
pub open spec fn apply(out: Seq<u8>, t: Token, org: nat) -> Seq<u8> {
    match t {
        Token::Literal(b) => out.push(b),
        Token::Backref { offset, length } => copy_back(
            out,
            out.len() - offset,
            0,
            length as nat,
            org,
        ),
    }
}

/// The output after the units `ts`.
pub open spec fn run(ts: Seq<Token>, out: Seq<u8>, org: nat) -> Seq<u8>
    decreases ts.len(),
{
    if ts.len() == 0 {
        out
    } else {
        run(ts.drop_first(), apply(out, ts[0], org), org)
    }
}

/// A unit that the format can carry, after `at` bytes of output.
pub open spec fn token_ok(t: Token, at: nat) -> bool {
    match t {
        Token::Literal(_) => true,
        Token::Backref { offset, length } => 1 <= offset <= at && offset < 4096 && 2 <= length
            <= 17,
    }
}

/// Each unit of `ts` can be carried and adds to the output.
pub open spec fn valid(ts: Seq<Token>, out: Seq<u8>, org: nat) -> bool
    decreases ts.len(),
{
    if ts.len() == 0 {
        true
    } else {
        &&& token_ok(ts[0], out.len())
        &&& apply(out, ts[0], org).len() > out.len()
        &&& valid(ts.drop_first(), apply(out, ts[0], org), org)
    }
}

/// No back-reference of `ts` is longer than `limit`.
pub open spec fn within(ts: Seq<Token>, limit: nat) -> bool {
    forall|k: int|
        0 <= k < ts.len() ==> match #[trigger] ts[k] {
            Token::Literal(_) => true,
            Token::Backref { offset, length } => length <= limit,
        }
}

/// An input of `n` bytes is small enough that even its largest compressed form, all
/// literals, can give its size in the 32-bit header.
pub open spec fn fits_header(n: int) -> bool {
    n + n / 8 + 9 <= u32::MAX
}

/// The longest match that a compression level allows: the level taken into `2..=17`.
pub open spec fn level_limit(level: int) -> nat {
    if level < 2 {
        2
    } else if level > 17 {
        17
    } else {
        level as nat
    }
}

/// `packed` is a compressed form of `src` whose back-references are at most `limit`
/// long: empty for an empty input; else a header that gives the total size and the
/// size of `src`, then the body of units that rebuild `src`.
pub open spec fn is_packing(packed: Seq<u8>, src: Seq<u8>, limit: nat) -> bool {
    if src.len() == 0 {
        packed.len() == 0
    } else {
        exists|ts: Seq<Token>|
            {
                &&& packed.len() >= 8
                &&& #[trigger] packed.subrange(8, packed.len() as int) == body(ts)
                &&& le_u32(packed, 0) == packed.len()
                &&& le_u32(packed, 4) == src.len()
                &&& valid(ts, seq![], src.len())
                &&& run(ts, seq![], src.len()) == src
                &&& within(ts, limit)
            }
    }
}

proof fn lemma_flag_bound(ts: Seq<Token>)
    ensures
        flag_bits(ts) < bit_value(ts.len()),
    decreases ts.len(),
{
    if ts.len() > 0 {
        lemma_flag_bound(ts.drop_first());
    }
}

proof fn lemma_bit_value_le(k: nat, m: nat)
    requires
        k <= m,
    ensures
        bit_value(k) <= bit_value(m),
    decreases m - k,
{
    if k < m {
        lemma_bit_value_le(k, (m - 1) as nat);
    }
}

proof fn lemma_flag_push(ts: Seq<Token>, t: Token)
    ensures
        flag_bits(ts.push(t)) == flag_bits(ts) + (if is_literal(t) {
            bit_value(ts.len())
        } else {
            0
        }),
        payload(ts.push(t)) == payload(ts) + token_bytes(t),
    decreases ts.len(),
{
    if ts.len() == 0 {
        assert(ts.push(t).drop_first() =~= ts);
    } else {
        assert(ts.push(t).drop_first() =~= ts.drop_first().push(t));
        lemma_flag_push(ts.drop_first(), t);
        assert(payload(ts.push(t)) =~= payload(ts) + token_bytes(t));
    }
}

proof fn lemma_body_split(done: Seq<Token>, cur: Seq<Token>)
    requires
        done.len() % 8 == 0,
        cur.len() < 8,
    ensures
        body(done + cur) == full_blocks(done) + block(cur),
    decreases done.len(),
{
    if done.len() == 0 {
        assert(done + cur =~= cur);
        assert(full_blocks(done) + block(cur) =~= block(cur));
    } else {
        assert((done + cur).take(8) =~= done.take(8));
        assert((done + cur).skip(8) =~= done.skip(8) + cur);
        lemma_body_split(done.skip(8), cur);
        assert(body(done + cur) =~= full_blocks(done) + block(cur));
    }
}

proof fn lemma_full_blocks_push(done: Seq<Token>, cur: Seq<Token>)
    requires
        done.len() % 8 == 0,
        cur.len() == 8,
    ensures
        full_blocks(done + cur) == full_blocks(done) + block(cur),
    decreases done.len(),
{
    if done.len() == 0 {
        assert(done + cur =~= cur);
        assert(cur.take(8) =~= cur);
        assert(full_blocks(cur.skip(8)) =~= seq![]);
        assert(full_blocks(done) + block(cur) =~= block(cur));
    } else {
        assert((done + cur).take(8) =~= done.take(8));
        assert((done + cur).skip(8) =~= done.skip(8) + cur);
        lemma_full_blocks_push(done.skip(8), cur);
        assert(full_blocks(done + cur) =~= full_blocks(done) + block(cur));
    }
}

proof fn lemma_run_push(ts: Seq<Token>, t: Token, out: Seq<u8>, org: nat)
    ensures
        run(ts.push(t), out, org) == apply(run(ts, out, org), t, org),
        valid(ts.push(t), out, org) == (valid(ts, out, org) && token_ok(t, run(ts, out, org).len())
            && apply(run(ts, out, org), t, org).len() > run(ts, out, org).len()),
    decreases ts.len(),
{
    let tp = ts.push(t);
    if ts.len() == 0 {
        assert(tp.drop_first() =~= ts);
        assert(tp[0] == t);
        assert(run(tp, out, org) == run(ts, apply(out, t, org), org));
        assert(valid(tp, out, org) == (token_ok(t, out.len()) && apply(out, t, org).len()
            > out.len() && valid(ts, apply(out, t, org), org)));
    } else {
        assert(tp.drop_first() =~= ts.drop_first().push(t));
        assert(tp[0] == ts[0]);
        lemma_run_push(ts.drop_first(), t, apply(out, ts[0], org), org);
    }
}

proof fn lemma_run_split(ts: Seq<Token>, k: int, out: Seq<u8>, org: nat)
    requires
        0 <= k <= ts.len(),
    ensures
        run(ts, out, org) == run(ts.skip(k), run(ts.take(k), out, org), org),
        valid(ts, out, org) ==> valid(ts.take(k), out, org) && valid(
            ts.skip(k),
            run(ts.take(k), out, org),
            org,
        ),
    decreases k,
{
    if k == 0 {
        assert(ts.skip(0) =~= ts);
    } else {
        let rest = ts.drop_first();
        lemma_run_split(rest, k - 1, apply(out, ts[0], org), org);
        assert(rest.skip(k - 1) =~= ts.skip(k));
        assert(ts.take(k).drop_first() =~= rest.take(k - 1));
    }
}

proof fn lemma_run_grows(ts: Seq<Token>, out: Seq<u8>, org: nat)
    requires
        valid(ts, out, org),
    ensures
        run(ts, out, org).len() >= out.len() + ts.len(),
    decreases ts.len(),
{
    if ts.len() > 0 {
        lemma_run_grows(ts.drop_first(), apply(out, ts[0], org), org);
    }
}

proof fn lemma_copy_repeats(src: Seq<u8>, pos: int, off: int, len: int, j: int, org: nat)
    requires
        1 <= off <= pos,
        0 <= j <= len,
        pos + len <= org,
        pos + len <= src.len(),
        forall|k: int| 0 <= k < len ==> #[trigger] src[pos + k] == src[pos - off + k],
    ensures
        copy_back(src.subrange(0, pos + j), pos - off, j as nat, len as nat, org)
            == src.subrange(0, pos + len),
    decreases len - j,
{
    if j < len {
        let out = src.subrange(0, pos + j);
        assert(out.push(out[pos - off + j]) =~= src.subrange(0, pos + j + 1)) by {
            assert(src[pos + j] == src[pos - off + j]);
        }
        lemma_copy_repeats(src, pos, off, len, j + 1, org);
    } else {
        assert(src.subrange(0, pos + j) =~= src.subrange(0, pos + len));
    }
}

proof fn lemma_flag_byte(x: u8, b: u8, y: u8)
    requires
        b <= 1,
        y < 128,
        x == b + 2 * y,
    ensures
        x & 1 == b,
        x >> 1 == y,
{
    assert(x & 1 == b && x >> 1 == y) by (bit_vector)
        requires b <= 1u8, y < 128u8, x == b + 2 * y;
}

proof fn lemma_decode_units(s: Seq<u8>, si: int, left: nat, us: Seq<Token>, out: Seq<u8>, org: nat)
    requires
        0 <= si,
        us.len() <= left <= 8,
        si + payload(us).len() <= s.len(),
        s.subrange(si, si + payload(us).len() as int) == payload(us),
        valid(us, out, org),
        run(us, out, org).len() <= org,
    ensures
        decode_from(s, si as nat, left, flag_bits(us) as u8, out, org) == decode_from(
            s,
            (si + payload(us).len()) as nat,
            (left - us.len()) as nat,
            0,
            run(us, out, org),
            org,
        ),
    decreases us.len(),
{
    if us.len() > 0 {
        let t = us[0];
        let rest = us.drop_first();
        let out2 = apply(out, t, org);
        lemma_run_grows(rest, out2, org);
        lemma_flag_bound(us);
        lemma_flag_bound(rest);
        assert(bit_value(8) == 256) by {
            reveal_with_fuel(bit_value, 9);
        }
        lemma_bit_value_le(rest.len(), 7);
        assert(bit_value(7) == 128) by {
            reveal_with_fuel(bit_value, 8);
        }
        assert(flag_bits(rest) < 128);
        assert(out.len() < org);
        let b: u8 = if is_literal(t) {
            1
        } else {
            0
        };
        lemma_flag_byte(flag_bits(us) as u8, b, flag_bits(rest) as u8);
        let pl = payload(us);
        assert(pl == token_bytes(t) + payload(rest));
        let n = token_bytes(t).len();
        assert(s.subrange(si + n as int, si + pl.len() as int) =~= payload(rest)) by {
            assert(s.subrange(si + n as int, si + pl.len() as int) =~= pl.subrange(n as int, pl.len() as int));
        }
        assert forall|k: int| 0 <= k < n implies s[si + k] == token_bytes(t)[k] by {
            assert(s.subrange(si, si + pl.len() as int)[k] == pl[k]);
        }
        match t {
            Token::Literal(v) => {
                assert(out2 == out.push(v));
                assert(s.subrange(si, si + pl.len() as int)[0] == pl[0]);
                assert(pl[0] == v);
                assert(s[si] == v);
                assert(decode_from(s, si as nat, left, flag_bits(us) as u8, out, org) == decode_from(
                    s, (si + 1) as nat, (left - 1) as nat, flag_bits(rest) as u8, out2, org));
            },
            Token::Backref { offset, length } => {
                let tok = offset as int * 16 + length as int - 2;
                assert(s[si] as int + 256 * s[si + 1] as int == tok);
                assert(tok / 16 == offset as int);
                assert(tok % 16 + 2 == length as int);
                assert(decode_from(s, si as nat, left, flag_bits(us) as u8, out, org) == decode_from(
                    s, (si + 2) as nat, (left - 1) as nat, flag_bits(rest) as u8, out2, org));
            },
        }
        lemma_decode_units(s, si + n as int, (left - 1) as nat, rest, out2, org);
    } else {
        assert(flag_bits(us) == 0);
        assert(payload(us) =~= seq![]);
        assert(run(us, out, org) == out);
    }
}

proof fn lemma_decode_blocks(s: Seq<u8>, si: int, ts: Seq<Token>, out: Seq<u8>, org: nat)
    requires
        0 <= si,
        si + body(ts).len() <= s.len(),
        s.subrange(si, si + body(ts).len() as int) == body(ts),
        valid(ts, out, org),
        run(ts, out, org).len() == org,
    ensures
        decode_from(s, si as nat, 0, 0, out, org) == run(ts, out, org),
    decreases ts.len(),
{
    if ts.len() > 0 {
        lemma_run_grows(ts, out, org);
        let k: int = if ts.len() >= 8 {
            8
        } else {
            ts.len() as int
        };
        let first = ts.take(k);
        lemma_run_split(ts, k, out, org);
        lemma_run_grows(ts.skip(k), run(first, out, org), org);
        let bl = block(first);
        let bd = body(ts);
        if ts.len() >= 8 {
            assert(bd == bl + body(ts.skip(8)));
        } else {
            assert(first =~= ts);
            assert(bd == bl);
        }
        assert(s[si] == bd[0]);
        assert(s.subrange(si + 1, si + 1 + payload(first).len() as int) =~= payload(first)) by {
            assert(s.subrange(si + 1, si + 1 + payload(first).len() as int) =~= bd.subrange(1, 1 + payload(first).len() as int));
        }
        lemma_decode_units(s, si + 1, 8, first, out, org);
        if ts.len() >= 8 {
            let rest = ts.skip(8);
            assert(s.subrange(si + bl.len() as int, si + bl.len() as int + body(rest).len() as int) =~= body(rest))
                by {
                assert(s.subrange(si + bl.len() as int, si + bl.len() as int + body(rest).len() as int) =~= bd.subrange(
                    bl.len() as int,
                    bd.len() as int,
                ));
            }
            lemma_decode_blocks(s, si + bl.len() as int, rest, run(first, out, org), org);
        }
    }
}

/// Decompressing what `pack` produces gives back its input.
pub proof fn lemma_round_trip(packed: Seq<u8>, src: Seq<u8>, limit: nat)
    requires
        is_packing(packed, src, limit),
    ensures
        unpacked(packed) == src,
{
    if src.len() > 0 {
        let ts = choose|ts: Seq<Token>|
            {
                &&& packed.len() >= 8
                &&& #[trigger] packed.subrange(8, packed.len() as int) == body(ts)
                &&& le_u32(packed, 0) == packed.len()
                &&& le_u32(packed, 4) == src.len()
                &&& valid(ts, seq![], src.len())
                &&& run(ts, seq![], src.len()) == src
                &&& within(ts, limit)
            };
        lemma_decode_blocks(packed, 8, ts, seq![], src.len());
    }
}

/// The 4 bytes of `x` little-endian.
pub open spec fn le_bytes(x: nat) -> Seq<u8> {
    seq![(x % 256) as u8, ((x / 256) % 256) as u8, ((x / 65536) % 256) as u8, ((x / 16777216) % 256) as u8]
}

/// The block buffer after one more unit at the position the search `f` reached: a
/// literal sets flag bit `bc` and adds the byte; a match adds its token. Also the new
/// count of buffer bytes and how far the unit advances.
pub open spec fn emit_unit(f: FindState, src: Seq<u8>, data: Seq<u8>, bc: nat, dc: nat) -> (Seq<u8>, nat, nat) {
    if f.match_size <= 1 {
        (
            data.update(0, data[0] | (bit_value(bc) as u8)).update(dc as int, src[f.src_index as int]),
            dc + 1,
            1,
        )
    } else {
        let tok = back_offset(f.window_top as int, f.match_target as int) * 16 + f.match_size - 2;
        (
            data.update(dc as int, (tok % 256) as u8).update(dc + 1 as int, (tok / 256) as u8),
            dc + 2,
            f.match_size as nat,
        )
    }
}

/// The output of the greedy encoder from its state: the search `f`, the output `buf`
/// so far, the block buffer `data` with `dc` bytes in use and `bc` units, and `rc`
/// positions still to advance. At each position the search's match is emitted where it
/// is longer than 1 byte, else a literal; a block is flushed after 8 units, and the last
/// one, even empty, at the end.
pub open spec fn pack_loop(
    f: FindState,
    buf: Seq<u8>,
    data: Seq<u8>,
    bc: nat,
    dc: nat,
    rc: nat,
    src: Seq<u8>,
    mml: nat,
) -> Seq<u8>
    decreases src.len() - (f.src_index + rc),
{
    if f.src_index >= src.len() {
        buf + data.subrange(0, dc as int)
    } else {
        let f1 = if rc > 0 {
            find_steps(f, src, mml, rc)
        } else {
            f
        };
        if f1.src_index >= src.len() {
            buf + data.subrange(0, dc as int)
        } else {
            let (data1, dc1, rc1) = emit_unit(f1, src, data, bc, dc);
            if f1.src_index + rc1 <= f.src_index + rc || f1.src_index + rc1 > src.len() {
                buf
            } else if bc + 1 == 8 {
                pack_loop(f1, buf + data1.subrange(0, dc1 as int), data1.update(0, 0), 0, 1, rc1, src, mml)
            } else {
                pack_loop(f1, buf, data1, bc + 1, dc1, rc1, src, mml)
            }
        }
    }
}

/// What the encoder produces from `src` with matches at most `mml` long: nothing for an
/// empty input, else the header (total size and size of `src`, little-endian) and the
/// body that the greedy encoder writes.
pub open spec fn packed_stream(src: Seq<u8>, mml: nat) -> Seq<u8> {
    if src.len() == 0 {
        seq![]
    } else {
        let init = FindState {
            links: initial_links(4096),
            src_index: 0,
            window_top: 0,
            match_size: 0,
            match_target: 0,
        };
        let body = pack_loop(init, Seq::new(8, |i: int| 0u8), Seq::new(17, |i: int| 0u8), 0, 1, 0, src, mml);
        le_bytes(body.len()) + le_bytes(src.len()) + body.subrange(8, body.len() as int)
    }
}

/// The flag bit of unit `k` of a block.
fn bit_mask(k: usize) -> (r: u8)
    requires
        k < 8,
    ensures
        r as nat == bit_value(k as nat),
        r == 1 || r == 2 || r == 4 || r == 8 || r == 16 || r == 32 || r == 64 || r == 128,
{
    proof {
        reveal_with_fuel(bit_value, 8);
    }
    match k {
        0 => 1,
        1 => 2,
        2 => 4,
        3 => 8,
        4 => 16,
        5 => 32,
        6 => 64,
        _ => 128,
    }
}

proof fn lemma_or_bit(x: u8, m: u8)
    requires
        x < m,
        m == 1 || m == 2 || m == 4 || m == 8 || m == 16 || m == 32 || m == 64 || m == 128,
    ensures
        x | m == x + m,
{
    assert(x | m == x + m) by (bit_vector)
        requires
            x < m,
            m == 1 || m == 2 || m == 4 || m == 8 || m == 16 || m == 32 || m == 64 || m == 128,
    ;
}

proof fn lemma_token_encode(offset: u32, len2: u32)
    requires
        offset < 4096,
        len2 < 16,
    ensures
        (offset << 4) | len2 == offset * 16 + len2,
        ((offset << 4) | len2) as u8 == (offset * 16 + len2) % 256,
        (((offset << 4) | len2) >> 8) as u8 == (offset * 16 + len2) / 256,
{
    assert((offset << 4) | len2 == offset * 16 + len2) by (bit_vector)
        requires offset < 4096, len2 < 16;
    let t: u32 = (offset * 16 + len2) as u32;
    assert(t as u8 == t % 256) by (bit_vector);
    assert((t >> 8) as u8 == t / 256) by (bit_vector)
        requires t < 65536;
}

/// Appends `src[..n]` to `dst`.
fn append_prefix(dst: &mut Vec<u8>, src: &Vec<u8>, n: usize)
    requires
        n <= src@.len(),
    ensures
        final(dst)@ == old(dst)@ + src@.subrange(0, n as int),
{
    let mut i: usize = 0;
    while i < n
        invariant
            i <= n,
            n <= src@.len(),
            dst@ == old(dst)@ + src@.subrange(0, i as int),
        decreases n - i,
    {
        dst.push(src[i]);
        i += 1;
        assert(dst@ =~= old(dst)@ + src@.subrange(0, i as int));
    }
}

/// Writes `x` little-endian into `buf[at..at + 4]`.
fn write_le_u32(buf: &mut Vec<u8>, at: usize, x: u32)
    requires
        at <= 4,
        8 <= old(buf)@.len(),
    ensures
        final(buf)@.len() == old(buf)@.len(),
        final(buf)@ == old(buf)@.subrange(0, at as int) + le_bytes(x as nat) + old(buf)@.subrange(
            at + 4,
            old(buf)@.len() as int,
        ),
        le_u32(final(buf)@, at as int) == x,
        forall|i: int| 0 <= i < final(buf)@.len() && !(at <= i < at + 4) ==> #[trigger] final(buf)@[i] == old(buf)@[i],
{
    let b0 = (x & 0xff) as u8;
    let b1 = ((x >> 8) & 0xff) as u8;
    let b2 = ((x >> 16) & 0xff) as u8;
    let b3 = ((x >> 24) & 0xff) as u8;
    assert(x == (x & 0xff) + 256 * ((x >> 8) & 0xff) + 65536 * ((x >> 16) & 0xff) + 16777216 * ((x >> 24) & 0xff)) by (bit_vector);
    assert((x & 0xff) < 256 && ((x >> 8) & 0xff) < 256 && ((x >> 16) & 0xff) < 256 && ((x >> 24) & 0xff) < 256) by (bit_vector);
    assert((x & 0xff) == x % 256 && ((x >> 8) & 0xff) == (x / 256) % 256 && ((x >> 16) & 0xff) == (x / 65536) % 256 && ((x >> 24) & 0xff) == (x / 16777216) % 256) by (bit_vector);
    buf.set(at, b0);
    buf.set(at + 1, b1);
    buf.set(at + 2, b2);
    buf.set(at + 3, b3);
    assert(buf@ =~= old(buf)@.subrange(0, at as int) + le_bytes(x as nat) + old(buf)@.subrange(
        at + 4,
        old(buf)@.len() as int,
    ));
}

/// LZSS compression with a compression level.
///
/// `level` bounds the length of a back-reference, taken into `2..=17`: a lower level
/// searches less and compresses less. An empty input gives an empty output; any other
/// gives the 8-byte header and the body.
#[verifier::rlimit(80)]
pub fn pack_with_level(src: &[u8], level: usize) -> (r: Vec<u8>)
    requires
        fits_header(src@.len() as int),
    ensures
        r@ == packed_stream(src@, level_limit(level as int)),
        is_packing(r@, src@, level_limit(level as int)),
        unpacked(r@) == src@,
        r@.len() > 0 ==> r@.len() <= 9 + src@.len() + src@.len() / 8,
        r@.len() == 0 <==> src@.len() == 0,
        r@.len() > 0 ==> r@.len() >= 8 && le_u32(r@, 0) == r@.len() && le_u32(r@, 4) == src@.len(),
{
    if src.len() == 0 {
        return Vec::new();
    }
    let mut tree_find = LzssTreeFind::new(src, WINDOW_SIZE, LOOK_AHEAD, level);

    let mut pack_buf: Vec<u8> = vec![0u8; 8];
    let mut pack_data: Vec<u8> = vec![0u8; 1 + 2 * 8];
    let mut pack_bit_count: usize = 0;
    let mut pack_data_count: usize = 1;
    let mut replace_cnt: usize = 0;
    let ghost n = src@.len();
    let ghost limit = level_limit(level as int);
    let ghost mut done: Seq<Token> = seq![];
    let ghost mut cur: Seq<Token> = seq![];
    proof {
        assert(pack_data@.subrange(0, 1) =~= block(cur));
        assert(pack_buf@.subrange(8, 8) =~= full_blocks(done));
        assert(run(done + cur, seq![], n) =~= src@.subrange(0, 0));
        assert(done + cur =~= seq![]);
        assert(pack_buf@ =~= Seq::new(8, |i: int| 0u8));
        assert(pack_data@ =~= Seq::new(17, |i: int| 0u8));
    }
    let ghost whole = pack_loop(
        tree_find.state(),
        pack_buf@,
        pack_data@,
        0,
        1,
        0,
        src@,
        limit,
    );

    loop
        invariant_except_break
            tree_find.wf(src@),
            tree_find.max_match_len == limit,
            n == src@.len(),
            n >= 1,
            fits_header(n as int),
            tree_find.src_index + replace_cnt <= n,
            pack_bit_count == cur.len(),
            cur.len() < 8,
            pack_data@.len() == 17,
            pack_data_count == 1 + payload(cur).len(),
            payload(cur).len() <= 2 * cur.len(),
            pack_data@.subrange(0, pack_data_count as int) == block(cur),
            pack_buf@.len() >= 8,
            pack_buf@.subrange(8, pack_buf@.len() as int) == full_blocks(done),
            done.len() % 8 == 0,
            valid(done + cur, seq![], n),
            run(done + cur, seq![], n) == src@.subrange(
                0,
                tree_find.src_index + replace_cnt,
            ),
            within(done + cur, limit),
            pack_buf@.len() + pack_data_count <= 9 + done.len() / 8 + tree_find.src_index
                + replace_cnt,
            done.len() + cur.len() <= tree_find.src_index + replace_cnt,
            pack_loop(
                tree_find.state(),
                pack_buf@,
                pack_data@,
                pack_bit_count as nat,
                pack_data_count as nat,
                replace_cnt as nat,
                src@,
                limit,
            ) == whole,
        ensures
            pack_buf@ == whole,
            pack_buf@.len() >= 8,
            pack_buf@.subrange(8, pack_buf@.len() as int) == body(done + cur),
            pack_buf@.len() <= 9 + n / 8 + n,
            valid(done + cur, seq![], n),
            run(done + cur, seq![], n) == src@,
            within(done + cur, limit),
        decreases n - tree_find.src_index - replace_cnt,
    {
        let ghost st_f = tree_find.state();
        let ghost st_buf = pack_buf@;
        let ghost st_data = pack_data@;
        let ghost st_bc = pack_bit_count as nat;
        let ghost st_dc = pack_data_count as nat;
        let ghost st_rc = replace_cnt as nat;
        if tree_find.src_index >= tree_find.src_cnt {
            proof {
                lemma_body_split(done, cur);
                assert(src@.subrange(0, n as int) =~= src@);
            }
            append_prefix(&mut pack_buf, &pack_data, pack_data_count);
            proof {
                assert(pack_buf@.subrange(8, pack_buf@.len() as int) =~= full_blocks(done) + block(cur));
            }
            break;
        }

        if replace_cnt > 0 {
            tree_find.proc(src, replace_cnt);
        }

        if tree_find.src_index >= tree_find.src_cnt {
            proof {
                lemma_body_split(done, cur);
                assert(src@.subrange(0, n as int) =~= src@);
            }
            append_prefix(&mut pack_buf, &pack_data, pack_data_count);
            proof {
                assert(pack_buf@.subrange(8, pack_buf@.len() as int) =~= full_blocks(done) + block(cur));
            }
            break;
        }

        proof {
            lemma_bit_value_le(cur.len(), 7);
            assert(bit_value(7) == 128) by {
                reveal_with_fuel(bit_value, 8);
            }
            lemma_flag_bound(cur);
        }
        let ghost f1 = tree_find.state();
        assert(f1 == (if st_rc > 0 {
            find_steps(st_f, src@, limit, st_rc)
        } else {
            st_f
        }));
        let ghost pos = tree_find.src_index as int;
        let ghost pd0 = pack_data@;
        let ghost c0 = pack_data_count as int;
        let ghost toks = done + cur;
        let ghost t: Token;
        if tree_find.match_size <= BREAK_EVEN {
            replace_cnt = 1;
            let b = src[tree_find.src_index];
            proof {
                t = Token::Literal(b);
                lemma_flag_bound(cur);
                lemma_flag_push(cur, t);
                assert(src@.subrange(0, pos).push(b) =~= src@.subrange(0, pos + 1));
            }
            assert(pack_data@[0] == pack_data@.subrange(0, pack_data_count as int)[0]);
            let m = bit_mask(pack_bit_count);
            proof {
                lemma_or_bit(pack_data@[0], m);
            }
            let f = pack_data[0] | m;
            pack_data.set(0, f);
            pack_data.set(pack_data_count, b);
            pack_data_count += 1;
            assert(pack_data@[0] as nat == flag_bits(cur.push(t)));
            assert(token_bytes(t) =~= seq![b]);
        } else {
            replace_cnt = tree_find.match_size;
            let offset = if tree_find.window_top >= tree_find.match_target {
                tree_find.window_top - tree_find.match_target
            } else {
                tree_find.window_top + WINDOW_SIZE - tree_find.match_target
            };
            assert(offset == back_offset(tree_find.window_top as int, tree_find.match_target as int));
            proof {
                lemma_token_encode(offset as u32, (tree_find.match_size - BREAK_EVEN - 1) as u32);
            }
            let tok: u32 = ((offset as u32) << (LENGTH_BITS as u32)) | ((tree_find.match_size - BREAK_EVEN - 1) as u32);
            proof {
                t = Token::Backref { offset: offset as u16, length: tree_find.match_size as u8 };
                lemma_flag_bound(cur);
                lemma_flag_push(cur, t);
                lemma_copy_repeats(src@, pos, offset as int, tree_find.match_size as int, 0, n);
                assert(src@.subrange(0, pos + 0) =~= src@.subrange(0, pos));
            }
            assert(pack_data@[0] == pack_data@.subrange(0, pack_data_count as int)[0]);
            pack_data.set(pack_data_count, tok as u8);
            pack_data.set(pack_data_count + 1, (tok >> 8) as u8);
            pack_data_count += 2;
            assert(pack_data@[0] as nat == flag_bits(cur.push(t)));
            assert(token_bytes(t) =~= seq![tok as u8, (tok >> 8) as u8]);
        }
        proof {
            lemma_run_push(toks, t, seq![], n);
            assert(done + cur.push(t) =~= toks.push(t));
            let nc = cur.push(t);
            let nb = block(nc);
            assert(nb == seq![flag_bits(nc) as u8] + (payload(cur) + token_bytes(t)));
            assert forall|i: int| 0 <= i < pack_data_count implies pack_data@[i] == nb[i] by {
                if 0 < i < c0 {
                    assert(pd0[i] == pd0.subrange(0, c0)[i]);
                    assert(block(cur)[i] == payload(cur)[i - 1]);
                }
            }
            cur = nc;
            assert(pack_data@.subrange(0, pack_data_count as int) =~= block(cur));
            assert forall|k: int| 0 <= k < cur.len() + done.len() implies match #[trigger] (done + cur)[k] {
                Token::Literal(_) => true,
                Token::Backref { offset, length } => length <= limit,
            } by {
                if k < toks.len() {
                    assert((done + cur)[k] == toks[k]);
                }
            }
        }
        assert(emit_unit(f1, src@, st_data, st_bc, st_dc) == (
            pack_data@,
            pack_data_count as nat,
            replace_cnt as nat,
        ));
        pack_bit_count += 1;

        if pack_bit_count == 8 {
            proof {
                lemma_full_blocks_push(done, cur);
            }
            append_prefix(&mut pack_buf, &pack_data, pack_data_count);
            pack_bit_count = 0;
            pack_data_count = 1;
            pack_data.set(0, 0);
            proof {
                assert(pack_buf@.subrange(8, pack_buf@.len() as int) =~= full_blocks(done) + block(cur));
                assert(done + cur + seq![] =~= done + cur);
                done = done + cur;
                cur = seq![];
                assert(pack_data@.subrange(0, 1) =~= block(cur));
                assert(done + cur =~= done);
            }
        }
        assert(pack_loop(st_f, st_buf, st_data, st_bc, st_dc, st_rc, src@, limit) == pack_loop(
            tree_find.state(),
            pack_buf@,
            pack_data@,
            pack_bit_count as nat,
            pack_data_count as nat,
            replace_cnt as nat,
            src@,
            limit,
        ));
    }

    let pack_buf_size = pack_buf.len() as u32;
    let org_size = src.len() as u32;
    let ghost body_bytes = pack_buf@.subrange(8, pack_buf@.len() as int);
    let ghost before = pack_buf@;
    write_le_u32(&mut pack_buf, 0, pack_buf_size);
    write_le_u32(&mut pack_buf, 4, org_size);
    proof {
        assert(pack_buf@ =~= le_bytes(before.len()) + le_bytes(n) + before.subrange(8, before.len() as int));
        assert(pack_buf@.subrange(8, pack_buf@.len() as int) =~= body_bytes);
        let ts = done + cur;
        assert(pack_buf@.subrange(8, pack_buf@.len() as int) == body(ts));
        assert(is_packing(pack_buf@, src@, limit));
        lemma_round_trip(pack_buf@, src@, limit);
    }
    pack_buf
}

/// LZSS compression at the default level, the longest matches (17): the same output as
/// `pack_with_level(src, 17)`.
pub fn pack(src: &[u8]) -> (r: Vec<u8>)
    requires
        fits_header(src@.len() as int),
    ensures
        r@ == packed_stream(src@, 17),
        is_packing(r@, src@, 17),
        r@.len() > 0 ==> r@.len() <= 9 + src@.len() + src@.len() / 8,
        unpacked(r@) == src@,
        r@.len() == 0 <==> src@.len() == 0,
        r@.len() > 0 ==> r@.len() >= 8 && le_u32(r@, 0) == r@.len() && le_u32(r@, 4) == src@.len(),
{
    pack_with_level(src, LOOK_AHEAD)
}

} // verus!
