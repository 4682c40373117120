//! The peeling model: for each slot, how many of the keys still in play land
//! there, and the exclusive-or of their hashes, values and positions.
use vstd::prelude::*;
use crate::params::{Params, spec_slots};

verus! {

/// Slot `s` is one of the three slots of mixed hash `h`.
pub open spec fn hits(p: Params, h: u64, s: int) -> bool {
    let t = spec_slots(p, h);
    t.0 as int == s || t.1 as int == s || t.2 as int == s
}

/// Where slot `s` stands among the three slots of mixed hash `h` (0, 1 or 2).
pub open spec fn position(p: Params, h: u64, s: int) -> u8 {
    let t = spec_slots(p, h);
    if t.0 as int == s {
        0
    } else if t.1 as int == s {
        1
    } else {
        2
    }
}

/// Key `q` is still in play and lands on slot `s`.
pub open spec fn live_hit(p: Params, hs: Seq<u64>, gone: Set<int>, q: int, s: int) -> bool {
    !gone.contains(q) && hits(p, hs[q], s)
}

/// Number of keys among the first `n` that are in play and land on slot `s`.
pub open spec fn load(p: Params, hs: Seq<u64>, gone: Set<int>, n: int, s: int) -> nat
    decreases n,
{
    if n <= 0 {
        0
    } else {
        load(p, hs, gone, n - 1, s) + if live_hit(p, hs, gone, n - 1, s) { 1nat } else { 0nat }
    }
}

/// Exclusive-or of the hashes of the keys among the first `n` in play on slot `s`.
pub open spec fn xor_hash(p: Params, hs: Seq<u64>, gone: Set<int>, n: int, s: int) -> u64
    decreases n,
{
    if n <= 0 {
        0
    } else {
        xor_hash(p, hs, gone, n - 1, s) ^ if live_hit(p, hs, gone, n - 1, s) { hs[n - 1] } else { 0u64 }
    }
}

/// Exclusive-or of the values of the keys among the first `n` in play on slot `s`.
pub open spec fn xor_value(p: Params, hs: Seq<u64>, vs: Seq<u64>, gone: Set<int>, n: int, s: int) -> u64
    decreases n,
{
    if n <= 0 {
        0
    } else {
        xor_value(p, hs, vs, gone, n - 1, s) ^ if live_hit(p, hs, gone, n - 1, s) { vs[n - 1] } else { 0u64 }
    }
}

/// Exclusive-or of the positions that slot `s` has among the slots of the
/// keys among the first `n` in play on it.
pub open spec fn xor_position(p: Params, hs: Seq<u64>, gone: Set<int>, n: int, s: int) -> u8
    decreases n,
{
    if n <= 0 {
        0
    } else {
        xor_position(p, hs, gone, n - 1, s) ^ if live_hit(p, hs, gone, n - 1, s) {
            position(p, hs[n - 1], s)
        } else {
            0u8
        }
    }
}

pub proof fn lemma_xor_u64(a: u64, b: u64, c: u64)
    by (bit_vector)
    ensures
        a ^ 0 == a,
        0 ^ a == a,
        (a ^ b) ^ b == a,
        (a ^ b) ^ c == (a ^ c) ^ b,
{
}

pub proof fn lemma_xor_u8(a: u8, b: u8, c: u8)
    by (bit_vector)
    ensures
        a ^ 0 == a,
        0 ^ a == a,
        (a ^ b) ^ b == a,
        (a ^ b) ^ c == (a ^ c) ^ b,
        a < 4 && b < 4 ==> a ^ b < 4,
{
}

/// A key past the first `n` does not change the folds over the first `n`.
pub proof fn lemma_beyond(p: Params, hs: Seq<u64>, vs: Seq<u64>, gone: Set<int>, n: int, s: int, q: int)
    requires
        q >= n,
    ensures
        load(p, hs, gone.insert(q), n, s) == load(p, hs, gone, n, s),
        xor_hash(p, hs, gone.insert(q), n, s) == xor_hash(p, hs, gone, n, s),
        xor_value(p, hs, vs, gone.insert(q), n, s) == xor_value(p, hs, vs, gone, n, s),
        xor_position(p, hs, gone.insert(q), n, s) == xor_position(p, hs, gone, n, s),
    decreases n,
{
    if n > 0 {
        lemma_beyond(p, hs, vs, gone, n - 1, s, q);
        assert(live_hit(p, hs, gone.insert(q), n - 1, s) == live_hit(p, hs, gone, n - 1, s));
    }
}

/// Taking key `q` out of play removes its share from every fold.
pub proof fn lemma_remove(p: Params, hs: Seq<u64>, vs: Seq<u64>, gone: Set<int>, n: int, s: int, q: int)
    requires
        0 <= q < n,
        !gone.contains(q),
    ensures
        load(p, hs, gone.insert(q), n, s) + (if hits(p, hs[q], s) { 1int } else { 0int })
            == load(p, hs, gone, n, s),
        xor_hash(p, hs, gone.insert(q), n, s)
            == xor_hash(p, hs, gone, n, s) ^ (if hits(p, hs[q], s) { hs[q] } else { 0u64 }),
        xor_value(p, hs, vs, gone.insert(q), n, s)
            == xor_value(p, hs, vs, gone, n, s) ^ (if hits(p, hs[q], s) { vs[q] } else { 0u64 }),
        xor_position(p, hs, gone.insert(q), n, s)
            == xor_position(p, hs, gone, n, s) ^ (if hits(p, hs[q], s) { position(p, hs[q], s) } else { 0u8 }),
    decreases n,
{
    let g2 = gone.insert(q);
    let ch = if hits(p, hs[q], s) { hs[q] } else { 0u64 };
    let cv = if hits(p, hs[q], s) { vs[q] } else { 0u64 };
    let cp = if hits(p, hs[q], s) { position(p, hs[q], s) } else { 0u8 };
    let last = n - 1;
    let lh = if live_hit(p, hs, gone, last, s) { hs[last] } else { 0u64 };
    let lv = if live_hit(p, hs, gone, last, s) { vs[last] } else { 0u64 };
    let lp = if live_hit(p, hs, gone, last, s) { position(p, hs[last], s) } else { 0u8 };
    if q == last {
        lemma_beyond(p, hs, vs, gone, last, s, q);
        assert(!live_hit(p, hs, g2, last, s));
        lemma_xor_u64(xor_hash(p, hs, gone, last, s), ch, 0);
        lemma_xor_u64(xor_value(p, hs, vs, gone, last, s), cv, 0);
        lemma_xor_u8(xor_position(p, hs, gone, last, s), cp, 0);
    } else {
        lemma_remove(p, hs, vs, gone, last, s, q);
        assert(live_hit(p, hs, g2, last, s) == live_hit(p, hs, gone, last, s));
        lemma_xor_u64(xor_hash(p, hs, gone, last, s), ch, lh);
        lemma_xor_u64(xor_value(p, hs, vs, gone, last, s), cv, lv);
        lemma_xor_u8(xor_position(p, hs, gone, last, s), cp, lp);
    }
}

/// No key in play lands on a slot of load zero, and its folds are zero.
pub proof fn lemma_zero(p: Params, hs: Seq<u64>, vs: Seq<u64>, gone: Set<int>, n: int, s: int)
    requires
        load(p, hs, gone, n, s) == 0,
    ensures
        forall|r: int| 0 <= r < n ==> !#[trigger] live_hit(p, hs, gone, r, s),
        xor_hash(p, hs, gone, n, s) == 0,
        xor_value(p, hs, vs, gone, n, s) == 0,
        xor_position(p, hs, gone, n, s) == 0,
    decreases n,
{
    if n > 0 {
        lemma_zero(p, hs, vs, gone, n - 1, s);
        lemma_xor_u64(0, 0, 0);
        lemma_xor_u8(0, 0, 0);
    }
}

/// A slot of load one holds exactly one key in play, and its folds are that key's.
pub proof fn lemma_single(p: Params, hs: Seq<u64>, vs: Seq<u64>, gone: Set<int>, n: int, s: int) -> (q: int)
    requires
        load(p, hs, gone, n, s) == 1,
    ensures
        0 <= q < n,
        live_hit(p, hs, gone, q, s),
        forall|r: int| 0 <= r < n && r != q ==> !#[trigger] live_hit(p, hs, gone, r, s),
        xor_hash(p, hs, gone, n, s) == hs[q],
        xor_value(p, hs, vs, gone, n, s) == vs[q],
        xor_position(p, hs, gone, n, s) == position(p, hs[q], s),
    decreases n,
{
    let last = n - 1;
    if live_hit(p, hs, gone, last, s) {
        lemma_zero(p, hs, vs, gone, last, s);
        lemma_xor_u64(hs[last], 0, 0);
        lemma_xor_u64(vs[last], 0, 0);
        lemma_xor_u8(position(p, hs[last], s), 0, 0);
        last
    } else {
        let q = lemma_single(p, hs, vs, gone, last, s);
        lemma_xor_u64(hs[q], 0, 0);
        lemma_xor_u64(vs[q], 0, 0);
        lemma_xor_u8(position(p, hs[q], s), 0, 0);
        q
    }
}

/// Folded positions are always one of 0, 1, 2 or 3.
pub proof fn lemma_position_small(p: Params, hs: Seq<u64>, gone: Set<int>, n: int, s: int)
    ensures
        xor_position(p, hs, gone, n, s) < 4,
    decreases n,
{
    if n > 0 {
        lemma_position_small(p, hs, gone, n - 1, s);
        let c = if live_hit(p, hs, gone, n - 1, s) { position(p, hs[n - 1], s) } else { 0u8 };
        lemma_xor_u8(xor_position(p, hs, gone, n - 1, s), c, 0);
    }
}

/// A slot that a key in play lands on has a positive load.
pub proof fn lemma_load_pos(p: Params, hs: Seq<u64>, gone: Set<int>, n: int, s: int, q: int)
    requires
        0 <= q < n,
        live_hit(p, hs, gone, q, s),
    ensures
        load(p, hs, gone, n, s) >= 1,
    decreases n,
{
    if q < n - 1 {
        lemma_load_pos(p, hs, gone, n - 1, s, q);
    }
}

/// A key's load never exceeds the number of keys.
pub proof fn lemma_load_bound(p: Params, hs: Seq<u64>, gone: Set<int>, n: int, s: int)
    requires
        n >= 0,
    ensures
        load(p, hs, gone, n, s) <= n,
    decreases n,
{
    if n > 0 {
        lemma_load_bound(p, hs, gone, n - 1, s);
    }
}

/// Counting more keys never lowers a slot's load.
pub proof fn lemma_load_mono(p: Params, hs: Seq<u64>, gone: Set<int>, n: int, m: int, s: int)
    requires
        0 <= n <= m,
    ensures
        load(p, hs, gone, n, s) <= load(p, hs, gone, m, s),
    decreases m - n,
{
    if n < m {
        lemma_load_mono(p, hs, gone, n, m - 1, s);
    }
}

} // verus!
