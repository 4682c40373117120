//! Construction of the tables: keys are bucketed by hash, peeled one at a
//! time off slots that only they occupy, and assigned in reverse peeling order.
use vstd::prelude::*;
use std::collections::TryReserveError;
use crate::error::BuildError;
use crate::params::{Params, Sizing, spec_slots, slot_index, lemma_slot_facts, table_lookup, sizing_fits,
    total_segment_count, clamped_segment_length, same_geometry, halved_geometry, lemma_halved_wf, sub_one, MAX_SEGMENT_LENGTH};
use crate::hash::{splitmix64, hash_key, spec_hash_key, spec_splitmix_output, SPLITMIX_GAMMA};
use crate::value::StaticFuseValue;
use crate::MAX_ITERATIONS;
use crate::hash::{fingerprint, spec_fingerprint, mixsplit, spec_mixsplit};
use vstd::arithmetic::power2::{pow2, lemma_pow2_adds, lemma_pow2_pos, lemma_pow2_strictly_increases, lemma2_to64, lemma2_to64_rest};
use vstd::bits::{lemma_u64_shr_is_div, lemma_usize_shl_is_mul, lemma_usize_pow2_no_overflow, lemma_u32_shl_is_mul, lemma_u32_pow2_no_overflow};
use vstd::set_lib::{set_int_range, lemma_int_range, lemma_len_subset};
use crate::model::{hits, live_hit, load, xor_hash, xor_value, xor_position, position, lemma_single, lemma_remove, lemma_position_small, lemma_load_pos,
    lemma_load_mono};
use crate::bits::{lemma_count_up, lemma_count_down, lemma_count_fields, lemma_segment_step, lemma_select_masks,
    lemma_xor_swap};

verus! {

/// Calls `Vec::try_reserve_exact`, which makes room for `additional` more
/// elements or reports that the allocator could not; it never changes the
/// elements. Whether it succeeds depends on the machine and is not stated.
#[verifier::external_body]
fn try_reserve_exact<T>(v: &mut Vec<T>, additional: usize) -> (r: Result<(), TryReserveError>)
    ensures
        final(v)@ == old(v)@,
{
    v.try_reserve_exact(additional)
}

/// A vector of `len` copies of `value`, with its memory reserved up front.
fn zero_vec<T: Copy>(len: usize, value: T) -> (r: Result<Vec<T>, BuildError>)
    ensures
        r matches Ok(v) ==> v@ == Seq::new(len as nat, |i: int| value),
        r matches Err(e) ==> e is Reserve,
{
    let mut v: Vec<T> = Vec::new();
    match try_reserve_exact(&mut v, len) {
        Ok(()) => {},
        Err(e) => {
            return Err(BuildError::Reserve(e));
        },
    }
    let mut i: usize = 0;
    while i < len
        invariant
            i <= len,
            v@ == Seq::new(i as nat, |j: int| value),
        decreases len - i,
    {
        v.push(value);
        i = i + 1;
        assert(v@ =~= Seq::new(i as nat, |j: int| value));
    }
    Ok(v)
}

/// The slot counters, hashes and values agree with the first `n` keys of
/// `hs`/`vs` minus those in `gone`, for every slot below `cap`.
pub open spec fn tables_agree(
    p: Params,
    hs: Seq<u64>,
    vs: Seq<u64>,
    gone: Set<int>,
    n: int,
    cap: int,
    count: Seq<u8>,
    xh: Seq<u64>,
    xv: Seq<u64>,
    skip: Set<int>,
) -> bool {
    forall|s: int|
        0 <= s < cap && !skip.contains(s) ==> {
            &&& (#[trigger] count[s] >> 2) as int == load(p, hs, gone, n, s) % 64
            &&& count[s] & 3 == xor_position(p, hs, gone, n, s)
            &&& xh[s] == xor_hash(p, hs, gone, n, s)
            &&& xv[s] == xor_value(p, hs, vs, gone, n, s)
        }
}

proof fn lemma_xor_facts(a: u64, b: u64, c: u8)
    by (bit_vector)
    ensures
        a ^ 0 == a,
        b ^ 0 == b,
        c ^ 0 == c,
{
}

/// After the first `n` keys are counted, slot `s` holds two keys modulo 64
/// whose hashes and positions cancel: the sign of two equal mixed hashes.
pub open spec fn duplicate_at(p: Params, hs: Seq<u64>, n: int, s: int) -> bool {
    &&& load(p, hs, Set::empty(), n, s) % 64 == 2
    &&& xor_position(p, hs, Set::empty(), n, s) == 0
    &&& xor_hash(p, hs, Set::empty(), n, s) == 0
}

/// How counting the keys onto their slots ended.
pub enum FillOutcome {
    /// Every key was counted and no slot holds 64 or more keys.
    Complete,
    /// Some slot's counter overflowed; the seed must be changed.
    Overloaded,
    /// Two keys were found to share a slot with equal hashes.
    Duplicate,
}

/// Counts keys `0..size` of the bucket arrays onto their three slots,
/// accumulating the exclusive-or of their hashes and values per slot.
#[verifier::rlimit(60)]
#[verifier::spinoff_prover]
fn fill(
    p: &Params,
    size: usize,
    reverse_order: &Vec<u64>,
    reverse_values: &Vec<u64>,
    t2count: &mut Vec<u8>,
    t2hash: &mut Vec<u64>,
    t2value: &mut Vec<u64>,
) -> (r: FillOutcome)
    requires
        p.wf(),
        size <= reverse_order.len(),
        size <= reverse_values.len(),
        old(t2count).len() == old(t2hash).len(),
        old(t2count).len() == old(t2value).len(),
        p.spec_array_len() <= old(t2count).len(),
        forall|s: int| 0 <= s < old(t2count).len() ==> old(t2count)@[s] == 0u8,
        forall|s: int| 0 <= s < old(t2count).len() ==> old(t2hash)@[s] == 0u64,
        forall|s: int| 0 <= s < old(t2count).len() ==> old(t2value)@[s] == 0u64,
    ensures
        final(t2count).len() == old(t2count).len(),
        final(t2hash).len() == old(t2count).len(),
        final(t2value).len() == old(t2count).len(),
        r is Complete ==> {
            &&& tables_agree(*p, reverse_order@, reverse_values@, Set::empty(), size as int,
                old(t2count).len() as int, final(t2count)@, final(t2hash)@, final(t2value)@, Set::empty())
            &&& forall|s: int| 0 <= s < old(t2count).len() ==> #[trigger] load(*p, reverse_order@, Set::empty(), size as int, s) < 64
        },
        r is Overloaded ==> exists|s: int|
            0 <= s < old(t2count).len() && #[trigger] load(*p, reverse_order@, Set::empty(), size as int, s) >= 64,
        r is Duplicate ==> exists|n: int, s: int|
            1 <= n <= size && 0 <= s < old(t2count).len() && #[trigger] duplicate_at(*p, reverse_order@, n, s),
{
    let ghost hs = reverse_order@;
    let ghost vs = reverse_values@;
    let ghost cap = t2count.len() as int;
    let ghost gone = Set::<int>::empty();
    let mut has_error = false;
    let mut i: usize = 0;
    assert(0u8 >> 2u8 == 0u8 && 0u8 & 3u8 == 0u8) by (bit_vector);
    while i < size
        invariant
            p.wf(),
            cap == old(t2count).len(),
            hs == reverse_order@,
            vs == reverse_values@,
            gone == Set::<int>::empty(),
            size <= hs.len(),
            size <= vs.len(),
            i <= size,
            cap == t2count.len(),
            cap == t2hash.len(),
            cap == t2value.len(),
            p.spec_array_len() <= cap,
            tables_agree(*p, hs, vs, gone, i as int, cap, t2count@, t2hash@, t2value@, Set::empty()),
            !has_error ==> forall|s: int| 0 <= s < cap ==> #[trigger] load(*p, hs, gone, i as int, s) < 64,
            has_error ==> exists|s: int| 0 <= s < cap && #[trigger] load(*p, hs, gone, i as int, s) >= 64,
        decreases size - i,
    {
        let hash = reverse_order[i];
        let value = reverse_values[i];
        let (index1, index2, index3) = p.get_hash_from_hash(hash);
        proof {
            lemma_slot_facts(*p, hash);
        }
        let index1 = index1 as usize;
        let index2 = index2 as usize;
        let index3 = index3 as usize;
        let ghost pc = t2count@;
        let ghost ph = t2hash@;
        let ghost pv = t2value@;
        let ghost c1 = t2count@[index1 as int];
        let ghost c2 = t2count@[index2 as int];
        let ghost c3 = t2count@[index3 as int];
        let w1 = t2count[index1].wrapping_add(4);
        t2count[index1] = w1;
        t2hash[index1] = t2hash[index1] ^ hash;
        t2value[index1] = t2value[index1] ^ value;
        let w2 = t2count[index2].wrapping_add(4);
        t2count[index2] = w2 ^ 1;
        t2hash[index2] = t2hash[index2] ^ hash;
        t2value[index2] = t2value[index2] ^ value;
        let w3 = t2count[index3].wrapping_add(4);
        t2count[index3] = w3 ^ 2;
        t2hash[index3] = t2hash[index3] ^ hash;
        t2value[index3] = t2value[index3] ^ value;
        proof {
            lemma_count_up(c1, w1, 0);
            lemma_count_up(c2, w2, 1);
            lemma_count_up(c3, w3, 2);
            assert(w1 ^ 0u8 == w1) by (bit_vector);
            let n = i as int;
            assert forall|s: int| 0 <= s < cap implies {
                &&& (#[trigger] t2count@[s] >> 2) as int == load(*p, hs, gone, n + 1, s) % 64
                &&& t2count@[s] & 3 == xor_position(*p, hs, gone, n + 1, s)
                &&& t2hash@[s] == xor_hash(*p, hs, gone, n + 1, s)
                &&& t2value@[s] == xor_value(*p, hs, vs, gone, n + 1, s)
            } by {
                assert(live_hit(*p, hs, gone, n, s) == hits(*p, hs[n], s));
                let l = load(*p, hs, gone, n, s);
                assert((pc[s] >> 2) as int == l % 64);
                if s == index1 as int {
                    assert(position(*p, hs[n], s) == 0u8);
                    assert(((l % 64) + 1) % 64 == (l + 1) % 64);
                } else if s == index2 as int {
                    assert(position(*p, hs[n], s) == 1u8);
                    assert(((l % 64) + 1) % 64 == (l + 1) % 64);
                } else if s == index3 as int {
                    assert(position(*p, hs[n], s) == 2u8);
                    assert(((l % 64) + 1) % 64 == (l + 1) % 64);
                } else {
                    assert(!hits(*p, hs[n], s));
                    assert(t2count@[s] == pc[s]);
                    lemma_xor_facts(ph[s], pv[s], pc[s] & 3);
                }
            }
        }
        if (t2hash[index1] & t2hash[index2] & t2hash[index3]) == 0
            && ((t2hash[index1] == 0 && t2count[index1] == 8)
                || (t2hash[index2] == 0 && t2count[index2] == 8)
                || (t2hash[index3] == 0 && t2count[index3] == 8))
        {
            proof {
                let n = i as int + 1;
                lemma_count_fields(t2count@[index1 as int]);
                lemma_count_fields(t2count@[index2 as int]);
                lemma_count_fields(t2count@[index3 as int]);
                let s = if t2hash@[index1 as int] == 0 && t2count@[index1 as int] == 8 {
                    index1 as int
                } else if t2hash@[index2 as int] == 0 && t2count@[index2 as int] == 8 {
                    index2 as int
                } else {
                    index3 as int
                };
                assert((t2count@[s] >> 2) as int == load(*p, hs, gone, n, s) % 64);
                assert(duplicate_at(*p, hs, n, s));
            }
            return FillOutcome::Duplicate;
        }
        let ghost err_before = has_error;
        if t2count[index1] < 4 || t2count[index2] < 4 || t2count[index3] < 4 {
            proof {
                let n = i as int + 1;
                lemma_count_fields(t2count@[index1 as int]);
                lemma_count_fields(t2count@[index2 as int]);
                lemma_count_fields(t2count@[index3 as int]);
                let s = if t2count@[index1 as int] < 4 {
                    index1 as int
                } else if t2count@[index2 as int] < 4 {
                    index2 as int
                } else {
                    index3 as int
                };
                assert((t2count@[s] >> 2) as int == load(*p, hs, gone, n, s) % 64);
                assert(live_hit(*p, hs, gone, i as int, s));
                lemma_load_pos(*p, hs, gone, n, s, i as int);
                assert(load(*p, hs, gone, n, s) >= 64);
            }
            has_error = true;
        }
        proof {
            if err_before {
                let s = choose|s: int| 0 <= s < cap && #[trigger] load(*p, hs, gone, i as int, s) >= 64;
                lemma_load_mono(*p, hs, gone, i as int, i as int + 1, s);
            }
        }
        proof {
            lemma_count_fields(t2count@[index1 as int]);
            lemma_count_fields(t2count@[index2 as int]);
            lemma_count_fields(t2count@[index3 as int]);
            let n = i as int;
            if !has_error {
                assert(!err_before);
                assert forall|s: int| 0 <= s < cap implies #[trigger] load(*p, hs, gone, n + 1, s) < 64 by {
                    assert(live_hit(*p, hs, gone, n, s) == hits(*p, hs[n], s));
                    assert(load(*p, hs, gone, n, s) < 64);
                    assert((t2count@[s] >> 2) as int == load(*p, hs, gone, n + 1, s) % 64);
                    if hits(*p, hs[n], s) {
                        assert(s == index1 as int || s == index2 as int || s == index3 as int);
                        assert(t2count@[s] >= 4);
                        lemma_count_fields(t2count@[s]);
                    }
                }
            }
        }
        i = i + 1;
    }
    if has_error {
        FillOutcome::Overloaded
    } else {
        FillOutcome::Complete
    }
}

/// A duplicate-free sequence of numbers below `n` has at most `n` entries.
pub proof fn lemma_nodup_range_len(q: Seq<int>, n: int)
    requires
        q.no_duplicates(),
        n >= 0,
        forall|k: int| 0 <= k < q.len() ==> 0 <= #[trigger] q[k] < n,
    ensures
        q.len() <= n,
{
    q.unique_seq_to_set();
    lemma_int_range(0, n);
    assert(q.to_set().subset_of(set_int_range(0, n)));
    lemma_len_subset(q.to_set(), set_int_range(0, n));
}

/// The slot through which the `j`-th peeled key was peeled.
pub open spec fn stack_target(p: Params, hs: Seq<u64>, sk: Seq<int>, rh: Seq<u8>, j: int) -> int {
    slot_index(spec_slots(p, hs[sk[j]]), rh[j] as int)
}

/// The peeling stack: distinct keys below `size`, with their hashes, values
/// and peeling positions recorded, and each key's peeling slot free of every
/// key peeled after it.
pub open spec fn stack_ok(
    p: Params,
    hs: Seq<u64>,
    vs: Seq<u64>,
    size: int,
    sk: Seq<int>,
    ro: Seq<u64>,
    rv: Seq<u64>,
    rh: Seq<u8>,
) -> bool {
    &&& sk.no_duplicates()
    &&& forall|j: int| 0 <= j < sk.len() ==> 0 <= #[trigger] sk[j] < size
    &&& sk.len() <= ro.len()
    &&& sk.len() <= rv.len()
    &&& sk.len() <= rh.len()
    &&& forall|j: int|
        0 <= j < sk.len() ==> {
            &&& #[trigger] ro[j] == hs[sk[j]]
            &&& rv[j] == vs[sk[j]]
            &&& rh[j] < 3
        }
    &&& forall|j: int, r: int|
        0 <= j < sk.len() && 0 <= r < size && !sk.take(j + 1).contains(r)
            ==> !#[trigger] hits(p, hs[r], stack_target(p, hs, sk, rh, j))
}

/// `x - 2 * sl` modulo 2^32 exclusive-or `sl`: what is added to or taken
/// from a slot to reach a neighbouring slot.
pub open spec fn spread_of(sl: u32) -> u32 {
    sl ^ ((0x1_0000_0000 - 2 * sl) as u32)
}

/// The other two slots of the key whose mixed hash is `hash`, peeled through
/// `index` at position `found` of its triple, with their positions. The
/// segment steps and offset bits are selected with masks, without branching.
fn other_slots(p: &Params, index: u32, hash: u64, found: u8, spread: u32) -> (r: (u32, u32, u8, u8))
    requires
        p.wf(),
        found < 3,
        index as int == slot_index(spec_slots(*p, hash), found as int),
        spread == spread_of(p.segment_length),
    ensures
        ({
            let t = spec_slots(*p, hash);
            &&& found == 0 ==> r == (t.1, t.2, 1u8, 2u8)
            &&& found == 1 ==> r == (t.2, t.0, 2u8, 0u8)
            &&& found == 2 ==> r == (t.0, t.1, 0u8, 1u8)
        }),
{
    let sl = p.segment_length;
    let h01 = ((hash >> 18u64) as u32) & p.segment_length_mask;
    let h02 = (hash as u32) & p.segment_length_mask;
    let is0 = 0u32.wrapping_sub((found.wrapping_sub(1) >> 7u8) as u32);
    let is1 = 0u32.wrapping_sub((found & 1) as u32);
    let is2 = 0u32.wrapping_sub((found >> 1u8) as u32);
    let mut other_index1 = index.wrapping_add(sl ^ (spread & is2));
    let mut other_index2 = index.wrapping_sub(sl ^ (spread & is0));
    let ghost o1 = other_index1;
    let ghost o2 = other_index2;
    other_index1 = other_index1 ^ ((h01 & !is2) ^ (h02 & !is0));
    other_index2 = other_index2 ^ ((h01 & !is0) ^ (h02 & !is1));
    let f1 = ((is0 & 1) | (is1 & 2)) as u8;
    let f2 = ((is0 & 2) | (is2 & 1)) as u8;
    proof {
        let t = spec_slots(*p, hash);
        let h0 = t.0;
        lemma_slot_facts(*p, hash);
        let neg = ((0x1_0000_0000 - 2 * sl) as u32);
        lemma_select_masks(sl, neg);
        lemma_select_masks((hash >> 18u64) as u32, p.segment_length_mask);
        lemma_select_masks(hash as u32, p.segment_length_mask);
        lemma_select_masks(h01, h02);
        lemma_select_masks(h02, h01);
        lemma_select_masks(spread, 0);
        assert(h0 + 2 * sl <= u32::MAX) by (nonlinear_arith)
            requires
                (h0 as int) / (sl as int) < p.segment_count,
                (p.segment_count + 2) * sl <= 0x1_0000_0000,
                sl > 0,
        {
            assert(h0 < ((h0 as int) / (sl as int) + 1) * sl);
            assert(((h0 as int) / (sl as int) + 1) * sl <= p.segment_count * sl);
        }
        assert(h01 < sl && h02 < sl);
        assert(sl ^ spread == neg);
        assert(t.1 == ((h0 + sl) as u32) ^ h01);
        assert(t.2 == ((h0 + 2 * sl) as u32) ^ h02);
        if found == 0 {
            assert(is0 == 0xffff_ffffu32 && is1 == 0 && is2 == 0);
            assert(o1 == h0 + sl);
            assert(o2 == h0 + 2 * sl);
            assert(other_index1 == t.1);
            assert(other_index2 == t.2);
            assert(f1 == 1u8);
            assert(f2 == 2u8);
        } else if found == 1 {
            assert(is0 == 0 && is1 == 0xffff_ffffu32 && is2 == 0);
            lemma_segment_step((h0 + sl) as u32, h01, sl);
            assert(index == ((h0 + sl) as u32) ^ h01);
            assert(o1 == index + sl);
            assert(o1 == ((h0 + 2 * sl) as u32) ^ h01);
            assert(o2 == h0 ^ h01);
            lemma_xor_swap((h0 + 2 * sl) as u32, h01, h02);
            lemma_xor_swap(h0, h01, h01);
            assert(other_index1 == t.2);
            assert(other_index2 == t.0);
            assert(f1 == 2u8);
            assert(f2 == 0u8);
        } else {
            assert(is0 == 0 && is1 == 0 && is2 == 0xffff_ffffu32);
            lemma_segment_step((h0 + 2 * sl) as u32, h02, sl);
            lemma_segment_step((h0 + sl) as u32, h02, sl);
            assert(index == ((h0 + 2 * sl) as u32) ^ h02);
            assert(index - sl == ((h0 + sl) as u32) ^ h02);
            assert(index - 2 * sl == h0 ^ h02);
            assert(spread & is2 == spread);
            assert(sl ^ (spread & is2) == neg);
            assert(o1 == index - 2 * sl);
            assert(o1 == h0 ^ h02);
            assert(o2 == ((h0 + sl) as u32) ^ h02);
            lemma_xor_swap(h0, h02, h02);
            lemma_xor_swap((h0 + sl) as u32, h01, h02);
            assert(other_index1 == t.0);
            assert(other_index2 == t.1);
            assert(f1 == 0u8);
            assert(f2 == 1u8);
        }
    }
    (other_index1, other_index2, f1, f2)
}

/// Taking a key out of play through slot `s0` keeps the slot tables in
/// agreement, with `s0` retired and the key's two other slots updated.
proof fn lemma_peel_tables(
    p: Params,
    hs: Seq<u64>,
    vs: Seq<u64>,
    gone: Set<int>,
    size: int,
    cap: int,
    dead: Set<int>,
    q: int,
    s0: int,
    o1: int,
    o2: int,
    f1: u8,
    f2: u8,
    w1: u8,
    w2: u8,
    oc: Seq<u8>,
    oh: Seq<u64>,
    ov: Seq<u64>,
    nc: Seq<u8>,
    nh: Seq<u64>,
    nv: Seq<u64>,
)
    requires
        0 <= q < size,
        !gone.contains(q),
        oc.len() == cap,
        oh.len() == cap,
        ov.len() == cap,
        0 <= s0 < cap,
        0 <= o1 < cap,
        0 <= o2 < cap,
        s0 != o1,
        s0 != o2,
        o1 != o2,
        forall|s: int| hits(p, hs[q], s) <==> (s == s0 || s == o1 || s == o2),
        position(p, hs[q], o1) == f1,
        position(p, hs[q], o2) == f2,
        f1 < 4,
        f2 < 4,
        !dead.contains(o1),
        !dead.contains(o2),
        tables_agree(p, hs, vs, gone, size, cap, oc, oh, ov, dead),
        forall|s: int| 0 <= s < cap ==> #[trigger] load(p, hs, gone, size, s) < 64,
        w1 == (if oc[o1] - 4 < 0 { (oc[o1] - 4 + 256) as u8 } else { (oc[o1] - 4) as u8 }),
        nc == oc.update(o1, w1 ^ f1).update(o2, w2),
        w2 == ((if oc[o2] - 4 < 0 { (oc[o2] - 4 + 256) as u8 } else { (oc[o2] - 4) as u8 }) ^ f2),
        nh == oh.update(o1, oh[o1] ^ hs[q]).update(o2, oh[o2] ^ hs[q]),
        nv == ov.update(o1, ov[o1] ^ vs[q]).update(o2, ov[o2] ^ vs[q]),
    ensures
        tables_agree(p, hs, vs, gone.insert(q), size, cap, nc, nh, nv, dead.insert(s0)),
{
    let g2 = gone.insert(q);
    assert forall|s: int| 0 <= s < cap && !dead.insert(s0).contains(s) implies {
        &&& (#[trigger] nc[s] >> 2) as int == load(p, hs, g2, size, s) % 64
        &&& nc[s] & 3 == xor_position(p, hs, g2, size, s)
        &&& nh[s] == xor_hash(p, hs, g2, size, s)
        &&& nv[s] == xor_value(p, hs, vs, g2, size, s)
    } by {
        lemma_remove(p, hs, vs, gone, size, s, q);
        assert((oc[s] >> 2) as int == load(p, hs, gone, size, s) % 64);
        if s == o1 || s == o2 {
            let f = if s == o1 { f1 } else { f2 };
            let w = if s == o1 { w1 } else {
                if oc[o2] - 4 < 0 { (oc[o2] - 4 + 256) as u8 } else { (oc[o2] - 4) as u8 }
            };
            assert(load(p, hs, gone, size, s) >= 1);
            assert(load(p, hs, gone, size, s) < 64);
            assert(oc[s] >> 2 >= 1);
            lemma_count_down(oc[s], w, f);
        } else {
            assert(!hits(p, hs[q], s));
            lemma_xor_facts(oh[s], ov[s], oc[s] & 3);
        }
    }
}

/// The keys on a peeling stack, as a set.
pub open spec fn peeled_set(sk: Seq<int>) -> Set<int> {
    Set::new(|r: int| sk.contains(r))
}

/// Peeling of the first `n` keys of `hs` stopped short after the keys of
/// `sk`: some key is left, and no slot below `cap` holds exactly one of
/// the keys left.
pub open spec fn peel_stuck(p: Params, hs: Seq<u64>, n: int, cap: int, sk: Seq<int>) -> bool {
    &&& sk.no_duplicates()
    &&& forall|j: int| 0 <= j < sk.len() ==> 0 <= #[trigger] sk[j] < n
    &&& sk.len() < n
    &&& forall|s: int| 0 <= s < cap ==> #[trigger] load(p, hs, peeled_set(sk), n, s) != 1
}

/// Peeling key `q` off slot `s0` (popped from queue position `qp`) keeps
/// every slot that now holds exactly one key in play on the queue: `s0` is
/// emptied, and of its other slots those left with one key were pushed.
proof fn lemma_queue_after_peel(
    p: Params,
    hs: Seq<u64>,
    vs: Seq<u64>,
    gone: Set<int>,
    size: int,
    cap: int,
    q: int,
    s0: int,
    o1: int,
    o2: int,
    count: Seq<u8>,
    al0: Seq<u32>,
    al: Seq<u32>,
    qp: int,
    qm: int,
    qn: int,
    c1: bool,
    c2: bool,
)
    requires
        0 <= q < size,
        !gone.contains(q),
        0 <= qp < al0.len(),
        al0.len() == al.len(),
        al0[qp] as int == s0,
        s0 != o1,
        s0 != o2,
        o1 != o2,
        0 <= o1 < cap,
        0 <= o2 < cap,
        count.len() == cap,
        forall|s: int| hits(p, hs[q], s) <==> (s == s0 || s == o1 || s == o2),
        load(p, hs, gone, size, s0) == 1,
        (count[o1] >> 2) as int == load(p, hs, gone, size, o1) % 64,
        (count[o2] >> 2) as int == load(p, hs, gone, size, o2) % 64,
        load(p, hs, gone, size, o1) < 64,
        load(p, hs, gone, size, o2) < 64,
        c1 == ((count[o1] >> 2) == 2),
        c2 == ((count[o2] >> 2) == 2),
        qm == qp + (if c1 { 1int } else { 0int }),
        qn == qm + (if c2 { 1int } else { 0int }),
        qn <= al.len(),
        forall|k: int| 0 <= k < qp ==> al[k] == al0[k],
        c1 ==> al[qp] as int == o1,
        c2 ==> al[qm] as int == o2,
        forall|s: int| 0 <= s < cap && #[trigger] load(p, hs, gone, size, s) == 1
            ==> exists|k: int| 0 <= k < qp + 1 && al0[k] as int == s,
    ensures
        forall|s: int| 0 <= s < cap && #[trigger] load(p, hs, gone.insert(q), size, s) == 1
            ==> exists|k: int| 0 <= k < qn && al[k] as int == s,
{
    assert forall|s: int| 0 <= s < cap && #[trigger] load(p, hs, gone.insert(q), size, s) == 1
        implies exists|k: int| 0 <= k < qn && al[k] as int == s by {
        lemma_remove(p, hs, vs, gone, size, s, q);
        if hits(p, hs[q], s) {
            if s == o1 {
                assert(al[qp] as int == o1);
            } else if s == o2 {
                assert(al[qm] as int == o2);
            }
        } else {
            let k = choose|k: int| 0 <= k < qp + 1 && al0[k] as int == s;
            assert(k != qp);
            assert(al[k] == al0[k]);
        }
    }
}

/// Peels keys off slots that only they occupy, until none is left to peel.
/// Returns how many keys were peeled and, as a ghost, which ones in order.
#[verifier::spinoff_prover]
fn peel(
    p: &Params,
    size: usize,
    reverse_order: &mut Vec<u64>,
    reverse_values: &mut Vec<u64>,
    reverse_h: &mut Vec<u8>,
    alone: &mut Vec<u32>,
    t2count: &mut Vec<u8>,
    t2hash: &mut Vec<u64>,
    t2value: &mut Vec<u64>,
    Ghost(hs): Ghost<Seq<u64>>,
    Ghost(vs): Ghost<Seq<u64>>,
) -> (r: (usize, Ghost<Seq<int>>))
    requires
        p.wf(),
        size <= hs.len(),
        size <= vs.len(),
        size <= old(reverse_order).len(),
        size <= old(reverse_values).len(),
        size <= old(reverse_h).len(),
        old(alone).len() == old(t2count).len(),
        old(t2hash).len() == old(t2count).len(),
        old(t2value).len() == old(t2count).len(),
        p.spec_array_len() <= old(t2count).len() <= 0x1_0000_0000,
        tables_agree(*p, hs, vs, Set::empty(), size as int, old(t2count).len() as int,
            old(t2count)@, old(t2hash)@, old(t2value)@, Set::empty()),
        forall|s: int| 0 <= s < old(t2count).len() ==> #[trigger] load(*p, hs, Set::empty(), size as int, s) < 64,
    ensures
        final(reverse_order).len() == old(reverse_order).len(),
        final(reverse_values).len() == old(reverse_values).len(),
        final(reverse_h).len() == old(reverse_h).len(),
        final(alone).len() == old(alone).len(),
        final(t2count).len() == old(t2count).len(),
        final(t2hash).len() == old(t2hash).len(),
        final(t2value).len() == old(t2value).len(),
        r.0 == r.1@.len(),
        r.0 <= size,
        stack_ok(*p, hs, vs, size as int, r.1@, final(reverse_order)@, final(reverse_values)@, final(reverse_h)@),
        forall|c: int| size <= c < old(reverse_order).len() ==> final(reverse_order)@[c] == old(reverse_order)@[c],
        forall|s: int| 0 <= s < old(t2count).len() ==> #[trigger] load(*p, hs, peeled_set(r.1@), size as int, s) != 1,
{
    let capacity = t2count.len();
    let ghost cap = capacity as int;
    let ghost none = Set::<int>::empty();
    let mut qsize: usize = 0;
    let mut i: usize = 0;
    while i < capacity
        invariant
            capacity == t2count.len(),
            capacity == alone.len(),
            capacity <= 0x1_0000_0000,
            cap == capacity,
            i <= capacity,
            qsize <= i,
            forall|k: int| 0 <= k < qsize ==> (#[trigger] alone@[k] as int) < i,
            forall|k: int, l: int| 0 <= k < l < qsize ==> (#[trigger] alone@[k] as int) < (#[trigger] alone@[l] as int),
            forall|k: int| 0 <= k < qsize ==> load(*p, hs, none, size as int, #[trigger] alone@[k] as int) == 1,
            forall|s: int| 0 <= s < i && #[trigger] load(*p, hs, none, size as int, s) == 1
                ==> exists|k: int| 0 <= k < qsize && alone@[k] as int == s,
            t2count@ == old(t2count)@,
            tables_agree(*p, hs, vs, none, size as int, cap, t2count@, t2hash@, t2value@, Set::empty()),
            forall|s: int| 0 <= s < cap ==> #[trigger] load(*p, hs, none, size as int, s) < 64,
        decreases capacity - i,
    {
        let ghost al = alone@;
        let ghost qs = qsize as int;
        alone[qsize] = i as u32;
        if (t2count[i] >> 2) == 1 {
            assert(load(*p, hs, none, size as int, i as int) == 1);
            qsize = qsize + 1;
        }
        proof {
            assert forall|s: int| 0 <= s < i + 1 && #[trigger] load(*p, hs, none, size as int, s) == 1
                implies exists|k: int| 0 <= k < qsize && alone@[k] as int == s by {
                if s == i as int {
                    assert((t2count@[s] >> 2) as int == load(*p, hs, none, size as int, s) % 64);
                    assert(alone@[qs] as int == s);
                } else {
                    let k = choose|k: int| 0 <= k < qs && al[k] as int == s;
                    assert(alone@[k] == al[k]);
                }
            }
        }
        i = i + 1;
    }
    let ghost ent: Seq<int> = alone@.take(qsize as int).map_values(|x: u32| x as int);
    proof {
        assert forall|k: int| 0 <= k < qsize implies #[trigger] ent[k] == alone@[k] as int by {}
        assert forall|k: int, l: int| 0 <= k < l < ent.len() implies ent[k] != ent[l] by {
            assert((alone@[k] as int) < (alone@[l] as int));
        }
        assert(ent.no_duplicates());
        assert forall|k: int| 0 <= k < qsize implies ent.contains(#[trigger] alone@[k] as int) by {
            assert(ent[k] == alone@[k] as int);
        }
    }
    let ghost mut npop: int = 0;
    let ghost mut gone = Set::<int>::empty();
    let ghost mut dead = Set::<int>::empty();
    let ghost mut sk = Seq::<int>::empty();
    let mut stacksize: usize = 0;
    let seg_len = p.segment_length;
    let spread = seg_len ^ 0u32.wrapping_sub(seg_len.wrapping_mul(2));
    proof {
        assert(3 * seg_len <= (p.segment_count + 2) * p.segment_length) by (nonlinear_arith)
            requires p.segment_count >= 1, seg_len == p.segment_length;
        assert(spread == spread_of(p.segment_length));
    }
    while qsize > 0
        invariant
            p.wf(),
            spread == spread_of(p.segment_length),
            capacity == t2count.len(),
            capacity == t2hash.len(),
            capacity == t2value.len(),
            capacity == alone.len(),
            capacity <= 0x1_0000_0000,
            cap == capacity,
            p.spec_array_len() <= cap,
            size <= hs.len(),
            size <= vs.len(),
            reverse_order.len() == old(reverse_order).len(),
            reverse_values.len() == old(reverse_values).len(),
            reverse_h.len() == old(reverse_h).len(),
            size <= reverse_order.len(),
            size <= reverse_values.len(),
            size <= reverse_h.len(),
            stacksize == sk.len(),
            stacksize <= size,
            forall|c: int| size <= c < reverse_order.len() ==> reverse_order@[c] == old(reverse_order)@[c],
            stack_ok(*p, hs, vs, size as int, sk, reverse_order@, reverse_values@, reverse_h@),
            forall|r: int| gone.contains(r) <==> sk.contains(r),
            forall|s: int| #[trigger] dead.contains(s) ==> 0 <= s < cap && load(*p, hs, gone, size as int, s) == 0,
            tables_agree(*p, hs, vs, gone, size as int, cap, t2count@, t2hash@, t2value@, dead),
            forall|s: int| 0 <= s < cap ==> #[trigger] load(*p, hs, gone, size as int, s) < 64,
            qsize <= cap,
            forall|k: int|
                0 <= k < qsize ==> {
                    &&& (#[trigger] alone@[k] as int) < cap
                    &&& ent.contains(alone@[k] as int)
                    &&& !dead.contains(alone@[k] as int)
                },
            forall|k: int, l: int| 0 <= k < l < qsize ==> #[trigger] alone@[k] != #[trigger] alone@[l],
            ent.no_duplicates(),
            forall|k: int| 0 <= k < ent.len() ==> 0 <= #[trigger] ent[k] < cap,
            forall|k: int| 0 <= k < ent.len() ==> load(*p, hs, gone, size as int, #[trigger] ent[k]) <= 1,
            ent.len() == qsize + npop,
            npop >= 0,
            forall|s: int| 0 <= s < cap && #[trigger] load(*p, hs, gone, size as int, s) == 1
                ==> exists|k: int| 0 <= k < qsize && alone@[k] as int == s,
        decreases 2 * (cap - ent.len()) + qsize,
    {
        proof {
            lemma_nodup_range_len(ent, cap);
        }
        qsize = qsize - 1;
        let index = alone[qsize];
        proof {
            npop = npop + 1;
        }
        let index_usize = index as usize;
        let ghost s0 = index as int;
        let ghost al0 = alone@;
        let ghost qp = qsize as int;
        if (t2count[index_usize] >> 2) == 1 {
            let hash = t2hash[index_usize];
            let value = t2value[index_usize];
            let found = t2count[index_usize] & 3;
            let ghost q = lemma_single(*p, hs, vs, gone, size as int, s0);
            proof {
                lemma_slot_facts(*p, hs[q]);
                assert(!sk.contains(q));
                assert(sk.push(q).no_duplicates()) by {
                    assert forall|a: int, b: int| 0 <= a < b < sk.push(q).len() implies sk.push(q)[a] != sk.push(q)[b] by {
                        if b == sk.len() {
                            assert(sk.contains(sk[a]));
                        }
                    }
                }
                assert forall|k: int| 0 <= k < sk.push(q).len() implies 0 <= #[trigger] sk.push(q)[k] < size by {
                    if k < sk.len() {
                        assert(sk.push(q)[k] == sk[k]);
                    }
                }
                lemma_nodup_range_len(sk.push(q), size as int);
            }
            let ghost pre_ro = reverse_order@;
            let ghost pre_rv = reverse_values@;
            let ghost pre_rh = reverse_h@;
            reverse_h[stacksize] = found;
            reverse_order[stacksize] = hash;
            reverse_values[stacksize] = value;
            stacksize = stacksize + 1;
            proof {
                assert(hash == hs[q]);
                assert(found == position(*p, hs[q], s0));
                assert(s0 == slot_index(spec_slots(*p, hs[q]), found as int));
            }
            let (other_index1, other_index2, f1, f2) = other_slots(p, index, hash, found, spread);
            let ghost old_sk = sk;
            let ghost old_gone = gone;
            let ghost old_dead = dead;
            let ghost old_ent = ent;
            let ghost old_count = t2count@;
            let ghost old_hash = t2hash@;
            let ghost old_value = t2value@;
            let ghost o1 = other_index1 as int;
            let ghost o2 = other_index2 as int;
            proof {
                assert(hash == hs[q]);
                assert(value == vs[q]);
                assert(found == position(*p, hs[q], s0));
                assert(s0 == slot_index(spec_slots(*p, hs[q]), found as int));
                assert(forall|s: int| hits(*p, hs[q], s) <==> (s == s0 || s == o1 || s == o2));
                assert(position(*p, hs[q], o1) == f1);
                assert(position(*p, hs[q], o2) == f2);
                assert(live_hit(*p, hs, gone, q, o1));
                assert(live_hit(*p, hs, gone, q, o2));
                lemma_load_pos(*p, hs, gone, size as int, o1, q);
                lemma_load_pos(*p, hs, gone, size as int, o2, q);
                assert(!dead.contains(o1));
                assert(!dead.contains(o2));
                sk = sk.push(q);
                gone = gone.insert(q);
                dead = dead.insert(s0);
            }
            let oi1 = other_index1 as usize;
            alone[qsize] = other_index1;
            let ghost c1 = (t2count@[o1] >> 2) == 2;
            if (t2count[oi1] >> 2) == 2 {
                proof {
                    assert(!old_ent.contains(o1)) by {
                        if old_ent.contains(o1) {
                            let k = choose|k: int| 0 <= k < old_ent.len() && old_ent[k] == o1;
                            assert(load(*p, hs, old_gone, size as int, old_ent[k]) <= 1);
                        }
                    }
                    ent = ent.push(o1);
                    assert forall|k: int| 0 <= k < ent.len() implies 0 <= #[trigger] ent[k] < cap by {
                        if k < old_ent.len() {
                            assert(ent[k] == old_ent[k]);
                        }
                    }
                    assert(ent.no_duplicates()) by {
                        assert forall|a: int, b: int| 0 <= a < b < ent.len() implies ent[a] != ent[b] by {
                            if b == old_ent.len() {
                                assert(old_ent.contains(old_ent[a]));
                            }
                        }
                    }
                    lemma_nodup_range_len(ent, cap);
                }
                qsize = qsize + 1;
            }
            let ghost ent1 = ent;
            let ghost qm = qsize as int;
            let w1 = t2count[oi1].wrapping_sub(4);
            t2count[oi1] = w1 ^ f1;
            t2hash[oi1] = t2hash[oi1] ^ hash;
            t2value[oi1] = t2value[oi1] ^ value;
            let oi2 = other_index2 as usize;
            let ghost al1 = alone@;
            alone[qsize] = other_index2;
            let ghost c2 = (t2count@[o2] >> 2) == 2;
            assert(t2count@[o2] == old_count[o2]);
            let ghost al2 = alone@;
            if (t2count[oi2] >> 2) == 2 {
                proof {
                    assert(!ent1.contains(o2)) by {
                        if ent1.contains(o2) {
                            let k = choose|k: int| 0 <= k < ent1.len() && ent1[k] == o2;
                            if k < old_ent.len() {
                                assert(load(*p, hs, old_gone, size as int, old_ent[k]) <= 1);
                            }
                        }
                    }
                    ent = ent.push(o2);
                    assert forall|k: int| 0 <= k < ent.len() implies 0 <= #[trigger] ent[k] < cap by {
                        if k < ent1.len() {
                            assert(ent[k] == ent1[k]);
                        }
                    }
                    assert(ent.no_duplicates()) by {
                        assert forall|a: int, b: int| 0 <= a < b < ent.len() implies ent[a] != ent[b] by {
                            if b == ent1.len() {
                                assert(ent1.contains(ent1[a]));
                            }
                        }
                    }
                    lemma_nodup_range_len(ent, cap);
                }
                qsize = qsize + 1;
            }
            let w2 = t2count[oi2].wrapping_sub(4);
            t2count[oi2] = w2 ^ f2;
            t2hash[oi2] = t2hash[oi2] ^ hash;
            t2value[oi2] = t2value[oi2] ^ value;
            proof {
                lemma_peel_tables(*p, hs, vs, old_gone, size as int, cap, old_dead, q, s0, o1, o2, f1, f2,
                    w1, w2 ^ f2, old_count, old_hash, old_value, t2count@, t2hash@, t2value@);
                let n0 = old_sk.len();
                assert forall|s: int| 0 <= s < cap implies #[trigger] load(*p, hs, gone, size as int, s) < 64 by {
                    lemma_remove(*p, hs, vs, old_gone, size as int, s, q);
                }
                assert forall|s: int| #[trigger] dead.contains(s) implies 0 <= s < cap && load(*p, hs, gone, size as int, s) == 0 by {
                    lemma_remove(*p, hs, vs, old_gone, size as int, s, q);
                    if s != s0 {
                        assert(old_dead.contains(s));
                    }
                }
                assert forall|k: int| 0 <= k < ent.len() implies load(*p, hs, gone, size as int, #[trigger] ent[k]) <= 1 by {
                    lemma_remove(*p, hs, vs, old_gone, size as int, ent[k], q);
                    if k < old_ent.len() {
                        assert(ent[k] == old_ent[k]);
                    } else {
                        assert(ent[k] == o1 || ent[k] == o2);
                        assert((old_count[ent[k]] >> 2) as int == load(*p, hs, old_gone, size as int, ent[k]) % 64);
                    }
                }
                assert forall|k: int| 0 <= k < qsize implies {
                    &&& (#[trigger] alone@[k] as int) < cap
                    &&& ent.contains(alone@[k] as int)
                    &&& !dead.contains(alone@[k] as int)
                } by {
                    if k < qp {
                        assert(alone@[k] == al0[k]);
                        assert(al0[k] != al0[qp]);
                        let m = choose|m: int| 0 <= m < old_ent.len() && old_ent[m] == al0[k] as int;
                        assert(ent[m] == old_ent[m]);
                    } else {
                        assert(alone@[k] as int == o1 || alone@[k] as int == o2);
                        assert(ent[ent.len() - 1] == alone@[k] as int || ent[ent.len() - 2] == alone@[k] as int);
                    }
                }
                assert forall|k: int, l: int| 0 <= k < l < qsize implies #[trigger] alone@[k] != #[trigger] alone@[l] by {
                    if l < qp {
                        assert(alone@[k] == al0[k]);
                        assert(alone@[l] == al0[l]);
                    } else if k < qp {
                        assert(alone@[k] == al0[k]);
                        let m = choose|m: int| 0 <= m < old_ent.len() && old_ent[m] == al0[k] as int;
                        assert(load(*p, hs, old_gone, size as int, old_ent[m]) <= 1);
                    }
                }
                assert(sk.len() <= reverse_order@.len());
                assert(sk.no_duplicates());
                assert forall|r: int| gone.contains(r) <==> sk.contains(r) by {
                    if r == q {
                        assert(sk[n0 as int] == q);
                    } else if old_sk.contains(r) {
                        let k = choose|k: int| 0 <= k < old_sk.len() && old_sk[k] == r;
                        assert(sk[k] == r);
                    } else if sk.contains(r) {
                        let k = choose|k: int| 0 <= k < sk.len() && sk[k] == r;
                        assert(k < n0);
                        assert(old_sk[k] == r);
                    }
                }
                assert forall|j: int| 0 <= j < sk.len() implies {
                    &&& #[trigger] reverse_order@[j] == hs[sk[j]]
                    &&& reverse_values@[j] == vs[sk[j]]
                    &&& reverse_h@[j] < 3
                } by {
                    if j < n0 {
                        assert(reverse_order@[j] == pre_ro[j]);
                        assert(sk[j] == old_sk[j]);
                    }
                }
                assert forall|j: int, r: int|
                    0 <= j < sk.len() && 0 <= r < size && !sk.take(j + 1).contains(r)
                    implies !#[trigger] hits(*p, hs[r], stack_target(*p, hs, sk, reverse_h@, j)) by {
                    if j < n0 {
                        assert(sk.take(j + 1) =~= old_sk.take(j + 1));
                        assert(stack_target(*p, hs, sk, reverse_h@, j) == stack_target(*p, hs, old_sk, pre_rh, j));
                    } else {
                        assert(sk.take(j + 1) =~= sk);
                        assert(stack_target(*p, hs, sk, reverse_h@, j) == s0);
                        assert(r != q);
                        assert(!old_gone.contains(r));
                        assert(!live_hit(*p, hs, old_gone, r, s0));
                    }
                }
            }
            proof {
                assert(qm == qp + (if c1 { 1int } else { 0int }));
                assert(qsize as int == qm + (if c2 { 1int } else { 0int }));
                lemma_queue_after_peel(*p, hs, vs, old_gone, size as int, cap, q, s0, o1, o2,
                    old_count, al0, alone@, qp, qm, qsize as int, c1, c2);
            }
        } else {
            proof {
                assert((t2count@[s0] >> 2) as int == load(*p, hs, gone, size as int, s0) % 64);
                assert(load(*p, hs, gone, size as int, s0) != 1);
                assert forall|s: int| 0 <= s < cap && #[trigger] load(*p, hs, gone, size as int, s) == 1
                    implies exists|k: int| 0 <= k < qsize && alone@[k] as int == s by {
                    let k = choose|k: int| 0 <= k < qp + 1 && al0[k] as int == s;
                    assert(k != qp);
                }
            }
        }
    }
    proof {
        assert(gone =~= peeled_set(sk));
    }
    (stacksize, Ghost(sk))
}

proof fn lemma_xor_rotate(v: u64, d0: u64, d1: u64, d2: u64)
    by (bit_vector)
    ensures
        (v ^ d1 ^ d2) ^ d1 ^ d2 == v,
        d0 ^ (v ^ d2 ^ d0) ^ d2 == v,
        d0 ^ d1 ^ (v ^ d0 ^ d1) == v,
{
}

/// Every peeled key's three slots exclusive-or to its value (and, for a
/// checked map, to its fingerprint).
pub open spec fn assigned(p: Params, hs: Seq<u64>, vs: Seq<u64>, sk: Seq<int>, from: int,
    data: Seq<u64>, checks: Seq<u64>, verified: bool) -> bool {
    forall|j: int| from <= j < sk.len() ==> {
        &&& #[trigger] table_lookup(p, data, hs[sk[j]]) == vs[sk[j]]
        &&& verified ==> table_lookup(p, checks, hs[sk[j]]) == spec_fingerprint(hs[sk[j]])
    }
}

/// Writes the tables in reverse peeling order, so that each key's slots
/// exclusive-or to its value (and its fingerprint).
fn assign(
    p: &Params,
    size: usize,
    reverse_order: &Vec<u64>,
    reverse_values: &Vec<u64>,
    reverse_h: &Vec<u8>,
    data: &mut Vec<u64>,
    checks: &mut Vec<u64>,
    verified: bool,
    Ghost(hs): Ghost<Seq<u64>>,
    Ghost(vs): Ghost<Seq<u64>>,
    Ghost(sk): Ghost<Seq<int>>,
)
    requires
        p.wf(),
        sk.len() == size,
        size <= hs.len(),
        size <= vs.len(),
        stack_ok(*p, hs, vs, size as int, sk, reverse_order@, reverse_values@, reverse_h@),
        p.spec_array_len() <= old(data).len(),
        verified ==> p.spec_array_len() <= old(checks).len(),
    ensures
        final(data).len() == old(data).len(),
        final(checks).len() == old(checks).len(),
        assigned(*p, hs, vs, sk, 0, final(data)@, final(checks)@, verified),
{
    let mut i: usize = size;
    while i > 0
        invariant
            p.wf(),
            sk.len() == size,
            size <= hs.len(),
            size <= vs.len(),
            i <= size,
            stack_ok(*p, hs, vs, size as int, sk, reverse_order@, reverse_values@, reverse_h@),
            data.len() == old(data).len(),
            checks.len() == old(checks).len(),
            p.spec_array_len() <= data.len(),
            verified ==> p.spec_array_len() <= checks.len(),
            assigned(*p, hs, vs, sk, i as int, data@, checks@, verified),
        decreases i,
    {
        i = i - 1;
        let hash = reverse_order[i];
        let val = reverse_values[i];
        let fp = fingerprint(hash);
        let (index1, index2, index3) = p.get_hash_from_hash(hash);
        let found = reverse_h[i] as usize;
        let h012: [u32; 5] = [index1, index2, index3, index1, index2];
        let target = h012[found] as usize;
        let a = h012[found + 1] as usize;
        let b = h012[found + 2] as usize;
        let ghost old_data = data@;
        let ghost old_checks = checks@;
        data[target] = val ^ data[a] ^ data[b];
        if verified {
            checks[target] = fp ^ checks[a] ^ checks[b];
        }
        proof {
            let ii = i as int;
            lemma_slot_facts(*p, hash);
            assert(hash == hs[sk[ii]]);
            assert(target as int == stack_target(*p, hs, sk, reverse_h@, ii));
            assert forall|j: int| ii <= j < sk.len() implies {
                &&& #[trigger] table_lookup(*p, data@, hs[sk[j]]) == vs[sk[j]]
                &&& verified ==> table_lookup(*p, checks@, hs[sk[j]]) == spec_fingerprint(hs[sk[j]])
            } by {
                if j == ii {
                    assert(val == vs[sk[ii]]);
                    if found == 0 {
                        assert(target == index1 as usize && a == index2 as usize && b == index3 as usize);
                    } else if found == 1 {
                        assert(target == index2 as usize && a == index3 as usize && b == index1 as usize);
                    } else {
                        assert(target == index3 as usize && a == index1 as usize && b == index2 as usize);
                    }
                    lemma_xor_rotate(val, old_data[index1 as int], old_data[index2 as int], old_data[index3 as int]);
                    if verified {
                        lemma_xor_rotate(fp, old_checks[index1 as int], old_checks[index2 as int], old_checks[index3 as int]);
                    }
                } else {
                    assert(!sk.take(ii + 1).contains(sk[j])) by {
                        if sk.take(ii + 1).contains(sk[j]) {
                            let m = choose|m: int| 0 <= m < ii + 1 && #[trigger] sk.take(ii + 1)[m] == sk[j];
                            assert(sk[m] == sk[j]);
                        }
                    }
                    assert(!hits(*p, hs[sk[j]], target as int));
                    lemma_slot_facts(*p, hs[sk[j]]);
                    assert(table_lookup(*p, old_data, hs[sk[j]]) == vs[sk[j]]);
                }
            }
            assert(assigned(*p, hs, vs, sk, ii, data@, checks@, verified));
        }
    }
}

/// Where block `b` of `2^bb` blocks starts in a bucket array of `size` cells.
pub open spec fn block_start(b: int, size: int, bb: nat) -> int {
    (b * size) / (pow2(bb) as int)
}

/// The bookkeeping of bucketing: every block's fill pointer sits at or past
/// its start, the cells it passed are written, every written cell lies
/// behind some pointer, and unwritten cells read zero.
pub open spec fn blocks_ok(
    start: Seq<u32>,
    ro: Seq<u64>,
    written: Set<int>,
    nblocks: int,
    size: int,
    bb: nat,
) -> bool {
    &&& start.len() == nblocks
    &&& ro.len() == size + 1
    &&& ro[size] == 1
    &&& forall|b: int| 0 <= b < nblocks ==> block_start(b, size, bb) <= #[trigger] start[b] <= size
    &&& forall|b: int, c: int|
        0 <= b < nblocks && block_start(b, size, bb) <= c < #[trigger] start[b] ==> #[trigger] written.contains(c)
    &&& forall|c: int|
        #[trigger] written.contains(c) ==> 0 <= c < size && exists|b: int|
            0 <= b < nblocks && block_start(b, size, bb) <= c < #[trigger] start[b]
    &&& forall|c: int| 0 <= c < size && !written.contains(c) ==> #[trigger] ro[c] == 0
}

/// Below any unwritten cell there is a block whose fill pointer is at an
/// unwritten cell.
proof fn lemma_free_block(start: Seq<u32>, ro: Seq<u64>, written: Set<int>, nblocks: int, size: int, bb: nat, e: int) -> (b: int)
    requires
        blocks_ok(start, ro, written, nblocks, size, bb),
        nblocks >= 1,
        block_start(0, size, bb) == 0,
        0 <= e < size,
        !written.contains(e),
    ensures
        0 <= b < nblocks,
        start[b] < size,
        ro[start[b] as int] == 0,
    decreases e,
{
    if e == 0 {
        if start[0] > 0 {
            assert(written.contains(0));
        }
        0
    } else if !written.contains(e - 1) {
        lemma_free_block(start, ro, written, nblocks, size, bb, e - 1)
    } else {
        let b = choose|b: int| 0 <= b < nblocks && block_start(b, size, bb) <= e - 1 < #[trigger] start[b];
        if start[b] > e {
            assert(written.contains(e));
        }
        b
    }
}

/// Writing a key at block `seg`'s fill pointer and advancing it keeps the bookkeeping.
proof fn lemma_place(start: Seq<u32>, ro: Seq<u64>, written: Set<int>, nblocks: int, size: int, bb: nat, seg: int, hash: u64)
    requires
        blocks_ok(start, ro, written, nblocks, size, bb),
        0 <= seg < nblocks,
        ro[start[seg] as int] == 0,
        size <= u32::MAX,
    ensures
        start[seg] < size,
        blocks_ok(
            start.update(seg, (start[seg] + 1) as u32),
            ro.update(start[seg] as int, hash),
            written.insert(start[seg] as int),
            nblocks,
            size,
            bb,
        ),
{
    let pos = start[seg] as int;
    assert(pos != size);
    let s2 = start.update(seg, (start[seg] + 1) as u32);
    let r2 = ro.update(pos, hash);
    let w2 = written.insert(pos);
    assert forall|b: int, c: int|
        0 <= b < nblocks && block_start(b, size, bb) <= c < #[trigger] s2[b] implies #[trigger] w2.contains(c) by {
        if b != seg || c < pos {
            assert(written.contains(c));
        }
    }
    assert forall|c: int| #[trigger] w2.contains(c) implies 0 <= c < size && exists|b: int|
        0 <= b < nblocks && block_start(b, size, bb) <= c < #[trigger] s2[b] by {
        if c == pos {
            assert(block_start(seg, size, bb) <= c < s2[seg]);
        } else {
            let b = choose|b: int| 0 <= b < nblocks && block_start(b, size, bb) <= c < #[trigger] start[b];
            assert(block_start(b, size, bb) <= c < s2[b]);
        }
    }
    assert forall|c: int| 0 <= c < size && !w2.contains(c) implies #[trigger] r2[c] == 0 by {
        assert(!written.contains(c));
    }
}

/// Stepping to the next block, wrapping around after the last.
proof fn lemma_next_block(x: usize, bb: usize)
    by (bit_vector)
    requires
        1 <= bb <= 31,
        x < (1usize << bb),
    ensures
        ((x + 1) as usize) & (((1usize << bb) - 1) as usize) == if x + 1 == (1usize << bb) { 0 } else { x + 1 },
{
}

/// Finds, from block `seg`, the first block whose fill pointer is at a free cell.
fn probe(start_pos: &Vec<u32>, reverse_order: &Vec<u64>, seg: usize, block_bits: u32, block_count: usize, Ghost(tb): Ghost<int>) -> (r: usize)
    requires
        1 <= block_bits <= 31,
        block_count == 1usize << (block_bits as usize),
        start_pos.len() == block_count,
        seg < block_count,
        0 <= tb < block_count,
        forall|b: int| 0 <= b < block_count ==> (#[trigger] start_pos@[b] as int) < reverse_order.len(),
        reverse_order@[start_pos@[tb] as int] == 0,
    ensures
        r < block_count,
        reverse_order@[start_pos@[r as int] as int] == 0,
{
    let mut segment_index = seg;
    loop
        invariant
            1 <= block_bits <= 31,
            block_count == 1usize << (block_bits as usize),
            start_pos.len() == block_count,
            segment_index < block_count,
            0 <= tb < block_count,
            forall|b: int| 0 <= b < block_count ==> (#[trigger] start_pos@[b] as int) < reverse_order.len(),
            reverse_order@[start_pos@[tb] as int] == 0,
        decreases if tb >= segment_index { tb - segment_index } else { tb + block_count - segment_index },
    {
        let pos = start_pos[segment_index] as usize;
        if reverse_order[pos] == 0 {
            return segment_index;
        }
        proof {
            lemma_next_block(segment_index, block_bits as usize);
        }
        segment_index = (segment_index + 1) & (block_count - 1);
    }
}

/// Places each key's mixed hash and value into the bucket arrays, grouping
/// keys by the top bits of their mixed hash.
fn bucket(
    hashed: &[u64],
    raw_values: &[u64],
    seed: u64,
    block_bits: u32,
    block_count: usize,
    start_pos: &mut Vec<u32>,
    reverse_order: &mut Vec<u64>,
    reverse_values: &mut Vec<u64>,
) -> (perm: Ghost<Seq<int>>)
    requires
        hashed.len() == raw_values.len(),
        hashed.len() <= u32::MAX,
        1 <= block_bits <= 31,
        block_count == 1usize << (block_bits as usize),
        old(start_pos).len() == block_count,
        old(reverse_order).len() == hashed.len() + 1,
        old(reverse_order)@[hashed.len() as int] == 1,
        forall|c: int| 0 <= c < hashed.len() ==> old(reverse_order)@[c] == 0,
        old(reverse_values).len() == hashed.len(),
    ensures
        final(start_pos).len() == old(start_pos).len(),
        final(reverse_order).len() == old(reverse_order).len(),
        final(reverse_values).len() == old(reverse_values).len(),
        final(reverse_order)@[hashed.len() as int] == 1,
        (forall|k: int| 0 <= k < hashed.len() ==> #[trigger] spec_mixsplit(hashed@[k], seed) != 0) ==> {
            &&& perm@.len() == hashed.len()
            &&& forall|k: int| 0 <= k < hashed.len() ==> {
                &&& 0 <= #[trigger] perm@[k] < hashed.len()
                &&& final(reverse_order)@[perm@[k]] == spec_mixsplit(hashed@[k], seed)
                &&& final(reverse_values)@[perm@[k]] == raw_values@[k]
            }
            &&& forall|j: int, l: int| 0 <= j < l < hashed.len() ==> #[trigger] perm@[j] != #[trigger] perm@[l]
        },
{
    let size = hashed.len();
    let ghost bb = block_bits as nat;
    proof {
        lemma_usize_pow2_no_overflow(bb);
        lemma_usize_shl_is_mul(1, block_bits as usize);
        lemma_pow2_pos(bb);
        lemma2_to64();
        if bb < 31 {
            lemma_pow2_strictly_increases(bb, 31);
        }
    }
    let mut i: usize = 0;
    while i < block_count
        invariant
            block_count == pow2(bb),
            block_count <= 0x8000_0000,
            bb == block_bits as nat,
            1 <= block_bits <= 31,
            size == hashed.len(),
            size <= u32::MAX,
            start_pos.len() == block_count,
            i <= block_count,
            forall|b: int| 0 <= b < i ==> #[trigger] start_pos@[b] as int == block_start(b, size as int, bb),
        decreases block_count - i,
    {
        assert((i as int) * (size as int) <= 0x7fff_ffff_ffff_ffff) by (nonlinear_arith)
            requires i < block_count, block_count <= 0x8000_0000, size <= u32::MAX;
        let prod: u64 = i as u64 * size as u64;
        proof {
            lemma_u64_shr_is_div(prod, block_bits as u64);
            assert((i as int) * (size as int) / (pow2(bb) as int) <= size) by (nonlinear_arith)
                requires i < pow2(bb), pow2(bb) > 0, size >= 0;
        }
        start_pos[i] = (prod >> (block_bits as u64)) as u32;
        i = i + 1;
    }
    let ghost mut written = Set::<int>::empty();
    let ghost mut perm = Seq::<int>::empty();
    let ghost mut nz = true;
    let mut k: usize = 0;
    proof {
        assert forall|b: int| 0 <= b < block_count implies (#[trigger] start_pos@[b] as int) <= size by {
            assert(block_start(b, size as int, bb) <= size) by (nonlinear_arith)
                requires b < pow2(bb), pow2(bb) > 0, size >= 0, block_start(b, size as int, bb) == (b * size) / (pow2(bb) as int);
        }
        assert(block_start(0, size as int, bb) == 0);
    }
    while k < size
        invariant
            block_count == pow2(bb),
            bb == block_bits as nat,
            1 <= block_bits <= 31,
            block_count == 1usize << (block_bits as usize),
            size == hashed.len(),
            size == raw_values.len(),
            size <= u32::MAX,
            k <= size,
            reverse_values.len() == size,
            block_start(0, size as int, bb) == 0,
            blocks_ok(start_pos@, reverse_order@, written, block_count as int, size as int, bb),
            written.finite(),
            written.len() <= k,
            nz == (forall|j: int| 0 <= j < k ==> #[trigger] spec_mixsplit(hashed@[j], seed) != 0),
            nz ==> perm.len() == k,
            nz ==> forall|j: int| 0 <= j < k ==> {
                &&& 0 <= #[trigger] perm[j] < size
                &&& written.contains(perm[j])
                &&& reverse_order@[perm[j]] == spec_mixsplit(hashed@[j], seed)
                &&& reverse_values@[perm[j]] == raw_values@[j]
            },
            nz ==> forall|c: int| #[trigger] written.contains(c) ==> reverse_order@[c] != 0,
            nz ==> forall|j: int, l: int| 0 <= j < l < k ==> #[trigger] perm[j] != #[trigger] perm[l],
        decreases size - k,
    {
        let key = hashed[k];
        let value = raw_values[k];
        let hash = mixsplit(key, seed);
        proof {
            lemma_u64_shr_is_div(hash, (64 - block_bits) as u64);
            lemma_pow2_adds((64 - bb) as nat, bb);
            lemma2_to64_rest();
            lemma_pow2_pos((64 - bb) as nat);
            assert((hash as int) / (pow2((64 - bb) as nat) as int) < pow2(bb)) by (nonlinear_arith)
                requires hash < pow2((64 - bb) as nat) * pow2(bb), pow2((64 - bb) as nat) > 0;
        }
        let seg0 = (hash >> (64 - block_bits) as u64) as usize;
        let ghost tb: int;
        proof {
            lemma_int_range(0, size as int);
            assert(written.subset_of(set_int_range(0, size as int)));
            if forall|c: int| 0 <= c < size ==> #[trigger] written.contains(c) {
                assert(set_int_range(0, size as int).subset_of(written));
                lemma_len_subset(set_int_range(0, size as int), written);
            }
            let e = choose|c: int| 0 <= c < size && !#[trigger] written.contains(c);
            tb = lemma_free_block(start_pos@, reverse_order@, written, block_count as int, size as int, bb, e);
        }
        let seg = probe(start_pos, reverse_order, seg0, block_bits, block_count, Ghost(tb));
        let pos = start_pos[seg] as usize;
        let ghost old_start = start_pos@;
        let ghost old_ro = reverse_order@;
        let ghost old_written = written;
        let ghost old_perm = perm;
        proof {
            lemma_place(start_pos@, reverse_order@, written, block_count as int, size as int, bb, seg as int, hash);
        }
        reverse_order[pos] = hash;
        reverse_values[pos] = value;
        start_pos[seg] = start_pos[seg] + 1;
        proof {
            if nz {
                assert(!old_written.contains(pos as int));
            }
            written = written.insert(pos as int);
            if nz && hash != 0 {
                perm = perm.push(pos as int);
                assert forall|j: int| 0 <= j < k implies #[trigger] perm[j] != pos as int by {
                    assert(old_written.contains(old_perm[j]));
                }
            }
            nz = nz && hash != 0;
        }
        k = k + 1;
    }
    Ghost(perm)
}

/// Clears the bucket arrays and the slot tables for another attempt.
fn reset_attempt(
    size: usize,
    capacity: usize,
    reverse_order: &mut Vec<u64>,
    t2count: &mut Vec<u8>,
    t2hash: &mut Vec<u64>,
    t2value: &mut Vec<u64>,
    reverse_values: &mut Vec<u64>,
)
    requires
        size <= old(reverse_order).len(),
        size <= old(reverse_values).len(),
        capacity <= old(t2count).len(),
        capacity <= old(t2hash).len(),
        capacity <= old(t2value).len(),
    ensures
        final(reverse_order).len() == old(reverse_order).len(),
        final(reverse_values).len() == old(reverse_values).len(),
        final(t2count).len() == old(t2count).len(),
        final(t2hash).len() == old(t2hash).len(),
        final(t2value).len() == old(t2value).len(),
        forall|c: int| 0 <= c < size ==> final(reverse_order)@[c] == 0 && final(reverse_values)@[c] == 0,
        forall|c: int| size <= c < old(reverse_order).len() ==> final(reverse_order)@[c] == old(reverse_order)@[c],
        forall|s: int| 0 <= s < capacity ==> final(t2count)@[s] == 0 && final(t2hash)@[s] == 0 && final(t2value)@[s] == 0,
        forall|s: int| capacity <= s < old(t2count).len() ==> final(t2count)@[s] == old(t2count)@[s],
        forall|s: int| capacity <= s < old(t2hash).len() ==> final(t2hash)@[s] == old(t2hash)@[s],
        forall|s: int| capacity <= s < old(t2value).len() ==> final(t2value)@[s] == old(t2value)@[s],
{
    let mut i: usize = 0;
    while i < size
        invariant
            i <= size,
            size <= reverse_order.len(),
            size <= reverse_values.len(),
            reverse_order.len() == old(reverse_order).len(),
            reverse_values.len() == old(reverse_values).len(),
            forall|c: int| 0 <= c < i ==> reverse_order@[c] == 0 && reverse_values@[c] == 0,
            forall|c: int| size <= c < reverse_order.len() ==> reverse_order@[c] == old(reverse_order)@[c],
        decreases size - i,
    {
        reverse_order[i] = 0;
        reverse_values[i] = 0;
        i = i + 1;
    }
    let mut s: usize = 0;
    while s < capacity
        invariant
            s <= capacity,
            capacity <= t2count.len(),
            capacity <= t2hash.len(),
            capacity <= t2value.len(),
            t2count.len() == old(t2count).len(),
            t2hash.len() == old(t2hash).len(),
            t2value.len() == old(t2value).len(),
            forall|c: int| 0 <= c < s ==> t2count@[c] == 0 && t2hash@[c] == 0 && t2value@[c] == 0,
            forall|c: int| capacity <= c < t2count.len() ==> t2count@[c] == old(t2count)@[c],
            forall|c: int| capacity <= c < t2hash.len() ==> t2hash@[c] == old(t2hash)@[c],
            forall|c: int| capacity <= c < t2value.len() ==> t2value@[c] == old(t2value)@[c],
        decreases capacity - s,
    {
        t2count[s] = 0;
        t2hash[s] = 0;
        t2value[s] = 0;
        s = s + 1;
    }
}

/// Whether a sizing's segments fit the 32-bit index space for `size` keys.
pub fn sizing_fits_index_space(size: u32, sizing: Sizing) -> (r: bool)
    requires
        sizing.wf(),
    ensures
        r == sizing_fits(size, sizing),
{
    let mut segment_length = sizing.segment_length;
    if segment_length > MAX_SEGMENT_LENGTH {
        segment_length = MAX_SEGMENT_LENGTH;
    }
    let capacity: u32 = if size > 1 { sizing.capacity } else { 0 };
    assert(capacity / segment_length < 0x4000_0000) by (nonlinear_arith)
        requires segment_length >= 4;
    let mut total: u64 = (capacity / segment_length) as u64;
    if capacity % segment_length != 0 {
        total = total + 1;
    }
    if total < 3 {
        total = 3;
    }
    proof {
        let sl = segment_length as int;
        let c = capacity as int;
        assert((c + sl - 1) / sl == c / sl + if c % sl != 0 { 1int } else { 0int }) by (nonlinear_arith)
            requires sl > 0, c >= 0;
        assert(total as int == total_segment_count(size, sizing));
        assert(total * sl <= 0x4000_0001 * 0x4_0000) by (nonlinear_arith)
            requires total <= 0x4000_0001, sl <= 0x4_0000, sl >= 0;
    }
    let slots = total * (segment_length as u64);
    slots <= 0x1_0000_0000u64 && slots <= usize::MAX as u64
}

/// The tables built for a key set.
pub struct BuildOutput {
    pub params: Params,
    pub data: Vec<u64>,
    pub checks: Option<Vec<u64>>,
}

/// What a successful construction delivers: a table (and, for a checked
/// map, a fingerprint table) of the right size, keys whose mixed hashes are
/// nonzero and pairwise distinct, and every key's three slots combining to
/// its value (and fingerprint).
pub open spec fn output_ok(out: BuildOutput, hs: Seq<u64>, vs: Seq<u64>, verified: bool) -> bool {
    &&& out.params.len == hs.len()
    &&& hs.len() > 0 ==> hs.len() <= out.params.spec_array_len() && 12 <= out.params.spec_array_len()
    &&& (verified <==> out.checks is Some)
    &&& if hs.len() == 0 {
        &&& out.params.is_empty_params()
        &&& out.data@.len() == 0
        &&& (out.checks matches Some(c) ==> c@.len() == 0)
    } else {
        &&& out.params.wf()
        &&& out.data@.len() == out.params.spec_array_len()
        &&& (out.checks matches Some(c) ==> c@.len() == out.data@.len())
    }
    &&& forall|k: int| 0 <= k < hs.len() ==> #[trigger] spec_mixsplit(hs[k], out.params.seed) != 0
    &&& forall|i: int, j: int| 0 <= i < j < hs.len()
        ==> #[trigger] spec_mixsplit(hs[i], out.params.seed) != #[trigger] spec_mixsplit(hs[j], out.params.seed)
    &&& forall|k: int| 0 <= k < hs.len() ==> {
        &&& #[trigger] table_lookup(out.params, out.data@, spec_mixsplit(hs[k], out.params.seed)) == vs[k]
        &&& (out.checks matches Some(c) ==> table_lookup(out.params, c@, spec_mixsplit(hs[k], out.params.seed))
            == spec_fingerprint(spec_mixsplit(hs[k], out.params.seed)))
    }
}

/// What a successful attempt leaves, read as what construction delivers.
proof fn lemma_output_of_attempt(out: BuildOutput, hs: Seq<u64>, vs: Seq<u64>, verified: bool, checks: Seq<u64>)
    requires
        hs.len() > 0,
        out.params.wf(),
        out.params.len == hs.len(),
        hs.len() <= out.params.spec_array_len(),
        12 <= out.params.spec_array_len(),
        out.data@.len() == out.params.spec_array_len(),
        verified <==> out.checks is Some,
        out.checks matches Some(c) ==> c@ == checks && checks.len() == out.data@.len(),
        forall|k: int| 0 <= k < hs.len() ==> #[trigger] spec_mixsplit(hs[k], out.params.seed) != 0,
        forall|i: int, j: int| 0 <= i < j < hs.len()
            ==> #[trigger] spec_mixsplit(hs[i], out.params.seed) != #[trigger] spec_mixsplit(hs[j], out.params.seed),
        reads_back(out.params, out.data@, checks, hs, vs, verified),
    ensures
        output_ok(out, hs, vs, verified),
{
}

/// A duplicate-free sequence of `n` numbers below `n` holds every number below `n`.
proof fn lemma_full_permutation(sk: Seq<int>, n: int, q: int)
    requires
        sk.no_duplicates(),
        sk.len() == n,
        forall|j: int| 0 <= j < sk.len() ==> 0 <= #[trigger] sk[j] < n,
        0 <= q < n,
    ensures
        sk.contains(q),
{
    sk.unique_seq_to_set();
    lemma_int_range(0, n);
    assert(sk.to_set().subset_of(set_int_range(0, n)));
    vstd::set_lib::lemma_subset_equality(sk.to_set(), set_int_range(0, n));
    assert(set_int_range(0, n).contains(q));
}

/// When every key was peeled, every key's slots give back its value (and fingerprint).
proof fn lemma_built_lookup(
    p: Params,
    hashed: Seq<u64>,
    raw_values: Seq<u64>,
    verified: bool,
    hs: Seq<u64>,
    vs: Seq<u64>,
    perm: Seq<int>,
    sk: Seq<int>,
    data: Seq<u64>,
    checks: Seq<u64>,
)
    requires
        hashed.len() == raw_values.len(),
        sk.len() == hashed.len(),
        sk.no_duplicates(),
        forall|j: int| 0 <= j < sk.len() ==> 0 <= #[trigger] sk[j] < hashed.len(),
        assigned(p, hs, vs, sk, 0, data, checks, verified),
        (forall|k: int| 0 <= k < hashed.len() ==> #[trigger] spec_mixsplit(hashed[k], p.seed) != 0) ==> {
            &&& perm.len() == hashed.len()
            &&& forall|k: int| 0 <= k < hashed.len() ==> {
                &&& 0 <= #[trigger] perm[k] < hashed.len()
                &&& hs[perm[k]] == spec_mixsplit(hashed[k], p.seed)
                &&& vs[perm[k]] == raw_values[k]
            }
        },
    ensures
        (forall|k: int| 0 <= k < hashed.len() ==> #[trigger] spec_mixsplit(hashed[k], p.seed) != 0)
            ==> forall|k: int| 0 <= k < hashed.len() ==> {
                &&& #[trigger] table_lookup(p, data, spec_mixsplit(hashed[k], p.seed)) == raw_values[k]
                &&& (verified ==> table_lookup(p, checks, spec_mixsplit(hashed[k], p.seed))
                    == spec_fingerprint(spec_mixsplit(hashed[k], p.seed)))
            },
{
    let n = hashed.len() as int;
    if forall|k: int| 0 <= k < n ==> #[trigger] spec_mixsplit(hashed[k], p.seed) != 0 {
        assert forall|k: int| 0 <= k < n implies {
            &&& #[trigger] table_lookup(p, data, spec_mixsplit(hashed[k], p.seed)) == raw_values[k]
            &&& (verified ==> table_lookup(p, checks, spec_mixsplit(hashed[k], p.seed))
                == spec_fingerprint(spec_mixsplit(hashed[k], p.seed)))
        } by {
            let q = perm[k];
            lemma_full_permutation(sk, n, q);
            let j = choose|j: int| 0 <= j < sk.len() && sk[j] == q;
            assert(table_lookup(p, data, hs[sk[j]]) == vs[sk[j]]);
        }
    }
}

/// When every key was peeled, each through a slot of its own, the table has
/// at least as many slots as there are keys.
proof fn lemma_built_room(p: Params, hs: Seq<u64>, vs: Seq<u64>, n: int, sk: Seq<int>, ro: Seq<u64>, rv: Seq<u64>, rh: Seq<u8>)
    requires
        p.wf(),
        sk.len() == n,
        stack_ok(p, hs, vs, n, sk, ro, rv, rh),
    ensures
        n <= p.spec_array_len(),
{
    let targets = Seq::new(n as nat, |j: int| stack_target(p, hs, sk, rh, j));
    assert forall|j: int| 0 <= j < n implies 0 <= #[trigger] targets[j] < p.spec_array_len() by {
        lemma_slot_facts(p, hs[sk[j]]);
    }
    assert forall|a: int, b: int| 0 <= a < b < n implies targets[a] != targets[b] by {
        assert(!sk.take(a + 1).contains(sk[b])) by {
            if sk.take(a + 1).contains(sk[b]) {
                let m = choose|m: int| 0 <= m < a + 1 && #[trigger] sk.take(a + 1)[m] == sk[b];
                assert(sk[m] == sk[b]);
            }
        }
        assert(!hits(p, hs[sk[b]], stack_target(p, hs, sk, rh, a)));
        assert(hits(p, hs[sk[b]], stack_target(p, hs, sk, rh, b)));
    }
    assert(targets.no_duplicates());
    lemma_nodup_range_len(targets, p.spec_array_len());
}

/// When every key was peeled, no two keys share a mixed hash: the second of
/// two equal keys could never be peeled off a slot the first one also occupies.
proof fn lemma_built_distinct(
    p: Params,
    hashed: Seq<u64>,
    hs: Seq<u64>,
    vs: Seq<u64>,
    perm: Seq<int>,
    sk: Seq<int>,
    ro: Seq<u64>,
    rv: Seq<u64>,
    rh: Seq<u8>,
)
    requires
        sk.len() == hashed.len(),
        stack_ok(p, hs, vs, hashed.len() as int, sk, ro, rv, rh),
        (forall|k: int| 0 <= k < hashed.len() ==> #[trigger] spec_mixsplit(hashed[k], p.seed) != 0) ==> {
            &&& perm.len() == hashed.len()
            &&& forall|k: int| 0 <= k < hashed.len() ==> {
                &&& 0 <= #[trigger] perm[k] < hashed.len()
                &&& hs[perm[k]] == spec_mixsplit(hashed[k], p.seed)
            }
            &&& forall|j: int, l: int| 0 <= j < l < hashed.len() ==> #[trigger] perm[j] != #[trigger] perm[l]
        },
    ensures
        (forall|k: int| 0 <= k < hashed.len() ==> #[trigger] spec_mixsplit(hashed[k], p.seed) != 0)
            ==> forall|i: int, j: int| 0 <= i < j < hashed.len()
                ==> #[trigger] spec_mixsplit(hashed[i], p.seed) != #[trigger] spec_mixsplit(hashed[j], p.seed),
{
    let n = hashed.len() as int;
    assert forall|a: int, b: int| 0 <= a < n && 0 <= b < n && a != b implies #[trigger] hs[a] != #[trigger] hs[b] by {
        lemma_full_permutation(sk, n, a);
        lemma_full_permutation(sk, n, b);
        let ja = choose|j: int| 0 <= j < sk.len() && sk[j] == a;
        let jb = choose|j: int| 0 <= j < sk.len() && sk[j] == b;
        let (x, y, jx) = if ja < jb { (a, b, ja) } else { (b, a, jb) };
        let jy = if ja < jb { jb } else { ja };
        assert(!sk.take(jx + 1).contains(y)) by {
            if sk.take(jx + 1).contains(y) {
                let m = choose|m: int| 0 <= m < jx + 1 && #[trigger] sk.take(jx + 1)[m] == y;
                assert(sk[m] == sk[jy]);
            }
        }
        assert(!hits(p, hs[y], stack_target(p, hs, sk, rh, jx)));
        assert(hits(p, hs[x], stack_target(p, hs, sk, rh, jx)));
    }
    if forall|k: int| 0 <= k < n ==> #[trigger] spec_mixsplit(hashed[k], p.seed) != 0 {
        assert forall|i: int, j: int| 0 <= i < j < n implies
            #[trigger] spec_mixsplit(hashed[i], p.seed) != #[trigger] spec_mixsplit(hashed[j], p.seed) by {
            assert(perm[i] != perm[j]);
            assert(hs[perm[i]] != hs[perm[j]]);
        }
    }
}

/// `hs` holds, in some order and without repeats, the mixed hashes of the
/// keys under `seed` (stated when none of them is zero).
pub open spec fn bucket_order(hashed: Seq<u64>, seed: u64, hs: Seq<u64>) -> bool {
    &&& hashed.len() <= hs.len()
    &&& (forall|k: int| 0 <= k < hashed.len() ==> #[trigger] spec_mixsplit(hashed[k], seed) != 0) ==> exists|perm: Seq<int>| {
        &&& perm.len() == hashed.len()
        &&& forall|k: int| 0 <= k < hashed.len() ==> {
            &&& 0 <= #[trigger] perm[k] < hashed.len()
            &&& hs[perm[k]] == spec_mixsplit(hashed[k], seed)
        }
        &&& forall|j: int, l: int| 0 <= j < l < hashed.len() ==> #[trigger] perm[j] != #[trigger] perm[l]
    }
}

/// An attempt with parameters `p` cannot build: some key's mixed hash is
/// zero (zero marks a free cell while keys are bucketed, so such a seed is
/// passed over), or, in the order the keys were bucketed, some slot
/// receives 64 or more keys, or peeling gets stuck.
pub open spec fn attempt_fails(hashed: Seq<u64>, p: Params) -> bool {
    ||| exists|k: int| 0 <= k < hashed.len() && #[trigger] spec_mixsplit(hashed[k], p.seed) == 0
    ||| exists|hs: Seq<u64>| #[trigger] bucket_order(hashed, p.seed, hs) && (
        (exists|s: int| 0 <= s < p.spec_array_len() && #[trigger] load(p, hs, Set::empty(), hashed.len() as int, s) >= 64)
        || exists|sk: Seq<int>| #[trigger] peel_stuck(p, hs, hashed.len() as int, p.spec_array_len(), sk))
}

/// An attempt with parameters `p` meets two keys whose hashes and positions
/// cancel on a slot.
pub open spec fn attempt_finds_duplicate(hashed: Seq<u64>, p: Params) -> bool {
    exists|hs: Seq<u64>| #[trigger] bucket_order(hashed, p.seed, hs)
        && exists|m: int, s: int| 1 <= m <= hashed.len() && 0 <= s < p.spec_array_len() && #[trigger] duplicate_at(p, hs, m, s)
}

/// How one attempt with one seed ended.
pub enum AttemptOutcome {
    /// The tables were written.
    Built,
    /// Two keys share their mixed hash.
    Duplicate,
    /// The keys could not all be peeled; the arrays are cleared for another seed.
    Retry,
    /// Memory could not be reserved.
    Failed(BuildError),
}

/// Every key's three slots in `data` combine to its value and, for a checked
/// table, its slots in `checks` to its fingerprint.
pub open spec fn reads_back(p: Params, data: Seq<u64>, checks: Seq<u64>, hashed: Seq<u64>, raw: Seq<u64>, verified: bool) -> bool {
    forall|k: int| 0 <= k < hashed.len() ==> {
        &&& #[trigger] table_lookup(p, data, spec_mixsplit(hashed[k], p.seed)) == raw[k]
        &&& (verified ==> table_lookup(p, checks, spec_mixsplit(hashed[k], p.seed))
            == spec_fingerprint(spec_mixsplit(hashed[k], p.seed)))
    }
}

/// Whether every key's mixed hash under `seed` is nonzero.
fn mixes_all_nonzero(hashed: &[u64], seed: u64) -> (b: bool)
    ensures
        b <==> forall|k: int| 0 <= k < hashed.len() ==> #[trigger] spec_mixsplit(hashed@[k], seed) != 0,
{
    let mut i: usize = 0;
    while i < hashed.len()
        invariant
            i <= hashed.len(),
            forall|k: int| 0 <= k < i ==> #[trigger] spec_mixsplit(hashed@[k], seed) != 0,
        decreases hashed.len() - i,
    {
        if mixsplit(hashed[i], seed) == 0 {
            return false;
        }
        i = i + 1;
    }
    true
}

/// Buckets, counts, peels and assigns the keys with the seed and geometry of
/// `params`; a seed that mixes some key's hash to zero is passed over.
#[verifier::spinoff_prover]
#[verifier::rlimit(40)]
fn attempt(
    params: &Params,
    hashed: &[u64],
    raw_values: &[u64],
    verified: bool,
    capacity: usize,
    data: &mut Vec<u64>,
    checks: &mut Vec<u64>,
    alone: &mut Vec<u32>,
    t2count: &mut Vec<u8>,
    t2hash: &mut Vec<u64>,
    t2value: &mut Vec<u64>,
    reverse_h: &mut Vec<u8>,
    reverse_order: &mut Vec<u64>,
    reverse_values: &mut Vec<u64>,
) -> (r: AttemptOutcome)
    requires
        params.wf(),
        params.segment_length >= 2,
        hashed.len() == raw_values.len(),
        1 <= hashed.len() <= u32::MAX,
        capacity == params.spec_array_len(),
        old(data).len() == capacity,
        old(checks).len() == if verified { capacity } else { 0 },
        old(alone).len() == capacity,
        old(t2count).len() == capacity,
        old(t2hash).len() == capacity,
        old(t2value).len() == capacity,
        old(reverse_h).len() == hashed.len(),
        old(reverse_order).len() == hashed.len() + 1,
        old(reverse_values).len() == hashed.len(),
        old(reverse_order)@[hashed.len() as int] == 1,
        forall|c: int| 0 <= c < hashed.len() ==> old(reverse_order)@[c] == 0,
        forall|s: int| 0 <= s < capacity ==> old(t2count)@[s] == 0u8,
        forall|s: int| 0 <= s < capacity ==> old(t2hash)@[s] == 0u64,
        forall|s: int| 0 <= s < capacity ==> old(t2value)@[s] == 0u64,
    ensures
        final(data).len() == capacity,
        final(checks).len() == old(checks).len(),
        final(alone).len() == capacity,
        final(t2count).len() == capacity,
        final(t2hash).len() == capacity,
        final(t2value).len() == capacity,
        final(reverse_h).len() == hashed.len(),
        final(reverse_order).len() == hashed.len() + 1,
        final(reverse_values).len() == hashed.len(),
        r is Retry ==> {
            &&& final(reverse_order)@[hashed.len() as int] == 1
            &&& forall|c: int| 0 <= c < hashed.len() ==> final(reverse_order)@[c] == 0
            &&& forall|s: int| 0 <= s < capacity ==> final(t2count)@[s] == 0u8
            &&& forall|s: int| 0 <= s < capacity ==> final(t2hash)@[s] == 0u64
            &&& forall|s: int| 0 <= s < capacity ==> final(t2value)@[s] == 0u64
        },
        r matches AttemptOutcome::Failed(e) ==> e is Reserve,
        r is Duplicate ==> attempt_finds_duplicate(hashed@, *params),
        r is Retry ==> attempt_fails(hashed@, *params),
        r is Built ==> hashed.len() <= capacity,
        r is Built ==> forall|k: int| 0 <= k < hashed.len() ==> #[trigger] spec_mixsplit(hashed@[k], params.seed) != 0,
        r is Built ==> reads_back(*params, final(data)@, final(checks)@, hashed@, raw_values@, verified),
        r is Built ==> forall|i: int, j: int| 0 <= i < j < hashed.len()
            ==> #[trigger] spec_mixsplit(hashed@[i], params.seed) != #[trigger] spec_mixsplit(hashed@[j], params.seed),
{
    let n = hashed.len();
    if !mixes_all_nonzero(hashed, params.seed) {
        return AttemptOutcome::Retry;
    }
    proof {
        assert((params.segment_count + 2) * 2 <= (params.segment_count + 2) * params.segment_length) by (nonlinear_arith)
            requires params.segment_length >= 2;
        assert(1u32 << 31u32 == 0x8000_0000u32) by (bit_vector);
    }
    let mut block_bits = 1u32;
    while (1u32 << block_bits) < params.segment_count
        invariant
            1 <= block_bits <= 31,
            params.segment_count < 0x8000_0000,
            1u32 << 31u32 == 0x8000_0000u32,
        decreases 31 - block_bits,
    {
        block_bits = block_bits + 1;
    }
    let block_count = 1usize << block_bits;
    let mut start_pos = match zero_vec(block_count, 0u32) { Ok(v) => v, Err(e) => { return AttemptOutcome::Failed(e); } };
    let perm = bucket(hashed, raw_values, params.seed, block_bits, block_count, &mut start_pos,
        reverse_order, reverse_values);
    let ghost hs = reverse_order@;
    let ghost vs = reverse_values@;
    assert(bucket_order(hashed@, params.seed, hs)) by {
        if forall|k: int| 0 <= k < hashed.len() ==> #[trigger] spec_mixsplit(hashed@[k], params.seed) != 0 {
            let pm = perm@;
            assert(pm.len() == hashed.len());
        }
    }
    let outcome = fill(params, n, reverse_order, reverse_values, t2count, t2hash, t2value);
    match outcome {
        FillOutcome::Duplicate => {
            return AttemptOutcome::Duplicate;
        },
        FillOutcome::Overloaded => {
            reset_attempt(n, capacity, reverse_order, t2count, t2hash, t2value, reverse_values);
            return AttemptOutcome::Retry;
        },
        FillOutcome::Complete => {},
    }
    let (stacksize, sk) = peel(params, n, reverse_order, reverse_values, reverse_h,
        alone, t2count, t2hash, t2value, Ghost(hs), Ghost(vs));
    if stacksize == n {
        proof {
            assert(forall|i: int, j: int| 0 <= i < j < n
                ==> #[trigger] spec_mixsplit(hashed@[i], params.seed) != #[trigger] spec_mixsplit(hashed@[j], params.seed))
            by {
                lemma_built_distinct(*params, hashed@, hs, vs, perm@, sk@, reverse_order@, reverse_values@, reverse_h@);
            }
            assert(n <= capacity) by {
                lemma_built_room(*params, hs, vs, n as int, sk@, reverse_order@, reverse_values@, reverse_h@);
            }
        }
        assign(params, n, reverse_order, reverse_values, reverse_h, data, checks, verified,
            Ghost(hs), Ghost(vs), sk);
        proof {
            assert(reads_back(*params, data@, checks@, hashed@, raw_values@, verified)) by {
                lemma_built_lookup(*params, hashed@, raw_values@, verified, hs, vs, perm@, sk@, data@, checks@);
            }
        }
        return AttemptOutcome::Built;
    }
    proof {
        assert(peel_stuck(*params, hs, n as int, capacity as int, sk@));
    }
    reset_attempt(n, capacity, reverse_order, t2count, t2hash, t2value, reverse_values);
    AttemptOutcome::Retry
}

/// With no keys, or one, a sizing's segments always fit.
proof fn lemma_sizing_fits_small(s: Sizing)
    requires
        s.wf(),
    ensures
        sizing_fits(0, s),
        sizing_fits(1, s),
{
    let sl = clamped_segment_length(s) as int;
    assert((0 + sl - 1) / sl == 0) by (nonlinear_arith)
        requires sl >= 1;
    assert(total_segment_count(0, s) == 3);
    assert(total_segment_count(1, s) == 3);
}

proof fn lemma_pow2_half_exact(x: u32)
    by (bit_vector)
    requires
        x >= 4,
        x & ((x - 1) as u32) == 0,
    ensures
        (x / 2) * 2 == x,
{
}

/// Between attempts the segments are split in two, then joined back, so that
/// seeds are also tried with another geometry; the table size never changes.
fn adjust_geometry(params: &mut Params, iterations: u32, adjusted: bool, Ghost(base): Ghost<Params>)
    requires
        base.wf(),
        base.segment_length >= 4,
        (adjusted && iterations % 4 == 3) ==> halved_geometry(*old(params), base),
        !(adjusted && iterations % 4 == 3) ==> same_geometry(*old(params), base),
    ensures
        final(params).seed == old(params).seed,
        final(params).wf(),
        final(params).segment_length >= 2,
        final(params).spec_array_len() == base.spec_array_len(),
        final(params).len == base.len,
        (adjusted && iterations % 4 == 2) ==> halved_geometry(*final(params), base),
        !(adjusted && iterations % 4 == 2) ==> same_geometry(*final(params), base),
{
    proof {
        assert(base.segment_count <= 0x4000_0000) by (nonlinear_arith)
            requires (base.segment_count + 2) * base.segment_length <= 0x1_0000_0000, base.segment_length >= 4;
    }
    if adjusted {
        match iterations % 4 {
            2 => {
                params.segment_length = params.segment_length / 2;
                params.segment_length_mask = params.segment_length - 1;
                params.segment_count = params.segment_count * 2 + 2;
                proof {
                    lemma_pow2_half_exact(base.segment_length);
                    assert(params.segment_count * params.segment_length <= u32::MAX) by (nonlinear_arith)
                        requires
                            params.segment_count == base.segment_count * 2 + 2,
                            params.segment_length == base.segment_length / 2,
                            (base.segment_length / 2) * 2 == base.segment_length,
                            (base.segment_count + 2) * base.segment_length <= 0x1_0000_0000;
                }
                params.segment_count_length = params.segment_count * params.segment_length;
            },
            3 => {
                proof {
                    lemma_pow2_half_exact(base.segment_length);
                }
                params.segment_length = params.segment_length * 2;
                params.segment_length_mask = params.segment_length - 1;
                params.segment_count = params.segment_count / 2 - 1;
                assert(params.segment_length == base.segment_length);
                assert(params.segment_count == base.segment_count);
                params.segment_count_length = params.segment_count * params.segment_length;
            },
            _ => {},
        }
    }
    proof {
        if adjusted && iterations % 4 == 2 {
            lemma_halved_wf(*params, base);
        } else if adjusted && iterations % 4 == 3 {
            lemma_pow2_half_exact(base.segment_length);
        }
        assert(params.wf());
        assert(params.segment_length >= 2);
        assert(params.spec_array_len() == base.spec_array_len());
    }
}

/// The seed tried at attempt `it` (counting from 0): the splitmix64 output
/// after `it + 1` steps of a counter that starts at 1.
pub open spec fn attempt_seed(it: nat) -> u64 {
    spec_splitmix_output(((1 + (it + 1) * SPLITMIX_GAMMA) % 0x1_0000_0000_0000_0000) as u64)
}

/// The geometry tried at attempt `it` for `n` keys: for more than 4 and fewer
/// than 1,000,000 keys, every fourth attempt from the third on splits each
/// segment of `base` in two; otherwise it is `base`'s.
pub open spec fn attempt_geometry(p: Params, base: Params, n: int, it: int) -> bool {
    if 4 < n < 1_000_000 && it % 4 == 2 {
        halved_geometry(p, base)
    } else {
        same_geometry(p, base)
    }
}

/// The parameters of a table built for `n` keys with `sizing`: the seed and
/// geometry of one of the attempts.
pub open spec fn built_params(p: Params, n: int, sizing: Sizing) -> bool {
    n > 0 ==> exists|it: int|
        0 <= it <= MAX_ITERATIONS && p.seed == #[trigger] attempt_seed(it as nat)
            && attempt_geometry(p, Params::spec_initialized(n as u32, sizing), n, it)
}

/// `p` are the parameters of attempt `it` for `n` keys with `sizing`.
pub open spec fn attempt_params(p: Params, n: int, sizing: Sizing, it: int) -> bool {
    &&& p.seed == attempt_seed(it as nat)
    &&& attempt_geometry(p, Params::spec_initialized(n as u32, sizing), n, it)
}

/// Attempt `it` for the keys `hashed` with `sizing` cannot build.
pub open spec fn attempt_failed_at(hashed: Seq<u64>, sizing: Sizing, it: int) -> bool {
    exists|p: Params| #[trigger] attempt_params(p, hashed.len() as int, sizing, it) && attempt_fails(hashed, p)
}

/// Every attempt, from the first to the last allowed, cannot build.
pub open spec fn seed_loop_fails(hashed: Seq<u64>, sizing: Sizing) -> bool {
    forall|it: int| 0 <= it <= MAX_ITERATIONS ==> #[trigger] attempt_failed_at(hashed, sizing, it)
}

/// `p` are the parameters of an attempt before which every attempt failed.
pub open spec fn first_buildable(hashed: Seq<u64>, sizing: Sizing, p: Params) -> bool {
    exists|it: int| 0 <= it <= MAX_ITERATIONS && #[trigger] attempt_params(p, hashed.len() as int, sizing, it)
        && forall|j: int| 0 <= j < it ==> #[trigger] attempt_failed_at(hashed, sizing, j)
}

/// Some attempt meets two keys whose hashes and positions cancel on a slot.
pub open spec fn seed_loop_meets_duplicate(hashed: Seq<u64>, sizing: Sizing) -> bool {
    exists|it: int, p: Params| 0 <= it <= MAX_ITERATIONS && #[trigger] attempt_params(p, hashed.len() as int, sizing, it)
        && attempt_finds_duplicate(hashed, p)
}

/// Builds the tables for key hashes `hashed` and raw values `raw_values`.
#[verifier::rlimit(100)]
#[verifier::spinoff_prover]
pub fn build_from_hashes(hashed: &[u64], raw_values: &[u64], verified: bool, sizing: Sizing) -> (r: Result<BuildOutput, BuildError>)
    requires
        sizing.wf(),
    ensures
        (r matches Err(BuildError::MismatchedLengths { keys, values })) <==> hashed.len() != raw_values.len(),
        r matches Err(BuildError::MismatchedLengths { keys, values }) ==> keys == hashed.len() && values == raw_values.len(),
        r matches Err(BuildError::TooManyKeys { len }) ==> len == hashed.len() && hashed.len() == raw_values.len() && (
            hashed.len() > u32::MAX || !sizing_fits(hashed.len() as u32, sizing)),
        hashed.len() == raw_values.len() && (hashed.len() > u32::MAX || !sizing_fits(hashed.len() as u32, sizing))
            ==> r matches Err(BuildError::TooManyKeys { len }),
        hashed.len() == 0 && raw_values.len() == 0 ==> r is Ok,
        r matches Err(BuildError::PeelFailed { attempts }) ==> attempts == MAX_ITERATIONS + 1,
        r matches Ok(out) ==> output_ok(out, hashed@, raw_values@, verified),
        r matches Ok(out) ==> built_params(out.params, hashed.len() as int, sizing),
        r matches Err(BuildError::PeelFailed { attempts }) ==> seed_loop_fails(hashed@, sizing),
        r matches Err(BuildError::DuplicateHash) ==> seed_loop_meets_duplicate(hashed@, sizing),
        r matches Ok(out) ==> hashed.len() > 0 ==> first_buildable(hashed@, sizing, out.params),
{
    if hashed.len() != raw_values.len() {
        return Err(BuildError::MismatchedLengths { keys: hashed.len(), values: raw_values.len() });
    }
    let n = hashed.len();
    if n > u32::MAX as usize {
        return Err(BuildError::TooManyKeys { len: n });
    }
    proof {
        lemma_sizing_fits_small(sizing);
    }
    if n == 0 {
        let checks = if verified { Some(Vec::new()) } else { None };
        return Ok(BuildOutput { params: Params::empty(), data: Vec::new(), checks });
    }
    let size = n as u32;
    if !sizing_fits_index_space(size, sizing) {
        return Err(BuildError::TooManyKeys { len: n });
    }
    let mut params = Params::initialized(size, sizing);
    let ghost base = params;
    let capacity = params.array_len();
    let mut data = match zero_vec(capacity, 0u64) { Ok(v) => v, Err(e) => { return Err(e); } };
    let mut checks: Vec<u64> = if verified {
        match zero_vec(capacity, 0u64) { Ok(v) => v, Err(e) => { return Err(e); } }
    } else {
        Vec::new()
    };
    let mut rngcounter = 1u64;
    params.seed = splitmix64(&mut rngcounter);
    proof {
        vstd::arithmetic::div_mod::lemma_small_mod((1 + SPLITMIX_GAMMA) as nat, 0x1_0000_0000_0000_0000nat);
    }
    let mut alone = match zero_vec(capacity, 0u32) { Ok(v) => v, Err(e) => { return Err(e); } };
    let mut t2count = match zero_vec(capacity, 0u8) { Ok(v) => v, Err(e) => { return Err(e); } };
    let mut t2hash = match zero_vec(capacity, 0u64) { Ok(v) => v, Err(e) => { return Err(e); } };
    let mut t2value = match zero_vec(capacity, 0u64) { Ok(v) => v, Err(e) => { return Err(e); } };
    let mut reverse_h = match zero_vec(n, 0u8) { Ok(v) => v, Err(e) => { return Err(e); } };
    let mut reverse_order = match zero_vec(n, 0u64) { Ok(v) => v, Err(e) => { return Err(e); } };
    let mut reverse_values = match zero_vec(n, 0u64) { Ok(v) => v, Err(e) => { return Err(e); } };
    reverse_order.push(1);
    let adjusted = size > 4 && size < 1_000_000;
    let mut iterations: u32 = 0;
    loop
        invariant
            n == hashed.len(),
            n == raw_values.len(),
            1 <= n <= u32::MAX,
            size as int == n,
            adjusted == (size > 4 && size < 1_000_000),
            sizing_fits(size, sizing),
            base.wf(),
            base.segment_length >= 4,
            base.len == n,
            capacity == base.spec_array_len(),
            capacity <= 0x1_0000_0000,
            iterations <= MAX_ITERATIONS + 1,
            base == Params::spec_initialized(size, sizing),
            rngcounter as int == (1 + (iterations + 1) * SPLITMIX_GAMMA) % 0x1_0000_0000_0000_0000,
            params.seed == attempt_seed(iterations as nat),
            forall|it: int| 0 <= it < iterations ==> #[trigger] attempt_failed_at(hashed@, sizing, it),
            (adjusted && iterations % 4 == 3) ==> halved_geometry(params, base),
            !(adjusted && iterations % 4 == 3) ==> same_geometry(params, base),
            data.len() == capacity,
            checks.len() == if verified { capacity } else { 0 },
            alone.len() == capacity,
            t2count.len() == capacity,
            t2hash.len() == capacity,
            t2value.len() == capacity,
            reverse_h.len() == n,
            reverse_order.len() == n + 1,
            reverse_values.len() == n,
            reverse_order@[n as int] == 1,
            forall|c: int| 0 <= c < n ==> reverse_order@[c] == 0,
            forall|s: int| 0 <= s < capacity ==> t2count@[s] == 0u8,
            forall|s: int| 0 <= s < capacity ==> t2hash@[s] == 0u64,
            forall|s: int| 0 <= s < capacity ==> t2value@[s] == 0u64,
        decreases MAX_ITERATIONS + 1 - iterations,
    {
        if iterations > MAX_ITERATIONS {
            return Err(BuildError::PeelFailed { attempts: MAX_ITERATIONS + 1 });
        }
        adjust_geometry(&mut params, iterations, adjusted, Ghost(base));
        match attempt(&params, hashed, raw_values, verified, capacity, &mut data, &mut checks, &mut alone,
            &mut t2count, &mut t2hash, &mut t2value, &mut reverse_h, &mut reverse_order, &mut reverse_values) {
            AttemptOutcome::Built => {
                let ghost cs = checks@;
                let ghost ds = data@;
                let out = BuildOutput { params, data, checks: if verified { Some(checks) } else { None } };
                proof {
                    assert(out.data@ == ds);
                    assert(12 <= base.spec_array_len()) by (nonlinear_arith)
                        requires base.segment_count >= 1, base.segment_length >= 4,
                            base.spec_array_len() == (base.segment_count + 2) * base.segment_length;
                    lemma_output_of_attempt(out, hashed@, raw_values@, verified, cs);
                    assert(out.params.wf());
                    assert(out.data@.len() == out.params.spec_array_len());
                    assert(out.params.len == hashed.len());
                    let it = iterations as int;
                    assert(out.params.seed == attempt_seed(it as nat));
                    assert(((n as int) as u32) == size);
                    assert(attempt_geometry(out.params, Params::spec_initialized((n as int) as u32, sizing), n as int, it));
                    assert(built_params(out.params, n as int, sizing));
                    assert(attempt_params(out.params, n as int, sizing, it));
                    assert(first_buildable(hashed@, sizing, out.params));
                }
                return Ok(out);
            },
            AttemptOutcome::Duplicate => {
                proof {
                    let it = iterations as int;
                    assert(((n as int) as u32) == size);
                    assert(attempt_params(params, n as int, sizing, it));
                }
                return Err(BuildError::DuplicateHash);
            },
            AttemptOutcome::Failed(e) => {
                return Err(e);
            },
            AttemptOutcome::Retry => {
                proof {
                    let it = iterations as int;
                    assert(((n as int) as u32) == size);
                    assert(attempt_params(params, n as int, sizing, it));
                    assert(attempt_failed_at(hashed@, sizing, it));
                }
            },
        }
        let ghost before = rngcounter;
        params.seed = splitmix64(&mut rngcounter);
        proof {
            let m: int = 0x1_0000_0000_0000_0000;
            let a: int = 1 + (iterations + 1) * SPLITMIX_GAMMA;
            let b: int = before + SPLITMIX_GAMMA;
            vstd::arithmetic::div_mod::lemma_add_mod_noop(a, SPLITMIX_GAMMA as int, m);
            vstd::arithmetic::div_mod::lemma_small_mod(SPLITMIX_GAMMA as nat, m as nat);
            if b < m {
                vstd::arithmetic::div_mod::lemma_small_mod(b as nat, m as nat);
            } else {
                vstd::arithmetic::div_mod::lemma_mod_sub_multiples_vanish(b, m);
                vstd::arithmetic::div_mod::lemma_small_mod((b - m) as nat, m as nat);
            }
            assert(rngcounter as int == (a + SPLITMIX_GAMMA) % m);
            assert(a + SPLITMIX_GAMMA == 1 + (iterations + 2) * SPLITMIX_GAMMA);
        }
        iterations = iterations + 1;
    }
}

/// The hashes of a sequence of keys.
pub open spec fn key_hashes(keys: Seq<&str>) -> Seq<u64> {
    Seq::new(keys.len(), |i: int| spec_hash_key(keys[i]))
}

/// `raw` holds, for each value, what encoding it gave.
pub open spec fn encodes<V: StaticFuseValue>(values: Seq<V>, raw: Seq<u64>) -> bool {
    &&& raw.len() == values.len()
    &&& forall|i: int| 0 <= i < values.len() ==> call_ensures(V::into_u64, (values[i],), #[trigger] raw[i])
}

/// Hashes the keys, encodes the values, and builds the tables.
pub fn build_from_slices<V: StaticFuseValue>(keys: &[&str], values: &[V], verified: bool, sizing: Sizing) -> (r: Result<BuildOutput, BuildError>)
    requires
        sizing.wf(),
    ensures
        (r matches Err(BuildError::MismatchedLengths { keys: k, values: v })) <==> keys.len() != values.len(),
        r matches Err(BuildError::MismatchedLengths { keys: k, values: v }) ==> k == keys.len() && v == values.len(),
        r matches Err(BuildError::TooManyKeys { len }) ==> len == keys.len() && keys.len() == values.len() && (
            keys.len() > u32::MAX || !sizing_fits(keys.len() as u32, sizing)),
        keys.len() == values.len() && (keys.len() > u32::MAX || !sizing_fits(keys.len() as u32, sizing))
            ==> r is Err,
        keys.len() == 0 && values.len() == 0 ==> r is Ok,
        r matches Err(BuildError::PeelFailed { attempts }) ==> attempts == MAX_ITERATIONS + 1,
        r matches Ok(out) ==> exists|raw: Seq<u64>| encodes(values@, raw) && output_ok(out, key_hashes(keys@), raw, verified),
        r matches Ok(out) ==> built_params(out.params, keys.len() as int, sizing),
        r matches Err(BuildError::PeelFailed { attempts }) ==> seed_loop_fails(key_hashes(keys@), sizing),
        r matches Err(BuildError::DuplicateHash) ==> seed_loop_meets_duplicate(key_hashes(keys@), sizing),
        r matches Ok(out) ==> keys.len() > 0 ==> first_buildable(key_hashes(keys@), sizing, out.params),
{
    if keys.len() != values.len() {
        return Err(BuildError::MismatchedLengths { keys: keys.len(), values: values.len() });
    }
    let mut hashes: Vec<u64> = Vec::new();
    if keys.len() > 0 {
        match try_reserve_exact(&mut hashes, keys.len()) {
            Ok(()) => {},
            Err(e) => {
                return Err(BuildError::Reserve(e));
            },
        }
    }
    let mut i: usize = 0;
    while i < keys.len()
        invariant
            i <= keys.len(),
            hashes@ == key_hashes(keys@).take(i as int),
        decreases keys.len() - i,
    {
        let h = hash_key(keys[i]);
        hashes.push(h);
        i = i + 1;
        assert(hashes@ =~= key_hashes(keys@).take(i as int));
    }
    let mut raw_values: Vec<u64> = Vec::new();
    if values.len() > 0 {
        match try_reserve_exact(&mut raw_values, values.len()) {
            Ok(()) => {},
            Err(e) => {
                return Err(BuildError::Reserve(e));
            },
        }
    }
    let mut j: usize = 0;
    while j < values.len()
        invariant
            j <= values.len(),
            raw_values@.len() == j,
            forall|m: int| 0 <= m < j ==> call_ensures(V::into_u64, (values@[m],), #[trigger] raw_values@[m]),
        decreases values.len() - j,
    {
        let v = values[j].into_u64();
        raw_values.push(v);
        j = j + 1;
    }
    assert(hashes@ =~= key_hashes(keys@));
    let r = build_from_hashes(hashes.as_slice(), raw_values.as_slice(), verified, sizing);
    proof {
        if keys.len() == 0 {
            assert(r is Ok);
        }
    }
    proof {
        assert(encodes(values@, raw_values@));
    }
    r
}

/// The keys of a sequence of pairs.
pub open spec fn pair_keys<'a, V>(pairs: Seq<(&'a str, V)>) -> Seq<&'a str> {
    Seq::new(pairs.len(), |i: int| pairs[i].0)
}

/// The values of a sequence of pairs.
pub open spec fn pair_values<'a, V>(pairs: Seq<(&'a str, V)>) -> Seq<V> {
    Seq::new(pairs.len(), |i: int| pairs[i].1)
}

/// Hashes the keys and encodes the values of key/value pairs, and builds the tables.
pub fn build_from_pairs<V: StaticFuseValue>(pairs: &[(&str, V)], verified: bool, sizing: Sizing) -> (r: Result<BuildOutput, BuildError>)
    requires
        sizing.wf(),
    ensures
        !(r matches Err(BuildError::MismatchedLengths { keys: k, values: v })),
        r matches Err(BuildError::TooManyKeys { len }) ==> len == pairs.len() && (
            pairs.len() > u32::MAX || !sizing_fits(pairs.len() as u32, sizing)),
        pairs.len() > u32::MAX || !sizing_fits(pairs.len() as u32, sizing) ==> r is Err,
        pairs.len() == 0 ==> r is Ok,
        r matches Err(BuildError::PeelFailed { attempts }) ==> attempts == MAX_ITERATIONS + 1,
        r matches Ok(out) ==> exists|raw: Seq<u64>|
            encodes(pair_values(pairs@), raw) && output_ok(out, key_hashes(pair_keys(pairs@)), raw, verified),
        r matches Ok(out) ==> built_params(out.params, pairs.len() as int, sizing),
        r matches Err(BuildError::PeelFailed { attempts }) ==> seed_loop_fails(key_hashes(pair_keys(pairs@)), sizing),
        r matches Err(BuildError::DuplicateHash) ==> seed_loop_meets_duplicate(key_hashes(pair_keys(pairs@)), sizing),
        r matches Ok(out) ==> pairs.len() > 0 ==> first_buildable(key_hashes(pair_keys(pairs@)), sizing, out.params),
{
    let mut hashes: Vec<u64> = Vec::new();
    if pairs.len() > 0 {
        match hashes.try_reserve(pairs.len()) {
            Ok(()) => {},
            Err(e) => {
                return Err(BuildError::Reserve(e));
            },
        }
    }
    let mut raw_values: Vec<u64> = Vec::new();
    if pairs.len() > 0 {
        match raw_values.try_reserve(pairs.len()) {
            Ok(()) => {},
            Err(e) => {
                return Err(BuildError::Reserve(e));
            },
        }
    }
    let ghost keys = pair_keys(pairs@);
    let ghost values = pair_values(pairs@);
    let mut i: usize = 0;
    while i < pairs.len()
        invariant
            i <= pairs.len(),
            keys == pair_keys(pairs@),
            values == pair_values(pairs@),
            hashes@ == key_hashes(keys).take(i as int),
            raw_values@.len() == i,
            forall|m: int| 0 <= m < i ==> call_ensures(V::into_u64, (values[m],), #[trigger] raw_values@[m]),
        decreases pairs.len() - i,
    {
        let (key, value) = pairs[i];
        hashes.push(hash_key(key));
        raw_values.push(value.into_u64());
        i = i + 1;
        assert(hashes@ =~= key_hashes(keys).take(i as int));
    }
    assert(hashes@ =~= key_hashes(keys));
    let r = build_from_hashes(hashes.as_slice(), raw_values.as_slice(), verified, sizing);
    proof {
        assert(encodes(values, raw_values@));
        if pairs.len() == 0 {
            assert(r is Ok);
        }
    }
    r
}

} // verus!
