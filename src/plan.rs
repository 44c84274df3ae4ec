use vstd::prelude::*;
use vstd::arithmetic::power2::{pow2, lemma2_to64, lemma2_to64_rest, lemma_pow2_pos, lemma_pow2_unfold};
use vstd::arithmetic::div_mod::lemma_mod_bound;

verus! {

/// Smallest `j >= k` (at most 33) with `need <= 2^j`.
pub open spec fn fit_bits(need: nat, k: nat) -> nat
    decreases 33 - k,
{
    if k >= 33 || need <= pow2(k) {
        k
    } else {
        fit_bits(need, k + 1)
    }
}

/// Host bits of the smallest block, at least a /30, that holds `required`
/// hosts besides its network and broadcast addresses. 33 means no IPv4 block
/// is large enough.
pub open spec fn host_bits_for(required: u32) -> nat {
    fit_bits((required + 2) as nat, 2)
}

/// One allocated block: its network address and its number of host bits
/// (the block spans `2^host_bits` addresses, its prefix is `32 - host_bits`).
#[derive(Clone, Copy)]
pub struct Block {
    pub network: u32,
    pub host_bits: u32,
}

/// Why a greedy allocation stopped; each names the position of the
/// requirement in the allocation order.
#[derive(Clone, Copy, PartialEq, Eq, Structural)]
pub enum PlanFailure {
    /// The requirement's block is larger than the base network.
    TooLarge(usize),
    /// The cursor had passed the last address.
    Exhausted(usize),
}

/// Greedy allocation of the requirements from position `i` on, starting at
/// `cursor`: each block is the cursor rounded down to a multiple of the
/// block's size, and the cursor then moves past the block.
pub open spec fn plan_from(cursor: nat, reqs: Seq<u32>, base_cidr: u32, i: nat) -> Result<
    Seq<Block>,
    PlanFailure,
>
    decreases reqs.len() - i,
{
    if i >= reqs.len() {
        Ok(Seq::empty())
    } else {
        let k = host_bits_for(reqs[i as int]);
        if 32 - k < base_cidr {
            Err(PlanFailure::TooLarge(i as usize))
        } else if cursor >= pow2(32) {
            Err(PlanFailure::Exhausted(i as usize))
        } else {
            let network = cursor - cursor % pow2(k);
            match plan_from((network + pow2(k)) as nat, reqs, base_cidr, i + 1) {
                Ok(rest) => Ok(seq![Block { network: network as u32, host_bits: k as u32 }] + rest),
                Err(f) => Err(f),
            }
        }
    }
}

/// Greedy allocation of all requirements from `base`.
pub open spec fn plan(base: u32, reqs: Seq<u32>, base_cidr: u32) -> Result<Seq<Block>, PlanFailure> {
    plan_from(base as nat, reqs, base_cidr, 0)
}

/// `done` followed by the outcome `rest` of the later requirements.
pub open spec fn after(done: Seq<Block>, rest: Result<Seq<Block>, PlanFailure>) -> Result<
    Seq<Block>,
    PlanFailure,
> {
    match rest {
        Ok(r) => Ok(done + r),
        Err(f) => Err(f),
    }
}

proof fn lemma_fit_bits_bounds(need: nat, k: nat)
    requires
        k <= 33,
    ensures
        k <= fit_bits(need, k) <= 33,
        fit_bits(need, k) <= 32 ==> need <= pow2(fit_bits(need, k)),
    decreases 33 - k,
{
    if !(k >= 33 || need <= pow2(k)) {
        lemma_fit_bits_bounds(need, k + 1);
    }
}

fn block_bits(required: u32) -> (k: u32)
    ensures
        k == host_bits_for(required),
        2 <= k <= 33,
{
    let need: u64 = required as u64 + 2;
    let mut k: u32 = 2;
    let mut size: u64 = 4;
    proof {
        lemma2_to64();
        lemma2_to64_rest();
    }
    while k < 33 && size < need
        invariant
            2 <= k <= 33,
            size == pow2(k as nat),
            need == required + 2,
            fit_bits(need as nat, 2) == fit_bits(need as nat, k as nat),
            pow2(32) == 0x1_0000_0000,
        decreases 33 - k,
    {
        proof {
            lemma_pow2_unfold((k + 1) as nat);
            if k < 32 {
                assert(pow2(k as nat) <= pow2(32)) by {
                    vstd::arithmetic::power2::lemma_pow2_strictly_increases(k as nat, 32);
                }
            }
        }
        size = size * 2;
        k = k + 1;
    }
    proof {
        lemma_fit_bits_bounds(need as nat, 2);
    }
    k
}

/// Allocates blocks for `reqs`, in that order, from `base`.
pub fn allocate(base: u32, reqs: &Vec<u32>, base_cidr: u32) -> (r: Result<Vec<Block>, PlanFailure>)
    ensures
        match plan(base, reqs@, base_cidr) {
            Ok(bs) => r is Ok && r->Ok_0@ == bs,
            Err(f) => r == Err::<Vec<Block>, PlanFailure>(f),
        },
{
    let mut blocks: Vec<Block> = Vec::new();
    let mut cursor: u64 = base as u64;
    let mut i: usize = 0;
    proof {
        lemma2_to64();
        lemma2_to64_rest();
        assert(blocks@ + seq![] =~= blocks@);
    }
    while i < reqs.len()
        invariant
            i <= reqs@.len(),
            cursor <= 0x1_0000_0000,
            pow2(32) == 0x1_0000_0000,
            plan(base, reqs@, base_cidr) == after(blocks@, plan_from(cursor as nat, reqs@, base_cidr, i as nat)),
        decreases reqs@.len() - i,
    {
        let k = block_bits(reqs[i]);
        if k > 32 || 32 - k < base_cidr {
            return Err(PlanFailure::TooLarge(i));
        }
        if cursor >= 0x1_0000_0000 {
            return Err(PlanFailure::Exhausted(i));
        }
        proof {
            vstd::bits::lemma_u64_pow2_no_overflow(k as nat);
            lemma_pow2_pos(k as nat);
            lemma_aligned_fits(cursor as nat, k as nat);
        }
        let size: u64 = 1u64 << k;
        proof {
            vstd::bits::lemma_u64_shl_is_mul(1u64, k as u64);
        }
        let network: u64 = cursor - cursor % size;
        let ghost prev = blocks@;
        let b = Block { network: network as u32, host_bits: k };
        blocks.push(b);
        cursor = network + size;
        proof {
            let rest = plan_from(cursor as nat, reqs@, base_cidr, (i + 1) as nat);
            match rest {
                Ok(rr) => {
                    assert(blocks@ + rr =~= prev + (seq![b] + rr));
                },
                Err(f) => {},
            }
        }
        i = i + 1;
    }
    assert(blocks@ + seq![] =~= blocks@);
    Ok(blocks)
}

/// A block placed at the cursor rounded down to its size ends by the end of
/// the address space.
proof fn lemma_aligned_fits(c: nat, k: nat)
    requires
        c < pow2(32),
        k <= 32,
    ensures
        (c - c % pow2(k)) + pow2(k) <= pow2(32),
        c % pow2(k) <= c,
{
    lemma_pow2_pos(k);
    lemma_pow2_pos((32 - k) as nat);
    vstd::arithmetic::power2::lemma_pow2_adds((32 - k) as nat, k);
    let s = pow2(k) as int;
    let t = pow2((32 - k) as nat) as int;
    assert(pow2(32) == t * s);
    vstd::arithmetic::div_mod::lemma_fundamental_div_mod(c as int, s);
    lemma_mod_bound(c as int, s);
    let q = c as int / s;
    assert(c as int - (c as int) % s == s * q);
    assert(q < t) by (nonlinear_arith)
        requires
            s * q <= c as int,
            (c as int) < t * s,
            s > 0,
    ;
    assert(s * q + s <= t * s) by (nonlinear_arith)
        requires
            q < t,
            s > 0,
    ;
}

/// `b` is a block for `required`: the smallest fitting size, aligned to its
/// size, inside the address space.
pub open spec fn block_fits(b: Block, required: u32) -> bool {
    &&& b.host_bits == host_bits_for(required)
    &&& 2 <= b.host_bits <= 32
    &&& (b.network as nat) % pow2(b.host_bits as nat) == 0
    &&& b.network + pow2(b.host_bits as nat) <= pow2(32)
}

/// Every planned block fits its requirement, and a failure names a position
/// from `i` on.
pub proof fn lemma_plan_shape(cursor: nat, reqs: Seq<u32>, base_cidr: u32, i: nat)
    requires
        i <= reqs.len() <= usize::MAX,
    ensures
        match plan_from(cursor, reqs, base_cidr, i) {
            Ok(bs) => bs.len() == reqs.len() - i && forall|j: int|
                0 <= j < bs.len() ==> block_fits(#[trigger] bs[j], reqs[i + j]),
            Err(PlanFailure::TooLarge(j)) => i <= j < reqs.len(),
            Err(PlanFailure::Exhausted(j)) => i <= j < reqs.len(),
        },
    decreases reqs.len() - i,
{
    if i < reqs.len() {
        let k = host_bits_for(reqs[i as int]);
        lemma_fit_bits_bounds((reqs[i as int] + 2) as nat, 2);
        if !(32 - k < base_cidr) && cursor < pow2(32) {
            let network = cursor - cursor % pow2(k);
            lemma_aligned_fits(cursor, k);
            lemma_plan_shape((network + pow2(k)) as nat, reqs, base_cidr, i + 1);
            lemma_pow2_pos(k);
            let s = pow2(k) as int;
            vstd::arithmetic::div_mod::lemma_fundamental_div_mod(cursor as int, s);
            vstd::arithmetic::div_mod::lemma_mod_multiples_basic(cursor as int / s, s);
            assert((cursor as int / s) * s == s * (cursor as int / s)) by (nonlinear_arith);
            lemma2_to64();
            match plan_from((network + pow2(k)) as nat, reqs, base_cidr, i + 1) {
                Ok(rest) => {
                    let b = Block { network: network as u32, host_bits: k as u32 };
                    let bs = seq![b] + rest;
                    assert(block_fits(b, reqs[i as int]));
                    assert forall|j: int| 0 <= j < bs.len() implies block_fits(#[trigger] bs[j], reqs[i + j]) by {
                        if j > 0 {
                            assert(bs[j] == rest[j - 1]);
                            assert(i + j == (i + 1) + (j - 1));
                        }
                    }
                },
                Err(f) => {},
            }
        }
    }
}

proof fn lemma_fit_bits_monotone(n1: nat, n2: nat, k: nat)
    requires
        n1 >= n2,
        k <= 33,
    ensures
        fit_bits(n1, k) >= fit_bits(n2, k),
    decreases 33 - k,
{
    if k < 33 && n1 > pow2(k) {
        lemma_fit_bits_bounds(n1, k + 1);
        if n2 > pow2(k) {
            lemma_fit_bits_monotone(n1, n2, k + 1);
        }
    }
}

proof fn lemma_aligned_to_smaller(x: nat, small: nat, large: nat)
    requires
        small <= large,
        x % pow2(large) == 0,
    ensures
        x % pow2(small) == 0,
{
    lemma_pow2_pos(large);
    lemma_pow2_pos(small);
    vstd::arithmetic::power2::lemma_pow2_adds((large - small) as nat, small);
    let q = x as int / pow2(large) as int;
    vstd::arithmetic::div_mod::lemma_fundamental_div_mod(x as int, pow2(large) as int);
    assert(x == pow2(large) * q);
    let f = pow2((large - small) as nat) as int;
    assert(pow2(large) * q == (q * f) * pow2(small)) by (nonlinear_arith)
        requires
            pow2(large) == f * pow2(small),
    ;
    vstd::arithmetic::div_mod::lemma_mod_multiples_basic(q * f, pow2(small) as int);
}

/// With requirements in non-increasing order, each block starts where the
/// one before it ends.
proof fn lemma_plan_contiguous(cursor: nat, reqs: Seq<u32>, base_cidr: u32, i: nat)
    requires
        i <= reqs.len() <= usize::MAX,
        forall|x: int, y: int| i <= x < y < reqs.len() ==> reqs[x] >= reqs[y],
        i < reqs.len() ==> cursor % pow2(host_bits_for(reqs[i as int])) == 0 || i == 0,
    ensures
        match plan_from(cursor, reqs, base_cidr, i) {
            Ok(bs) => (forall|j: int| 0 <= j < bs.len() - 1 ==> #[trigger] bs[j + 1].network
                == bs[j].network + pow2(bs[j].host_bits as nat)) && (i > 0 && bs.len() > 0
                ==> bs[0].network == cursor),
            Err(_) => true,
        },
    decreases reqs.len() - i,
{
    lemma2_to64();
    lemma_plan_shape(cursor, reqs, base_cidr, i);
    if i < reqs.len() {
        let k = host_bits_for(reqs[i as int]);
        if !(32 - k < base_cidr) && cursor < pow2(32) {
            lemma_pow2_pos(k);
            let network = cursor - cursor % pow2(k);
            let next = (network + pow2(k)) as nat;
            if i + 1 < reqs.len() {
                let k2 = host_bits_for(reqs[(i + 1) as int]);
                lemma_fit_bits_monotone((reqs[i as int] + 2) as nat, (reqs[(i + 1) as int] + 2) as nat, 2);
                lemma_aligned_fits(cursor, k);
                lemma_plan_shape(cursor, reqs, base_cidr, i);
                vstd::arithmetic::div_mod::lemma_fundamental_div_mod(cursor as int, pow2(k) as int);
                let q = cursor as int / pow2(k) as int;
                assert(next == (q + 1) * pow2(k)) by (nonlinear_arith)
                    requires
                        next == network + pow2(k),
                        network == cursor - cursor % pow2(k),
                        cursor == pow2(k) * q + cursor % pow2(k),
                ;
                assert(q + 1 >= 0) by (nonlinear_arith)
                    requires
                        cursor == pow2(k) * q + cursor % pow2(k),
                        cursor % pow2(k) < pow2(k),
                        pow2(k) > 0,
                        cursor >= 0,
                ;
                vstd::arithmetic::div_mod::lemma_mod_multiples_basic(q + 1, pow2(k) as int);
                lemma_fit_bits_bounds((reqs[i as int] + 2) as nat, 2);
                lemma_aligned_to_smaller(next, k2, k);
            }
            lemma_plan_contiguous(next, reqs, base_cidr, i + 1);
            if i > 0 {
                vstd::arithmetic::div_mod::lemma_mod_bound(cursor as int, pow2(k) as int);
            }
            match plan_from(next, reqs, base_cidr, i + 1) {
                Ok(rest) => {
                    let b = Block { network: network as u32, host_bits: k as u32 };
                    let bs = seq![b] + rest;
                    lemma_plan_shape(next, reqs, base_cidr, i + 1);
                    lemma_fit_bits_bounds((reqs[i as int] + 2) as nat, 2);
                    lemma_aligned_fits(cursor, k);
                    assert forall|j: int| 0 <= j < bs.len() - 1 implies #[trigger] bs[j + 1].network
                        == bs[j].network + pow2(bs[j].host_bits as nat) by {
                        if j > 0 {
                            assert(bs[j + 1] == rest[j]);
                            assert(bs[j] == rest[j - 1]);
                            assert(rest[(j - 1) + 1] == rest[j]);
                        } else {
                            assert(rest[0].network == next);
                        }
                    }
                },
                Err(_) => {},
            }
        }
    }
}

proof fn lemma_contiguous_apart(bs: Seq<Block>, i: int, j: int)
    requires
        0 <= i < j < bs.len(),
        forall|q: int| 0 <= q < bs.len() - 1 ==> #[trigger] bs[q + 1].network == bs[q].network + pow2(
            bs[q].host_bits as nat,
        ),
    ensures
        bs[i].network + pow2(bs[i].host_bits as nat) <= bs[j].network,
    decreases j - i,
{
    if j > i + 1 {
        lemma_contiguous_apart(bs, i, j - 1);
        lemma_pow2_pos(bs[j - 1].host_bits as nat);
        assert(bs[(j - 1) + 1].network == bs[j - 1].network + pow2(bs[j - 1].host_bits as nat));
    } else {
        assert(bs[i + 1].network == bs[i].network + pow2(bs[i].host_bits as nat));
    }
}

proof fn lemma_plan_not_too_large(cursor: nat, reqs: Seq<u32>, base_cidr: u32, i: nat)
    requires
        forall|x: int| i <= x < reqs.len() ==> 32 - host_bits_for(#[trigger] reqs[x]) >= base_cidr,
    ensures
        !(plan_from(cursor, reqs, base_cidr, i) is Err && plan_from(cursor, reqs, base_cidr, i)->Err_0 is TooLarge),
    decreases reqs.len() - i,
{
    if i < reqs.len() {
        let k = host_bits_for(reqs[i as int]);
        if cursor < pow2(32) {
            lemma_plan_not_too_large((cursor - cursor % pow2(k) + pow2(k)) as nat, reqs, base_cidr, i + 1);
        }
    }
}

/// Greedy allocation of requirements in non-increasing order, each of which
/// fits the base prefix: no requirement is refused as too large; unless the
/// address space runs out, there is one block per requirement, each holding
/// at least its hosts besides network and broadcast, each block starting
/// where the one before ends, so that blocks are pairwise disjoint.
pub proof fn lemma_greedy_allocation(base: u32, sorted: Seq<u32>, base_cidr: u32)
    requires
        sorted.len() <= usize::MAX,
        forall|x: int, y: int| 0 <= x < y < sorted.len() ==> sorted[x] >= sorted[y],
        forall|x: int| 0 <= x < sorted.len() ==> 32 - host_bits_for(#[trigger] sorted[x]) >= base_cidr,
    ensures
        !(plan(base, sorted, base_cidr) is Err && plan(base, sorted, base_cidr)->Err_0 is TooLarge),
        plan(base, sorted, base_cidr) is Ok || plan(base, sorted, base_cidr)->Err_0 is Exhausted,
        plan(base, sorted, base_cidr) is Ok ==> {
            let bs = plan(base, sorted, base_cidr)->Ok_0;
            &&& bs.len() == sorted.len()
            &&& forall|i: int| 0 <= i < bs.len() ==> pow2(#[trigger] bs[i].host_bits as nat) - 2 >= sorted[i]
            &&& forall|i: int| 0 <= i < bs.len() - 1 ==> #[trigger] bs[i + 1].network == bs[i].network
                + pow2(bs[i].host_bits as nat)
            &&& forall|i: int, j: int| 0 <= i < j < bs.len() ==> #[trigger] bs[i].network + pow2(
                bs[i].host_bits as nat,
            ) <= #[trigger] bs[j].network
        },
{
    lemma_plan_shape(base as nat, sorted, base_cidr, 0);
    lemma_plan_contiguous(base as nat, sorted, base_cidr, 0);
    lemma_plan_not_too_large(base as nat, sorted, base_cidr, 0);
    match plan(base, sorted, base_cidr) {
        Ok(bs) => {
            assert forall|i: int| 0 <= i < bs.len() implies pow2(#[trigger] bs[i].host_bits as nat) - 2
                >= sorted[i] by {
                assert(block_fits(bs[i], sorted[0 + i]));
                lemma_fit_bits_bounds((sorted[i] + 2) as nat, 2);
            }
            assert forall|i: int, j: int| 0 <= i < j < bs.len() implies #[trigger] bs[i].network + pow2(
                bs[i].host_bits as nat,
            ) <= #[trigger] bs[j].network by {
                lemma_contiguous_apart(bs, i, j);
            }
        },
        Err(f) => {},
    }
}

/// Whatever blocks a plan hands out lie inside the address space with room
/// for gateway, first and last host: `network + 1 < network + 2 <=
/// network + size - 2 < network + size - 1 < 2^32`.
pub proof fn lemma_block_addresses(base: u32, reqs: Seq<u32>, base_cidr: u32)
    requires
        reqs.len() <= usize::MAX,
    ensures
        plan(base, reqs, base_cidr) is Ok ==> forall|i: int|
            0 <= i < plan(base, reqs, base_cidr)->Ok_0.len() ==> {
                let b = #[trigger] plan(base, reqs, base_cidr)->Ok_0[i];
                let n = b.network as int;
                let size = pow2(b.host_bits as nat) as int;
                n + 1 < n + 2 <= n + size - 2 < n + size - 1 < pow2(32)
            },
{
    lemma_plan_shape(base as nat, reqs, base_cidr, 0);
    lemma2_to64();
    match plan(base, reqs, base_cidr) {
        Ok(bs) => {
            assert forall|i: int| 0 <= i < bs.len() implies {
                let b = #[trigger] bs[i];
                let n = b.network as int;
                let size = pow2(b.host_bits as nat) as int;
                n + 1 < n + 2 <= n + size - 2 < n + size - 1 < pow2(32)
            } by {
                assert(block_fits(bs[i], reqs[0 + i]));
                vstd::arithmetic::power2::lemma_pow2_strictly_increases(1, bs[i].host_bits as nat);
            }
        },
        Err(f) => {},
    }
}

} // verus!
