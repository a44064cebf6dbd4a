//! The mathematical model of chunked storage.
//!
//! A buffer splits into fixed-size chunks; chunk records live in an ordered
//! map under `(buffer id, chunk index)` keys. Two reconstructions are
//! modelled: [`lookup_join`], which follows indices `0, 1, 2, …` until the
//! first absent one, and [`ranged_join`], which concatenates every present
//! chunk of the buffer id in ascending index order. They agree exactly when
//! the stored indices form a gap-free range from zero.

use vstd::arithmetic::div_mod::{lemma_fundamental_div_mod, lemma_mod_bound};
use vstd::arithmetic::mul::{
    lemma_mul_inequality, lemma_mul_is_distributive_add_other_way,
    lemma_mul_is_distributive_sub_other_way,
};
use vstd::math::min;
use vstd::prelude::*;

verus! {

/// The number of chunks a buffer of length `len` splits into:
/// `ceil(len / csize)`, and `0` for an empty buffer.
pub open spec fn num_chunks(len: nat, csize: nat) -> nat
    recommends
        csize > 0,
{
    (((len + csize - 1) as int) / (csize as int)) as nat
}

/// Chunk `i` of `data`: the bytes from `min(i*csize, len)` up to
/// `min((i+1)*csize, len)`. Every chunk except possibly the last has
/// length exactly `csize`; past the end, chunks are empty.
pub open spec fn chunk_of(data: Seq<u8>, csize: nat, i: nat) -> Seq<u8>
    recommends
        csize > 0,
{
    data.subrange(
        min((i * csize) as int, data.len() as int),
        min(((i + 1) * csize) as int, data.len() as int),
    )
}

/// The concatenation of chunks `0, …, k-1` of `data`.
pub open spec fn concat_chunks(data: Seq<u8>, csize: nat, k: nat) -> Seq<u8>
    decreases k,
{
    if k == 0 {
        Seq::empty()
    } else {
        concat_chunks(data, csize, (k - 1) as nat) + chunk_of(data, csize, (k - 1) as nat)
    }
}

/// `n` copies of `s`, concatenated.
pub open spec fn repeat_bytes(s: Seq<u8>, n: nat) -> Seq<u8>
    decreases n,
{
    if n == 0 {
        Seq::empty()
    } else {
        repeat_bytes(s, (n - 1) as nat) + s
    }
}

/// Sequential reconstruction: starting at `idx`, concatenate the chunk under
/// each successive index until the first absent one. A gap silently
/// truncates the result at that point.
pub open spec fn lookup_join(m: Map<(u64, u64), Seq<u8>>, key: u64, idx: int) -> Seq<u8>
    decreases u64::MAX - idx,
{
    if 0 <= idx <= u64::MAX && m.contains_key((key, idx as u64)) {
        if idx == u64::MAX {
            m[(key, idx as u64)]
        } else {
            m[(key, idx as u64)] + lookup_join(m, key, idx + 1)
        }
    } else {
        Seq::empty()
    }
}

/// The ascending sequence of all chunk indices `j < bound` such that
/// `(key, j)` is present in `m`.
pub open spec fn indices_below(m: Map<(u64, u64), Seq<u8>>, key: u64, bound: int) -> Seq<u64>
    decreases bound,
{
    if bound <= 0 {
        Seq::empty()
    } else {
        indices_below(m, key, bound - 1) + (if m.contains_key((key, (bound - 1) as u64)) {
            seq![(bound - 1) as u64]
        } else {
            Seq::empty()
        })
    }
}

/// The ascending sequence of all chunk indices stored under `key`.
pub open spec fn present_indices(m: Map<(u64, u64), Seq<u8>>, key: u64) -> Seq<u64> {
    indices_below(m, key, 0x1_0000_0000_0000_0000)
}

/// The concatenation of the chunks of `key` under the indices `ks`, in order.
pub open spec fn join_indices(m: Map<(u64, u64), Seq<u8>>, key: u64, ks: Seq<u64>) -> Seq<u8>
    decreases ks.len(),
{
    if ks.len() == 0 {
        Seq::empty()
    } else {
        m[(key, ks[0])] + join_indices(m, key, ks.drop_first())
    }
}

/// Range-scan reconstruction: every chunk stored under `key`, in ascending
/// index order, gaps skipped.
pub open spec fn ranged_join(m: Map<(u64, u64), Seq<u8>>, key: u64) -> Seq<u8> {
    join_indices(m, key, present_indices(m, key))
}

/// The chunk indices of `key` present in `m` are exactly `0, …, n-1`.
pub open spec fn contiguous_upto(m: Map<(u64, u64), Seq<u8>>, key: u64, n: int) -> bool {
    forall|j: u64| #[trigger] m.contains_key((key, j)) <==> (j as int) < n
}

/// The chunk indices of `key` form a gap-free range starting at zero.
pub open spec fn contiguous_at(m: Map<(u64, u64), Seq<u8>>, key: u64) -> bool {
    exists|n: int| 0 <= n <= 0x1_0000_0000_0000_0000 && contiguous_upto(m, key, n)
}

/// The map holds, under `key`, exactly the chunks of `data` at size `csize`:
/// a gap-free index range `[0, num_chunks)` whose records are the chunks.
pub open spec fn chunked_stored(
    m: Map<(u64, u64), Seq<u8>>,
    key: u64,
    data: Seq<u8>,
    csize: nat,
) -> bool {
    &&& contiguous_upto(m, key, num_chunks(data.len(), csize) as int)
    &&& forall|i: u64| (i as int) < num_chunks(data.len(), csize) ==> #[trigger] m[(key, i)]
        == chunk_of(data, csize, i as nat)
}

/// `num_chunks` is the ceiling of `len / csize`: the chunks up to the last
/// one cover less than `len` bytes, and all of them cover at least `len`.
pub proof fn lemma_num_chunks_bounds(len: nat, csize: nat)
    requires
        csize > 0,
    ensures
        len == 0 ==> num_chunks(len, csize) == 0,
        len > 0 ==> (num_chunks(len, csize) - 1) * (csize as int) < len,
        len <= num_chunks(len, csize) * (csize as int),
        num_chunks(len, csize) <= len,
{
    let c = csize as int;
    let x = len + c - 1;
    let q = x / c;
    lemma_fundamental_div_mod(x, c);
    lemma_mod_bound(x, c);
    // x == c * q + x % c, with 0 <= x % c < c, hence q * c == len + (c - 1 - x % c).
    assert(c * q == q * c) by (nonlinear_arith);
    if len == 0 {
        // x == c - 1 < c, so q == 0.
        if q >= 1 {
            lemma_mul_inequality(1, q, c);
        }
        if q < 0 {
            lemma_mul_inequality(q, -1, c);
        }
    } else {
        lemma_mul_is_distributive_sub_other_way(c, q, 1);
        // (q - 1) * c == q * c - c == len - 1 - x % c < len.
        if q > len {
            lemma_mul_inequality(len as int + 1, q, c);
            lemma_mul_is_distributive_add_other_way(c, len as int, 1);
            lemma_mul_inequality(1, c, len as int);
            // len * c + c >= len + c > len + c - 1 >= q * c, contradiction.
            assert((len as int) * c == c * len) by (nonlinear_arith);
            assert(false);
        }
    }
}

/// Every chunk except possibly the last has length exactly `csize`; the
/// last has length `len mod csize`, or `csize` when `csize` divides `len`.
pub proof fn lemma_chunk_sizes(data: Seq<u8>, csize: nat, i: nat)
    requires
        csize > 0,
        (i as int) < num_chunks(data.len(), csize),
    ensures
        (i as int) < num_chunks(data.len(), csize) - 1 ==> chunk_of(data, csize, i).len()
            == csize,
        (i as int) == num_chunks(data.len(), csize) - 1 ==> chunk_of(data, csize, i).len() == (
        if data.len() as int % (csize as int) == 0 {
            csize as int
        } else {
            data.len() as int % (csize as int)
        }),
{
    let len = data.len() as int;
    let c = csize as int;
    let n = num_chunks(data.len(), csize) as int;
    lemma_num_chunks_bounds(data.len(), csize);
    lemma_mul_is_distributive_add_other_way(c, i as int, 1);
    if (i as int) < n - 1 {
        // (i + 1) * c <= (n - 1) * c < len, so the chunk is full.
        lemma_mul_inequality(i as int + 1, n - 1, c);
        lemma_mul_inequality(0, i as int, c);
    } else {
        // i == n - 1 and len > 0: the last chunk holds len - (n - 1) * c bytes.
        lemma_mul_inequality(0, n - 1, c);
        let last = len - (n - 1) * c;
        lemma_mul_is_distributive_sub_other_way(c, n, 1);
        if last == c {
            // len == n * c exactly.
            vstd::arithmetic::div_mod::lemma_fundamental_div_mod_converse_mod(len, c, n, 0);
        } else {
            vstd::arithmetic::div_mod::lemma_fundamental_div_mod_converse_mod(len, c, n - 1, last);
        }
    }
}

/// The concatenation of the first `k` chunks is the first `min(k * csize, len)`
/// bytes of the buffer.
proof fn lemma_concat_chunks_prefix(data: Seq<u8>, csize: nat, k: nat)
    requires
        csize > 0,
    ensures
        concat_chunks(data, csize, k) == data.subrange(
            0,
            min((k * csize) as int, data.len() as int),
        ),
    decreases k,
{
    let len = data.len() as int;
    let c = csize as int;
    if k == 0 {
        assert(concat_chunks(data, csize, 0) =~= data.subrange(0, min(0 * c, len)));
    } else {
        let k1 = (k - 1) as nat;
        lemma_concat_chunks_prefix(data, csize, k1);
        lemma_mul_is_distributive_add_other_way(c, k1 as int, 1);
        lemma_mul_inequality(k1 as int, k as int, c);
        lemma_mul_inequality(0, k1 as int, c);
        assert(data.subrange(0, min((k1 * csize) as int, len)) + chunk_of(data, csize, k1)
            =~= data.subrange(0, min((k * csize) as int, len)));
    }
}

/// Splitting a buffer into chunks and concatenating them in index order
/// reproduces the buffer byte for byte, for every chunk size above zero.
pub proof fn lemma_concat_chunks_all(data: Seq<u8>, csize: nat)
    requires
        csize > 0,
    ensures
        concat_chunks(data, csize, num_chunks(data.len(), csize)) == data,
{
    let n = num_chunks(data.len(), csize);
    lemma_num_chunks_bounds(data.len(), csize);
    lemma_concat_chunks_prefix(data, csize, n);
    assert(data.subrange(0, min((n * csize) as int, data.len() as int)) =~= data);
}

/// Under `chunked_stored`, the sequential reconstruction from `idx` onward
/// yields exactly the bytes of `data` from offset `min(idx * csize, len)`.
proof fn lemma_lookup_join_stored(
    m: Map<(u64, u64), Seq<u8>>,
    key: u64,
    data: Seq<u8>,
    csize: nat,
    idx: int,
)
    requires
        csize > 0,
        data.len() <= u64::MAX,
        chunked_stored(m, key, data, csize),
        0 <= idx <= num_chunks(data.len(), csize),
    ensures
        lookup_join(m, key, idx) == data.subrange(
            min(idx * (csize as int), data.len() as int),
            data.len() as int,
        ),
    decreases num_chunks(data.len(), csize) - idx,
{
    let len = data.len() as int;
    let c = csize as int;
    let n = num_chunks(data.len(), csize) as int;
    lemma_num_chunks_bounds(data.len(), csize);
    if idx == n {
        // No record at (key, n): the join is empty, and idx * csize >= len.
        assert(!m.contains_key((key, idx as u64)) || idx > u64::MAX);
        assert(lookup_join(m, key, idx) =~= data.subrange(min(idx * c, len), len));
    } else {
        // The record at idx is chunk idx; recurse for the rest.
        assert(m.contains_key((key, idx as u64)));
        assert(m[(key, idx as u64)] == chunk_of(data, csize, idx as nat));
        lemma_lookup_join_stored(m, key, data, csize, idx + 1);
        lemma_mul_is_distributive_add_other_way(c, idx, 1);
        lemma_mul_inequality(0, idx, c);
        lemma_mul_inequality(idx, n, c);
        // idx < n <= len <= u64::MAX, so the index fits a u64 and the
        // recursive case of lookup_join applies.
        assert(idx < u64::MAX);
        assert(chunk_of(data, csize, idx as nat) + data.subrange(
            min((idx + 1) * c, len),
            len,
        ) =~= data.subrange(min(idx * c, len), len));
    }
}

/// Round trip: when the map holds exactly the chunks of `data` under `key`,
/// the sequential reconstruction returns `data` byte for byte.
pub proof fn lemma_chunked_roundtrip(
    m: Map<(u64, u64), Seq<u8>>,
    key: u64,
    data: Seq<u8>,
    csize: nat,
)
    requires
        csize > 0,
        data.len() <= u64::MAX,
        chunked_stored(m, key, data, csize),
    ensures
        lookup_join(m, key, 0) == data,
{
    lemma_lookup_join_stored(m, key, data, csize, 0);
    assert(data.subrange(min(0 * (csize as int), data.len() as int), data.len() as int)
        =~= data);
}

/// Appending one index to a join concatenates that index's chunk at the end.
pub proof fn lemma_join_indices_push(
    m: Map<(u64, u64), Seq<u8>>,
    key: u64,
    ks: Seq<u64>,
    j: u64,
)
    ensures
        join_indices(m, key, ks.push(j)) == join_indices(m, key, ks) + m[(key, j)],
    decreases ks.len(),
{
    if ks.len() == 0 {
        assert(ks.push(j).drop_first() =~= ks);
        assert(join_indices(m, key, ks.push(j)) =~= join_indices(m, key, ks) + m[(key, j)]);
    } else {
        assert(ks.push(j).drop_first() =~= ks.drop_first().push(j));
        lemma_join_indices_push(m, key, ks.drop_first(), j);
        assert(join_indices(m, key, ks.push(j)) =~= join_indices(m, key, ks) + m[(key, j)]);
    }
}

/// A strictly ascending sequence of indices below `bound`, all stored under
/// `key` and missing none that is stored, is the canonical ascending one.
pub proof fn lemma_sorted_complete_indices(
    m: Map<(u64, u64), Seq<u8>>,
    key: u64,
    s: Seq<u64>,
    bound: int,
)
    requires
        0 <= bound <= 0x1_0000_0000_0000_0000,
        forall|i: int, j: int| 0 <= i < j < s.len() ==> s[i] < s[j],
        forall|i: int| 0 <= i < s.len() ==> m.contains_key((key, #[trigger] s[i])) && (s[i]
            as int) < bound,
        forall|j: u64| (j as int) < bound && #[trigger] m.contains_key((key, j))
            ==> s.contains(j),
    ensures
        s == indices_below(m, key, bound),
    decreases bound,
{
    if bound == 0 {
        assert(s.len() == 0) by {
            if s.len() > 0 {
                assert((s[0] as int) < 0);
            }
        }
        assert(s =~= indices_below(m, key, 0));
    } else {
        let b = (bound - 1) as u64;
        if m.contains_key((key, b)) {
            assert(s.contains(b));
            let p = choose|p: int| 0 <= p < s.len() && s[p] == b;
            assert(p == s.len() - 1) by {
                if p < s.len() - 1 {
                    assert(s[p] < s[s.len() - 1]);
                    assert((s[s.len() - 1] as int) < bound);
                }
            }
            let s2 = s.drop_last();
            assert forall|j: u64| (j as int) < bound - 1 && #[trigger] m.contains_key(
                (key, j),
            ) implies s2.contains(j) by {
                assert(s.contains(j));
                let q = choose|q: int| 0 <= q < s.len() && s[q] == j;
                assert(q != s.len() - 1);
                assert(s2[q] == j);
            }
            assert forall|i: int| 0 <= i < s2.len() implies m.contains_key(
                (key, #[trigger] s2[i]),
            ) && (s2[i] as int) < bound - 1 by {
                assert(s2[i] == s[i]);
                assert(s[i] < s[s.len() - 1]);
            }
            lemma_sorted_complete_indices(m, key, s2, bound - 1);
            assert(s =~= s2.push(b));
            assert(s =~= indices_below(m, key, bound));
        } else {
            assert forall|i: int| 0 <= i < s.len() implies (#[trigger] s[i] as int) < bound
                - 1 by {
                assert(s[i] != b);
            }
            lemma_sorted_complete_indices(m, key, s, bound - 1);
            assert(s =~= indices_below(m, key, bound));
        }
    }
}

/// Under a gap-free range `[0, n)`, joining the identity index sequence from
/// `a` to `n` equals the sequential reconstruction from `a`.
proof fn lemma_join_idrange(m: Map<(u64, u64), Seq<u8>>, key: u64, n: int, a: int)
    requires
        contiguous_upto(m, key, n),
        0 <= a <= n <= 0x1_0000_0000_0000_0000,
    ensures
        join_indices(m, key, Seq::new((n - a) as nat, |i: int| (a + i) as u64))
            == lookup_join(m, key, a),
    decreases n - a,
{
    let ks = Seq::new((n - a) as nat, |i: int| (a + i) as u64);
    if a == n {
        if a <= u64::MAX {
            assert(!m.contains_key((key, a as u64)));
        }
    } else {
        assert(m.contains_key((key, a as u64)));
        assert(ks[0] == a as u64);
        lemma_join_idrange(m, key, n, a + 1);
        assert(ks.drop_first() =~= Seq::new((n - (a + 1)) as nat, |i: int| (a + 1 + i) as u64));
        if a == u64::MAX {
            // Then n == u64::MAX + 1 and the tail join is empty.
            assert(ks.drop_first().len() == 0);
        }
    }
}

/// A map that holds exactly the chunks of some buffer under `key` is
/// gap-free there, so a later chunked store under the same key fully
/// overwrites these records.
pub proof fn lemma_chunked_stored_contiguous(
    m: Map<(u64, u64), Seq<u8>>,
    key: u64,
    data: Seq<u8>,
    csize: nat,
)
    requires
        csize > 0,
        data.len() <= u64::MAX,
        chunked_stored(m, key, data, csize),
    ensures
        contiguous_at(m, key),
{
    let n = num_chunks(data.len(), csize) as int;
    lemma_num_chunks_bounds(data.len(), csize);
    assert(0 <= n <= 0x1_0000_0000_0000_0000 && contiguous_upto(m, key, n));
}

/// The two reconstruction strategies agree on every gap-free stored buffer:
/// a single ordered range scan yields the same bytes as the chain of point
/// lookups from index zero.
pub proof fn lemma_join_strategies_agree(m: Map<(u64, u64), Seq<u8>>, key: u64)
    requires
        contiguous_at(m, key),
    ensures
        ranged_join(m, key) == lookup_join(m, key, 0),
{
    let n = choose|n: int| 0 <= n <= 0x1_0000_0000_0000_0000 && contiguous_upto(m, key, n);
    let s = Seq::new(n as nat, |i: int| (0 + i) as u64);
    assert forall|j: u64| (j as int) < 0x1_0000_0000_0000_0000 && #[trigger] m.contains_key(
        (key, j),
    ) implies s.contains(j) by {
        assert((j as int) < n);
        assert(s[j as int] == j);
    }
    lemma_sorted_complete_indices(m, key, s, 0x1_0000_0000_0000_0000);
    lemma_join_idrange(m, key, n, 0);
}

} // verus!
