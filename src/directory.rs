//! The files of a store: the directory file (global level, then the
//! entries) and the buckets file (bucket count, then the pages); and the
//! check that a directory and the levels of its buckets fit together.
use crate::bucket::{lemma_page_round_trip, page_bytes, parse_page, records_fit, Bucket};
use crate::hash_storage::{MAX_BUCKETS, MAX_LEVEL};
use crate::record::{RecordModel, PAGE_BYTES};
use crate::slots::{lemma_low_bits_nest, lemma_low_bits_step, low_bits, low_bits_u64, pow2_u64};
use vstd::arithmetic::mul::lemma_mul_is_distributive_add;
use vstd::arithmetic::power2::{lemma2_to64, lemma_pow2_pos, lemma_pow2_strictly_increases, pow2};
use vstd::bytes::{
    lemma_auto_spec_u32_to_from_le_bytes, spec_u32_from_le_bytes, spec_u32_to_le_bytes,
    u32_from_le_bytes, lemma_auto_spec_u64_to_from_le_bytes, spec_u64_from_le_bytes, spec_u64_to_le_bytes,
    u64_from_le_bytes, u64_to_le_bytes,
};
use vstd::prelude::*;
use vstd::slice::slice_subrange;

verus! {

/// Width in bytes of one directory entry.
pub const DIRECTORY_ENTRY_BYTES: usize = 8;

/// Byte chunks written one after the other.
pub open spec fn join(chunks: Seq<Seq<u8>>) -> Seq<u8>
    decreases chunks.len(),
{
    if chunks.len() == 0 {
        Seq::empty()
    } else {
        join(chunks.drop_last()) + chunks.last()
    }
}

/// Chunks of one width `w` lie at multiples of `w`.
pub proof fn lemma_join_stride(chunks: Seq<Seq<u8>>, w: nat, i: int)
    requires
        forall|c: int| 0 <= c < chunks.len() ==> (#[trigger] chunks[c]).len() == w,
        0 <= i < chunks.len(),
    ensures
        join(chunks).len() == w * chunks.len(),
        w * i + w <= w * chunks.len(),
        join(chunks).subrange(w * i, w * i + w) == chunks[i],
    decreases chunks.len(),
{
    let n = chunks.len() - 1;
    let d = chunks.drop_last();
    lemma_join_len(chunks, w);
    lemma_join_len(d, w);
    lemma_mul_is_distributive_add(w as int, n, 1);
    lemma_mul_is_distributive_add(w as int, i, 1);
    assert(w * i <= w * n) by (nonlinear_arith)
        requires
            i <= n,
    ;
    if i < n {
        lemma_join_stride(d, w, i);
        assert(join(chunks).subrange(w * i, w * i + w) =~= join(d).subrange(w * i, w * i + w));
    } else {
        assert(join(chunks).subrange(w * i, w * i + w) =~= chunks[i]);
    }
}

/// Length of chunks of one width written together.
pub proof fn lemma_join_len(chunks: Seq<Seq<u8>>, w: nat)
    requires
        forall|c: int| 0 <= c < chunks.len() ==> (#[trigger] chunks[c]).len() == w,
    ensures
        join(chunks).len() == w * chunks.len(),
    decreases chunks.len(),
{
    if chunks.len() > 0 {
        let d = chunks.drop_last();
        lemma_join_len(d, w);
        lemma_mul_is_distributive_add(w as int, d.len() as int, 1);
    }
}

/// The directory entries as bytes, each a little-endian `u64`.
pub open spec fn entries_bytes(d: Seq<usize>) -> Seq<u8> {
    join(Seq::new(d.len(), |j: int| spec_u64_to_le_bytes(d[j] as u64)))
}

/// The directory file: the global level, then the entries.
pub open spec fn directory_file(g: u8, d: Seq<usize>) -> Seq<u8> {
    seq![g] + entries_bytes(d)
}

/// Entry `j` read from a directory file.
pub open spec fn entry_at(s: Seq<u8>, j: int) -> u64 {
    spec_u64_from_le_bytes(s.subrange(1 + 8 * j, 9 + 8 * j))
}

/// What a directory file holds: the global level and the `2^G` entries;
/// `None` where the level is too high or the length is not `1 + 8 * 2^G`.
pub open spec fn decode_directory(s: Seq<u8>) -> Option<(u8, Seq<u64>)> {
    if s.len() >= 1 && s[0] <= MAX_LEVEL && s.len() == 1 + 8 * pow2(s[0] as nat) {
        Some((s[0], Seq::new(pow2(s[0] as nat), |j: int| entry_at(s, j))))
    } else {
        None
    }
}

/// The entries as 64-bit integers.
pub open spec fn entries_u64(d: Seq<usize>) -> Seq<u64> {
    d.map_values(|x: usize| x as u64)
}

/// The global level of a directory of `length` entries: the position of
/// its highest set bit, 0 for 0 or 1 entries.
pub fn addr_count_to_global_level(length: usize) -> (r: u8)
    ensures
        length >= 1 ==> pow2(r as nat) <= length < pow2(r as nat + 1),
        length <= 1 ==> r == 0,
{
    let mut cur: usize = length;
    let mut result: u8 = 0;
    proof {
        lemma2_to64();
        vstd::arithmetic::div_mod::lemma_div_basics(length as int);
    }
    while cur > 1
        invariant
            length >= 1 ==> cur >= 1,
            length == 0 ==> cur == 0,
            length <= 1 ==> result == 0,
            result <= 64,
            length >= 1 ==> cur as int == length as int / (pow2(result as nat) as int),
            pow2(result as nat) * cur <= length,
            result < 64 ==> pow2(result as nat) <= usize::MAX + 1,
        decreases cur,
    {
        proof {
            lemma_pow2_pos(result as nat);
            vstd::arithmetic::power2::lemma_pow2_unfold(result as nat + 1);
            vstd::arithmetic::div_mod::lemma_div_denominator(length as int, pow2(result as nat) as int, 2);
            assert((result as nat + 1 - 1) as nat == result as nat);
            assert(pow2(result as nat) * 2 * (cur / 2) <= pow2(result as nat) * cur) by (nonlinear_arith)
                requires
                    pow2(result as nat) > 0,
                    cur >= 2,
            ;
            assert(pow2(result as nat) * 2 <= length) by (nonlinear_arith)
                requires
                    pow2(result as nat) * cur <= length,
                    cur >= 2,
                    pow2(result as nat) > 0,
            ;
            if result >= 63 {
                lemma_pow2_strictly_increases(63, result as nat + 1);
                assert(pow2(64) == 0x10000000000000000) by {
                    lemma2_to64();
                }
                if result > 63 {
                    lemma_pow2_strictly_increases(64, result as nat + 1);
                }
            }
        }
        cur = cur / 2;
        result = result + 1;
        proof {
            assert(pow2(result as nat) == pow2((result - 1) as nat) * 2);
        }
    }
    proof {
        if length >= 1 {
            lemma_pow2_pos(result as nat);
            let p = pow2(result as nat) as int;
            let x = length as int;
            vstd::arithmetic::div_mod::lemma_fundamental_div_mod(x, p);
            vstd::arithmetic::div_mod::lemma_mod_pos_bound(x, p);
            vstd::arithmetic::power2::lemma_pow2_unfold(result as nat + 1);
            assert((result as nat + 1 - 1) as nat == result as nat);
            assert(x < 2 * p) by (nonlinear_arith)
                requires
                    x == p * (x / p) + x % p,
                    x / p == 1,
                    x % p < p,
            ;
        }
    }
    result
}

/// A directory written as a file reads back as the same level and entries.
pub proof fn lemma_directory_round_trip(g: u8, d: Seq<usize>)
    requires
        g <= MAX_LEVEL,
        d.len() == pow2(g as nat),
    ensures
        decode_directory(directory_file(g, d)) == Some((g, entries_u64(d))),
{
    let chunks = Seq::new(d.len(), |j: int| spec_u64_to_le_bytes(d[j] as u64));
    lemma_auto_spec_u64_to_from_le_bytes();
    assert forall|c: int| 0 <= c < chunks.len() implies (#[trigger] chunks[c]).len() == 8 by {}
    lemma_join_len(chunks, 8);
    let s = directory_file(g, d);
    assert forall|j: int| 0 <= j < d.len() implies entry_at(s, j) == (d[j] as u64) by {
        lemma_join_stride(chunks, 8, j);
        assert(s.subrange(1 + 8 * j, 9 + 8 * j) =~= join(chunks).subrange(8 * j, 8 * j + 8));
    }
    let got = Seq::new(pow2(g as nat), |j: int| entry_at(s, j));
    assert(got =~= entries_u64(d));
}

/// Writes the directory file.
pub fn encode_directory(g: u8, d: &Vec<usize>) -> (r: Vec<u8>)
    ensures
        r@ == directory_file(g, d@),
{
    let mut out: Vec<u8> = Vec::new();
    out.push(g);
    let mut i: usize = 0;
    let ghost chunks = Seq::new(d@.len(), |j: int| spec_u64_to_le_bytes(d@[j] as u64));
    while i < d.len()
        invariant
            i <= d@.len(),
            chunks == Seq::new(d@.len(), |j: int| spec_u64_to_le_bytes(d@[j] as u64)),
            out@ == seq![g] + join(chunks.subrange(0, i as int)),
        decreases d@.len() - i,
    {
        let bytes = u64_to_le_bytes(d[i] as u64);
        let ghost prev = out@;
        let mut k: usize = 0;
        while k < 8
            invariant
                k <= 8,
                bytes@.len() == 8,
                out@ == prev + bytes@.subrange(0, k as int),
            decreases 8 - k,
        {
            out.push(bytes[k]);
            k = k + 1;
            assert(out@ =~= prev + bytes@.subrange(0, k as int));
        }
        assert(chunks.subrange(0, i + 1).drop_last() =~= chunks.subrange(0, i as int));
        assert(bytes@.subrange(0, 8) =~= bytes@);
        i = i + 1;
        assert(out@ =~= seq![g] + join(chunks.subrange(0, i as int)));
    }
    assert(chunks.subrange(0, i as int) =~= chunks);
    out
}

/// Reads a directory file.
pub fn decode_directory_bytes(s: &[u8]) -> (r: Option<(u8, Vec<u64>)>)
    ensures
        match r {
            Some((g, d)) => decode_directory(s@) == Some((g, d@)),
            None => decode_directory(s@) is None,
        },
{
    if s.len() < 1 || s[0] > MAX_LEVEL {
        return None;
    }
    let g = s[0];
    let n = pow2_u64(g);
    proof {
        lemma_pow2_pos(g as nat);
        vstd::bits::lemma_u64_pow2_no_overflow(g as nat);
        assert(pow2(32) == 4294967296) by {
            vstd::arithmetic::power2::lemma2_to64();
        }
        if g < 32 {
            lemma_pow2_strictly_increases(g as nat, 32);
        }
    }
    if ((s.len() - 1) as u64) != 8 * n || (s.len() - 1) % 8 != 0 {
        return None;
    }
    let count = (s.len() - 1) / 8;
    let sl = s.len();
    let mut out: Vec<u64> = Vec::new();
    let mut j: usize = 0;
    while j < count
        invariant
            sl == s@.len(),
            j <= count,
            count == pow2(g as nat),
            s@.len() == 1 + 8 * count,
            out@ == Seq::new(j as nat, |i: int| entry_at(s@, i)),
        decreases count - j,
    {
        assert(8 * j + 8 <= 8 * count) by (nonlinear_arith)
            requires
                j < count,
        ;
        let e = u64_from_le_bytes(slice_subrange(s, 1 + 8 * j, 9 + 8 * j));
        out.push(e);
        j = j + 1;
        assert(out@ =~= Seq::new(j as nat, |i: int| entry_at(s@, i)));
    }
    Some((g, out))
}

/// What a page holds: its level and its records.
pub type PageModel = (u8, Seq<RecordModel>);

/// The bucket count at the start of a buckets file.
pub open spec fn bucket_count_of(s: Seq<u8>) -> nat {
    spec_u32_from_le_bytes(s.subrange(0, 4)) as nat
}

/// Page `i` of a buckets file.
pub open spec fn page_at(s: Seq<u8>, i: int) -> Seq<u8> {
    s.subrange(4 + 4096 * i, 4 + 4096 * i + 4096)
}

/// What a buckets file holds: the pages that its count numbers; `None`
/// where the length does not match the count or a page cannot be read.
pub open spec fn decode_buckets(s: Seq<u8>) -> Option<Seq<PageModel>> {
    if s.len() >= 4 && s.len() == 4 + 4096 * bucket_count_of(s) && forall|i: int|
        0 <= i < bucket_count_of(s) ==> (#[trigger] parse_page(page_at(s, i))) is Some {
        Some(Seq::new(bucket_count_of(s), |i: int| parse_page(page_at(s, i)).unwrap()))
    } else {
        None
    }
}

/// The buckets file: the count, then each page.
pub open spec fn buckets_file(pages: Seq<PageModel>) -> Seq<u8> {
    spec_u32_to_le_bytes(pages.len() as u32) + join(
        Seq::new(pages.len(), |i: int| page_bytes(pages[i].0, pages[i].1)),
    )
}

/// The level and the records of each bucket.
pub open spec fn pages_of(bs: Seq<Bucket>) -> Seq<PageModel> {
    bs.map_values(|b: Bucket| (b.level, b.model()))
}

/// Pages whose records fit, written as a buckets file, read back the same.
pub proof fn lemma_buckets_round_trip(pages: Seq<PageModel>)
    requires
        pages.len() <= MAX_BUCKETS,
        forall|i: int| 0 <= i < pages.len() ==> records_fit(#[trigger] pages[i].1),
    ensures
        decode_buckets(buckets_file(pages)) == Some(pages),
{
    let chunks = Seq::new(pages.len(), |i: int| page_bytes(pages[i].0, pages[i].1));
    assert forall|c: int| 0 <= c < chunks.len() implies (#[trigger] chunks[c]).len() == 4096 by {
        lemma_page_round_trip(pages[c].0, pages[c].1);
    }
    lemma_join_len(chunks, 4096);
    lemma_auto_spec_u32_to_from_le_bytes();
    let s = buckets_file(pages);
    assert(s.subrange(0, 4) =~= spec_u32_to_le_bytes(pages.len() as u32));
    assert(bucket_count_of(s) == pages.len());
    assert forall|i: int| 0 <= i < pages.len() implies #[trigger] parse_page(page_at(s, i)) == Some(pages[i]) by {
        lemma_join_stride(chunks, 4096, i);
        assert(page_at(s, i) =~= join(chunks).subrange(4096 * i, 4096 * i + 4096));
        lemma_page_round_trip(pages[i].0, pages[i].1);
    }
    let got = Seq::new(bucket_count_of(s), |i: int| parse_page(page_at(s, i)).unwrap());
    assert(got =~= pages);
}

/// Reads the pages of a buckets file, each as a bucket at its position.
pub fn decode_buckets_bytes(s: &[u8]) -> (r: Option<Vec<Bucket>>)
    ensures
        match r {
            Some(bs) => {
                &&& decode_buckets(s@) == Some(pages_of(bs@))
                &&& forall|i: int| 0 <= i < bs@.len() ==> (#[trigger] bs@[i]).wf() && bs@[i].bucket_index == i
            },
            None => decode_buckets(s@) is None,
        },
{
    if s.len() < 4 {
        return None;
    }
    let count = u32_from_le_bytes(slice_subrange(s, 0, 4)) as usize;
    if (s.len() - 4) % PAGE_BYTES != 0 || (s.len() - 4) / PAGE_BYTES != count {
        return None;
    }
    let sl = s.len();
    let mut out: Vec<Bucket> = Vec::new();
    let mut i: usize = 0;
    while i < count
        invariant
            sl == s@.len(),
            s@.len() >= 4,
            count == bucket_count_of(s@),
            s@.len() == 4 + 4096 * count,
            i <= count,
            out@.len() == i,
            forall|k: int| 0 <= k < i ==> (#[trigger] out@[k]).wf() && out@[k].bucket_index == k,
            forall|k: int| 0 <= k < i ==> parse_page(page_at(s@, k)) == Some(#[trigger] pages_of(out@)[k]),
        decreases count - i,
    {
        assert(4096 * i + 4096 <= 4096 * count) by (nonlinear_arith)
            requires
                i < count,
        ;
        let page = slice_subrange(s, 4 + PAGE_BYTES * i, 4 + PAGE_BYTES * i + PAGE_BYTES);
        match Bucket::from_bytes(page, i) {
            Ok(b) => {
                let ghost prev = out@;
                out.push(b);
                assert forall|k: int| 0 <= k < i + 1 implies parse_page(page_at(s@, k)) == Some(#[trigger] pages_of(out@)[k]) by {
                    if k < i {
                        assert(out@[k] == prev[k]);
                        assert(pages_of(prev)[k] == pages_of(out@)[k]);
                    }
                }
            },
            Err(_) => {
                assert(parse_page(page_at(s@, i as int)) is None);
                return None;
            },
        }
        i = i + 1;
    }
    assert forall|k: int| 0 <= k < bucket_count_of(s@) implies (#[trigger] parse_page(page_at(s@, k))) is Some by {
        assert(parse_page(page_at(s@, k)) == Some(pages_of(out@)[k]));
    }
    assert(Seq::new(bucket_count_of(s@), |k: int| parse_page(page_at(s@, k)).unwrap()) =~= pages_of(out@)) by {
        assert forall|k: int| 0 <= k < bucket_count_of(s@) implies parse_page(page_at(s@, k)).unwrap() == #[trigger] pages_of(out@)[k] by {
            assert(parse_page(page_at(s@, k)) == Some(pages_of(out@)[k]));
        }
    }
    Some(out)
}

/// A directory and the levels of the buckets fit together: the global
/// level is at most the highest level, there are `2^G` entries, each names
/// a bucket, no bucket is deeper than `G`, and the entries that name one
/// bucket are exactly those that agree on that bucket's level.
pub open spec fn parts_valid(g: u8, d: Seq<u64>, levels: Seq<u8>) -> bool {
    &&& g <= MAX_LEVEL
    &&& d.len() == pow2(g as nat)
    &&& 0 < levels.len() <= MAX_BUCKETS
    &&& forall|j: int| 0 <= j < d.len() ==> #[trigger] d[j] < levels.len()
    &&& forall|b: int| 0 <= b < levels.len() ==> #[trigger] levels[b] <= g
    &&& forall|j: int, k: int|
        0 <= j < d.len() && 0 <= k < d.len() ==> ((#[trigger] d[j] == #[trigger] d[k]) == (low_bits(
            k,
            levels[d[j] as int] as nat,
        ) == low_bits(j, levels[d[j] as int] as nat)))
}

/// Whether a directory and the levels of the buckets fit together.
pub fn check_parts(g: u8, d: &Vec<u64>, levels: &Vec<u8>) -> (r: bool)
    ensures
        r == parts_valid(g, d@, levels@),
{
    if g > MAX_LEVEL {
        return false;
    }
    let p = pow2_u64(g);
    if d.len() as u64 != p || levels.len() == 0 || levels.len() > MAX_BUCKETS {
        return false;
    }
    let n = d.len();
    let nb = levels.len();
    let mut j: usize = 0;
    while j < n
        invariant
            j <= n,
            n == d@.len(),
            nb == levels@.len(),
            forall|i: int| 0 <= i < j ==> #[trigger] d@[i] < nb,
        decreases n - j,
    {
        if d[j] >= nb as u64 {
            return false;
        }
        j = j + 1;
    }
    let mut b: usize = 0;
    while b < nb
        invariant
            b <= nb,
            nb == levels@.len(),
            forall|i: int| 0 <= i < b ==> #[trigger] levels@[i] <= g,
        decreases nb - b,
    {
        if levels[b] > g {
            return false;
        }
        b = b + 1;
    }
    let ghost dd = d@;
    let ghost lv = |j: int| levels@[dd[j] as int] as nat;
    // Each entry agrees with its class's lowest entry.
    let mut j: usize = 0;
    while j < n
        invariant
            j <= n,
            n == d@.len(),
            dd == d@,
            nb == levels@.len(),
            n == pow2(g as nat),
            g <= MAX_LEVEL,
            forall|i: int| 0 <= i < n ==> #[trigger] d@[i] < nb,
            forall|i: int| 0 <= i < nb ==> #[trigger] levels@[i] <= g,
            forall|i: int| 0 <= i < j ==> dd[low_bits(i, levels@[dd[i] as int] as nat)] == #[trigger] dd[i],
        decreases n - j,
    {
        let l = levels[d[j] as usize];
        let c = low_bits_u64(j as u64, l);
        proof {
            lemma_pow2_pos(l as nat);
            if l < g {
                lemma_pow2_strictly_increases(l as nat, g as nat);
            }
        }
        if d[c as usize] != d[j] {
            proof {
                lemma_low_bits_nest(j as int, l as nat, l as nat);
                assert(!((dd[j as int] == dd[c as int]) == (low_bits(c as int, l as nat) == low_bits(
                    j as int,
                    l as nat,
                ))));
            }
            return false;
        }
        j = j + 1;
    }
    // Each class's lowest entry: exactly the entries of its class name its bucket.
    let mut j: usize = 0;
    while j < n
        invariant
            j <= n,
            n == d@.len(),
            dd == d@,
            nb == levels@.len(),
            n == pow2(g as nat),
            g <= MAX_LEVEL,
            forall|i: int| 0 <= i < n ==> #[trigger] d@[i] < nb,
            forall|i: int| 0 <= i < nb ==> #[trigger] levels@[i] <= g,
            forall|i: int| 0 <= i < n ==> dd[low_bits(i, levels@[dd[i] as int] as nat)] == #[trigger] dd[i],
            forall|i: int, k: int|
                0 <= i < j && 0 <= k < n && low_bits(i, levels@[dd[i] as int] as nat) == i ==> ((
                #[trigger] dd[i] == #[trigger] dd[k]) == (low_bits(k, levels@[dd[i] as int] as nat) == i)),
        decreases n - j,
    {
        let l = levels[d[j] as usize];
        if low_bits_u64(j as u64, l) == j as u64 {
            let mut k: usize = 0;
            while k < n
                invariant
                    k <= n,
                    j < n,
                    n == d@.len(),
                    dd == d@,
                    nb == levels@.len(),
                    l == levels@[dd[j as int] as int],
                    l < 64,
                    low_bits(j as int, l as nat) == j,
                    forall|i: int| 0 <= i < k ==> ((dd[j as int] == #[trigger] dd[i]) == (low_bits(i, l as nat) == j)),
                decreases n - k,
            {
                if (d[k] == d[j]) != (low_bits_u64(k as u64, l) == j as u64) {
                    return false;
                }
                k = k + 1;
            }
        }
        j = j + 1;
    }
    proof {
        assert forall|j: int, k: int| 0 <= j < n && 0 <= k < n implies ((#[trigger] dd[j] == #[trigger] dd[k]) == (
        low_bits(k, levels@[dd[j] as int] as nat) == low_bits(j, levels@[dd[j] as int] as nat))) by {
            let l = levels@[dd[j] as int] as nat;
            let c = low_bits(j, l);
            assert(dd[c] == dd[j]);
            lemma_low_bits_nest(j, l, l);
            lemma_pow2_pos(l);
            lemma_low_bits_step(j, l);
            assert(levels@[dd[j] as int] <= g);
            if l < g {
                lemma_pow2_strictly_increases(l, g as nat);
            }
            assert(0 <= c < n);
            assert(low_bits(c, levels@[dd[c] as int] as nat) == c);
            assert((dd[c] == dd[k]) == (low_bits(k, levels@[dd[c] as int] as nat) == c));
        }
    }
    true
}

} // verus!
