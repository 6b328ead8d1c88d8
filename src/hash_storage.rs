//! The extendible-hash engine: a directory of `2^G` entries over bucket
//! pages, with local and global splits.
use crate::bucket::{
    keys_distinct, without_key, lemma_split_sum, lemma_distinct_split, lemma_distinct_without, all_records, cap_part, lemma_cap_part_all, lemma_cap_part_fit, lemma_cap_part_split,
    lemma_find_cap_part, lemma_find_len, lemma_split_part_all, lemma_without_all, find_value, lemma_find_first, lemma_find_none, lemma_find_push, lemma_find_split,
    lemma_find_update_other, lemma_find_without, lemma_records_len_push, lemma_records_len_update,
    lemma_split_fit, lemma_without_fit, records_fit, records_len, records_model, split_part,
    Bucket,
};
use crate::record::{
    record_encodable, record_len, Record, RecordModel, MAX_RECORD_KEY_VALUE_BYTES,
    PAGE_RECORD_SPACE,
};
use crate::slots::{
    lemma_low_bits_nest, lemma_low_bits_small, lemma_low_bits_step, low_bits,
    low_bits_u64,
};
use vstd::arithmetic::power2::{lemma2_to64, lemma_pow2_pos, lemma_pow2_strictly_increases, pow2};
use crate::directory::{
    buckets_file, check_parts, decode_buckets, decode_buckets_bytes, decode_directory,
    decode_directory_bytes, directory_file, encode_directory, entries_u64, join,
    lemma_buckets_round_trip, lemma_directory_round_trip, pages_of, parts_valid, PageModel,
};
use crate::command::{CommandOutput, DeleteCommand, GetCommand, PutCommand, StorageCommand};
use crate::text::{text_bytes, text_from_bytes};
use vstd::prelude::*;
use vstd::utf8::{encode_utf8, valid_utf8};

verus! {

/// The highest local or global level; a record that still does not fit
/// in a bucket of this level is refused.
pub const MAX_LEVEL: u8 = 24;

/// The most buckets that the 32-bit count of the buckets file can number.
pub const MAX_BUCKETS: usize = 4294967295;

/// Why an operation failed. None changes what the store holds.
#[derive(Clone, Copy, Debug, PartialEq, Eq)]
pub enum StoreError {
    /// The record cannot be placed in any bucket.
    OversizedRecord,
    /// The buckets file cannot number another bucket.
    StoreFull,
    /// A stored value is not valid UTF-8 text.
    CorruptPage,
}

/// Why the files of a store could not be loaded.
#[derive(Clone, Copy, Debug, PartialEq, Eq)]
pub enum LoadError {
    /// The directory file is malformed, or does not fit the buckets and
    /// the records they hold.
    CorruptDirectory,
    /// The buckets file is malformed, a page cannot be read, or a page
    /// repeats a hash and key.
    CorruptPage,
}

/// What a directory file holds; an empty file is a fresh directory.
pub open spec fn directory_of_file(s: Seq<u8>) -> Option<(u8, Seq<u64>)> {
    if s.len() == 0 {
        Some((0u8, seq![0u64]))
    } else {
        decode_directory(s)
    }
}

/// What a buckets file holds; an empty file is one empty bucket.
pub open spec fn pages_of_file(s: Seq<u8>) -> Option<Seq<PageModel>> {
    if s.len() == 0 {
        Some(seq![(0u8, Seq::<RecordModel>::empty())])
    } else {
        decode_buckets(s)
    }
}

/// Every record of every page lies where the directory names its page.
pub open spec fn pages_at_home(g: u8, d: Seq<u64>, pages: Seq<PageModel>) -> bool {
    forall|b: int, i: int|
        0 <= b < pages.len() && 0 <= i < pages[b].1.len() ==> d[low_bits(
            (#[trigger] pages[b].1[i]).0 as int,
            g as nat,
        )] == b
}

/// The levels of the pages.
pub open spec fn page_levels(pages: Seq<PageModel>) -> Seq<u8> {
    pages.map_values(|p: PageModel| p.0)
}

/// The hash of a key: XxHash64 with seed 0 over the key as `str` hashes it.
pub uninterp spec fn key_hash(key: Seq<char>) -> u64;

/// Relies on `twox_hash::XxHash64::with_seed(0)`, fed through std's `Hash`
/// for `str`: a deterministic hash of the key's characters.
#[verifier::external_body]
fn hash_string_key(key: &str) -> (r: u64)
    ensures
        r == key_hash(key@),
{
    let mut hasher = twox_hash::XxHash64::with_seed(0);
    std::hash::Hash::hash(key, &mut hasher);
    std::hash::Hasher::finish(&hasher)
}

/// Where the store keeps a text key: its hash and its UTF-8 bytes.
pub open spec fn entry_key(key: Seq<char>) -> (u64, Seq<u8>) {
    (key_hash(key), encode_utf8(key))
}

/// The value of a text key in a store's contents, as bytes.
pub open spec fn text_value(m: StoreModel, key: Seq<char>) -> Option<Seq<u8>> {
    if m.contains_key(entry_key(key)) {
        Some(m[entry_key(key)])
    } else {
        None
    }
}

/// The hash engine: the directory, the global level and the bucket pages.
pub struct HashStorage {
    bucket_count: usize,
    global_level: u8,
    bucket_lookup: Vec<usize>,
    buckets: Vec<Bucket>,
    dirty: Vec<usize>,
    written: Ghost<Seq<PageModel>>,
}

/// What a store holds: for each hash and key, the value.
pub type StoreModel = Map<(u64, Seq<u8>), Seq<u8>>;

impl HashStorage {
    /// The directory: entry `j` names the bucket of the hashes whose low
    /// `G` bits are `j`.
    pub closed spec fn dir(&self) -> Seq<usize> {
        self.bucket_lookup@
    }

    /// The global level `G`.
    pub closed spec fn level(&self) -> nat {
        self.global_level as nat
    }

    /// The number of buckets.
    pub closed spec fn count(&self) -> nat {
        self.buckets@.len()
    }

    /// The local level of bucket `b`.
    pub closed spec fn level_of(&self, b: int) -> nat {
        self.buckets@[b].level as nat
    }

    /// What bucket `b` holds.
    pub closed spec fn bucket_model(&self, b: int) -> Seq<RecordModel> {
        self.buckets@[b].model()
    }

    /// The bucket that answers for hash `h`.
    pub closed spec fn bucket_for(&self, h: u64) -> int {
        self.bucket_lookup@[low_bits(h as int, self.global_level as nat)] as int
    }

    /// The directory entries that name one bucket are exactly those that
    /// agree with each other on that bucket's local level.
    pub closed spec fn directory_consistent(&self) -> bool {
        let d = self.bucket_lookup@;
        forall|j: int, k: int|
            0 <= j < d.len() && 0 <= k < d.len() ==> ((#[trigger] d[j] == #[trigger] d[k]) == (
            low_bits(k, self.level_of(d[j] as int)) == low_bits(j, self.level_of(d[j] as int))))
    }

    /// The store's invariant: its shape, and the pages changed since they
    /// were last handed out for writing are listed.
    pub closed spec fn wf(&self) -> bool {
        self.shape_ok() && self.pages_tracked()
    }

    /// The pages last handed out for writing.
    pub closed spec fn written_pages(&self) -> Seq<PageModel> {
        self.written@
    }

    /// The buckets whose pages changed since they were last handed out.
    pub closed spec fn dirty_pages(&self) -> Seq<usize> {
        self.dirty@
    }

    /// Every bucket not listed as changed has the page last handed out.
    pub closed spec fn pages_tracked(&self) -> bool {
        &&& forall|i: int| 0 <= i < self.dirty@.len() ==> #[trigger] self.dirty@[i] < self.buckets@.len()
        &&& forall|b: int|
            0 <= b < self.buckets@.len() && !self.dirty@.contains(b as usize) ==> #[trigger] self.page_written(b)
    }

    /// Bucket `b`'s page is the one last handed out.
    pub open spec fn page_written(&self, b: int) -> bool {
        b < self.written_pages().len() && self.pages_model()[b] == self.written_pages()[b]
    }

    /// The shape of the store: directory, levels, pages and records agree.
    pub closed spec fn shape_ok(&self) -> bool {
        &&& self.global_level <= MAX_LEVEL
        &&& self.bucket_lookup@.len() == pow2(self.global_level as nat)
        &&& self.bucket_count == self.buckets@.len()
        &&& 0 < self.buckets@.len() <= MAX_BUCKETS
        &&& forall|j: int|
            0 <= j < self.bucket_lookup@.len() ==> #[trigger] self.bucket_lookup@[j]
                < self.buckets@.len()
        &&& forall|b: int|
            0 <= b < self.buckets@.len() ==> {
                &&& (#[trigger] self.buckets@[b]).wf()
                &&& self.buckets@[b].bucket_index == b
                &&& self.buckets@[b].level <= self.global_level
                &&& keys_distinct(self.buckets@[b].model())
            }
        &&& self.directory_consistent()
        &&& self.records_at_home()
    }

    /// Every record lies in the bucket that the directory names for its hash.
    pub closed spec fn records_at_home(&self) -> bool {
        forall|b: int, i: int|
            0 <= b < self.buckets@.len() && 0 <= i < self.buckets@[b].model().len() ==> self.bucket_lookup@[low_bits(
                (#[trigger] self.buckets@[b].model()[i]).0 as int,
                self.global_level as nat,
            )] as int == b
    }

    /// The value stored under hash `h` and key `k`.
    pub closed spec fn lookup(&self, h: u64, k: Seq<u8>) -> Option<Seq<u8>> {
        find_value(self.buckets@[self.bucket_for(h)].model(), h, k)
    }

    /// What the store holds.
    pub closed spec fn model(&self) -> StoreModel {
        Map::new(|p: (u64, Seq<u8>)| self.lookup(p.0, p.1) is Some, |p: (u64, Seq<u8>)| self.lookup(p.0, p.1).unwrap())
    }
}

impl View for HashStorage {
    type V = StoreModel;

    open spec fn view(&self) -> StoreModel {
        self.model()
    }
}

/// Facts about the directory of a well-formed store.
proof fn lemma_slot_facts(s: &HashStorage, h: u64)
    requires
        s.shape_ok(),
    ensures
        0 <= low_bits(h as int, s.global_level as nat) < s.bucket_lookup@.len(),
        0 <= s.bucket_for(h) < s.buckets@.len(),
{
    lemma_pow2_pos(s.global_level as nat);
    vstd::arithmetic::div_mod::lemma_mod_pos_bound(h as int, pow2(s.global_level as nat) as int);
}

/// The two buckets that a split leaves at positions `idx` and `n`, both of
/// level `l + 1`, with the records of the old bucket parted by whether
/// their low `l + 1` bits exceed `r`; every other bucket as it was.
spec fn split_buckets(s: HashStorage, t: HashStorage, idx: int, n: int, l: nat, r: int) -> bool {
    &&& n == s.buckets@.len()
    &&& t.buckets@.len() == n + 1
    &&& t.bucket_count == t.buckets@.len()
    &&& forall|b: int| 0 <= b < n && b != idx ==> #[trigger] t.buckets@[b] == s.buckets@[b]
    &&& t.buckets@[idx].wf()
    &&& t.buckets@[idx].bucket_index == idx
    &&& t.buckets@[idx].level == l + 1
    &&& t.buckets@[idx].model() == split_part(s.buckets@[idx].model(), l + 1, r, false)
    &&& t.buckets@[n].wf()
    &&& t.buckets@[n].bucket_index == n
    &&& t.buckets@[n].level == l + 1
    &&& t.buckets@[n].model() == split_part(s.buckets@[idx].model(), l + 1, r, true)
}

/// The directory after a local split: the entries of the old bucket whose
/// low `l + 1` bits exceed `r` now name the new bucket.
spec fn local_split_dir(s: HashStorage, t: HashStorage, idx: int, n: int, l: nat, r: int) -> bool {
    &&& t.global_level == s.global_level
    &&& t.bucket_lookup@.len() == s.bucket_lookup@.len()
    &&& forall|j: int|
        0 <= j < s.bucket_lookup@.len() ==> #[trigger] t.bucket_lookup@[j] == (if s.bucket_lookup@[j]
            == idx && low_bits(j, l + 1) > r {
            n as usize
        } else {
            s.bucket_lookup@[j]
        })
}

/// The directory after a global split: doubled, with the entry `2^G + r`
/// naming the new bucket.
spec fn global_split_dir(s: HashStorage, t: HashStorage, n: int, r: int) -> bool {
    let m = s.bucket_lookup@.len() as int;
    &&& t.global_level == s.global_level + 1
    &&& t.bucket_lookup@.len() == 2 * m
    &&& forall|j: int| 0 <= j < m ==> #[trigger] t.bucket_lookup@[j] == s.bucket_lookup@[j]
    &&& forall|j: int|
        m <= j < 2 * m ==> #[trigger] t.bucket_lookup@[j] == (if j == m + r {
            n as usize
        } else {
            s.bucket_lookup@[j - m]
        })
}

/// In a well-formed store, the entries that name the bucket of `h` are
/// those that agree with `h` on that bucket's level.
proof fn lemma_class_of(s: HashStorage, h: u64, j: int)
    requires
        s.shape_ok(),
        0 <= j < s.bucket_lookup@.len(),
    ensures
        (s.bucket_lookup@[j] as int == s.bucket_for(h)) == (low_bits(j, s.level_of(s.bucket_for(h)))
            == low_bits(h as int, s.level_of(s.bucket_for(h)))),
{
    lemma_slot_facts(&s, h);
    let g = s.global_level as nat;
    let t0 = low_bits(h as int, g);
    let b = s.bucket_for(h);
    let l = s.level_of(b);
    assert(s.buckets@[b].level <= s.global_level);
    lemma_low_bits_nest(h as int, l, g);
    let d = s.bucket_lookup@;
    assert((d[t0] == d[j]) == (low_bits(j, s.level_of(d[t0] as int)) == low_bits(t0, s.level_of(d[t0] as int))));
}

/// Two stores whose lookups agree hold the same.
proof fn lemma_same_model(s: HashStorage, t: HashStorage)
    requires
        forall|h: u64, k: Seq<u8>| #[trigger] t.lookup(h, k) == s.lookup(h, k),
    ensures
        t.model() == s.model(),
{
    assert forall|p: (u64, Seq<u8>)| #[trigger] t.model().contains_key(p) == s.model().contains_key(p)
        && (t.model().contains_key(p) ==> t.model()[p] == s.model()[p]) by {
        assert(t.lookup(p.0, p.1) == s.lookup(p.0, p.1));
    }
    assert(t.model() =~= s.model());
}

/// A store whose lookups differ from another's only at `(h, k)`, where it
/// finds `v`, holds the other's contents with `v` stored there.
proof fn lemma_insert_model(s: HashStorage, t: HashStorage, h: u64, k: Seq<u8>, v: Seq<u8>)
    requires
        forall|h2: u64, k2: Seq<u8>| #[trigger] t.lookup(h2, k2) == (if h2 == h && k2 == k {
            Some(v)
        } else {
            s.lookup(h2, k2)
        }),
    ensures
        t.model() == s.model().insert((h, k), v),
{
    assert forall|p: (u64, Seq<u8>)| #[trigger] t.model().contains_key(p) == s.model().insert((h, k), v).contains_key(p)
        && (t.model().contains_key(p) ==> t.model()[p] == s.model().insert((h, k), v)[p]) by {
        assert(t.lookup(p.0, p.1) == (if p.0 == h && p.1 == k { Some(v) } else { s.lookup(p.0, p.1) }));
    }
    assert(t.model() =~= s.model().insert((h, k), v));
}

/// Whether a record of hash `h`, key `k` and length `need` fits in a page
/// beside the other records of `rs` that share `h`'s low `MAX_LEVEL` bits:
/// those are the records that no split can part from it.
pub open spec fn fits_at_cap(rs: Seq<RecordModel>, h: u64, k: Seq<u8>, need: nat) -> bool {
    let cs = cap_part(rs, MAX_LEVEL as nat, h);
    let first: int = match find_value(cs, h, k) {
        Some(v) => (13 + k.len() + v.len()) as int,
        None => 0,
    };
    records_len(cs) - first + need <= PAGE_RECORD_SPACE
}

/// `t` has `s`'s directory, global level, bucket count and bucket levels,
/// and every page but that of bucket `b` unchanged.
pub open spec fn same_shape_but(s: HashStorage, t: HashStorage, b: int) -> bool {
    &&& t.dir() == s.dir()
    &&& t.level() == s.level()
    &&& t.count() == s.count()
    &&& forall|c: int| 0 <= c < s.count() ==> #[trigger] t.level_of(c) == s.level_of(c)
    &&& forall|c: int| 0 <= c < s.count() && c != b ==> #[trigger] t.pages_model()[c] == s.pages_model()[c]
}

/// The directory and global level after bucket `idx`, of level `l`, splits
/// on remainder `r` into itself and a new bucket `n`: locally, the entries
/// of `idx` whose low `l + 1` bits exceed `r` move to `n`; globally, the
/// directory doubles and its entry `2^G + r` names `n`.
pub open spec fn split_dir(d: Seq<usize>, g: nat, idx: int, l: nat, r: int, n: int) -> (Seq<usize>, nat) {
    if l + 1 <= g {
        (Seq::new(d.len(), |j: int| if d[j] as int == idx && low_bits(j, l + 1) > r { n as usize } else { d[j] }), g)
    } else {
        (Seq::new(
            2 * d.len(),
            |j: int|
                if j < d.len() {
                    d[j]
                } else if j == d.len() + r {
                    n as usize
                } else {
                    d[j - d.len()]
                },
        ), g + 1)
    }
}

/// The directory, global level and bucket levels that a put of a record
/// of hash `h`, key `k` and length `need` into bucket `idx` (holding `rs`)
/// leaves: while the record does not fit, the bucket splits on `h`'s next
/// bit and the put goes on in the half that `h` falls in.
pub open spec fn put_shape(
    d: Seq<usize>,
    g: nat,
    levels: Seq<u8>,
    rs: Seq<RecordModel>,
    idx: int,
    h: u64,
    k: Seq<u8>,
    need: nat,
) -> (Seq<usize>, nat, Seq<u8>)
    decreases MAX_LEVEL - levels[idx],
{
    if idx < 0 || idx >= levels.len() || levels[idx] >= MAX_LEVEL || fits_in_bucket(rs, h, k, need) {
        (d, g, levels)
    } else {
        let l = levels[idx] as nat;
        let r = low_bits(h as int, l);
        let n = levels.len() as int;
        let nd = split_dir(d, g, idx, l, r, n);
        let up = low_bits(h as int, l + 1) > r;
        put_shape(
            nd.0,
            nd.1,
            levels.update(idx, (l + 1) as u8).push((l + 1) as u8),
            split_part(rs, l + 1, r, up),
            if up { n } else { idx },
            h,
            k,
            need,
        )
    }
}

/// Length of the record of a text key and value.
pub open spec fn text_record_len(key: Seq<char>, value: Seq<char>) -> nat {
    13 + encode_utf8(key).len() + encode_utf8(value).len()
}

/// The room that the records of all pages take together.
pub open spec fn pages_bytes(pages: Seq<PageModel>) -> nat
    decreases pages.len(),
{
    if pages.len() == 0 {
        0
    } else {
        pages_bytes(pages.drop_last()) + records_len(pages.last().1)
    }
}

/// Whether the record of hash `h`, key `k` and length `need` fits in its
/// bucket `rs` as it is: in place of a record of the same hash and key, or
/// beside the others.
pub open spec fn fits_in_bucket(rs: Seq<RecordModel>, h: u64, k: Seq<u8>, need: nat) -> bool {
    match find_value(rs, h, k) {
        Some(v0) => records_len(rs) - (13 + k.len() + v0.len()) + need <= PAGE_RECORD_SPACE,
        None => records_len(rs) + need <= PAGE_RECORD_SPACE,
    }
}

proof fn lemma_pages_bytes_update(p: Seq<PageModel>, i: int, x: PageModel)
    requires
        0 <= i < p.len(),
    ensures
        pages_bytes(p.update(i, x)) + records_len(p[i].1) == pages_bytes(p) + records_len(x.1),
    decreases p.len(),
{
    let u = p.update(i, x);
    if i == p.len() - 1 {
        assert(u.drop_last() =~= p.drop_last());
    } else {
        lemma_pages_bytes_update(p.drop_last(), i, x);
        assert(u.drop_last() =~= p.drop_last().update(i, x));
    }
}

proof fn lemma_pages_bytes_le(p: Seq<PageModel>, i: int)
    requires
        0 <= i < p.len(),
    ensures
        records_len(p[i].1) <= pages_bytes(p),
    decreases p.len(),
{
    if i < p.len() - 1 {
        lemma_pages_bytes_le(p.drop_last(), i);
    }
}

proof fn lemma_pages_bytes_push(p: Seq<PageModel>, x: PageModel)
    ensures
        pages_bytes(p.push(x)) == pages_bytes(p) + records_len(x.1),
{
    assert(p.push(x).drop_last() =~= p);
}

/// A directory of a store at a deeper level is that many doublings longer.
proof fn lemma_dir_growth(s: HashStorage, t: HashStorage)
    requires
        s.shape_ok(),
        t.shape_ok(),
        t.global_level >= s.global_level,
    ensures
        t.dir().len() == s.dir().len() * pow2((t.level() - s.level()) as nat),
{
    vstd::arithmetic::power2::lemma_pow2_adds(s.global_level as nat, (t.global_level - s.global_level) as nat);
    assert(s.global_level as nat + (t.global_level - s.global_level) as nat == t.global_level as nat);
}

/// The records of the bucket of `h` agree with `h` on that bucket's level.
proof fn lemma_bucket_class(s: HashStorage, h: u64)
    requires
        s.shape_ok(),
    ensures
        forall|i: int|
            0 <= i < s.bucket_model(s.bucket_for(h)).len() ==> low_bits(
                (#[trigger] s.bucket_model(s.bucket_for(h))[i]).0 as int,
                s.level_of(s.bucket_for(h)),
            ) == low_bits(h as int, s.level_of(s.bucket_for(h))),
{
    let b = s.bucket_for(h);
    lemma_slot_facts(&s, h);
    assert forall|i: int| 0 <= i < s.bucket_model(b).len() implies low_bits(
        (#[trigger] s.bucket_model(b)[i]).0 as int,
        s.level_of(b),
    ) == low_bits(h as int, s.level_of(b)) by {
        let x = s.bucket_model(b)[i];
        let g = s.global_level as nat;
        let j = low_bits(x.0 as int, g);
        lemma_slot_facts(&s, x.0);
        assert(s.buckets@[b].model()[i] == x);
        assert(s.bucket_lookup@[j] as int == b);
        lemma_class_of(s, h, j);
        assert(s.buckets@[b].level <= s.global_level);
        lemma_low_bits_nest(x.0 as int, s.level_of(b), g);
    }
}

/// A local split keeps the invariant and what the store holds, and sends
/// `h` to the half that its next bit picks.
proof fn lemma_local_split(s: HashStorage, t: HashStorage, h: u64, idx: int, n: int, l: nat, r: int)
    requires
        s.shape_ok(),
        idx == s.bucket_for(h),
        l == s.level_of(idx),
        l < s.global_level,
        r == low_bits(h as int, l),
        n < MAX_BUCKETS,
        split_buckets(s, t, idx, n, l, r),
        local_split_dir(s, t, idx, n, l, r),
    ensures
        t.shape_ok(),
        t.model() == s.model(),
        t.bucket_for(h) == (if low_bits(h as int, l + 1) > r {
            n
        } else {
            idx
        }),
{
    let g = s.global_level as nat;
    let sd = s.bucket_lookup@;
    let td = t.bucket_lookup@;
    lemma_slot_facts(&s, h);
    lemma_pow2_pos(l);
    assert forall|j: int| 0 <= j < td.len() implies #[trigger] td[j] < t.buckets@.len() by {
        assert(sd[j] < s.buckets@.len());
    }
    assert forall|b: int| 0 <= b < t.buckets@.len() implies {
        &&& (#[trigger] t.buckets@[b]).wf()
        &&& t.buckets@[b].bucket_index == b
        &&& t.buckets@[b].level <= t.global_level
        &&& keys_distinct(t.buckets@[b].model())
    } by {
        if b != idx && b != n {
            assert(t.buckets@[b] == s.buckets@[b]);
        } else {
            assert(s.buckets@[idx].wf());
            lemma_distinct_split(s.buckets@[idx].model(), l + 1, r, b == n);
        }
    }
    assert forall|j: int, k: int| 0 <= j < td.len() && 0 <= k < td.len() implies ((#[trigger] td[j]
        == #[trigger] td[k]) == (low_bits(k, t.level_of(td[j] as int)) == low_bits(
        j,
        t.level_of(td[j] as int),
    ))) by {
        lemma_class_of(s, h, j);
        lemma_class_of(s, h, k);
        lemma_low_bits_step(j, l);
        lemma_low_bits_step(k, l);
        if sd[j] as int != idx {
            let c = sd[j] as int;
            assert(td[j] == sd[j]);
            assert(t.buckets@[c] == s.buckets@[c]);
            assert((sd[j] == sd[k]) == (low_bits(k, s.level_of(c)) == low_bits(j, s.level_of(c))));
        } else {
            if low_bits(j, l) == r {
            }
        }
    }
    assert forall|h2: u64, k2: Seq<u8>| #[trigger] t.lookup(h2, k2) == s.lookup(h2, k2) by {
        lemma_slot_facts(&s, h2);
        let s0 = low_bits(h2 as int, g);
        let c = sd[s0] as int;
        lemma_low_bits_nest(h2 as int, l + 1, g);
        lemma_low_bits_nest(h2 as int, l, g);
        lemma_class_of(s, h, s0);
        lemma_low_bits_nest(s0, l, l + 1);
        if c != idx {
            assert(t.buckets@[c] == s.buckets@[c]);
        } else {
            lemma_find_split(s.buckets@[idx].model(), l + 1, r, true, h2, k2);
            lemma_find_split(s.buckets@[idx].model(), l + 1, r, false, h2, k2);
        }
    }

    assert forall|b: int, i: int|
        0 <= b < t.buckets@.len() && 0 <= i < t.buckets@[b].model().len() implies t.bucket_lookup@[low_bits(
            (#[trigger] t.buckets@[b].model()[i]).0 as int,
            t.global_level as nat,
        )] as int == b by {
        let x = t.buckets@[b].model()[i];
        let j = low_bits(x.0 as int, g);
        lemma_slot_facts(&s, x.0);
        lemma_low_bits_nest(x.0 as int, l + 1, g);
        if b == idx || b == n {
            let p = |y: RecordModel| sd[low_bits(y.0 as int, g)] as int == idx;
            assert(all_records(s.buckets@[idx].model(), p)) by {
                assert forall|q: int| 0 <= q < s.buckets@[idx].model().len() implies p(#[trigger] s.buckets@[idx].model()[q]) by {
                    assert(sd[low_bits(s.buckets@[idx].model()[q].0 as int, g)] as int == idx);
                }
            }
            lemma_split_part_all(s.buckets@[idx].model(), l + 1, r, b == n, p);
            assert(sd[j] as int == idx);
        } else {
            assert(t.buckets@[b] == s.buckets@[b]);
            assert(sd[j] as int == b);
        }
    }
    lemma_same_model(s, t);
    lemma_low_bits_nest(h as int, l + 1, g);
}

/// A global split keeps the invariant and what the store holds, and sends
/// `h` to the half that its next bit picks.
proof fn lemma_global_split(s: HashStorage, t: HashStorage, h: u64, idx: int, n: int, r: int)
    requires
        s.shape_ok(),
        idx == s.bucket_for(h),
        s.level_of(idx) == s.global_level,
        s.global_level < MAX_LEVEL,
        r == low_bits(h as int, s.global_level as nat),
        n < MAX_BUCKETS,
        split_buckets(s, t, idx, n, s.global_level as nat, r),
        global_split_dir(s, t, n, r),
    ensures
        t.shape_ok(),
        t.model() == s.model(),
        t.bucket_for(h) == (if low_bits(h as int, (s.global_level + 1) as nat) > r {
            n
        } else {
            idx
        }),
{
    let g = s.global_level as nat;
    let m = s.bucket_lookup@.len() as int;
    let sd = s.bucket_lookup@;
    let td = t.bucket_lookup@;
    lemma_slot_facts(&s, h);
    lemma_pow2_pos(g);
    lemma_low_bits_step(h as int, g);
    assert(pow2(g + 1) == 2 * m);
    lemma_low_bits_small(r, g);
    assert(sd[r] as int == idx);
    assert forall|j: int| 0 <= j < td.len() implies #[trigger] td[j] < t.buckets@.len() by {
        if j < m {
            assert(sd[j] < s.buckets@.len());
        } else if j != m + r {
            assert(sd[j - m] < s.buckets@.len());
        }
    }
    assert forall|b: int| 0 <= b < t.buckets@.len() implies {
        &&& (#[trigger] t.buckets@[b]).wf()
        &&& t.buckets@[b].bucket_index == b
        &&& t.buckets@[b].level <= t.global_level
        &&& keys_distinct(t.buckets@[b].model())
    } by {
        if b != idx && b != n {
            assert(t.buckets@[b] == s.buckets@[b]);
        } else {
            lemma_distinct_split(s.buckets@[idx].model(), g + 1, r, b == n);
        }
    }
    // The old entry of each new entry, and the entries of the split bucket.
    assert forall|j: int| 0 <= j < 2 * m implies {
        &&& low_bits(j, g + 1) == j
        &&& low_bits(j, g) == (if j < m { j } else { j - m })
        &&& (#[trigger] td[j]) == (if j == m + r { n as usize } else { sd[low_bits(j, g)] })
    } by {
        lemma_low_bits_small(j, g + 1);
        lemma_low_bits_step(j, g);
        if j < m {
            lemma_low_bits_small(j, g);
        }
        if j >= m {
            lemma_low_bits_small(j - m, g);
        }
    }
    assert forall|j: int| 0 <= j < m implies (#[trigger] sd[j] as int == idx) == (j == r) by {
        lemma_class_of(s, h, j);
        lemma_low_bits_small(j, g);
    }
    assert forall|j: int, k: int| 0 <= j < td.len() && 0 <= k < td.len() implies ((#[trigger] td[j]
        == #[trigger] td[k]) == (low_bits(k, t.level_of(td[j] as int)) == low_bits(
        j,
        t.level_of(td[j] as int),
    ))) by {
        let j0 = low_bits(j, g);
        let k0 = low_bits(k, g);
        assert(td[j] == (if j == m + r { n as usize } else { sd[j0] }));
        assert(td[k] == (if k == m + r { n as usize } else { sd[k0] }));
        assert((sd[j0] as int == idx) == (j0 == r));
        assert((sd[k0] as int == idx) == (k0 == r));
        if td[j] as int != n && td[j] as int != idx {
            let c = td[j] as int;
            let lc = s.level_of(c);
            assert(t.buckets@[c] == s.buckets@[c]);
            assert(s.buckets@[c].level <= s.global_level);
            assert((sd[j0] == sd[k0]) == (low_bits(k0, lc) == low_bits(j0, lc)));
            lemma_low_bits_nest(j, lc, g);
            lemma_low_bits_nest(k, lc, g);
        }
    }
    assert forall|h2: u64, k2: Seq<u8>| #[trigger] t.lookup(h2, k2) == s.lookup(h2, k2) by {
        lemma_slot_facts(&s, h2);
        let s0 = low_bits(h2 as int, g);
        let u = low_bits(h2 as int, g + 1);
        lemma_low_bits_step(h2 as int, g);
        lemma_low_bits_nest(h2 as int, g, g + 1);
        assert(0 <= u < 2 * m);
        assert(low_bits(u, g) == s0);
        let c = sd[s0] as int;
        if c != idx {
            assert(t.buckets@[c] == s.buckets@[c]);
        } else {
            lemma_find_split(s.buckets@[idx].model(), g + 1, r, true, h2, k2);
            lemma_find_split(s.buckets@[idx].model(), g + 1, r, false, h2, k2);
        }
    }
    assert forall|b: int, i: int|
        0 <= b < t.buckets@.len() && 0 <= i < t.buckets@[b].model().len() implies t.bucket_lookup@[low_bits(
            (#[trigger] t.buckets@[b].model()[i]).0 as int,
            t.global_level as nat,
        )] as int == b by {
        let x = t.buckets@[b].model()[i];
        let j0 = low_bits(x.0 as int, g);
        let j1 = low_bits(x.0 as int, g + 1);
        lemma_slot_facts(&s, x.0);
        lemma_low_bits_step(x.0 as int, g);
        lemma_low_bits_nest(x.0 as int, g, g + 1);
        assert(0 <= j1 < 2 * m);
        assert(low_bits(j1, g) == j0);
        if b == idx || b == n {
            let p = |y: RecordModel| sd[low_bits(y.0 as int, g)] as int == idx;
            assert(all_records(s.buckets@[idx].model(), p)) by {
                assert forall|q: int| 0 <= q < s.buckets@[idx].model().len() implies p(#[trigger] s.buckets@[idx].model()[q]) by {
                    assert(sd[low_bits(s.buckets@[idx].model()[q].0 as int, g)] as int == idx);
                }
            }
            lemma_split_part_all(s.buckets@[idx].model(), g + 1, r, b == n, p);
            assert(sd[j0] as int == idx);
            assert(j0 == r);
        } else {
            assert(t.buckets@[b] == s.buckets@[b]);
            assert(sd[j0] as int == b);
        }
    }
    lemma_same_model(s, t);
    lemma_low_bits_nest(h as int, g, g + 1);
}

/// No page holds two records of one hash and key.
pub open spec fn pages_keys_distinct_spec(pages: Seq<PageModel>) -> bool {
    forall|b: int| 0 <= b < pages.len() ==> keys_distinct(#[trigger] pages[b].1)
}

/// Whether no bucket holds two records of one hash and key.
fn pages_keys_distinct(buckets: &Vec<Bucket>) -> (r: bool)
    ensures
        r == pages_keys_distinct_spec(pages_of(buckets@)),
{
    let mut b: usize = 0;
    while b < buckets.len()
        invariant
            b <= buckets@.len(),
            forall|c: int| 0 <= c < b ==> keys_distinct(#[trigger] pages_of(buckets@)[c].1),
        decreases buckets@.len() - b,
    {
        if !buckets[b].keys_are_distinct() {
            assert(pages_of(buckets@)[b as int].1 == buckets@[b as int].model());
            return false;
        }
        b = b + 1;
    }
    true
}

/// Whether every record of every bucket lies where the directory names its
/// bucket.
fn records_at_home_check(g: u8, d: &Vec<u64>, buckets: &Vec<Bucket>) -> (r: bool)
    requires
        g <= MAX_LEVEL,
        d@.len() == pow2(g as nat),
    ensures
        r == pages_at_home(g, d@, pages_of(buckets@)),
{
    let ghost pages = pages_of(buckets@);
    let mut b: usize = 0;
    while b < buckets.len()
        invariant
            g <= MAX_LEVEL,
            d@.len() == pow2(g as nat),
            pages == pages_of(buckets@),
            b <= buckets@.len(),
            forall|c: int, i: int|
                0 <= c < b && 0 <= i < pages[c].1.len() ==> d@[low_bits((#[trigger] pages[c].1[i]).0 as int, g as nat)] == c,
        decreases buckets@.len() - b,
    {
        let recs = &buckets[b].records;
        let mut i: usize = 0;
        while i < recs.len()
            invariant
                g <= MAX_LEVEL,
                d@.len() == pow2(g as nat),
                pages == pages_of(buckets@),
                b < buckets@.len(),
                recs == &buckets@[b as int].records,
                i <= recs@.len(),
                forall|c: int, k: int|
                    0 <= c < b && 0 <= k < pages[c].1.len() ==> d@[low_bits((#[trigger] pages[c].1[k]).0 as int, g as nat)] == c,
                forall|k: int| 0 <= k < i ==> d@[low_bits((#[trigger] pages[b as int].1[k]).0 as int, g as nat)] == b,
            decreases recs@.len() - i,
        {
            let slot = low_bits_u64(recs[i].0, g);
            proof {
                lemma_pow2_pos(g as nat);
                vstd::arithmetic::div_mod::lemma_mod_pos_bound(recs@[i as int].0 as int, pow2(g as nat) as int);
                assert(pages[b as int].1[i as int] == recs@[i as int]@);
            }
            let n = d.len();
            assert(slot < n);
            if d[slot as usize] != b as u64 {
                return false;
            }
            i = i + 1;
        }
        b = b + 1;
    }
    true
}

/// Every directory entry names a bucket no deeper than the global level,
/// and the entries that name one bucket are exactly those whose low bits,
/// to that bucket's local level, equal the bucket's own remainder.
pub proof fn law_directory_invariant(s: &HashStorage)
    requires
        s.wf(),
    ensures
        s.dir().len() == pow2(s.level()),
        s.level() <= MAX_LEVEL,
        forall|j: int| 0 <= j < s.dir().len() ==> {
            &&& 0 <= #[trigger] s.dir()[j] < s.count()
            &&& s.level_of(s.dir()[j] as int) <= s.level()
        },
        forall|j: int, k: int|
            0 <= j < s.dir().len() && 0 <= k < s.dir().len() ==> ((#[trigger] s.dir()[j]
                == #[trigger] s.dir()[k]) == (low_bits(k, s.level_of(s.dir()[j] as int)) == low_bits(
                j,
                s.level_of(s.dir()[j] as int),
            ))),
{
    assert forall|j: int| 0 <= j < s.dir().len() implies {
        &&& 0 <= #[trigger] s.dir()[j] < s.count()
        &&& s.level_of(s.dir()[j] as int) <= s.level()
    } by {
        assert(s.buckets@[s.dir()[j] as int].level <= s.global_level);
    }
}

/// A store written to its two files reads back with the same global
/// level, directory, bucket count and pages, and passes the load check.
pub proof fn law_persistence(s: &HashStorage)
    requires
        s.wf(),
    ensures
        directory_of_file(directory_file(s.level() as u8, s.dir())) == Some((s.level() as u8, entries_u64(s.dir()))),
        pages_of_file(buckets_file(s.pages_model())) == Some(s.pages_model()),
        s.pages_model().len() == s.count(),
        parts_valid(s.level() as u8, entries_u64(s.dir()), page_levels(s.pages_model())),
        pages_at_home(s.level() as u8, entries_u64(s.dir()), s.pages_model()),
{
    lemma_directory_round_trip(s.global_level, s.bucket_lookup@);
    let pages = s.pages_model();
    assert forall|i: int| 0 <= i < pages.len() implies crate::bucket::records_fit(#[trigger] pages[i].1) by {
        assert(s.buckets@[i].wf());
    }
    lemma_buckets_round_trip(pages);
    vstd::bytes::lemma_auto_spec_u32_to_from_le_bytes();
    let d = entries_u64(s.bucket_lookup@);
    let lv = page_levels(pages);
    assert forall|j: int| 0 <= j < d.len() implies #[trigger] d[j] < lv.len() by {
        assert(s.bucket_lookup@[j] < s.buckets@.len());
    }
    assert forall|b: int| 0 <= b < lv.len() implies #[trigger] lv[b] <= s.global_level by {
        assert(s.buckets@[b].level <= s.global_level);
    }
    assert forall|j: int, k: int| 0 <= j < d.len() && 0 <= k < d.len() implies ((#[trigger] d[j] == #[trigger] d[k]) == (low_bits(
            k,
            lv[d[j] as int] as nat,
        ) == low_bits(j, lv[d[j] as int] as nat))) by {
        assert((s.bucket_lookup@[j] == s.bucket_lookup@[k]) == (low_bits(k, s.level_of(s.bucket_lookup@[j] as int)) == low_bits(j, s.level_of(s.bucket_lookup@[j] as int))));
    }
    assert forall|b: int, i: int|
        0 <= b < pages.len() && 0 <= i < pages[b].1.len() implies d[low_bits(
            (#[trigger] pages[b].1[i]).0 as int,
            s.global_level as nat,
        )] == b by {
        let x = s.buckets@[b].model()[i];
        assert(pages[b].1[i] == x);
        lemma_slot_facts(s, x.0);
        assert(s.bucket_lookup@[low_bits(x.0 as int, s.global_level as nat)] as int == b);
    }
}

/// Walking the directory reaches every stored record: each lies in the
/// bucket that the directory names for its hash, so the store's contents
/// are exactly the records of its pages.
pub proof fn law_records_reachable(s: &HashStorage)
    requires
        s.wf(),
    ensures
        forall|b: int, i: int|
            0 <= b < s.count() && 0 <= i < s.bucket_model(b).len() ==> s.dir()[low_bits(
                (#[trigger] s.bucket_model(b)[i]).0 as int,
                s.level(),
            )] as int == b,
{
    assert forall|b: int, i: int|
        0 <= b < s.count() && 0 <= i < s.bucket_model(b).len() implies s.dir()[low_bits(
            (#[trigger] s.bucket_model(b)[i]).0 as int,
            s.level(),
        )] as int == b by {
        assert(s.buckets@[b].model()[i] == s.bucket_model(b)[i]);
    }
}

/// Keys are unique across the store: no hash and key is stored twice,
/// whether in one bucket or in two.
pub proof fn law_keys_unique(s: &HashStorage)
    requires
        s.wf(),
    ensures
        forall|b: int, c: int, i: int, j: int|
            0 <= b < s.count() && 0 <= c < s.count() && 0 <= i < s.bucket_model(b).len() && 0 <= j
                < s.bucket_model(c).len() && (b != c || i != j) ==> !(#[trigger] s.bucket_model(b)[i].0
                == #[trigger] s.bucket_model(c)[j].0 && s.bucket_model(b)[i].1 == s.bucket_model(c)[j].1),
{
    assert forall|b: int, c: int, i: int, j: int|
        0 <= b < s.count() && 0 <= c < s.count() && 0 <= i < s.bucket_model(b).len() && 0 <= j
            < s.bucket_model(c).len() && (b != c || i != j) implies !(#[trigger] s.bucket_model(b)[i].0
            == #[trigger] s.bucket_model(c)[j].0 && s.bucket_model(b)[i].1 == s.bucket_model(c)[j].1) by {
        let x = s.bucket_model(b)[i];
        let y = s.bucket_model(c)[j];
        assert(s.buckets@[b].model()[i] == x);
        assert(s.buckets@[c].model()[j] == y);
        if b == c {
            assert(keys_distinct(s.buckets@[b].model()));
            if i < j {
                assert(!crate::bucket::is_match(x, y.0, y.1));
            } else {
                assert(!crate::bucket::is_match(y, x.0, x.1));
            }
        }
    }
}

/// Two stores with the same global level, directory and pages hold the
/// same contents: what a reload of the written files gives back is what
/// was written.
pub proof fn law_reload_same_contents(s: &HashStorage, t: &HashStorage)
    requires
        s.wf(),
        t.wf(),
        t.level() == s.level(),
        t.dir() == s.dir(),
        t.pages_model() == s.pages_model(),
    ensures
        t@ == s@,
{
    assert forall|h: u64, k: Seq<u8>| #[trigger] t.lookup(h, k) == s.lookup(h, k) by {
        lemma_slot_facts(s, h);
        let b = s.bucket_for(h);
        assert(t.pages_model()[b] == s.pages_model()[b]);
    }
    lemma_same_model(*s, *t);
}

impl HashStorage {
    /// An empty store: one bucket of level 0, a directory of one entry.
    pub fn new() -> (r: HashStorage)
        ensures
            r.wf(),
            r@ == StoreModel::empty(),
            r.level() == 0,
            r.count() == 1,
            r.dir() == seq![0usize],
            r.pages_model() == seq![(0u8, Seq::<RecordModel>::empty())],
            r.stored_bytes() == 0,
            r.has_room(),
            forall|h: u64| #[trigger] r.bucket_for(h) == 0,
            r.bucket_model(0) == Seq::<RecordModel>::empty(),
            r.level_of(0) == 0,
    {
        let mut buckets: Vec<Bucket> = Vec::new();
        buckets.push(Bucket::empty(0, 0));
        let mut bucket_lookup: Vec<usize> = Vec::new();
        bucket_lookup.push(0);
        let mut dirty: Vec<usize> = Vec::new();
        dirty.push(0);
        let r = HashStorage {
            bucket_count: 1,
            global_level: 0,
            bucket_lookup,
            buckets,
            dirty,
            written: Ghost(Seq::empty()),
        };
        proof {
            lemma2_to64();
            assert forall|j: int, k: int|
                0 <= j < r.bucket_lookup@.len() && 0 <= k < r.bucket_lookup@.len() implies ((
            #[trigger] r.bucket_lookup@[j] == #[trigger] r.bucket_lookup@[k]) == (low_bits(
                k,
                r.level_of(r.bucket_lookup@[j] as int),
            ) == low_bits(j, r.level_of(r.bucket_lookup@[j] as int)))) by {
                assert(j == 0 && k == 0);
            }
            assert forall|p: (u64, Seq<u8>)| !(#[trigger] r.model().contains_key(p)) by {
                lemma_slot_facts(&r, p.0);
            }
            assert(r@ =~= StoreModel::empty());
            assert(r.bucket_lookup@ =~= seq![0usize]);
            assert(r.dirty@[0] == 0usize);
            assert(r.pages_model() =~= seq![(0u8, Seq::<RecordModel>::empty())]);
            assert(pages_bytes(r.pages_model()) == 0) by {
                let p = r.pages_model();
                assert(p.drop_last() =~= Seq::<PageModel>::empty());
                assert(pages_bytes(Seq::<PageModel>::empty()) == 0);
                assert(records_len(Seq::<RecordModel>::empty()) == 0);
                assert(p.last().1 == Seq::<RecordModel>::empty());
            }
            assert forall|h: u64| #[trigger] r.bucket_for(h) == 0 by {
                lemma_slot_facts(&r, h);
            }
            assert(r.dirty@.contains(0usize));
        }
        r
    }

    /// The level and the records of each bucket.
    pub closed spec fn pages_model(&self) -> Seq<PageModel> {
        pages_of(self.buckets@)
    }

    /// The room that the store's records take together.
    pub open spec fn stored_bytes(&self) -> nat {
        pages_bytes(self.pages_model())
    }

    /// Whether a record of `key` and `value` fits beside the records of its
    /// bucket that share its low `MAX_LEVEL` hash bits.
    pub open spec fn put_fits(&self, key: Seq<char>, value: Seq<char>) -> bool {
        fits_at_cap(
            self.bucket_model(self.bucket_for(key_hash(key))),
            key_hash(key),
            encode_utf8(key),
            text_record_len(key, value),
        )
    }

    /// Whether the buckets file can number the buckets that one put may add.
    pub open spec fn has_room(&self) -> bool {
        self.count() + MAX_LEVEL <= MAX_BUCKETS
    }

    /// Loads a store from the bytes of its directory file and of its
    /// buckets file. Succeeds exactly when both read, the directory fits
    /// the buckets' levels, every record lies in the bucket that the
    /// directory names for its hash, and no page repeats a hash and key.
    pub fn load(directory_bytes: &[u8], buckets_bytes: &[u8]) -> (r: Result<HashStorage, LoadError>)
        ensures
            match r {
                Ok(t) => {
                    &&& t.wf()
                    &&& directory_of_file(directory_bytes@) == Some((t.level() as u8, entries_u64(t.dir())))
                    &&& pages_of_file(buckets_bytes@) == Some(t.pages_model())
                    &&& buckets_bytes@.len() == 0 ==> t.dirty_pages() == seq![0usize]
                    &&& buckets_bytes@.len() != 0 ==> t.dirty_pages() == Seq::<usize>::empty()
                        && t.written_pages() == t.pages_model()
                },
                Err(_) => match (directory_of_file(directory_bytes@), pages_of_file(buckets_bytes@)) {
                    (Some((g, d)), Some(pages)) => !parts_valid(g, d, page_levels(pages)) || !pages_at_home(g, d, pages)
                        || !pages_keys_distinct_spec(pages),
                    _ => true,
                },
            },
    {
        let (g, d) = if directory_bytes.len() == 0 {
            let mut d: Vec<u64> = Vec::new();
            d.push(0);
            assert(d@ =~= seq![0u64]);
            (0u8, d)
        } else {
            match decode_directory_bytes(directory_bytes) {
                Some(x) => x,
                None => {
                    return Err(LoadError::CorruptDirectory);
                },
            }
        };
        let buckets = if buckets_bytes.len() == 0 {
            let mut bs: Vec<Bucket> = Vec::new();
            bs.push(Bucket::empty(0, 0));
            assert(pages_of(bs@) =~= seq![(0u8, Seq::<RecordModel>::empty())]);
            bs
        } else {
            match decode_buckets_bytes(buckets_bytes) {
                Some(bs) => bs,
                None => {
                    return Err(LoadError::CorruptPage);
                },
            }
        };
        let mut levels: Vec<u8> = Vec::new();
        let mut b: usize = 0;
        while b < buckets.len()
            invariant
                b <= buckets@.len(),
                levels@ == page_levels(pages_of(buckets@)).subrange(0, b as int),
            decreases buckets@.len() - b,
        {
            levels.push(buckets[b].level);
            b = b + 1;
            assert(levels@ =~= page_levels(pages_of(buckets@)).subrange(0, b as int));
        }
        assert(levels@ =~= page_levels(pages_of(buckets@)));
        if !check_parts(g, &d, &levels) {
            return Err(LoadError::CorruptDirectory);
        }
        if !records_at_home_check(g, &d, &buckets) {
            return Err(LoadError::CorruptDirectory);
        }
        if !pages_keys_distinct(&buckets) {
            return Err(LoadError::CorruptPage);
        }
        let mut dir: Vec<usize> = Vec::new();
        let mut j: usize = 0;
        let nb = levels.len();
        while j < d.len()
            invariant
                nb == levels@.len(),
                j <= d@.len(),
                forall|i: int| 0 <= i < d@.len() ==> #[trigger] d@[i] < levels@.len(),
                levels@.len() == buckets@.len(),
                dir@.len() == j,
                forall|i: int| 0 <= i < j ==> #[trigger] dir@[i] as u64 == d@[i],
            decreases d@.len() - j,
        {
            let e = d[j];
            assert(e < nb);
            dir.push(e as usize);
            j = j + 1;
        }
        assert(entries_u64(dir@) =~= d@);
        let fresh_file = buckets_bytes.len() == 0;
        let ghost loaded = if fresh_file { Seq::<PageModel>::empty() } else { pages_of(buckets@) };
        let mut dirty: Vec<usize> = Vec::new();
        if fresh_file {
            dirty.push(0);
        }
        let t = HashStorage {
            bucket_count: buckets.len(),
            global_level: g,
            bucket_lookup: dir,
            buckets,
            dirty,
            written: Ghost(loaded),
        };
        proof {
            if fresh_file {
                assert(t.dirty@[0] == 0usize);
                assert(t.dirty@.contains(0usize));
            }
        }
        proof {
            let lv = page_levels(pages_of(t.buckets@));
            assert forall|j: int| 0 <= j < t.bucket_lookup@.len() implies #[trigger] t.bucket_lookup@[j] < t.buckets@.len() by {
                assert(d@[j] < levels@.len());
                assert(dir@[j] as u64 == d@[j]);
            }
            assert forall|b: int| 0 <= b < t.buckets@.len() implies {
                &&& (#[trigger] t.buckets@[b]).wf()
                &&& t.buckets@[b].bucket_index == b
                &&& t.buckets@[b].level <= t.global_level
                &&& keys_distinct(t.buckets@[b].model())
            } by {
                assert(keys_distinct(pages_of(buckets@)[b].1));
                assert(lv[b] == t.buckets@[b].level);
                if buckets_bytes@.len() == 0 {
                    assert(b == 0);
                }
            }
            assert forall|j: int, k: int|
                0 <= j < t.bucket_lookup@.len() && 0 <= k < t.bucket_lookup@.len() implies ((
            #[trigger] t.bucket_lookup@[j] == #[trigger] t.bucket_lookup@[k]) == (low_bits(
                k,
                t.level_of(t.bucket_lookup@[j] as int),
            ) == low_bits(j, t.level_of(t.bucket_lookup@[j] as int)))) by {
                assert(dir@[j] as u64 == d@[j] && dir@[k] as u64 == d@[k]);
                assert((d@[j] == d@[k]) == (low_bits(k, levels@[d@[j] as int] as nat) == low_bits(j, levels@[d@[j] as int] as nat)));
                assert(levels@[d@[j] as int] == lv[dir@[j] as int]);
            }
            assert(pow2(g as nat) == d@.len());
            assert forall|b: int, i: int|
                0 <= b < t.buckets@.len() && 0 <= i < t.buckets@[b].model().len() implies t.bucket_lookup@[low_bits(
                    (#[trigger] t.buckets@[b].model()[i]).0 as int,
                    t.global_level as nat,
                )] as int == b by {
                let x = t.buckets@[b].model()[i];
                let j = low_bits(x.0 as int, g as nat);
                assert(pages_of(buckets@)[b].1[i] == x);
                lemma_pow2_pos(g as nat);
                vstd::arithmetic::div_mod::lemma_mod_pos_bound(x.0 as int, pow2(g as nat) as int);
                assert(dir@[j] as u64 == d@[j]);
            }
        }
        Ok(t)
    }

    /// The bytes of the directory file: the global level, then each entry
    /// as a little-endian `u64`.
    pub fn directory_bytes(&self) -> (r: Vec<u8>)
        requires
            self.wf(),
        ensures
            r@ == directory_file(self.level() as u8, self.dir()),
    {
        let g = crate::directory::addr_count_to_global_level(self.bucket_lookup.len());
        proof {
            let gl = self.global_level as nat;
            lemma_pow2_pos(gl);
            if (g as nat) < gl {
                if g as nat + 1 < gl {
                    lemma_pow2_strictly_increases(g as nat + 1, gl);
                }
            } else if (g as nat) > gl {
                lemma_pow2_strictly_increases(gl, g as nat);
            }
            assert(g == self.global_level);
        }
        encode_directory(g, &self.bucket_lookup)
    }

    /// The bytes of the buckets file: the bucket count as a little-endian
    /// `u32`, then each page.
    pub fn buckets_bytes(&self) -> (r: Vec<u8>)
        requires
            self.wf(),
        ensures
            r@ == buckets_file(self.pages_model()),
    {
        let mut out = vstd::bytes::u32_to_le_bytes(self.bucket_count as u32);
        let ghost pages = self.pages_model();
        let ghost chunks = Seq::new(pages.len(), |i: int| crate::bucket::page_bytes(pages[i].0, pages[i].1));
        let mut i: usize = 0;
        while i < self.buckets.len()
            invariant
                self.wf(),
                pages == self.pages_model(),
                chunks == Seq::new(pages.len(), |i: int| crate::bucket::page_bytes(pages[i].0, pages[i].1)),
                i <= self.buckets@.len(),
                out@ == vstd::bytes::spec_u32_to_le_bytes(self.bucket_count as u32) + join(chunks.subrange(0, i as int)),
            decreases self.buckets@.len() - i,
        {
            let page = self.buckets[i].to_page();
            let ghost prev = out@;
            let mut k: usize = 0;
            while k < page.len()
                invariant
                    k <= page@.len(),
                    out@ == prev + page@.subrange(0, k as int),
                decreases page@.len() - k,
            {
                out.push(page[k]);
                k = k + 1;
                assert(out@ =~= prev + page@.subrange(0, k as int));
            }
            assert(page@.subrange(0, page@.len() as int) =~= page@);
            assert(chunks.subrange(0, i + 1).drop_last() =~= chunks.subrange(0, i as int));
            i = i + 1;
            assert(out@ =~= vstd::bytes::spec_u32_to_le_bytes(self.bucket_count as u32) + join(chunks.subrange(0, i as int)));
        }
        assert(chunks.subrange(0, i as int) =~= chunks);
        out
    }

    /// The first bytes of the buckets file: the bucket count as a
    /// little-endian `u32`.
    pub fn buckets_header(&self) -> (r: Vec<u8>)
        requires
            self.wf(),
        ensures
            r@ == buckets_file(self.pages_model()).subrange(0, 4),
    {
        proof {
            vstd::bytes::lemma_auto_spec_u32_to_from_le_bytes();
        }
        let r = vstd::bytes::u32_to_le_bytes(self.bucket_count as u32);
        assert(r@ =~= buckets_file(self.pages_model()).subrange(0, 4));
        r
    }

    /// Where page `i` starts in the buckets file, and its bytes there.
    pub fn page_at(&self, i: usize) -> (r: (u64, Vec<u8>))
        requires
            self.wf(),
            i < self.count(),
        ensures
            r.0 == 4 + 4096 * i,
            r.0 + 4096 <= buckets_file(self.pages_model()).len(),
            buckets_file(self.pages_model()).subrange(r.0 as int, r.0 + 4096) == r.1@,
    {
        let page = self.buckets[i].to_page();
        proof {
            let pages = self.pages_model();
            let chunks = Seq::new(pages.len(), |k: int| crate::bucket::page_bytes(pages[k].0, pages[k].1));
            assert forall|c: int| 0 <= c < chunks.len() implies (#[trigger] chunks[c]).len() == 4096 by {
                assert(self.buckets@[c].wf());
                crate::bucket::lemma_page_round_trip(pages[c].0, pages[c].1);
            }
            crate::directory::lemma_join_stride(chunks, 4096, i as int);
            vstd::bytes::lemma_auto_spec_u32_to_from_le_bytes();
            let f = buckets_file(pages);
            assert(f.subrange(4 + 4096 * i, 4 + 4096 * i + 4096) =~= join(chunks).subrange(4096 * i, 4096 * i + 4096));
            assert(chunks[i as int] == page@);
            assert(4096 * i + 4096 <= 4096 * self.count()) by (nonlinear_arith)
                requires
                    i < self.count(),
            ;
        }
        proof {
            assert(i < MAX_BUCKETS);
        }
        (4 + 4096 * (i as u64), page)
    }

    /// The page of bucket `i`.
    pub fn page(&self, i: usize) -> (r: Vec<u8>)
        requires
            self.wf(),
            i < self.count(),
        ensures
            r@ == crate::bucket::page_bytes(self.pages_model()[i as int].0, self.pages_model()[i as int].1),
    {
        self.buckets[i].to_page()
    }

    /// The buckets whose pages changed since the last call, in the order
    /// of the changes and possibly repeated; from then on their pages count
    /// as written. Every page not listed is the one last handed out.
    pub fn take_dirty_pages(&mut self) -> (r: Vec<usize>)
        requires
            old(self).wf(),
        ensures
            final(self).wf(),
            final(self)@ == old(self)@,
            final(self).dir() == old(self).dir(),
            final(self).level() == old(self).level(),
            final(self).count() == old(self).count(),
            final(self).pages_model() == old(self).pages_model(),
            r@ == old(self).dirty_pages(),
            forall|i: int| 0 <= i < r@.len() ==> #[trigger] r@[i] < old(self).count(),
            forall|b: int|
                0 <= b < old(self).count() && !r@.contains(b as usize) ==> #[trigger] old(self).page_written(b),
            final(self).written_pages() == final(self).pages_model(),
            final(self).dirty_pages() == Seq::<usize>::empty(),
    {
        let mut out: Vec<usize> = Vec::new();
        std::mem::swap(&mut out, &mut self.dirty);
        self.written = Ghost(pages_of(self.buckets@));
        proof {
            assert forall|b: int|
                0 <= b < old(self).count() && !out@.contains(b as usize) implies #[trigger] old(self).page_written(b) by {
            }
            assert(self.model() =~= old(self).model());
        }
        out
    }

    /// The global level.
    pub fn global_level(&self) -> (r: u8)
        ensures
            r == self.level(),
    {
        self.global_level
    }

    /// The number of buckets.
    pub fn bucket_count(&self) -> (r: usize)
        requires
            self.wf(),
        ensures
            r == self.count(),
    {
        self.bucket_count
    }

    /// A copy of the directory.
    pub fn bucket_lookup(&self) -> (r: Vec<usize>)
        ensures
            r@ == self.dir(),
    {
        let mut out: Vec<usize> = Vec::new();
        let mut j: usize = 0;
        while j < self.bucket_lookup.len()
            invariant
                j <= self.bucket_lookup@.len(),
                out@ == self.bucket_lookup@.subrange(0, j as int),
            decreases self.bucket_lookup@.len() - j,
        {
            out.push(self.bucket_lookup[j]);
            j = j + 1;
            assert(out@ =~= self.bucket_lookup@.subrange(0, j as int));
        }
        assert(self.bucket_lookup@.subrange(0, j as int) =~= self.bucket_lookup@);
        out
    }

    /// The directory entry of a hash under the current global level.
    pub fn hash_to_remainder(&self, hash: u64) -> (r: usize)
        requires
            self.wf(),
        ensures
            r == low_bits(hash as int, self.level()),
            r < self.dir().len(),
    {
        proof {
            lemma_slot_facts(self, hash);
        }
        let n = self.bucket_lookup.len();
        let r = low_bits_u64(hash, self.global_level);
        assert(r < n);
        r as usize
    }

    /// Puts new records into bucket `idx`, keeping its position and level.
    fn store_records(&mut self, idx: usize, records: Vec<Record>)
        requires
            old(self).wf(),
            idx < old(self).buckets@.len(),
            records_fit(records_model(records@)),
            keys_distinct(records_model(records@)),
            forall|i: int|
                0 <= i < records_model(records@).len() ==> old(self).bucket_lookup@[low_bits(
                    (#[trigger] records_model(records@)[i]).0 as int,
                    old(self).global_level as nat,
                )] as int == idx,
        ensures
            final(self).bucket_count == old(self).bucket_count,
            final(self).global_level == old(self).global_level,
            final(self).bucket_lookup == old(self).bucket_lookup,
            final(self).buckets@ == old(self).buckets@.update(idx as int, final(self).buckets@[idx as int]),
            final(self).buckets@[idx as int].model() == records_model(records@),
            final(self).buckets@[idx as int].level == old(self).buckets@[idx as int].level,
            final(self).wf(),
    {
        let level = self.buckets[idx].level;
        let mut b = Bucket { bucket_index: idx, level, remaining_byte_space: 0, records };
        b.update_remaining_byte_count();
        self.buckets[idx] = b;
        self.dirty.push(idx);
        proof {
            let t = *self;
            assert forall|b: int|
                0 <= b < t.buckets@.len() && !t.dirty@.contains(b as usize) implies #[trigger] t.page_written(b) by {
                assert(t.dirty@[t.dirty@.len() - 1] == idx);
                assert(b != idx);
                assert(!old(self).dirty@.contains(b as usize)) by {
                    if old(self).dirty@.contains(b as usize) {
                        let q = choose|q: int| 0 <= q < old(self).dirty@.len() && old(self).dirty@[q] == b as usize;
                        assert(t.dirty@[q] == b as usize);
                    }
                }
                assert(old(self).page_written(b));
                assert(pages_of(old(self).buckets@)[b] == pages_of(t.buckets@)[b]);
            }
            assert forall|i: int| 0 <= i < t.dirty@.len() implies #[trigger] t.dirty@[i] < t.buckets@.len() by {
                if i < old(self).dirty@.len() {
                    assert(t.dirty@[i] == old(self).dirty@[i]);
                }
            }
        }
        proof {
            let t = *self;
            assert forall|j: int, k: int|
                0 <= j < t.bucket_lookup@.len() && 0 <= k < t.bucket_lookup@.len() implies ((
            #[trigger] t.bucket_lookup@[j] == #[trigger] t.bucket_lookup@[k]) == (low_bits(
                k,
                t.level_of(t.bucket_lookup@[j] as int),
            ) == low_bits(j, t.level_of(t.bucket_lookup@[j] as int)))) by {
                assert(t.level_of(t.bucket_lookup@[j] as int) == old(self).level_of(
                    t.bucket_lookup@[j] as int,
                ));
            }
            assert forall|b: int, i: int|
                0 <= b < t.buckets@.len() && 0 <= i < t.buckets@[b].model().len() implies t.bucket_lookup@[low_bits(
                    (#[trigger] t.buckets@[b].model()[i]).0 as int,
                    t.global_level as nat,
                )] as int == b by {
                if b != idx {
                    assert(t.buckets@[b] == old(self).buckets@[b]);
                }
            }
        }
    }

    /// Stores `record` in bucket `idx` without a split when it fits there
    /// as it is; otherwise hands it back and changes nothing.
    fn place_in(&mut self, idx: usize, record: Record) -> (r: Result<(), Record>)
        requires
            old(self).wf(),
            idx as int == old(self).bucket_for(record.0),
            record_encodable(record@),
            record_len(record@) <= PAGE_RECORD_SPACE,
        ensures
            final(self).wf(),
            r is Ok <==> fits_in_bucket(old(self).bucket_model(idx as int), record.0, record.1@, record_len(record@)),
            r is Ok ==> {
                &&& final(self)@ == old(self)@.insert((record.0, record.1@), record.2@)
                &&& final(self).dir() == old(self).dir()
                &&& final(self).level() == old(self).level()
                &&& final(self).count() == old(self).count()
                &&& forall|c: int| 0 <= c < old(self).count() ==> #[trigger] final(self).level_of(c) == old(self).level_of(c)
                &&& page_levels(final(self).pages_model()) == page_levels(old(self).pages_model())
                &&& forall|c: int| 0 <= c < old(self).count() && c != idx ==> #[trigger] final(self).pages_model()[c] == old(self).pages_model()[c]
                &&& final(self).stored_bytes() <= old(self).stored_bytes() + record_len(record@)
            },
            r is Err ==> *final(self) == *old(self) && r->Err_0 == record,
    {
        let h = record.0;
        let need = record.byte_len();
        proof {
            lemma_slot_facts(self, h);
        }
        let ghost m = self.buckets@[idx as int].model();
        let ghost m_level = self.buckets@[idx as int].level;
        let found = self.buckets[idx].find_record(h, record.1.as_slice());
            match found {
            Some(i) => {
                let old_len = self.buckets[idx].records[i].2.len();
                if old_len >= record.2.len() || record.2.len() - old_len
                    <= self.buckets[idx].remaining_byte_space {
                    let recs = self.buckets[idx].records_with_value(i, &record.2);
                    let ghost x = (m[i as int].0, m[i as int].1, record.2@);
                    proof {
                        lemma_records_len_update(m, i as int, x);
                        assert(records_fit(records_model(recs@))) by {
                            assert forall|j: int| 0 <= j < records_model(recs@).len() implies
                            crate::record::record_encodable(#[trigger] records_model(recs@)[j]) by {
                                if j != i {
                                    assert(records_model(recs@)[j] == m[j]);
                                }
                            }
                        }
                    }
                    proof {
                        lemma_find_first(m, h, record.1@, i as int);
                        lemma_find_cap_part(m, MAX_LEVEL as nat, h, record.1@);
                        lemma_cap_part_fit(m, MAX_LEVEL as nat, h);
                        lemma_find_len(m, h, record.1@);
                    }
                    let ghost s = *self;
                    self.store_records(idx, recs);
                    proof {
                        assert forall|h2: u64, k2: Seq<u8>| #[trigger] self.lookup(h2, k2) == (if h2 == h && k2 == record.1@ {
                            Some(record.2@)
                        } else {
                            s.lookup(h2, k2)
                        }) by {
                            lemma_slot_facts(&s, h2);
                            let c = s.bucket_for(h2);
                            if c != idx {
                                assert(self.buckets@[c] == s.buckets@[c]);
                            } else if h2 == h && k2 == record.1@ {
                                lemma_find_first(m.update(i as int, x), h, k2, i as int);
                            } else {
                                lemma_find_update_other(m, i as int, x, h2, k2);
                            }
                        }
                        lemma_insert_model(s, *self, h, record.1@, record.2@);
                        lemma_find_len(m, h, record.1@);
                        assert(pages_of(self.buckets@) =~= pages_of(s.buckets@).update(idx as int, (m_level, m.update(i as int, x))));
                        lemma_pages_bytes_update(pages_of(s.buckets@), idx as int, (m_level, m.update(i as int, x)));
                        assert forall|c: int| 0 <= c < s.buckets@.len() implies #[trigger] self.level_of(c) == s.level_of(c) by {}
                    }
                    return Ok(());
                }
                proof {
                    lemma_find_first(m, h, record.1@, i as int);
                    lemma_find_len(m, h, record.1@);
                }
                Err(record)
            },
            None => {
                if self.buckets[idx].remaining_byte_space >= need {
                    let ghost rv = record@;
                    let recs = self.buckets[idx].records_with_pushed(record);
                    proof {
                        lemma_records_len_push(m, rv);
                        assert(records_fit(records_model(recs@))) by {
                            assert forall|j: int| 0 <= j < records_model(recs@).len() implies
                            crate::record::record_encodable(#[trigger] records_model(recs@)[j]) by {
                                if j < m.len() {
                                    assert(records_model(recs@)[j] == m[j]);
                                }
                            }
                        }
                    }
                    proof {
                        lemma_find_none(m, h, rv.1);
                        lemma_find_cap_part(m, MAX_LEVEL as nat, h, rv.1);
                        lemma_cap_part_fit(m, MAX_LEVEL as nat, h);
                    }
                    let ghost s = *self;
                    self.store_records(idx, recs);
                    proof {
                        assert forall|h2: u64, k2: Seq<u8>| #[trigger] self.lookup(h2, k2) == (if h2 == rv.0 && k2 == rv.1 {
                            Some(rv.2)
                        } else {
                            s.lookup(h2, k2)
                        }) by {
                            lemma_slot_facts(&s, h2);
                            let c = s.bucket_for(h2);
                            lemma_find_push(m, rv, h2, k2);
                            if c != idx {
                                assert(self.buckets@[c] == s.buckets@[c]);
                            } else if h2 == rv.0 && k2 == rv.1 {
                                lemma_find_none(m, h2, k2);
                            }
                        }
                        lemma_insert_model(s, *self, rv.0, rv.1, rv.2);
                        assert(pages_of(self.buckets@) =~= pages_of(s.buckets@).update(idx as int, (m_level, m.push(rv))));
                        lemma_pages_bytes_update(pages_of(s.buckets@), idx as int, (m_level, m.push(rv)));
                        assert forall|c: int| 0 <= c < s.buckets@.len() implies #[trigger] self.level_of(c) == s.level_of(c) by {}
                    }
                    return Ok(());
                }
                proof {
                    lemma_find_none(m, h, record.1@);
                }
                Err(record)
            },
        }
    }

    /// Splits bucket `idx`, the bucket of `h`, once: a local split when its
    /// level is below the global level, else a global split that doubles the
    /// directory. Returns the bucket of `h` afterwards.
    fn split_once(&mut self, idx: usize, h: u64) -> (r: usize)
        requires
            old(self).wf(),
            idx as int == old(self).bucket_for(h),
            old(self).level_of(idx as int) < MAX_LEVEL,
            old(self).count() < MAX_BUCKETS,
        ensures
            final(self).wf(),
            final(self)@ == old(self)@,
            final(self).stored_bytes() == old(self).stored_bytes(),
            r as int == final(self).bucket_for(h),
            final(self).level_of(r as int) == old(self).level_of(idx as int) + 1,
            cap_part(final(self).bucket_model(r as int), MAX_LEVEL as nat, h) == cap_part(
                old(self).bucket_model(idx as int),
                MAX_LEVEL as nat,
                h,
            ),
            final(self).level() >= old(self).level(),
            final(self).count() == old(self).count() + 1,
            forall|b: int| 0 <= b < old(self).count() ==> #[trigger] final(self).level_of(b) >= old(self).level_of(b),
            ({
                let l = old(self).level_of(idx as int);
                let rr = low_bits(h as int, l);
                let nd = split_dir(old(self).dir(), old(self).level(), idx as int, l, rr, old(self).count() as int);
                let up = low_bits(h as int, l + 1) > rr;
                &&& final(self).dir() == nd.0
                &&& final(self).level() == nd.1
                &&& page_levels(final(self).pages_model()) == page_levels(old(self).pages_model()).update(idx as int, (l + 1) as u8).push((l + 1) as u8)
                &&& r as int == if up { old(self).count() as int } else { idx as int }
                &&& final(self).bucket_model(r as int) == split_part(old(self).bucket_model(idx as int), l + 1, rr, up)
            }),
    {
        proof {
            lemma_slot_facts(self, h);
        }
        let ghost m = self.buckets@[idx as int].model();
        let ghost s0 = *self;
        let level = self.buckets[idx].level;
            proof {
            if level >= self.global_level {
                lemma2_to64();
                if self.global_level < 23 {
                    lemma_pow2_strictly_increases(self.global_level as nat, 23);
                }
                assert(self.bucket_lookup@.len() <= 8388608);
            }
        }
        let ghost s = *self;
        let og = low_bits_u64(h, level);
        let new_level = level + 1;
        let (stay, moved) = self.buckets[idx].split_records(new_level, og);
        proof {
            lemma_split_fit(m, new_level as nat, og as int, false);
            lemma_split_fit(m, new_level as nat, og as int, true);
        }
        let n = self.bucket_count;
        let mut b_new = Bucket { bucket_index: n, level: new_level, remaining_byte_space: 0, records: moved };
        b_new.update_remaining_byte_count();
        let mut b_old = Bucket { bucket_index: idx, level: new_level, remaining_byte_space: 0, records: stay };
        b_old.update_remaining_byte_count();
        self.buckets[idx] = b_old;
        self.buckets.push(b_new);
        self.bucket_count = n + 1;
        self.dirty.push(idx);
        self.dirty.push(n);
        let ghost split_state = *self;
        proof {
            let ps = pages_of(s.buckets@);
            let upd = ps.update(idx as int, (new_level, split_part(m, new_level as nat, og as int, false)));
            assert(pages_of(self.buckets@) =~= upd.push((new_level, split_part(m, new_level as nat, og as int, true))));
            lemma_pages_bytes_push(upd, (new_level, split_part(m, new_level as nat, og as int, true)));
            lemma_pages_bytes_update(ps, idx as int, (new_level, split_part(m, new_level as nat, og as int, false)));
            lemma_split_sum(m, new_level as nat, og as int);
        }
        proof {
            let t = *self;
            let k = t.dirty@.len();
            assert(t.dirty@[k - 1] == n && t.dirty@[k - 2] == idx);
            assert forall|b: int|
                0 <= b < t.buckets@.len() && !t.dirty@.contains(b as usize) implies #[trigger] t.page_written(b) by {
                assert(b != idx && b != n);
                assert(!s.dirty@.contains(b as usize)) by {
                    if s.dirty@.contains(b as usize) {
                        let q = choose|q: int| 0 <= q < s.dirty@.len() && s.dirty@[q] == b as usize;
                        assert(t.dirty@[q] == b as usize);
                    }
                }
                assert(t.buckets@[b] == s.buckets@[b]);
                assert(s.page_written(b));
                assert(pages_of(s.buckets@)[b] == pages_of(t.buckets@)[b]);
            }
            assert forall|i: int| 0 <= i < t.dirty@.len() implies #[trigger] t.dirty@[i] < t.buckets@.len() by {
                if i < s.dirty@.len() {
                    assert(t.dirty@[i] == s.dirty@[i]);
                }
            }
        }
        proof {
            assert forall|b: int| 0 <= b < n && b != idx implies #[trigger] self.buckets@[b] == s.buckets@[b] by {}
        }
        if new_level <= self.global_level {
            let len = self.bucket_lookup.len();
            let mut j: usize = 0;
            let ghost mid = *self;
            while j < len
                invariant
                    j <= len,
                    len == s.bucket_lookup@.len(),
                    self.bucket_lookup@.len() == len,
                    self.global_level == s.global_level,
                    self.buckets == mid.buckets,
                    self.bucket_count == mid.bucket_count,
                    self.dirty == mid.dirty,
                    self.written == mid.written,
                    new_level == level + 1,
                    new_level <= MAX_LEVEL,
                    forall|i: int| 0 <= i < j ==> #[trigger] self.bucket_lookup@[i] == (if s.bucket_lookup@[i]
                        == idx && low_bits(i, new_level as nat) > og {
                        n
                    } else {
                        s.bucket_lookup@[i]
                    }),
                    forall|i: int| j <= i < len ==> #[trigger] self.bucket_lookup@[i] == s.bucket_lookup@[i],
                decreases len - j,
            {
                if self.bucket_lookup[j] == idx && low_bits_u64(j as u64, new_level) > og {
                    self.bucket_lookup[j] = n;
                }
                j = j + 1;
            }
            proof {
                lemma_local_split(s, *self, h, idx as int, n as int, level as nat, og as int);
            }
        } else {
            let len = self.bucket_lookup.len();
            let mut j: usize = 0;
            let ghost mid = *self;
            while j < len
                invariant
                    j <= len,
                    len == s.bucket_lookup@.len(),
                    len <= usize::MAX / 2,
                    self.bucket_lookup@.len() == len + j,
                    self.global_level == s.global_level,
                    self.buckets == mid.buckets,
                    self.bucket_count == mid.bucket_count,
                    self.dirty == mid.dirty,
                    self.written == mid.written,
                    forall|i: int| 0 <= i < len ==> #[trigger] self.bucket_lookup@[i] == s.bucket_lookup@[i],
                    forall|i: int| len <= i < len + j ==> #[trigger] self.bucket_lookup@[i] == s.bucket_lookup@[i - len],
                decreases len - j,
            {
                let v = self.bucket_lookup[j];
                self.bucket_lookup.push(v);
                j = j + 1;
            }
            proof {
                lemma_slot_facts(&s, h);
                lemma_low_bits_small(og as int, level as nat);
                assert(og < len);
            }
            self.bucket_lookup[len + og as usize] = n;
            self.global_level = new_level;
            proof {
                lemma_global_split(s, *self, h, idx as int, n as int, og as int);
            }
        }
        let r = if low_bits_u64(h, new_level) > og { n } else { idx };
        proof {
            lemma_cap_part_split(m, new_level as nat, og as int, low_bits(h as int, new_level as nat) > og, MAX_LEVEL as nat, h);
            assert forall|b: int| 0 <= b < s.buckets@.len() implies #[trigger] self.level_of(b) >= s.level_of(b) by {
                if b != idx {
                    assert(self.buckets@[b] == s.buckets@[b]);
                }
            }
            assert(self.buckets == split_state.buckets && self.dirty == split_state.dirty);
            assert forall|b: int|
                0 <= b < self.buckets@.len() && !self.dirty@.contains(b as usize) implies #[trigger] self.page_written(b) by {
                assert(split_state.page_written(b));
            }
        }
        proof {
            let l = s0.level_of(idx as int);
            let rr = low_bits(h as int, l);
            let nd = split_dir(s0.dir(), s0.level(), idx as int, l, rr, s0.count() as int);
            assert(self.dir() =~= nd.0);
            let ps = pages_of(s0.buckets@);
            assert(page_levels(self.pages_model()) =~= page_levels(ps).update(idx as int, (l + 1) as u8).push((l + 1) as u8));
        }
        r
    }

    /// Stores `record`, splitting buckets until it fits. On success the
    /// store holds its value under its hash and key; on failure the store
    /// holds what it held. It succeeds when the record fits in its bucket
    /// as it is, and exactly when it fits beside the records that share
    /// its low `MAX_LEVEL` hash bits, unless the buckets file cannot number
    /// the buckets that the splits need (`StoreFull`).
    #[verifier::rlimit(100)]
    pub fn put(&mut self, record: Record) -> (r: Result<(), StoreError>)
        requires
            old(self).wf(),
        ensures
            final(self).wf(),
            r is Ok ==> final(self)@ == old(self)@.insert((record.0, record.1@), record.2@),
            r is Err ==> *final(self) == *old(self),
            r is Err ==> r->Err_0 == StoreError::OversizedRecord || r->Err_0 == StoreError::StoreFull,
            r == Err::<(), StoreError>(StoreError::OversizedRecord) <==> !fits_at_cap(
                old(self).bucket_model(old(self).bucket_for(record.0)),
                record.0,
                record.1@,
                record_len(record@),
            ),
            r == Err::<(), StoreError>(StoreError::StoreFull) <==> fits_at_cap(
                old(self).bucket_model(old(self).bucket_for(record.0)),
                record.0,
                record.1@,
                record_len(record@),
            ) && old(self).count() + MAX_LEVEL > MAX_BUCKETS,
            record_len(record@) > PAGE_RECORD_SPACE ==> r == Err::<(), StoreError>(
                StoreError::OversizedRecord,
            ),
            old(self).stored_bytes() + record_len(record@) <= PAGE_RECORD_SPACE ==> fits_at_cap(
                old(self).bucket_model(old(self).bucket_for(record.0)),
                record.0,
                record.1@,
                record_len(record@),
            ),
            r is Ok ==> final(self).stored_bytes() <= old(self).stored_bytes() + record_len(record@),
            final(self).level() >= old(self).level(),
            old(self).count() <= final(self).count() <= old(self).count() + MAX_LEVEL,
            forall|b: int| 0 <= b < old(self).count() ==> #[trigger] final(self).level_of(b) >= old(self).level_of(b),
            final(self).dir().len() == old(self).dir().len() * pow2((final(self).level() - old(self).level()) as nat),
            r is Ok ==> (final(self).dir(), final(self).level(), page_levels(final(self).pages_model())) == put_shape(
                old(self).dir(),
                old(self).level(),
                page_levels(old(self).pages_model()),
                old(self).bucket_model(old(self).bucket_for(record.0)),
                old(self).bucket_for(record.0),
                record.0,
                record.1@,
                record_len(record@),
            ),
            fits_in_bucket(
                old(self).bucket_model(old(self).bucket_for(record.0)),
                record.0,
                record.1@,
                record_len(record@),
            ) && old(self).count() + MAX_LEVEL <= MAX_BUCKETS ==> {
                &&& r is Ok
                &&& final(self).dir() == old(self).dir()
                &&& final(self).level() == old(self).level()
                &&& final(self).count() == old(self).count()
                &&& final(self).level_of(old(self).bucket_for(record.0)) == old(self).level_of(old(self).bucket_for(record.0))
                &&& forall|c: int| 0 <= c < old(self).count() && c != old(self).bucket_for(record.0)
                    ==> #[trigger] final(self).pages_model()[c] == old(self).pages_model()[c]
            },
    {
        let ghost m0 = old(self).bucket_model(old(self).bucket_for(record.0));
        proof {
            lemma_find_len(cap_part(m0, MAX_LEVEL as nat, record.0), record.0, record.1@);
            lemma_slot_facts(old(self), record.0);
            lemma_cap_part_fit(m0, MAX_LEVEL as nat, record.0);
            lemma_find_cap_part(m0, MAX_LEVEL as nat, record.0, record.1@);
            lemma_find_len(m0, record.0, record.1@);
            lemma_pages_bytes_le(old(self).pages_model(), old(self).bucket_for(record.0));
            lemma_dir_growth(*old(self), *old(self));
            lemma2_to64();
        }
        let h = record.0;
        if record.1.len() > MAX_RECORD_KEY_VALUE_BYTES || record.2.len()
            > MAX_RECORD_KEY_VALUE_BYTES - record.1.len() {
            return Err(StoreError::OversizedRecord);
        }
        let need = record.byte_len();
        let slot = self.hash_to_remainder(h);
        let mut idx = self.bucket_lookup[slot];
        proof {
            lemma_slot_facts(self, h);
        }
        let (room, first_len) = self.buckets[idx].cap_room(MAX_LEVEL, h, record.1.as_slice());
        if room - first_len + need > PAGE_RECORD_SPACE {
            return Err(StoreError::OversizedRecord);
        }
        if self.bucket_count > MAX_BUCKETS - MAX_LEVEL as usize {
            return Err(StoreError::StoreFull);
        }
        // No split has happened yet; and whether the record fits in its
        // bucket as it is, in which case the first round stores it.
        let ghost first = true;
        let ghost fits_now = fits_in_bucket(m0, h, record.1@, need as nat);
        let mut rec = record;
        loop
            invariant
                old(self).wf(),
                self.wf(),
                self@ == old(self)@,
                idx as int == self.bucket_for(h),
                rec == record,
                record_encodable(record@),
                need == record_len(record@),
                need <= PAGE_RECORD_SPACE,
                h == record.0,
                first ==> *self == *old(self),
                fits_now ==> first,
                fits_now == fits_in_bucket(m0, h, record.1@, need as nat),
                fits_at_cap(m0, h, record.1@, need as nat),
                old(self).count() + MAX_LEVEL <= MAX_BUCKETS,
                self.stored_bytes() == old(self).stored_bytes(),
                self.level() >= old(self).level(),
                old(self).count() <= self.count(),
                forall|b: int| 0 <= b < old(self).count() ==> #[trigger] self.level_of(b) >= old(self).level_of(b),
                m0 == old(self).bucket_model(old(self).bucket_for(h)),
                cap_part(self.bucket_model(idx as int), MAX_LEVEL as nat, h) == cap_part(m0, MAX_LEVEL as nat, h),
                self.count() <= old(self).count() + self.level_of(idx as int),
                put_shape(
                    self.dir(),
                    self.level(),
                    page_levels(self.pages_model()),
                    self.bucket_model(idx as int),
                    idx as int,
                    h,
                    record.1@,
                    need as nat,
                ) == put_shape(
                    old(self).dir(),
                    old(self).level(),
                    page_levels(old(self).pages_model()),
                    m0,
                    old(self).bucket_for(h),
                    h,
                    record.1@,
                    need as nat,
                ),
            decreases MAX_LEVEL - self.level_of(idx as int),
        {
            proof {
                lemma_slot_facts(self, h);
            }
            let ghost m = self.bucket_model(idx as int);
            match self.place_in(idx, rec) {
                Ok(()) => {
                    proof {
                        assert(fits_in_bucket(m, h, record.1@, need as nat));
                        lemma_dir_growth(*old(self), *self);
                        assert(self.buckets@[idx as int].level <= self.global_level);
                    }
                    return Ok(());
                },
                Err(back) => {
                    rec = back;
                },
            }
            assert(!fits_now);
            let level = self.buckets[idx].level;
            if level >= MAX_LEVEL {
                proof {
                    let c = MAX_LEVEL as nat;
                    let l = level as nat;
                    lemma_bucket_class(*self, h);
                    assert forall|q: int| 0 <= q < m.len() implies low_bits((#[trigger] m[q]).0 as int, c) == low_bits(h as int, c) by {
                        lemma_low_bits_nest(m[q].0 as int, c, l);
                        lemma_low_bits_nest(h as int, c, l);
                    }
                    lemma_cap_part_all(m, c, h);
                    assert(fits_in_bucket(m, h, record.1@, need as nat));
                }
                return Err(StoreError::OversizedRecord);
            }
            if self.bucket_count >= MAX_BUCKETS {
                return Err(StoreError::StoreFull);
            }
            proof {
                lemma_slot_facts(self, h);
                assert(page_levels(self.pages_model())[idx as int] == self.level_of(idx as int));
                assert(page_levels(self.pages_model()).len() == self.count());
            }
            idx = self.split_once(idx, h);
            proof {
                first = false;
            }
        }
    }

    /// Removes the value stored under hash `hash` and key `key`.
    pub fn delete_record(&mut self, hash: u64, key: &[u8])
        requires
            old(self).wf(),
        ensures
            final(self).wf(),
            final(self)@ == old(self)@.remove((hash, key@)),
            same_shape_but(*old(self), *final(self), old(self).bucket_for(hash)),
            final(self).stored_bytes() <= old(self).stored_bytes(),
    {
        let slot = self.hash_to_remainder(hash);
        let idx = self.bucket_lookup[slot];
        proof {
            lemma_slot_facts(self, hash);
        }
        let ghost m = self.buckets@[idx as int].model();
        let recs = self.buckets[idx].records_without(hash, key);
        proof {
            lemma_without_fit(m, hash, key@);
            assert(keys_distinct(self.buckets@[idx as int].model()));
            lemma_distinct_without(m, hash, key@);
            let g = self.global_level as nat;
            let p = |y: RecordModel| self.bucket_lookup@[low_bits(y.0 as int, g)] as int == idx as int;
            assert(all_records(m, p)) by {
                assert forall|q: int| 0 <= q < m.len() implies p(#[trigger] m[q]) by {
                    assert(self.buckets@[idx as int].model()[q] == m[q]);
                }
            }
            lemma_without_all(m, hash, key@, p);
            assert forall|i: int| 0 <= i < records_model(recs@).len() implies self.bucket_lookup@[low_bits(
                (#[trigger] records_model(recs@)[i]).0 as int,
                g,
            )] as int == idx by {
                assert(p(records_model(recs@)[i]));
            }
        }
        let ghost s = *self;
        self.store_records(idx, recs);
        proof {
            assert forall|h2: u64, k2: Seq<u8>| #[trigger] self.lookup(h2, k2) == (if h2 == hash && k2 == key@ {
                None
            } else {
                s.lookup(h2, k2)
            }) by {
                lemma_slot_facts(&s, h2);
                let c = s.bucket_for(h2);
                lemma_find_without(m, hash, key@, h2, k2);
                if c != idx {
                    assert(self.buckets@[c] == s.buckets@[c]);
                }
            }
            assert forall|p: (u64, Seq<u8>)| #[trigger] self.model().contains_key(p) == s.model().remove((hash, key@)).contains_key(p)
                && (self.model().contains_key(p) ==> self.model()[p] == s.model().remove((hash, key@))[p]) by {
                assert(self.lookup(p.0, p.1) == (if p.0 == hash && p.1 == key@ { None } else { s.lookup(p.0, p.1) }));
            }
            assert(self.model() =~= s.model().remove((hash, key@)));
            let lv = s.buckets@[idx as int].level;
            assert(pages_of(self.buckets@) =~= pages_of(s.buckets@).update(idx as int, (lv, without_key(m, hash, key@))));
            lemma_pages_bytes_update(pages_of(s.buckets@), idx as int, (lv, without_key(m, hash, key@)));
            assert forall|c: int| 0 <= c < s.buckets@.len() implies #[trigger] self.level_of(c) == s.level_of(c) by {}
        }
    }

    /// Stores `value` under `key`, both as UTF-8. It succeeds exactly when
    /// the record fits beside the records that no split can part from it
    /// and the buckets file can number the buckets that splits may need;
    /// on failure nothing changes.
    pub fn put_text(&mut self, key: &str, value: &str) -> (r: Result<(), StoreError>)
        requires
            old(self).wf(),
        ensures
            final(self).wf(),
            r is Ok ==> final(self)@ == old(self)@.insert(entry_key(key@), encode_utf8(value@)),
            r is Ok ==> final(self).stored_bytes() <= old(self).stored_bytes() + text_record_len(key@, value@),
            r is Err ==> *final(self) == *old(self),
            r is Ok <==> old(self).put_fits(key@, value@) && old(self).has_room(),
            r == Err::<(), StoreError>(StoreError::OversizedRecord) <==> !old(self).put_fits(key@, value@),
            r == Err::<(), StoreError>(StoreError::StoreFull) <==> old(self).put_fits(key@, value@) && !old(self).has_room(),
            old(self).stored_bytes() + text_record_len(key@, value@) <= PAGE_RECORD_SPACE ==> old(self).put_fits(key@, value@),
            text_record_len(key@, value@) > PAGE_RECORD_SPACE ==> !old(self).put_fits(key@, value@),
            old(self).count() <= final(self).count() <= old(self).count() + MAX_LEVEL,
    {
        let h = hash_string_key(key);
        let record = Record(h, text_bytes(key), text_bytes(value));
        self.put(record)
    }

    /// The text stored under `key`; `Err(CorruptPage)` where the stored
    /// bytes are not UTF-8.
    pub fn get_text(&self, key: &str) -> (r: Result<Option<String>, StoreError>)
        requires
            self.wf(),
        ensures
            match r {
                Ok(Some(v)) => text_value(self@, key@) == Some(encode_utf8(v@)),
                Ok(None) => text_value(self@, key@) is None,
                Err(e) => e == StoreError::CorruptPage && text_value(self@, key@) is Some
                    && !valid_utf8(text_value(self@, key@)->0),
            },
    {
        let h = hash_string_key(key);
        let kb = text_bytes(key);
        match self.get(h, kb.as_slice()) {
            Some(v) => match text_from_bytes(v) {
                Some(t) => Ok(Some(t)),
                None => Err(StoreError::CorruptPage),
            },
            None => Ok(None),
        }
    }

    /// Removes what is stored under `key`.
    pub fn delete_text(&mut self, key: &str)
        requires
            old(self).wf(),
        ensures
            final(self).wf(),
            final(self)@ == old(self)@.remove(entry_key(key@)),
            same_shape_but(*old(self), *final(self), old(self).bucket_for(key_hash(key@))),
            final(self).stored_bytes() <= old(self).stored_bytes(),
    {
        let h = hash_string_key(key);
        let kb = text_bytes(key);
        self.delete_record(h, kb.as_slice());
    }

    /// Removes what is stored under the command's key.
    pub fn delete(&mut self, cmd: DeleteCommand)
        requires
            old(self).wf(),
        ensures
            final(self).wf(),
            final(self)@ == old(self)@.remove(entry_key(cmd.0@)),
            same_shape_but(*old(self), *final(self), old(self).bucket_for(key_hash(cmd.0@))),
            final(self).stored_bytes() <= old(self).stored_bytes(),
    {
        self.delete_text(cmd.0.as_str());
    }

    /// Runs one engine command. `Flush` changes nothing here: the caller
    /// writes the directory and the bucket count out when it sees `Exit`.
    pub fn handle_cmd(&mut self, cmd: StorageCommand) -> (r: Result<CommandOutput, StoreError>)
        requires
            old(self).wf(),
        ensures
            final(self).wf(),
            match cmd {
                StorageCommand::Put(PutCommand(k, v)) => {
                    &&& (r is Ok <==> old(self).put_fits(k@, v@) && old(self).has_room())
                    &&& (r == Err::<CommandOutput, StoreError>(StoreError::OversizedRecord) <==> !old(self).put_fits(k@, v@))
                    &&& (r == Err::<CommandOutput, StoreError>(StoreError::StoreFull) <==> old(self).put_fits(k@, v@) && !old(self).has_room())
                    &&& r is Ok ==> r->Ok_0 == CommandOutput::Put && final(self)@ == old(self)@.insert(entry_key(k@), encode_utf8(v@))
                    &&& r is Err ==> *final(self) == *old(self)
                },
                StorageCommand::Delete(DeleteCommand(k)) => r == Ok::<CommandOutput, StoreError>(CommandOutput::Delete)
                    && final(self)@ == old(self)@.remove(entry_key(k@))
                    && same_shape_but(*old(self), *final(self), old(self).bucket_for(key_hash(k@))),
                StorageCommand::Get(GetCommand(k)) => *final(self) == *old(self) && match r {
                    Ok(CommandOutput::Found(v)) => text_value(old(self)@, k@) == Some(encode_utf8(v@)),
                    Ok(CommandOutput::NotFound(k2)) => k2@ == k@ && text_value(old(self)@, k@) is None,
                    Ok(_) => false,
                    Err(e) => e == StoreError::CorruptPage && text_value(old(self)@, k@) is Some
                        && !valid_utf8(text_value(old(self)@, k@)->0),
                },
                StorageCommand::Flush => r == Ok::<CommandOutput, StoreError>(CommandOutput::Exit)
                    && *final(self) == *old(self),
            },
    {
        match cmd {
            StorageCommand::Put(PutCommand(k, v)) => match self.put_text(k.as_str(), v.as_str()) {
                Ok(()) => Ok(CommandOutput::Put),
                Err(e) => Err(e),
            },
            StorageCommand::Delete(DeleteCommand(k)) => {
                self.delete_text(k.as_str());
                Ok(CommandOutput::Delete)
            },
            StorageCommand::Get(GetCommand(k)) => match self.get_text(k.as_str()) {
                Ok(Some(v)) => Ok(CommandOutput::Found(v)),
                Ok(None) => Ok(CommandOutput::NotFound(k)),
                Err(e) => Err(e),
            },
            StorageCommand::Flush => Ok(CommandOutput::Exit),
        }
    }

    /// The value stored under hash `hash` and key `key`.
    pub fn get(&self, hash: u64, key: &[u8]) -> (r: Option<Vec<u8>>)
        requires
            self.wf(),
        ensures
            match r {
                Some(v) => self@.contains_key((hash, key@)) && self@[(hash, key@)] == v@,
                None => !self@.contains_key((hash, key@)),
            },
    {
        let slot = self.hash_to_remainder(hash);
        let idx = self.bucket_lookup[slot];
        proof {
            lemma_slot_facts(self, hash);
        }
        let bucket = &self.buckets[idx];
        match bucket.find_record(hash, key) {
            Some(i) => {
                proof {
                    lemma_find_first(bucket.model(), hash, key@, i as int);
                }
                let v = &bucket.records[i].2;
                let out = crate::record::copy_range(v.as_slice(), 0, v.len());
                assert(v@.subrange(0, v@.len() as int) =~= v@);
                Some(out)
            },
            None => {
                proof {
                    lemma_find_none(bucket.model(), hash, key@);
                }
                None
            },
        }
    }
}

} // verus!
