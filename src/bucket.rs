//! The bucket page: a local level followed by packed records, zero-filled
//! to the page size.
use crate::record::{
    append_bytes, copy_range, parse_record_at, record_bytes, record_encodable, record_len, lemma_record_round_trip, Record,
    RecordModel, PAGE_BYTES, PAGE_RECORD_SPACE, RECORD_PRESENT,
};
use crate::slots::{low_bits, low_bits_u64};
use vstd::prelude::*;

verus! {

/// What a list of records holds, as plain values.
pub open spec fn records_model(rs: Seq<Record>) -> Seq<RecordModel> {
    rs.map_values(|r: Record| r@)
}

/// Combined written length of a list of records.
pub open spec fn records_len(rs: Seq<RecordModel>) -> nat
    decreases rs.len(),
{
    if rs.len() == 0 {
        0
    } else {
        record_len(rs[0]) + records_len(rs.subrange(1, rs.len() as int))
    }
}

/// The records written one after the other.
pub open spec fn records_bytes(rs: Seq<RecordModel>) -> Seq<u8>
    decreases rs.len(),
{
    if rs.len() == 0 {
        Seq::empty()
    } else {
        record_bytes(rs[0]) + records_bytes(rs.subrange(1, rs.len() as int))
    }
}

/// Every record of the list can be written.
pub open spec fn all_encodable(rs: Seq<RecordModel>) -> bool {
    forall|i: int| 0 <= i < rs.len() ==> record_encodable(#[trigger] rs[i])
}

/// The records fit together in one page.
pub open spec fn records_fit(rs: Seq<RecordModel>) -> bool {
    all_encodable(rs) && records_len(rs) <= PAGE_RECORD_SPACE
}

/// A page: the level byte, the records, then zeros up to the page size.
pub open spec fn page_bytes(level: u8, rs: Seq<RecordModel>) -> Seq<u8> {
    seq![level] + records_bytes(rs) + Seq::new(
        (PAGE_RECORD_SPACE - records_len(rs)) as nat,
        |i: int| 0u8,
    )
}

/// The records found from offset `i` of a page on: a zero byte is skipped,
/// a marker opens a record; `None` where a record is cut short or another
/// byte stands where a record should begin.
pub open spec fn parse_records(s: Seq<u8>, i: int) -> Option<Seq<RecordModel>>
    decreases s.len() - i,
{
    if i < 0 || i >= s.len() {
        Some(Seq::empty())
    } else if s[i] == 0 {
        parse_records(s, i + 1)
    } else {
        match parse_record_at(s, i) {
            Some((r, j)) => if i < j {
                match parse_records(s, j) {
                    Some(rest) => Some(seq![r] + rest),
                    None => None,
                }
            } else {
                None
            },
            None => None,
        }
    }
}

/// What a page holds: its level and its records, or `None` where the page
/// is not a whole page or its records cannot be read.
pub open spec fn parse_page(s: Seq<u8>) -> Option<(u8, Seq<RecordModel>)> {
    if s.len() != PAGE_BYTES {
        None
    } else {
        match parse_records(s, 1) {
            Some(rs) => Some((s[0], rs)),
            None => None,
        }
    }
}

pub proof fn lemma_records_len_push(rs: Seq<RecordModel>, r: RecordModel)
    ensures
        records_len(rs.push(r)) == records_len(rs) + record_len(r),
        records_bytes(rs.push(r)) == records_bytes(rs) + record_bytes(r),
    decreases rs.len(),
{
    if rs.len() == 0 {
        let e = Seq::<RecordModel>::empty();
        assert(rs.push(r).subrange(1, 1) =~= e);
        assert(records_len(e) == 0);
        assert(records_bytes(e) == Seq::<u8>::empty());
        assert(records_bytes(rs) == Seq::<u8>::empty());
        assert(rs.push(r)[0] == r);
        assert(records_bytes(rs.push(r)) =~= records_bytes(rs) + record_bytes(r));
    } else {
        let t = rs.subrange(1, rs.len() as int);
        lemma_records_len_push(t, r);
        assert(rs.push(r).subrange(1, rs.len() + 1 as int) =~= t.push(r));
        assert(records_bytes(rs.push(r)) =~= records_bytes(rs) + record_bytes(r));
    }
}

pub proof fn lemma_records_bytes_len(rs: Seq<RecordModel>)
    requires
        all_encodable(rs),
    ensures
        records_bytes(rs).len() == records_len(rs),
    decreases rs.len(),
{
    if rs.len() > 0 {
        let t = rs.subrange(1, rs.len() as int);
        lemma_record_round_trip(rs[0], Seq::empty());
        lemma_records_bytes_len(t);
    }
}

/// Records read from a page never take more room than the page holds.
pub proof fn lemma_parse_records_fit(s: Seq<u8>, i: int)
    requires
        0 <= i <= s.len(),
        parse_records(s, i) is Some,
    ensures
        all_encodable(parse_records(s, i).unwrap()),
        records_len(parse_records(s, i).unwrap()) <= s.len() - i,
    decreases s.len() - i,
{
    if i >= s.len() {
    } else if s[i] == 0 {
        lemma_parse_records_fit(s, i + 1);
    } else {
        let (r, j) = parse_record_at(s, i).unwrap();
        lemma_parse_records_fit(s, j);
        let rest = parse_records(s, j).unwrap();
        let all = seq![r] + rest;
        assert(all.subrange(1, all.len() as int) =~= rest);
        vstd::bytes::lemma_auto_spec_u16_to_from_le_bytes();
        assert(all_encodable(all)) by {
            assert forall|k: int| 0 <= k < all.len() implies record_encodable(#[trigger] all[k]) by {
                if k > 0 {
                    assert(all[k] == rest[k - 1]);
                }
            }
        }
    }
}

/// Zero bytes up to the end of a page read as no records.
proof fn lemma_parse_zeros(s: Seq<u8>, i: int)
    requires
        0 <= i <= s.len(),
        forall|k: int| i <= k < s.len() ==> s[k] == 0,
    ensures
        parse_records(s, i) == Some(Seq::<RecordModel>::empty()),
    decreases s.len() - i,
{
    if i < s.len() {
        lemma_parse_zeros(s, i + 1);
    }
}

/// Reading back the records written from offset `i` on.
proof fn lemma_parse_written(s: Seq<u8>, i: int, rs: Seq<RecordModel>)
    requires
        0 <= i,
        all_encodable(rs),
        i + records_len(rs) <= s.len(),
        s.subrange(i, i + records_len(rs)) == records_bytes(rs),
        forall|k: int| i + records_len(rs) <= k < s.len() ==> s[k] == 0,
    ensures
        parse_records(s, i) == Some(rs),
    decreases rs.len(),
{
    if rs.len() == 0 {
        lemma_parse_zeros(s, i);
        assert(rs =~= Seq::<RecordModel>::empty());
    } else {
        let r = rs[0];
        let t = rs.subrange(1, rs.len() as int);
        let n = record_len(r) as int;
        assert(all_encodable(t)) by {
            assert forall|k: int| 0 <= k < t.len() implies record_encodable(#[trigger] t[k]) by {
                assert(t[k] == rs[k + 1]);
            }
        }
        lemma_record_round_trip(r, s.subrange(i + n, s.len() as int));
        lemma_records_bytes_len(t);
        let local = s.subrange(i, s.len() as int);
        assert(local =~= record_bytes(r) + s.subrange(i + n, s.len() as int)) by {
            assert(s.subrange(i, i + n) =~= s.subrange(i, i + records_len(rs)).subrange(0, n));
            assert(records_bytes(rs).subrange(0, n) =~= record_bytes(r));
        }
        lemma_parse_shift(s, i, r);
        assert(s.subrange(i + n, i + n + records_len(t)) =~= records_bytes(t)) by {
            assert(records_bytes(rs).subrange(n, n + records_len(t)) =~= records_bytes(t));
        }
        lemma_parse_written(s, i + n, t);
        assert(s[i] == RECORD_PRESENT) by {
            assert(local[0] == s[i]);
        }
        assert(seq![r] + t =~= rs);
    }
}

/// A record read at offset `i` of a page is the one read at the start of
/// the page's tail from `i`.
proof fn lemma_parse_shift(s: Seq<u8>, i: int, r: RecordModel)
    requires
        0 <= i <= s.len(),
        parse_record_at(s.subrange(i, s.len() as int), 0) == Some((r, record_len(r) as int)),
    ensures
        parse_record_at(s, i) == Some((r, i + record_len(r))),
{
    let t = s.subrange(i, s.len() as int);
    assert(t.subrange(1, 9) =~= s.subrange(i + 1, i + 9));
    assert(t.subrange(9, 11) =~= s.subrange(i + 9, i + 11));
    let kl = spec_kl(t);
    assert(t.subrange(11 + kl, 13 + kl) =~= s.subrange(i + 11 + kl, i + 13 + kl));
    let vl = spec_vl(t, kl);
    assert(t.subrange(11, 11 + kl) =~= s.subrange(i + 11, i + 11 + kl));
    assert(t.subrange(13 + kl, 13 + kl + vl) =~= s.subrange(i + 13 + kl, i + 13 + kl + vl));
}

spec fn spec_kl(t: Seq<u8>) -> int {
    vstd::bytes::spec_u16_from_le_bytes(t.subrange(9, 11)) as int
}

spec fn spec_vl(t: Seq<u8>, kl: int) -> int {
    vstd::bytes::spec_u16_from_le_bytes(t.subrange(11 + kl, 13 + kl)) as int
}

/// A page written from a level and records that fit reads back as the same
/// level and records.
pub proof fn lemma_page_round_trip(level: u8, rs: Seq<RecordModel>)
    requires
        records_fit(rs),
    ensures
        page_bytes(level, rs).len() == PAGE_BYTES,
        parse_page(page_bytes(level, rs)) == Some((level, rs)),
{
    lemma_records_bytes_len(rs);
    let s = page_bytes(level, rs);
    assert(s.subrange(1, 1 + records_len(rs) as int) =~= records_bytes(rs));
    lemma_parse_written(s, 1, rs);
}


/// The record is the one stored under hash `h` and key `k`.
pub open spec fn is_match(r: RecordModel, h: u64, k: Seq<u8>) -> bool {
    r.0 == h && r.1 == k
}

/// The value of the first record stored under `h` and `k`, if any.
pub open spec fn find_value(rs: Seq<RecordModel>, h: u64, k: Seq<u8>) -> Option<Seq<u8>>
    decreases rs.len(),
{
    if rs.len() == 0 {
        None
    } else {
        let f = find_value(rs.drop_last(), h, k);
        if f is Some {
            f
        } else if is_match(rs.last(), h, k) {
            Some(rs.last().2)
        } else {
            None
        }
    }
}

/// The records that a split sends to the new bucket (`upper`) or keeps:
/// those whose low `l` bits exceed `r`, or the others, in their order.
pub open spec fn split_part(rs: Seq<RecordModel>, l: nat, r: int, upper: bool) -> Seq<RecordModel>
    decreases rs.len(),
{
    if rs.len() == 0 {
        Seq::empty()
    } else {
        let t = split_part(rs.drop_last(), l, r, upper);
        if (low_bits(rs.last().0 as int, l) > r) == upper {
            t.push(rs.last())
        } else {
            t
        }
    }
}

pub proof fn lemma_records_len_last(rs: Seq<RecordModel>)
    requires
        rs.len() > 0,
    ensures
        records_len(rs) == records_len(rs.drop_last()) + record_len(rs.last()),
        records_bytes(rs) == records_bytes(rs.drop_last()) + record_bytes(rs.last()),
{
    lemma_records_len_push(rs.drop_last(), rs.last());
    assert(rs.drop_last().push(rs.last()) =~= rs);
}

/// The first matching record gives the value found.
pub proof fn lemma_find_first(rs: Seq<RecordModel>, h: u64, k: Seq<u8>, i: int)
    requires
        0 <= i < rs.len(),
        is_match(rs[i], h, k),
        forall|j: int| 0 <= j < i ==> !is_match(#[trigger] rs[j], h, k),
    ensures
        find_value(rs, h, k) == Some(rs[i].2),
    decreases rs.len(),
{
    if i < rs.len() - 1 {
        lemma_find_first(rs.drop_last(), h, k, i);
    } else {
        lemma_find_none(rs.drop_last(), h, k);
    }
}

/// Without a matching record nothing is found.
pub proof fn lemma_find_none(rs: Seq<RecordModel>, h: u64, k: Seq<u8>)
    requires
        forall|j: int| 0 <= j < rs.len() ==> !is_match(#[trigger] rs[j], h, k),
    ensures
        find_value(rs, h, k) is None,
    decreases rs.len(),
{
    if rs.len() > 0 {
        lemma_find_none(rs.drop_last(), h, k);
    }
}

/// Replacing a record that matches neither before nor after leaves a
/// lookup unchanged.
pub proof fn lemma_find_update_other(rs: Seq<RecordModel>, i: int, x: RecordModel, h: u64, k: Seq<u8>)
    requires
        0 <= i < rs.len(),
        !is_match(rs[i], h, k),
        !is_match(x, h, k),
    ensures
        find_value(rs.update(i, x), h, k) == find_value(rs, h, k),
    decreases rs.len(),
{
    let u = rs.update(i, x);
    if i == rs.len() - 1 {
        assert(u.drop_last() =~= rs.drop_last());
    } else {
        lemma_find_update_other(rs.drop_last(), i, x, h, k);
        assert(u.drop_last() =~= rs.drop_last().update(i, x));
    }
}

/// Appending a record leaves earlier lookups as they were.
pub proof fn lemma_find_push(rs: Seq<RecordModel>, x: RecordModel, h: u64, k: Seq<u8>)
    ensures
        find_value(rs.push(x), h, k) == (if find_value(rs, h, k) is Some {
            find_value(rs, h, k)
        } else if is_match(x, h, k) {
            Some(x.2)
        } else {
            None
        }),
{
    assert(rs.push(x).drop_last() =~= rs);
}

/// A split half holds every record of `h` if `h` falls on its side, and
/// none otherwise.
pub proof fn lemma_find_split(rs: Seq<RecordModel>, l: nat, r: int, upper: bool, h: u64, k: Seq<u8>)
    ensures
        find_value(split_part(rs, l, r, upper), h, k) == (if (low_bits(h as int, l) > r) == upper {
            find_value(rs, h, k)
        } else {
            None
        }),
    decreases rs.len(),
{
    if rs.len() > 0 {
        lemma_find_split(rs.drop_last(), l, r, upper, h, k);
        let t = split_part(rs.drop_last(), l, r, upper);
        lemma_find_push(t, rs.last(), h, k);
    }
}

/// A split half takes no more room than the whole.
pub proof fn lemma_split_fit(rs: Seq<RecordModel>, l: nat, r: int, upper: bool)
    requires
        all_encodable(rs),
    ensures
        all_encodable(split_part(rs, l, r, upper)),
        records_len(split_part(rs, l, r, upper)) <= records_len(rs),
    decreases rs.len(),
{
    if rs.len() > 0 {
        let d = rs.drop_last();
        assert(all_encodable(d)) by {
            assert forall|j: int| 0 <= j < d.len() implies record_encodable(#[trigger] d[j]) by {
                assert(d[j] == rs[j]);
            }
        }
        lemma_split_fit(d, l, r, upper);
        lemma_records_len_last(rs);
        let t = split_part(d, l, r, upper);
        lemma_records_len_push(t, rs.last());
        assert(record_encodable(rs[rs.len() - 1]));
        assert(all_encodable(t.push(rs.last()))) by {
            assert forall|j: int| 0 <= j < t.len() + 1 implies record_encodable(#[trigger] t.push(rs.last())[j]) by {
                if j < t.len() {
                    assert(t.push(rs.last())[j] == t[j]);
                }
            }
        }
    }
}

/// Room taken after replacing one record.
pub proof fn lemma_records_len_update(rs: Seq<RecordModel>, i: int, x: RecordModel)
    requires
        0 <= i < rs.len(),
    ensures
        records_len(rs.update(i, x)) + record_len(rs[i]) == records_len(rs) + record_len(x),
    decreases rs.len(),
{
    let u = rs.update(i, x);
    lemma_records_len_last(rs);
    lemma_records_len_last(u);
    if i == rs.len() - 1 {
        assert(u.drop_last() =~= rs.drop_last());
    } else {
        lemma_records_len_update(rs.drop_last(), i, x);
        assert(u.drop_last() =~= rs.drop_last().update(i, x));
    }
}

/// The records other than those stored under `h` and `k`, in their order.
pub open spec fn without_key(rs: Seq<RecordModel>, h: u64, k: Seq<u8>) -> Seq<RecordModel>
    decreases rs.len(),
{
    if rs.len() == 0 {
        Seq::empty()
    } else {
        let t = without_key(rs.drop_last(), h, k);
        if is_match(rs.last(), h, k) {
            t
        } else {
            t.push(rs.last())
        }
    }
}

/// Removing the records of one key hides that key and no other.
pub proof fn lemma_find_without(rs: Seq<RecordModel>, h: u64, k: Seq<u8>, h2: u64, k2: Seq<u8>)
    ensures
        find_value(without_key(rs, h, k), h2, k2) == (if h2 == h && k2 == k {
            None
        } else {
            find_value(rs, h2, k2)
        }),
    decreases rs.len(),
{
    if rs.len() > 0 {
        lemma_find_without(rs.drop_last(), h, k, h2, k2);
        let t = without_key(rs.drop_last(), h, k);
        lemma_find_push(t, rs.last(), h2, k2);
    }
}

/// Removing records takes no room.
pub proof fn lemma_without_fit(rs: Seq<RecordModel>, h: u64, k: Seq<u8>)
    requires
        all_encodable(rs),
    ensures
        all_encodable(without_key(rs, h, k)),
        records_len(without_key(rs, h, k)) <= records_len(rs),
    decreases rs.len(),
{
    if rs.len() > 0 {
        let d = rs.drop_last();
        assert(all_encodable(d)) by {
            assert forall|j: int| 0 <= j < d.len() implies record_encodable(#[trigger] d[j]) by {
                assert(d[j] == rs[j]);
            }
        }
        lemma_without_fit(d, h, k);
        lemma_records_len_last(rs);
        let t = without_key(d, h, k);
        lemma_records_len_push(t, rs.last());
        assert(record_encodable(rs[rs.len() - 1]));
        assert(all_encodable(t.push(rs.last()))) by {
            assert forall|j: int| 0 <= j < t.len() + 1 implies record_encodable(#[trigger] t.push(rs.last())[j]) by {
                if j < t.len() {
                    assert(t.push(rs.last())[j] == t[j]);
                }
            }
        }
    }
}

/// The records whose low `l` bits equal those of `h`, in their order.
pub open spec fn cap_part(rs: Seq<RecordModel>, l: nat, h: u64) -> Seq<RecordModel>
    decreases rs.len(),
{
    if rs.len() == 0 {
        Seq::empty()
    } else {
        let t = cap_part(rs.drop_last(), l, h);
        if low_bits(rs.last().0 as int, l) == low_bits(h as int, l) {
            t.push(rs.last())
        } else {
            t
        }
    }
}

/// Every record satisfies `p`.
pub open spec fn all_records(rs: Seq<RecordModel>, p: spec_fn(RecordModel) -> bool) -> bool {
    forall|i: int| 0 <= i < rs.len() ==> p(#[trigger] rs[i])
}

/// A split half keeps what held of every record, and each record in it is
/// on that half's side.
pub proof fn lemma_split_part_all(rs: Seq<RecordModel>, l: nat, r: int, upper: bool, p: spec_fn(RecordModel) -> bool)
    requires
        all_records(rs, p),
    ensures
        all_records(split_part(rs, l, r, upper), |x: RecordModel| p(x) && ((low_bits(x.0 as int, l) > r) == upper)),
    decreases rs.len(),
{
    if rs.len() > 0 {
        let d = rs.drop_last();
        assert(all_records(d, p)) by {
            assert forall|i: int| 0 <= i < d.len() implies p(#[trigger] d[i]) by {
                assert(d[i] == rs[i]);
            }
        }
        lemma_split_part_all(d, l, r, upper, p);
        let t = split_part(d, l, r, upper);
        assert(p(rs[rs.len() - 1]));
        let q = |x: RecordModel| p(x) && ((low_bits(x.0 as int, l) > r) == upper);
        if (low_bits(rs.last().0 as int, l) > r) == upper {
            assert forall|i: int| 0 <= i < t.push(rs.last()).len() implies q(#[trigger] t.push(rs.last())[i]) by {
                if i < t.len() {
                    assert(t.push(rs.last())[i] == t[i]);
                }
            }
        }
    }
}

/// Removing records keeps what held of every record.
pub proof fn lemma_without_all(rs: Seq<RecordModel>, h: u64, k: Seq<u8>, p: spec_fn(RecordModel) -> bool)
    requires
        all_records(rs, p),
    ensures
        all_records(without_key(rs, h, k), p),
    decreases rs.len(),
{
    if rs.len() > 0 {
        let d = rs.drop_last();
        assert(all_records(d, p)) by {
            assert forall|i: int| 0 <= i < d.len() implies p(#[trigger] d[i]) by {
                assert(d[i] == rs[i]);
            }
        }
        lemma_without_all(d, h, k, p);
        let t = without_key(d, h, k);
        assert(p(rs[rs.len() - 1]));
        assert forall|i: int| 0 <= i < t.push(rs.last()).len() implies p(#[trigger] t.push(rs.last())[i]) by {
            if i < t.len() {
                assert(t.push(rs.last())[i] == t[i]);
            }
        }
    }
}

/// The records that share `h`'s low `c` bits all fall on `h`'s side of a
/// split on fewer bits, so the split half of `h` keeps them all.
pub proof fn lemma_cap_part_split(rs: Seq<RecordModel>, l: nat, r: int, upper: bool, c: nat, h: u64)
    requires
        l <= c,
        (low_bits(h as int, l) > r) == upper,
    ensures
        cap_part(split_part(rs, l, r, upper), c, h) == cap_part(rs, c, h),
    decreases rs.len(),
{
    if rs.len() > 0 {
        let d = rs.drop_last();
        lemma_cap_part_split(d, l, r, upper, c, h);
        let x = rs.last();
        let t = split_part(d, l, r, upper);
        assert(t.push(x).drop_last() =~= t);
        crate::slots::lemma_low_bits_nest(x.0 as int, l, c);
        crate::slots::lemma_low_bits_nest(h as int, l, c);
    }
}

/// The records of `h`'s low bits take no more room than all of them.
pub proof fn lemma_cap_part_fit(rs: Seq<RecordModel>, l: nat, h: u64)
    ensures
        records_len(cap_part(rs, l, h)) <= records_len(rs),
    decreases rs.len(),
{
    if rs.len() > 0 {
        let d = rs.drop_last();
        lemma_cap_part_fit(d, l, h);
        lemma_records_len_last(rs);
        lemma_records_len_push(cap_part(d, l, h), rs.last());
    }
}

/// A lookup of `h` finds the same among the records of `h`'s low bits.
pub proof fn lemma_find_cap_part(rs: Seq<RecordModel>, l: nat, h: u64, k: Seq<u8>)
    ensures
        find_value(cap_part(rs, l, h), h, k) == find_value(rs, h, k),
    decreases rs.len(),
{
    if rs.len() > 0 {
        let d = rs.drop_last();
        lemma_find_cap_part(d, l, h, k);
        lemma_find_push(cap_part(d, l, h), rs.last(), h, k);
    }
}

/// Where every record shares `h`'s low bits, all of them are kept.
pub proof fn lemma_cap_part_all(rs: Seq<RecordModel>, l: nat, h: u64)
    requires
        forall|i: int| 0 <= i < rs.len() ==> low_bits((#[trigger] rs[i]).0 as int, l) == low_bits(h as int, l),
    ensures
        cap_part(rs, l, h) == rs,
    decreases rs.len(),
{
    if rs.len() > 0 {
        let d = rs.drop_last();
        assert forall|i: int| 0 <= i < d.len() implies low_bits((#[trigger] d[i]).0 as int, l) == low_bits(h as int, l) by {
            assert(d[i] == rs[i]);
        }
        lemma_cap_part_all(d, l, h);
        assert(rs[rs.len() - 1] == rs.last());
        assert(d.push(rs.last()) =~= rs);
    } else {
        assert(rs =~= Seq::<RecordModel>::empty());
    }
}

/// The record found takes no more room than all the records.
pub proof fn lemma_find_len(rs: Seq<RecordModel>, h: u64, k: Seq<u8>)
    ensures
        find_value(rs, h, k) is Some ==> 13 + k.len() + find_value(rs, h, k)->0.len() <= records_len(rs),
    decreases rs.len(),
{
    if rs.len() > 0 {
        let d = rs.drop_last();
        lemma_find_len(d, h, k);
        lemma_records_len_last(rs);
    }
}

/// No two records share both hash and key.
pub open spec fn keys_distinct(rs: Seq<RecordModel>) -> bool {
    forall|i: int, j: int|
        0 <= i < j < rs.len() ==> !is_match(#[trigger] rs[i], (#[trigger] rs[j]).0, rs[j].1)
}

/// Appending a record whose hash and key no record has keeps keys distinct.
pub proof fn lemma_distinct_push(rs: Seq<RecordModel>, x: RecordModel)
    requires
        keys_distinct(rs),
        forall|i: int| 0 <= i < rs.len() ==> !is_match(#[trigger] rs[i], x.0, x.1),
    ensures
        keys_distinct(rs.push(x)),
{
    let p = rs.push(x);
    assert forall|i: int, j: int| 0 <= i < j < p.len() implies !is_match(#[trigger] p[i], (#[trigger] p[j]).0, p[j].1) by {
        assert(p[i] == rs[i]);
        if j < rs.len() {
            assert(p[j] == rs[j]);
        }
    }
}

/// A split half keeps keys distinct.
pub proof fn lemma_distinct_split(rs: Seq<RecordModel>, l: nat, r: int, upper: bool)
    requires
        keys_distinct(rs),
    ensures
        keys_distinct(split_part(rs, l, r, upper)),
    decreases rs.len(),
{
    if rs.len() > 0 {
        let d = rs.drop_last();
        let x = rs.last();
        assert(keys_distinct(d)) by {
            assert forall|i: int, j: int| 0 <= i < j < d.len() implies !is_match(#[trigger] d[i], (#[trigger] d[j]).0, d[j].1) by {
                assert(d[i] == rs[i] && d[j] == rs[j]);
            }
        }
        lemma_distinct_split(d, l, r, upper);
        let t = split_part(d, l, r, upper);
        if (low_bits(x.0 as int, l) > r) == upper {
            let p = |y: RecordModel| !is_match(y, x.0, x.1);
            assert(all_records(d, p)) by {
                assert forall|i: int| 0 <= i < d.len() implies p(#[trigger] d[i]) by {
                    assert(d[i] == rs[i]);
                    assert(x == rs[rs.len() - 1]);
                }
            }
            lemma_split_part_all(d, l, r, upper, p);
            assert forall|i: int| 0 <= i < t.len() implies !is_match(#[trigger] t[i], x.0, x.1) by {
                let q = |y: RecordModel| p(y) && ((low_bits(y.0 as int, l) > r) == upper);
                assert(q(t[i]));
            }
            lemma_distinct_push(t, x);
        }
    }
}

/// Removing the records of a key keeps keys distinct.
pub proof fn lemma_distinct_without(rs: Seq<RecordModel>, h: u64, k: Seq<u8>)
    requires
        keys_distinct(rs),
    ensures
        keys_distinct(without_key(rs, h, k)),
    decreases rs.len(),
{
    if rs.len() > 0 {
        let d = rs.drop_last();
        let x = rs.last();
        assert(keys_distinct(d)) by {
            assert forall|i: int, j: int| 0 <= i < j < d.len() implies !is_match(#[trigger] d[i], (#[trigger] d[j]).0, d[j].1) by {
                assert(d[i] == rs[i] && d[j] == rs[j]);
            }
        }
        lemma_distinct_without(d, h, k);
        let t = without_key(d, h, k);
        if !is_match(x, h, k) {
            let p = |y: RecordModel| !is_match(y, x.0, x.1);
            assert(all_records(d, p)) by {
                assert forall|i: int| 0 <= i < d.len() implies p(#[trigger] d[i]) by {
                    assert(d[i] == rs[i]);
                    assert(x == rs[rs.len() - 1]);
                }
            }
            lemma_without_all(d, h, k, p);
            assert forall|i: int| 0 <= i < t.len() implies !is_match(#[trigger] t[i], x.0, x.1) by {
                assert(p(t[i]));
            }
            lemma_distinct_push(t, x);
        }
    }
}

/// A split parts the room that the records take.
pub proof fn lemma_split_sum(rs: Seq<RecordModel>, l: nat, r: int)
    ensures
        records_len(split_part(rs, l, r, false)) + records_len(split_part(rs, l, r, true)) == records_len(rs),
    decreases rs.len(),
{
    if rs.len() > 0 {
        let d = rs.drop_last();
        lemma_split_sum(d, l, r);
        lemma_records_len_last(rs);
        lemma_records_len_push(split_part(d, l, r, false), rs.last());
        lemma_records_len_push(split_part(d, l, r, true), rs.last());
    }
}

/// Whether two byte strings are equal.
pub fn bytes_equal(a: &[u8], b: &[u8]) -> (r: bool)
    ensures
        r == (a@ == b@),
{
    if a.len() != b.len() {
        return false;
    }
    let mut i: usize = 0;
    while i < a.len()
        invariant
            a@.len() == b@.len(),
            i <= a@.len(),
            forall|j: int| 0 <= j < i ==> a@[j] == b@[j],
        decreases a@.len() - i,
    {
        if a[i] != b[i] {
            return false;
        }
        i = i + 1;
    }
    assert(a@ =~= b@);
    true
}

/// A bucket: its position in the buckets file, its local level, the room
/// left in its page, and its records.
#[derive(Clone, Debug, PartialEq)]
pub struct Bucket {
    pub bucket_index: usize,
    pub level: u8,
    pub remaining_byte_space: usize,
    pub records: Vec<Record>,
}

impl Bucket {
    /// What the bucket's records hold.
    pub open spec fn model(&self) -> Seq<RecordModel> {
        records_model(self.records@)
    }

    /// The records fit the page and the room left is counted right.
    pub open spec fn wf(&self) -> bool {
        &&& records_fit(self.model())
        &&& self.remaining_byte_space == PAGE_RECORD_SPACE - records_len(self.model())
    }

    /// An empty bucket at the given position and level.
    pub fn empty(bucket_index: usize, level: u8) -> (r: Bucket)
        ensures
            r.wf(),
            r.bucket_index == bucket_index,
            r.level == level,
            r.model() == Seq::<RecordModel>::empty(),
    {
        let r = Bucket {
            bucket_index,
            level,
            remaining_byte_space: PAGE_RECORD_SPACE,
            records: Vec::new(),
        };
        assert(r.model() =~= Seq::<RecordModel>::empty());
        r
    }

    /// Position of the first record stored under `h` and `key`.
    pub fn find_record(&self, h: u64, key: &[u8]) -> (r: Option<usize>)
        ensures
            match r {
                Some(i) => {
                    &&& i < self.model().len()
                    &&& is_match(self.model()[i as int], h, key@)
                    &&& forall|j: int| 0 <= j < i ==> !is_match(#[trigger] self.model()[j], h, key@)
                },
                None => forall|j: int| 0 <= j < self.model().len() ==> !is_match(#[trigger] self.model()[j], h, key@),
            },
    {
        let mut i: usize = 0;
        while i < self.records.len()
            invariant
                i <= self.records@.len(),
                forall|j: int| 0 <= j < i ==> !is_match(#[trigger] self.model()[j], h, key@),
            decreases self.records@.len() - i,
        {
            let rec = &self.records[i];
            if rec.0 == h && bytes_equal(rec.1.as_slice(), key) {
                return Some(i);
            }
            i = i + 1;
        }
        None
    }

    /// Copies of the records, split by whether their low `l` bits exceed `r`:
    /// first those that do not, then those that do.
    pub fn split_records(&self, l: u8, r: u64) -> (res: (Vec<Record>, Vec<Record>))
        requires
            l < 64,
        ensures
            records_model(res.0@) == split_part(self.model(), l as nat, r as int, false),
            records_model(res.1@) == split_part(self.model(), l as nat, r as int, true),
    {
        let mut stay: Vec<Record> = Vec::new();
        let mut moved: Vec<Record> = Vec::new();
        let mut i: usize = 0;
        let ghost m = self.model();
        while i < self.records.len()
            invariant
                m == self.model(),
                l < 64,
                i <= self.records@.len(),
                records_model(stay@) == split_part(m.subrange(0, i as int), l as nat, r as int, false),
                records_model(moved@) == split_part(m.subrange(0, i as int), l as nat, r as int, true),
            decreases self.records@.len() - i,
        {
            let rec = self.records[i].clone_record();
            let ghost pre = m.subrange(0, i as int);
            assert(m.subrange(0, i + 1).drop_last() =~= pre);
            if low_bits_u64(rec.0, l) > r {
                moved.push(rec);
            } else {
                stay.push(rec);
            }
            i = i + 1;
            assert(records_model(stay@) =~= split_part(m.subrange(0, i as int), l as nat, r as int, false));
            assert(records_model(moved@) =~= split_part(m.subrange(0, i as int), l as nat, r as int, true));
        }
        assert(m.subrange(0, i as int) =~= m);
        (stay, moved)
    }

    /// Copies of the records, the one at `i` with its value replaced.
    pub fn records_with_value(&self, i: usize, value: &Vec<u8>) -> (res: Vec<Record>)
        requires
            i < self.records@.len(),
        ensures
            records_model(res@) == self.model().update(
                i as int,
                (self.model()[i as int].0, self.model()[i as int].1, value@),
            ),
    {
        let mut out: Vec<Record> = Vec::new();
        let mut j: usize = 0;
        let ghost m = self.model();
        let ghost x = (m[i as int].0, m[i as int].1, value@);
        while j < self.records.len()
            invariant
                m == self.model(),
                x == (m[i as int].0, m[i as int].1, value@),
                i < m.len(),
                j <= self.records@.len(),
                records_model(out@) == m.update(i as int, x).subrange(0, j as int),
            decreases self.records@.len() - j,
        {
            let rec = self.records[j].clone_record();
            let ghost prev = out@;
            assert(rec@ == m[j as int]);
            if j == i {
                let v = copy_range(value.as_slice(), 0, value.len());
                assert(value@.subrange(0, value@.len() as int) =~= value@);
                let nr = Record(rec.0, rec.1, v);
                assert(nr@ == x);
                out.push(nr);
                assert(records_model(out@) =~= records_model(prev).push(x));
            } else {
                out.push(rec);
                assert(records_model(out@) =~= records_model(prev).push(m[j as int]));
            }
            j = j + 1;
            assert(records_model(out@) =~= m.update(i as int, x).subrange(0, j as int));
        }
        assert(m.update(i as int, x).subrange(0, j as int) =~= m.update(i as int, x));
        out
    }

    /// Copies of the records with `rec` appended.
    pub fn records_with_pushed(&self, rec: Record) -> (res: Vec<Record>)
        ensures
            records_model(res@) == self.model().push(rec@),
    {
        let ghost rv = rec@;
        let mut out: Vec<Record> = Vec::new();
        let mut j: usize = 0;
        let ghost m = self.model();
        while j < self.records.len()
            invariant
                m == self.model(),
                j <= self.records@.len(),
                records_model(out@) == m.subrange(0, j as int),
            decreases self.records@.len() - j,
        {
            let rec = self.records[j].clone_record();
            let ghost prev = out@;
            assert(rec@ == m[j as int]);
            out.push(rec);
            assert(records_model(out@) =~= records_model(prev).push(m[j as int]));
            j = j + 1;
            assert(records_model(out@) =~= m.subrange(0, j as int));
        }
        let ghost prev = out@;
        let ghost rv = rec@;
        out.push(rec);
        assert(records_model(out@) =~= records_model(prev).push(rv));
        assert(records_model(out@) =~= m.push(rv));
        out
    }

    /// Copies of the records without those stored under `h` and `key`.
    pub fn records_without(&self, h: u64, key: &[u8]) -> (res: Vec<Record>)
        ensures
            records_model(res@) == without_key(self.model(), h, key@),
    {
        let mut out: Vec<Record> = Vec::new();
        let mut j: usize = 0;
        let ghost m = self.model();
        while j < self.records.len()
            invariant
                m == self.model(),
                j <= self.records@.len(),
                records_model(out@) == without_key(m.subrange(0, j as int), h, key@),
            decreases self.records@.len() - j,
        {
            let rec = self.records[j].clone_record();
            assert(m.subrange(0, j + 1).drop_last() =~= m.subrange(0, j as int));
            if !(rec.0 == h && bytes_equal(rec.1.as_slice(), key)) {
                out.push(rec);
            }
            j = j + 1;
            assert(records_model(out@) =~= without_key(m.subrange(0, j as int), h, key@));
        }
        assert(m.subrange(0, j as int) =~= m);
        out
    }

    /// Whether no two records share both hash and key.
    pub fn keys_are_distinct(&self) -> (r: bool)
        ensures
            r == keys_distinct(self.model()),
    {
        let n = self.records.len();
        let ghost m = self.model();
        let mut j: usize = 0;
        while j < n
            invariant
                n == m.len(),
                m == self.model(),
                j <= n,
                forall|a: int, b: int| 0 <= a < b < j ==> !is_match(#[trigger] m[a], (#[trigger] m[b]).0, m[b].1),
            decreases n - j,
        {
            let mut i: usize = 0;
            while i < j
                invariant
                    n == m.len(),
                    m == self.model(),
                    i <= j < n,
                    forall|a: int, b: int| 0 <= a < b < j ==> !is_match(#[trigger] m[a], (#[trigger] m[b]).0, m[b].1),
                    forall|a: int| 0 <= a < i ==> !is_match(#[trigger] m[a], m[j as int].0, m[j as int].1),
                decreases j - i,
            {
                let x = &self.records[i];
                let y = &self.records[j];
                if x.0 == y.0 && bytes_equal(x.1.as_slice(), y.1.as_slice()) {
                    assert(m[i as int] == x@ && m[j as int] == y@);
                    assert(is_match(m[i as int], m[j as int].0, m[j as int].1));
                    return false;
                }
                i = i + 1;
            }
            j = j + 1;
        }
        true
    }

    /// The room taken by the records that share `h`'s low `c` bits, and
    /// the length of the first of them stored under `h` and `key` (0 if none).
    pub fn cap_room(&self, c: u8, h: u64, key: &[u8]) -> (r: (usize, usize))
        requires
            self.wf(),
            c < 64,
        ensures
            r.0 == records_len(cap_part(self.model(), c as nat, h)),
            r.1 == (match find_value(cap_part(self.model(), c as nat, h), h, key@) {
                Some(v) => 13 + key@.len() + v.len(),
                None => 0,
            }),
            r.1 <= r.0,
    {
        let ghost m = self.model();
        let hc = low_bits_u64(h, c);
        let mut total: usize = 0;
        let mut i: usize = 0;
        while i < self.records.len()
            invariant
                m == self.model(),
                self.wf(),
                c < 64,
                hc == low_bits(h as int, c as nat),
                i <= m.len(),
                total == records_len(cap_part(m.subrange(0, i as int), c as nat, h)),
            decreases m.len() - i,
        {
            let ghost pre = m.subrange(0, i as int);
            assert(m.subrange(0, i + 1).drop_last() =~= pre);
            proof {
                lemma_records_len_push(cap_part(pre, c as nat, h), m[i as int]);
                lemma_cap_part_fit(m.subrange(0, i + 1), c as nat, h);
                lemma_records_len_prefix(m, i + 1);
                assert(record_encodable(m[i as int]));
            }
            let rec = &self.records[i];
            if low_bits_u64(rec.0, c) == hc {
                total = total + rec.byte_len();
            }
            i = i + 1;
        }
        assert(m.subrange(0, i as int) =~= m);
        proof {
            lemma_find_cap_part(m, c as nat, h, key@);
            lemma_find_len(cap_part(m, c as nat, h), h, key@);
        }
        match self.find_record(h, key) {
            Some(i) => {
                proof {
                    lemma_find_first(m, h, key@, i as int);
                    assert(record_encodable(m[i as int]));
                }
                let rec = &self.records[i];
                (total, rec.byte_len())
            },
            None => {
                proof {
                    lemma_find_none(m, h, key@);
                }
                (total, 0)
            },
        }
    }

    /// Recounts the room left in the page from the records.
    pub fn update_remaining_byte_count(&mut self)
        requires
            records_fit(old(self).model()),
        ensures
            final(self).wf(),
            final(self).records == old(self).records,
            final(self).level == old(self).level,
            final(self).bucket_index == old(self).bucket_index,
    {
        let mut total: usize = 0;
        let mut i: usize = 0;
        let ghost m = self.model();
        while i < self.records.len()
            invariant
                m == self.model(),
                records_fit(m),
                i <= self.records@.len(),
                total == records_len(m.subrange(0, i as int)),
            decreases self.records@.len() - i,
        {
            proof {
                lemma_records_len_push(m.subrange(0, i as int), m[i as int]);
                assert(m.subrange(0, i as int).push(m[i as int]) =~= m.subrange(0, i + 1));
                lemma_records_len_prefix(m, i + 1);
                assert(record_encodable(m[i as int]));
            }
            total = total + self.records[i].byte_len();
            i = i + 1;
        }
        assert(m.subrange(0, i as int) =~= m);
        self.remaining_byte_space = PAGE_RECORD_SPACE - total;
    }

    /// Writes the bucket as a page.
    pub fn to_page(&self) -> (r: Vec<u8>)
        requires
            self.wf(),
        ensures
            r@ == page_bytes(self.level, self.model()),
    {
        let ghost m = self.model();
        let mut out: Vec<u8> = Vec::new();
        out.push(self.level);
        let mut i: usize = 0;
        while i < self.records.len()
            invariant
                m == self.model(),
                records_fit(m),
                i <= self.records@.len(),
                out@ == seq![self.level] + records_bytes(m.subrange(0, i as int)),
            decreases self.records@.len() - i,
        {
            proof {
                lemma_records_len_push(m.subrange(0, i as int), m[i as int]);
                assert(m.subrange(0, i as int).push(m[i as int]) =~= m.subrange(0, i + 1));
            }
            let bytes = self.records[i].clone_record().into_bytes();
            append_bytes(&mut out, bytes.as_slice());
            i = i + 1;
            assert(out@ =~= seq![self.level] + records_bytes(m.subrange(0, i as int)));
        }
        assert(m.subrange(0, i as int) =~= m);
        proof {
            lemma_records_bytes_len(m);
        }
        while out.len() < PAGE_BYTES
            invariant
                out@.len() <= PAGE_BYTES,
                out@.len() >= 1 + records_len(m),
                out@.subrange(0, 1 + records_len(m) as int) == seq![self.level] + records_bytes(m),
                forall|k: int| 1 + records_len(m) <= k < out@.len() ==> out@[k] == 0,
            decreases PAGE_BYTES - out@.len(),
        {
            let ghost prev = out@;
            out.push(0);
            assert(out@.subrange(0, 1 + records_len(m) as int) =~= prev.subrange(0, 1 + records_len(m) as int));
        }
        assert(out@ =~= page_bytes(self.level, m));
        out
    }

    /// Reads a bucket from its page.
    pub fn from_bytes(page: &[u8], bucket_index: usize) -> (r: Result<Bucket, ()>)
        ensures
            match r {
                Ok(b) => {
                    &&& b.wf()
                    &&& parse_page(page@) == Some((b.level, b.model()))
                    &&& b.bucket_index == bucket_index
                },
                Err(_) => parse_page(page@) is None,
            },
    {
        if page.len() != PAGE_BYTES {
            return Err(());
        }
        let level = page[0];
        let mut records: Vec<Record> = Vec::new();
        let mut pos: usize = 1;
        let ghost s = page@;
        while pos < page.len()
            invariant
                s == page@,
                s.len() == PAGE_BYTES,
                1 <= pos <= s.len(),
                match parse_records(s, pos as int) {
                    Some(t) => parse_records(s, 1) == Some(records_model(records@) + t),
                    None => parse_records(s, 1) is None,
                },
            decreases s.len() - pos,
        {
            if page[pos] == 0 {
                pos = pos + 1;
            } else {
                match Record::from_bytes(page, pos) {
                    Ok((rec, next)) => {
                        let ghost before = records_model(records@);
                        records.push(rec);
                        proof {
                            assert(records_model(records@) =~= before.push(rec@));
                            match parse_records(s, next as int) {
                                Some(t) => {
                                    assert(before + (seq![rec@] + t) =~= before.push(rec@) + t);
                                },
                                None => {},
                            }
                        }
                        pos = next;
                    },
                    Err(_) => {
                        return Err(());
                    },
                }
            }
        }
        assert(records_model(records@) + Seq::<RecordModel>::empty() =~= records_model(records@));
        proof {
            lemma_parse_records_fit(s, 1);
        }
        let mut b = Bucket { bucket_index, level, remaining_byte_space: 0, records };
        b.update_remaining_byte_count();
        Ok(b)
    }
}

pub proof fn lemma_records_len_prefix(m: Seq<RecordModel>, i: int)
    requires
        0 <= i <= m.len(),
    ensures
        records_len(m.subrange(0, i)) <= records_len(m),
    decreases m.len() - i,
{
    if i == m.len() {
        assert(m.subrange(0, i) =~= m);
    } else {
        lemma_records_len_prefix(m, i + 1);
        lemma_records_len_push(m.subrange(0, i), m[i]);
        assert(m.subrange(0, i).push(m[i]) =~= m.subrange(0, i + 1));
    }
}


} // verus!
