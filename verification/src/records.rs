//! What the sizes of items, points and chunks stand for.

use crate::chunk_table::entry_of;
use crate::chunking::chunked;
use crate::vlr::{total_size, LazItem, LazItemType, VlrView, DEFAULT_CHUNK_SIZE};
use vstd::prelude::*;

verus! {

/// The number of bytes that each kind of item takes in a point.
pub proof fn law_item_sizes(n: u16)
    ensures
        LazItemType::Byte(n).spec_size() == n,
        LazItemType::Point10.spec_size() == 20,
        LazItemType::GpsTime.spec_size() == 8,
        LazItemType::RGB12.spec_size() == 6,
        LazItemType::WavePacket13.spec_size() == 29,
        LazItemType::Point14.spec_size() == 30,
        LazItemType::RGB14.spec_size() == 6,
        LazItemType::RGBNIR14.spec_size() == 8,
        LazItemType::WavePacket14.spec_size() == 29,
        LazItemType::Byte14(n).spec_size() == n,
{
}

/// A point of one item takes the bytes of that item, and one without items takes none.
pub proof fn law_size_of_one_item(item: LazItem)
    ensures
        total_size(seq![item]) == item.item_type.spec_size(),
        total_size(Seq::<LazItem>::empty()) == 0,
{
    reveal_with_fuel(total_size, 2);
    assert(seq![item].drop_last() =~= Seq::<LazItem>::empty());
}

/// The items of a point take their bytes one behind the other: neither does a byte stand between
/// them, nor do two of them share one.
pub proof fn law_sizes_add(a: Seq<LazItem>, b: Seq<LazItem>)
    ensures
        total_size(a + b) == total_size(a) + total_size(b),
    decreases b.len(),
{
    if b.len() == 0 {
        assert(a + b =~= a);
    } else {
        law_sizes_add(a, b.drop_last());
        assert((a + b).drop_last() =~= a + b.drop_last());
        assert((a + b).last() == b.last());
    }
}

/// A point of the extended core and of `n` extra bytes takes 30 bytes and `n`; one of the legacy
/// core, the GPS time and `n` extra bytes takes 28 and `n`.
pub proof fn law_sizes_with_extra_bytes(n: u16)
    ensures
        total_size(
            seq![
                LazItem { item_type: LazItemType::Point14 },
                LazItem { item_type: LazItemType::Byte14(n) },
            ],
        ) == 30 + n,
        total_size(
            seq![
                LazItem { item_type: LazItemType::Point10 },
                LazItem { item_type: LazItemType::GpsTime },
                LazItem { item_type: LazItemType::Byte(n) },
            ],
        ) == 28 + n,
{
    let core = LazItem { item_type: LazItemType::Point14 };
    let extra = LazItem { item_type: LazItemType::Byte14(n) };
    law_size_of_one_item(core);
    law_size_of_one_item(extra);
    law_sizes_add(seq![core], seq![extra]);
    assert(seq![core] + seq![extra] =~= seq![core, extra]);
    let a = LazItem { item_type: LazItemType::Point10 };
    let b = LazItem { item_type: LazItemType::GpsTime };
    let c = LazItem { item_type: LazItemType::Byte(n) };
    law_size_of_one_item(a);
    law_size_of_one_item(b);
    law_size_of_one_item(c);
    law_sizes_add(seq![a], seq![b]);
    assert(seq![a] + seq![b] =~= seq![a, b]);
    law_sizes_add(seq![a, b], seq![c]);
    assert(seq![a, b] + seq![c] =~= seq![a, b, c]);
}

/// A chunk of a fixed size takes the bytes of as many points as the description says; the largest
/// number stands for chunks of a size of their own, and 50000 is taken where none is given.
pub proof fn law_description(vlr: VlrView)
    ensures
        vlr.point_size() == total_size(vlr.items),
        vlr.chunk_bytes() == vlr.chunk_size * total_size(vlr.items),
        vlr.variable() <==> vlr.chunk_size == u32::MAX,
        DEFAULT_CHUNK_SIZE == 50_000,
{
}

/// `fields` are those of one point: one for each item, of the bytes that the item takes.
pub open spec fn is_record(items: Seq<LazItem>, fields: Seq<Seq<u8>>) -> bool {
    &&& fields.len() == items.len()
    &&& forall|i: int|
        0 <= i < items.len() ==> (#[trigger] fields[i]).len() == items[i].item_type.spec_size()
}

/// All of `records` are points of `items`.
pub open spec fn are_records(items: Seq<LazItem>, records: Seq<Seq<Seq<u8>>>) -> bool {
    forall|j: int| 0 <= j < records.len() ==> is_record(items, #[trigger] records[j])
}

/// The bytes of points, field behind field and point behind point.
pub open spec fn points_of(records: Seq<Seq<Seq<u8>>>) -> Seq<u8> {
    records.flatten().flatten()
}

/// The fields of a point take the bytes of its items.
proof fn lemma_record_len(items: Seq<LazItem>, fields: Seq<Seq<u8>>)
    requires
        is_record(items, fields),
    ensures
        fields.flatten().len() == total_size(items),
    decreases items.len(),
{
    if items.len() > 0 {
        let front = fields.drop_last();
        assert(is_record(items.drop_last(), front)) by {
            assert forall|i: int| 0 <= i < items.len() - 1 implies (#[trigger] front[i]).len()
                == items.drop_last()[i].item_type.spec_size() by {
                assert(front[i] == fields[i]);
            }
        }
        lemma_record_len(items.drop_last(), front);
        front.lemma_flatten_push(fields.last());
        assert(front.push(fields.last()) =~= fields);
        assert(fields[items.len() - 1].len() == items.last().item_type.spec_size());
    }
}

/// The bytes of points, and of points behind them.
proof fn lemma_points_of_append(a: Seq<Seq<Seq<u8>>>, b: Seq<Seq<Seq<u8>>>)
    ensures
        points_of(a + b) == points_of(a) + points_of(b),
{
    vstd::seq_lib::lemma_flatten_concat(a, b);
    vstd::seq_lib::lemma_flatten_concat(a.flatten(), b.flatten());
}

/// Points take as many bytes as there are points, times the size of one.
pub proof fn law_size_of_points(items: Seq<LazItem>, records: Seq<Seq<Seq<u8>>>)
    requires
        are_records(items, records),
    ensures
        points_of(records).len() == records.len() * total_size(items),
    decreases records.len(),
{
    let p = total_size(items);
    if records.len() > 0 {
        let front = records.drop_last();
        let last = records.last();
        assert(is_record(items, records[records.len() - 1]));
        assert forall|j: int| 0 <= j < front.len() implies is_record(
            items,
            #[trigger] front[j],
        ) by {
            assert(front[j] == records[j]);
        }
        law_size_of_points(items, front);
        lemma_points_of_append(front, seq![last]);
        assert(front + seq![last] =~= records);
        seq![last].lemma_flatten_singleton();
        lemma_record_len(items, last);
        let n = front.len();
        assert((n + 1) * p == n * p + p) by (nonlinear_arith);
    } else {
        assert(0 * p == 0) by (nonlinear_arith);
    }
}

/// The points from `a` to `b` stand where their numbers, times the size of one, say.
proof fn lemma_points_between(items: Seq<LazItem>, records: Seq<Seq<Seq<u8>>>, a: int, b: int)
    requires
        are_records(items, records),
        0 <= a <= b <= records.len(),
    ensures
        0 <= a * total_size(items) <= b * total_size(items) <= points_of(records).len(),
        points_of(records).subrange(a * total_size(items), b * total_size(items)) == points_of(
            records.subrange(a, b),
        ),
{
    let p = total_size(items);
    let before = records.subrange(0, a);
    let between = records.subrange(a, b);
    let behind = records.subrange(b, records.len() as int);
    assert forall|j: int| 0 <= j < before.len() implies is_record(items, #[trigger] before[j]) by {
        assert(is_record(items, records[j]));
    }
    assert forall|j: int| 0 <= j < between.len() implies is_record(
        items,
        #[trigger] between[j],
    ) by {
        assert(is_record(items, records[a + j]));
    }
    law_size_of_points(items, before);
    law_size_of_points(items, between);
    lemma_points_of_append(before, between);
    lemma_points_of_append(before + between, behind);
    assert(before + between + behind =~= records);
    assert(a * p + (b - a) * p == b * p) by (nonlinear_arith);
    assert(0 <= a * p) by (nonlinear_arith)
        requires
            0 <= a,
            0 <= p,
    ;
    assert(0 <= (b - a) * p) by (nonlinear_arith)
        requires
            a <= b,
            0 <= p,
    ;
    assert(points_of(records).subrange(a * p, b * p) =~= points_of(between));
}

/// Chunks of a size of their own: the entry of a chunk counts its points.
pub proof fn law_points_are_counted(vlr: VlrView, records: Seq<Seq<Seq<u8>>>, byte_count: nat)
    requires
        vlr.variable(),
        vlr.point_size() > 0,
        are_records(vlr.items, records),
        records.len() <= u64::MAX,
    ensures
        entry_of(vlr, points_of(records).len(), byte_count).point_count == records.len(),
{
    law_size_of_points(vlr.items, records);
    let p = vlr.point_size() as int;
    let n = records.len() as int;
    vstd::arithmetic::div_mod::lemma_div_multiples_vanish(n, p);
    assert(n * p == p * n) by (nonlinear_arith);
}

/// Chunks of a fixed size: there are as many as it takes, and the one at `k` holds the points from
/// `k` times the chunk size on, as many as the chunk size says or as there are. No point is torn.
pub proof fn law_chunks_hold_whole_points(
    vlr: VlrView,
    records: Seq<Seq<Seq<u8>>>,
    k: int,
)
    requires
        vlr.chunk_size > 0,
        vlr.point_size() > 0,
        are_records(vlr.items, records),
        0 <= k * vlr.chunk_size < records.len(),
        0 <= k,
    ensures
        ({
            let chunks = chunked(points_of(records), vlr.chunk_bytes());
            let n = records.len() as int;
            let c = vlr.chunk_size as int;
            &&& chunks.len() == (n + c - 1) / c
            &&& k < chunks.len()
            &&& chunks[k] == points_of(
                records.subrange(
                    k * c,
                    if (k + 1) * c < n {
                        (k + 1) * c
                    } else {
                        n
                    },
                ),
            )
        }),
{
    let p = vlr.point_size() as int;
    let c = vlr.chunk_size as int;
    let n = records.len() as int;
    let size = vlr.chunk_bytes() as int;
    let points = points_of(records);
    law_size_of_points(vlr.items, records);
    assert(size == c * p);
    assert(size > 0) by (nonlinear_arith)
        requires
            size == c * p,
            c > 0,
            p > 0,
    ;
    let q = (n + c - 1) / c;
    vstd::arithmetic::div_mod::lemma_fundamental_div_mod(n + c - 1, c);
    let r = (n + c - 1) % c;
    vstd::arithmetic::div_mod::lemma_mod_bound(n + c - 1, c);
    // n == c * (q - 1) + r + 1, where r + 1 is between 1 and c
    assert(points.len() + size - 1 == size * q + ((r + 1) * p - 1)) by (nonlinear_arith)
        requires
            points.len() == n * p,
            size == c * p,
            n + c - 1 == c * q + r,
    ;
    assert(0 <= (r + 1) * p - 1 < size) by (nonlinear_arith)
        requires
            0 <= r < c,
            p > 0,
            size == c * p,
    ;
    vstd::arithmetic::div_mod::lemma_fundamental_div_mod_converse(
        points.len() + size - 1,
        size,
        q,
        (r + 1) * p - 1,
    );
    assert(k < q) by (nonlinear_arith)
        requires
            k * c < n,
            n + c - 1 == c * q + r,
            0 <= r < c,
            c > 0,
    ;
    let end = if (k + 1) * c < n {
        (k + 1) * c
    } else {
        n
    };
    assert((k + 1) * c == k * c + c) by (nonlinear_arith);
    lemma_points_between(vlr.items, records, k * c, end);
    assert(k * size == (k * c) * p) by (nonlinear_arith)
        requires
            size == c * p,
    ;
    assert((k + 1) * size == ((k + 1) * c) * p) by (nonlinear_arith)
        requires
            size == c * p,
    ;
    if (k + 1) * c < n {
        assert(((k + 1) * c) * p < n * p) by (nonlinear_arith)
            requires
                (k + 1) * c < n,
                p > 0,
        ;
    } else {
        assert(((k + 1) * c) * p >= n * p) by (nonlinear_arith)
            requires
                (k + 1) * c >= n,
                p > 0,
        ;
    }
}

} // verus!
