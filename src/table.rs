//! A table held in memory: its schema, ledger, pages and indexes, and the
//! operations that keep them consistent. Loading and storing the table's files
//! is the caller's part.
use crate::dbtype::{
    decoded_record, field_offset, lemma_encoding_len, lemma_record_width_monotone, record_encoding,
    record_view, record_width, Type, ValueModel,
};
use crate::engine::{
    index_records,
    bytes_at, field_shapes, field_values, find_slot, is_live, plan_insert, position_of,
    positions_holding, positions_sorted, records_at, repeats_key, resolve, selected, slot_of,
    slots_for, slots_per_page, conforms, lemma_first_slot_exists, lemma_first_slot_unique,
    lemma_slot_offset, is_indexed, has_field, unindex_records, lemma_inserted_position_listed,
    lemma_deleted_position_unlisted, indexes_consistent, scan_match, readable_at, lemma_cell_slot,
    lemma_conforming_width, lemma_slot_cell, lemma_index_agrees_with_scan, scanned, lemma_slots_partition,
};
use crate::dbtype::{lemma_decoded_prefix_pub, lemma_record_round_trip, lemma_same_shapes, record_readable};
use crate::ledger::{capacity, free_after_growth, slot_lt};
use crate::error::DbError;
use crate::filters::{Filter, FilterOption};
use crate::free_space::FreeSpace;
use crate::index::{without, Index};
use crate::ledger::{allocated, covers, initial_ledger, ledger_wf, reclaim};
use crate::position::DataPosition;
use crate::table_metadata::{shapes_of, TableMetadata, PAGE_SIZE_BYTES};
use crate::bytes::{le_bytes, le_value, lemma_le_value_bound, lemma_pow256_values, push_le, read_le};
use vstd::prelude::*;

verus! {

/// The positions of the given slots.
pub open spec fn positions_of_slots(cells: Seq<(u16, u16)>, rs: nat) -> Seq<DataPosition> {
    cells.map_values(|c: (u16, u16)| position_of(c, rs))
}

/// A table: its schema, its free-space ledger, its page count, the bytes of
/// each page and one index per indexed field (in the schema's order).
pub struct Table {
    pub metadata: TableMetadata,
    pub ledger: Vec<FreeSpace>,
    pub pages: u64,
    pub page_bytes: Vec<Vec<u8>>,
    pub indexes: Vec<Index>,
}

/// `after` is `before` with the batch `records` placed at the slots `cells`:
/// the ledger and page count are what taking those slots gives, each record's
/// bytes stand at its position, and every index lists each new position
/// under the record's value of the indexed field, after what it listed.
pub open spec fn inserted(before: Table, after: Table, records: Seq<Vec<Type>>, cells: Seq<(u16, u16)>) -> bool {
    let rs = before.metadata.spec_record_size() as nat;
    let positions = positions_of_slots(cells, rs);
    &&& allocated(
        before.ledger@,
        before.pages as nat,
        slots_for(rs),
        records.len() as nat,
        after.ledger@,
        after.pages as nat,
        cells,
    )
    &&& forall|i: int|
        0 <= i < records.len() ==> #[trigger] after.page_bytes@[cells[i].0 as int]@.subrange(
            positions[i].cell as int,
            positions[i].cell + rs,
        ) == record_encoding(records[i]@)
    &&& forall|pos: DataPosition|
        #[trigger] is_live(before.ledger@, before.pages as nat, rs, pos) ==> after.page_bytes@[pos.page as int]@.subrange(
            pos.cell as int,
            pos.cell + rs,
        ) == before.page_bytes@[pos.page as int]@.subrange(pos.cell as int, pos.cell + rs)
    &&& forall|k: int, w: ValueModel|
        0 <= k < after.indexes@.len() ==> #[trigger] after.indexes@[k].lookup(w) == before.indexes@[k].lookup(w)
            + positions_holding(field_values(records, before.metadata.spec_indexes()[k] as int), positions, w)
}

/// `ps` are the positions the filters select in `t`, in order, and `recs`
/// the records read there.
pub open spec fn found(t: Table, filters: Seq<FilterOption>, ps: Seq<DataPosition>, recs: Seq<Vec<Type>>) -> bool {
    &&& positions_sorted(ps)
    &&& forall|pos: DataPosition| #[trigger] ps.contains(pos) <==> selected(
        t.metadata,
        t.ledger@,
        t.pages as nat,
        t.indexes@,
        t.page_bytes@,
        filters,
        pos,
    )
    &&& recs.len() == ps.len()
    &&& forall|i: int| 0 <= i < ps.len() ==> readable_at(t.page_bytes@, shapes_of(t.metadata.spec_fields()), #[trigger] ps[i])
    &&& forall|i: int|
        0 <= i < ps.len() ==> record_view((#[trigger] recs[i])@) == decoded_record(
            shapes_of(t.metadata.spec_fields()),
            bytes_at(t.page_bytes@, ps[i]),
        )
}

/// The slot of a position.
pub open spec fn slot_at(pos: DataPosition, rs: nat) -> (u16, u16) {
    (pos.page as u16, (pos.cell as nat / rs) as u16)
}

/// `after` is `before` without the records `recs` at the positions `ps` the
/// filters select: their slots are free, no index lists their positions under
/// their values any more, and nothing else changes.
pub open spec fn removed(
    before: Table,
    after: Table,
    filters: Seq<FilterOption>,
    ps: Seq<DataPosition>,
    recs: Seq<Vec<Type>>,
) -> bool {
    let rs = before.metadata.spec_record_size() as nat;
    &&& found(before, filters, ps, recs)
    &&& after.metadata == before.metadata
    &&& after.pages == before.pages
    &&& after.page_bytes == before.page_bytes
    &&& forall|q: int, s: int|
        #[trigger] covers(after.ledger@, q, s) <==> (covers(before.ledger@, q, s) || (0 <= q < 65536 && 0 <= s
            < 65536 && ps.map_values(|p: DataPosition| slot_at(p, rs)).contains((q as u16, s as u16))))
    &&& forall|k: int, w: ValueModel|
        0 <= k < after.indexes@.len() ==> #[trigger] after.indexes@[k].lookup(w) == if field_values(
            recs,
            before.metadata.spec_indexes()[k] as int,
        ).contains(w) {
            without(before.indexes@[k].lookup(w), ps)
        } else {
            before.indexes@[k].lookup(w)
        }
}

/// After an insertion, every index lists each new record's position under the
/// record's value of the indexed field.
pub proof fn lemma_insert_keeps_indexes(
    before: Table,
    after: Table,
    records: Seq<Vec<Type>>,
    cells: Seq<(u16, u16)>,
    k: int,
    i: int,
)
    requires
        inserted(before, after, records, cells),
        0 <= k < after.indexes@.len(),
        0 <= i < records.len(),
    ensures
        after.indexes@[k].lookup(records[i]@[before.metadata.spec_indexes()[k] as int]@).contains(
            positions_of_slots(cells, before.metadata.spec_record_size() as nat)[i],
        ),
{
    let rs = before.metadata.spec_record_size() as nat;
    let field = before.metadata.spec_indexes()[k] as int;
    let positions = positions_of_slots(cells, rs);
    assert(cells.len() == records.len());
    assert forall|w: ValueModel| #[trigger] after.indexes@[k].lookup(w) == before.indexes@[k].lookup(w)
        + positions_holding(field_values(records, field), positions, w) by {
    }
    lemma_inserted_position_listed(before.indexes@[k], after.indexes@[k], records, field, positions, i);
}

/// After a deletion, no index lists a deleted position under the deleted
/// record's value of the indexed field.
pub proof fn lemma_delete_unlists_positions(
    before: Table,
    after: Table,
    filters: Seq<FilterOption>,
    ps: Seq<DataPosition>,
    recs: Seq<Vec<Type>>,
    k: int,
    i: int,
)
    requires
        removed(before, after, filters, ps, recs),
        0 <= k < after.indexes@.len(),
        0 <= i < ps.len(),
    ensures
        !after.indexes@[k].lookup(recs[i]@[before.metadata.spec_indexes()[k] as int]@).contains(ps[i]),
{
    let field = before.metadata.spec_indexes()[k] as int;
    let w = recs[i]@[field]@;
    let values = field_values(recs, field);
    assert(values[i] == w);
    assert(values.contains(w));
    assert(ps.contains(ps[i]));
    lemma_deleted_position_unlisted(before.indexes@[k].lookup(w), ps, ps[i]);
}

/// `w` with the bytes from `off` on replaced by `bytes`.
pub open spec fn patched(w: Seq<u8>, off: nat, bytes: Seq<u8>) -> Seq<u8> {
    w.take(off as int) + bytes + w.skip((off + bytes.len()) as int)
}

/// `after` is `before` with field `field` of the records `recs` at the
/// positions `ps` the filters select set to `value`: the value's bytes stand
/// at that field of each record, the indexes of the field list the positions
/// under `value` instead of under the old values, and nothing else changes.
pub open spec fn changed(
    before: Table,
    after: Table,
    filters: Seq<FilterOption>,
    field: int,
    value: Type,
    ps: Seq<DataPosition>,
    recs: Seq<Vec<Type>>,
) -> bool {
    let shapes = shapes_of(before.metadata.spec_fields());
    let off = field_offset(shapes, field);
    &&& found(before, filters, ps, recs)
    &&& after.metadata == before.metadata
    &&& after.pages == before.pages
    &&& after.ledger == before.ledger
    &&& after.page_bytes@.len() == before.page_bytes@.len()
    &&& forall|p: int| 0 <= p < after.page_bytes@.len() ==> (#[trigger] after.page_bytes@[p])@.len() == before.page_bytes@[p]@.len()
    &&& forall|i: int|
        0 <= i < ps.len() ==> #[trigger] after.page_bytes@[ps[i].page as int]@.subrange(
            ps[i].cell + off,
            ps[i].cell + off + value.width(),
        ) == value.encoding()
    &&& forall|pos: DataPosition|
        #[trigger] is_live(before.ledger@, before.pages as nat, before.metadata.spec_record_size() as nat, pos)
            ==> window(after.page_bytes@, pos, before.metadata.spec_record_size() as nat) == if ps.contains(pos) {
            patched(window(before.page_bytes@, pos, before.metadata.spec_record_size() as nat), off, value.encoding())
        } else {
            window(before.page_bytes@, pos, before.metadata.spec_record_size() as nat)
        }
    &&& forall|k: int, w: ValueModel|
        0 <= k < after.indexes@.len() ==> #[trigger] after.indexes@[k].lookup(w) == if before.metadata.spec_indexes()[k]
            == field {
            (if field_values(recs, field).contains(w) {
                without(before.indexes@[k].lookup(w), ps)
            } else {
                before.indexes@[k].lookup(w)
            }) + (if w == value@ {
                ps
            } else {
                Seq::empty()
            })
        } else {
            before.indexes@[k].lookup(w)
        }
}

/// Where field `fi` starts within a record of these shapes.
fn offset_of(shapes: &[Type], fi: usize) -> (r: usize)
    requires
        fi <= shapes@.len(),
        record_width(shapes@) <= 4096,
    ensures
        r == field_offset(shapes@, fi as int),
{
    let mut total: usize = 0;
    let mut i: usize = 0;
    assert(shapes@.take(0) =~= Seq::<Type>::empty());
    while i < fi
        invariant
            i <= fi <= shapes@.len(),
            record_width(shapes@) <= 4096,
            total == record_width(shapes@.take(i as int)),
        decreases fi - i,
    {
        proof {
            assert(shapes@.take(i + 1).drop_last() =~= shapes@.take(i as int));
            lemma_record_width_monotone(shapes@, i + 1);
        }
        total = total + shapes[i].size() as usize;
        i = i + 1;
    }
    total
}

/// Two answers to one selection have the same positions.
proof fn lemma_same_selection(
    t: Table,
    filters: Seq<FilterOption>,
    ps: Seq<DataPosition>,
    recs: Seq<Vec<Type>>,
    ps2: Seq<DataPosition>,
    recs2: Seq<Vec<Type>>,
)
    requires
        found(t, filters, ps, recs),
        found(t, filters, ps2, recs2),
    ensures
        ps.len() <= 1 ==> ps2.len() <= 1,
        forall|q: DataPosition| ps.contains(q) <==> ps2.contains(q),
{
    assert forall|q: DataPosition| ps.contains(q) <==> ps2.contains(q) by {
    }
    if ps.len() <= 1 && ps2.len() > 1 {
        assert(ps2.contains(ps2[0]) && ps2.contains(ps2[1]));
        assert(crate::engine::pos_lt(ps2[0], ps2[1]));
        let a = choose|a: int| 0 <= a < ps.len() && ps[a] == ps2[0];
        let b = choose|b: int| 0 <= b < ps.len() && ps[b] == ps2[1];
    }
}

/// The window of a record: its `rs` bytes on its page.
pub open spec fn window(page_bytes: Seq<Vec<u8>>, pos: DataPosition, rs: nat) -> Seq<u8> {
    page_bytes[pos.page as int]@.subrange(pos.cell as int, pos.cell + rs)
}

proof fn lemma_field_prefix(shapes: Seq<Type>, b1: Seq<u8>, b2: Seq<u8>, i: int)
    requires
        0 <= i < shapes.len(),
        b1.len() >= record_width(shapes),
        b2.len() >= record_width(shapes),
        b1.take(record_width(shapes) as int) == b2.take(record_width(shapes) as int),
    ensures
        shapes[i].readable(b1.skip(field_offset(shapes, i) as int)) == shapes[i].readable(
            b2.skip(field_offset(shapes, i) as int),
        ),
        shapes[i].decoded(b1.skip(field_offset(shapes, i) as int)) == shapes[i].decoded(
            b2.skip(field_offset(shapes, i) as int),
        ),
{
    let wt = record_width(shapes) as int;
    let off = field_offset(shapes, i) as int;
    let w = shapes[i].width() as int;
    assert(shapes.take(i + 1).drop_last() =~= shapes.take(i));
    assert(shapes.take(i + 1).last() == shapes[i]);
    lemma_record_width_monotone(shapes, i + 1);
    assert(b1.skip(off).take(w) =~= b1.take(wt).subrange(off, off + w));
    assert(b2.skip(off).take(w) =~= b2.take(wt).subrange(off, off + w));
    lemma_decoded_prefix_pub(shapes[i], b1.skip(off), b2.skip(off));
}

/// Decoding depends only on a record's own bytes.
proof fn lemma_record_prefix(shapes: Seq<Type>, b1: Seq<u8>, b2: Seq<u8>)
    requires
        b1.len() >= record_width(shapes),
        b2.len() >= record_width(shapes),
        b1.take(record_width(shapes) as int) == b2.take(record_width(shapes) as int),
    ensures
        record_readable(shapes, b1) == record_readable(shapes, b2),
        decoded_record(shapes, b1) == decoded_record(shapes, b2),
{
    assert forall|i: int| 0 <= i < shapes.len() implies #[trigger] decoded_record(shapes, b1)[i]
        == decoded_record(shapes, b2)[i] by {
        lemma_field_prefix(shapes, b1, b2, i);
    }
    assert(decoded_record(shapes, b1) =~= decoded_record(shapes, b2));
    if record_readable(shapes, b1) {
        assert forall|i: int| 0 <= i < shapes.len() implies #[trigger] shapes[i].readable(
            b2.skip(field_offset(shapes, i) as int),
        ) by {
            lemma_field_prefix(shapes, b1, b2, i);
        }
    }
    if record_readable(shapes, b2) {
        assert forall|i: int| 0 <= i < shapes.len() implies #[trigger] shapes[i].readable(
            b1.skip(field_offset(shapes, i) as int),
        ) by {
            lemma_field_prefix(shapes, b1, b2, i);
        }
    }
}

/// Reading a field at a live position depends only on the record's window.
proof fn lemma_window_scan(
    page_bytes: Seq<Vec<u8>>,
    shapes: Seq<Type>,
    fi: int,
    v: ValueModel,
    pos: DataPosition,
    rs: nat,
)
    requires
        rs == record_width(shapes),
        pos.page < page_bytes.len(),
        page_bytes[pos.page as int]@.len() == 4096,
        pos.cell + rs <= 4096,
    ensures
        scan_match(page_bytes, shapes, fi, v, pos) == (record_readable(shapes, window(page_bytes, pos, rs))
            && decoded_record(shapes, window(page_bytes, pos, rs))[fi] == v),
{
    let b = bytes_at(page_bytes, pos);
    let win = window(page_bytes, pos, rs);
    assert(b.take(rs as int) =~= win.take(rs as int));
    lemma_record_prefix(shapes, b, win);
}

proof fn lemma_holding_iff(values: Seq<ValueModel>, positions: Seq<DataPosition>, v: ValueModel, p: DataPosition)
    requires
        values.len() <= positions.len(),
    ensures
        positions_holding(values, positions, v).contains(p) <==> exists|i: int|
            0 <= i < values.len() && positions[i] == p && #[trigger] values[i] == v,
    decreases values.len(),
{
    if values.len() > 0 {
        let n = values.len() - 1;
        let init = values.take(n);
        lemma_holding_iff(init, positions, v, p);
        let a = positions_holding(init, positions, v);
        let tail = if values[n] == v { seq![positions[n]] } else { Seq::<DataPosition>::empty() };
        let all = positions_holding(values, positions, v);
        assert(all == a + tail);
        if all.contains(p) {
            let j = choose|j: int| 0 <= j < all.len() && all[j] == p;
            if j < a.len() {
                assert(a[j] == p);
                assert(a.contains(p));
                let i = choose|i: int| 0 <= i < init.len() && positions[i] == p && #[trigger] init[i] == v;
                assert(values[i] == init[i]);
            } else {
                assert(tail[j - a.len()] == p);
                assert(values[n] == v);
            }
        }
        if exists|i: int| 0 <= i < values.len() && positions[i] == p && #[trigger] values[i] == v {
            let i = choose|i: int| 0 <= i < values.len() && positions[i] == p && #[trigger] values[i] == v;
            if i < n {
                assert(init[i] == values[i]);
                assert(a.contains(p));
                let j = choose|j: int| 0 <= j < a.len() && a[j] == p;
                assert(all[j] == p);
            } else {
                assert(all[a.len() as int] == p);
            }
        }
    } else {
        assert(positions_holding(values, positions, v) =~= Seq::<DataPosition>::empty());
    }
}

proof fn lemma_live_after_insert(
    before: Table,
    after: Table,
    records: Seq<Vec<Type>>,
    cells: Seq<(u16, u16)>,
    pos: DataPosition,
)
    requires
        before.wf(),
        after.metadata == before.metadata,
        inserted(before, after, records, cells),
    ensures
        is_live(after.ledger@, after.pages as nat, before.metadata.spec_record_size() as nat, pos) <==> (is_live(
            before.ledger@,
            before.pages as nat,
            before.metadata.spec_record_size() as nat,
            pos,
        ) || positions_of_slots(cells, before.metadata.spec_record_size() as nat).contains(pos)),
{
    let rs = before.metadata.spec_record_size() as nat;
    let slots = slots_for(rs);
    let positions = positions_of_slots(cells, rs);
    let s = pos.cell as nat / rs;
    if is_live(after.ledger@, after.pages as nat, rs, pos) {
        assert(!covers(after.ledger@, pos.page as int, s as int));
        if !is_live(before.ledger@, before.pages as nat, rs, pos) {
            assert(cells.contains((pos.page as u16, s as u16)));
            let i = choose|i: int| 0 <= i < cells.len() && cells[i] == (pos.page as u16, s as u16);
            lemma_cell_slot(pos.cell as nat, rs);
            lemma_slot_offset(s, rs);
            assert(positions[i] == pos);
        }
    }
    if is_live(before.ledger@, before.pages as nat, rs, pos) {
        assert(!free_after_growth(before.ledger@, before.pages as nat, slots, pos.page as int, s as int));
    }
    if positions.contains(pos) {
        let i = choose|i: int| 0 <= i < positions.len() && positions[i] == pos;
        let c = cells[i];
        lemma_slot_offset(c.1 as nat, rs);
        lemma_slot_cell(c.1 as nat, rs);
        assert(pos.cell as nat == c.1 as nat * rs);
        assert(s == c.1);
        assert(cells.contains((pos.page as u16, s as u16)));
    }
}

/// The indexes agree with the records: for every live position and every
/// value, an index lists the position under the value exactly when the
/// record there holds the value in the indexed field; and the indexes list
/// live positions only; and every live record can be read.
pub open spec fn consistent(t: Table) -> bool {
    &&& indexes_consistent(t.metadata, t.ledger@, t.pages as nat, t.indexes@, t.page_bytes@)
    &&& forall|pos: DataPosition|
        #[trigger] is_live(t.ledger@, t.pages as nat, t.metadata.spec_record_size() as nat, pos) ==> readable_at(
            t.page_bytes@,
            shapes_of(t.metadata.spec_fields()),
            pos,
        )
    &&& forall|k: int, v: ValueModel, pos: DataPosition|
        0 <= k < t.indexes@.len() && #[trigger] t.indexes@[k].lookup(v).contains(pos) ==> is_live(
            t.ledger@,
            t.pages as nat,
            t.metadata.spec_record_size() as nat,
            pos,
        )
}

/// A live record is readable exactly when its window is.
proof fn lemma_readable_iff_window(page_bytes: Seq<Vec<u8>>, shapes: Seq<Type>, pos: DataPosition, rs: nat)
    requires
        rs == record_width(shapes),
        pos.page < page_bytes.len(),
        page_bytes[pos.page as int]@.len() == 4096,
        pos.cell + rs <= 4096,
    ensures
        readable_at(page_bytes, shapes, pos) == record_readable(shapes, window(page_bytes, pos, rs)),
{
    let b = bytes_at(page_bytes, pos);
    let win = window(page_bytes, pos, rs);
    assert(b.take(rs as int) =~= win.take(rs as int));
    lemma_record_prefix(shapes, b, win);
}

/// Setting the primary key of the records the filters select to `value`
/// keeps keys unique: at most one record is selected, and every position the
/// primary-key index lists for `value` is selected.
pub open spec fn pk_change_ok(t: Table, filters: Seq<FilterOption>, value: Type) -> bool {
    &&& forall|a: DataPosition, b: DataPosition|
        #[trigger] selected(t.metadata, t.ledger@, t.pages as nat, t.indexes@, t.page_bytes@, filters, a) && #[trigger] selected(
            t.metadata,
            t.ledger@,
            t.pages as nat,
            t.indexes@,
            t.page_bytes@,
            filters,
            b,
        ) ==> a == b
    &&& forall|q: DataPosition|
        #[trigger] t.pk_index().lookup(value@).contains(q) ==> selected(
            t.metadata,
            t.ledger@,
            t.pages as nat,
            t.indexes@,
            t.page_bytes@,
            filters,
            q,
        )
}

/// Every filter names a field of the table and compares by equality.
pub open spec fn filters_ok(t: Table, filters: Seq<FilterOption>) -> bool {
    &&& forall|j: int|
        0 <= j < filters.len() ==> has_field(t.metadata.spec_fields(), (#[trigger] filters[j]).spec_field().name@)
    &&& forall|j: int| 0 <= j < filters.len() ==> (#[trigger] filters[j]).spec_filter() == Filter::Equal
}

proof fn lemma_selection_readable(t: Table, filters: Seq<FilterOption>, ps: Seq<DataPosition>)
    requires
        forall|pos: DataPosition| #[trigger] ps.contains(pos) <==> selected(
            t.metadata,
            t.ledger@,
            t.pages as nat,
            t.indexes@,
            t.page_bytes@,
            filters,
            pos,
        ),
    ensures
        selection_readable(t, filters) <==> forall|i: int|
            0 <= i < ps.len() ==> readable_at(t.page_bytes@, shapes_of(t.metadata.spec_fields()), #[trigger] ps[i]),
{
    let shapes = shapes_of(t.metadata.spec_fields());
    if selection_readable(t, filters) {
        assert forall|i: int| 0 <= i < ps.len() implies readable_at(t.page_bytes@, shapes, #[trigger] ps[i]) by {
            assert(ps.contains(ps[i]));
        }
    }
    if forall|i: int| 0 <= i < ps.len() ==> readable_at(t.page_bytes@, shapes, #[trigger] ps[i]) {
        assert forall|pos: DataPosition| #[trigger] selected(t.metadata, t.ledger@, t.pages as nat, t.indexes@, t.page_bytes@, filters, pos)
            implies readable_at(t.page_bytes@, shapes, pos) by {
            assert(ps.contains(pos));
            let i = choose|i: int| 0 <= i < ps.len() && ps[i] == pos;
        }
    }
}

/// Every position the filters select holds a record that can be read.
pub open spec fn selection_readable(t: Table, filters: Seq<FilterOption>) -> bool {
    forall|pos: DataPosition|
        #[trigger] selected(t.metadata, t.ledger@, t.pages as nat, t.indexes@, t.page_bytes@, filters, pos)
            ==> readable_at(t.page_bytes@, shapes_of(t.metadata.spec_fields()), pos)
}

/// In a consistent table every selection can be read.
pub proof fn lemma_consistent_readable(t: Table, filters: Seq<FilterOption>)
    requires
        consistent(t),
    ensures
        selection_readable(t, filters),
{
}

/// Inserting a batch whose records fit the schema keeps the indexes in
/// agreement with the records.
pub proof fn lemma_insert_consistent(
    before: Table,
    after: Table,
    records: Seq<Vec<Type>>,
    cells: Seq<(u16, u16)>,
)
    requires
        before.wf(),
        after.wf(),
        consistent(before),
        after.metadata == before.metadata,
        inserted(before, after, records, cells),
        forall|i: int| 0 <= i < records.len() ==> conforms(before.metadata.spec_fields(), #[trigger] records[i]@),
    ensures
        consistent(after),
{
    let rs = before.metadata.spec_record_size() as nat;
    let shapes = shapes_of(before.metadata.spec_fields());
    let positions = positions_of_slots(cells, rs);
    let slots = slots_for(rs);
    assert(cells.len() == records.len());
    // new positions are not live before, and are pairwise distinct
    assert forall|i: int| 0 <= i < positions.len() implies !is_live(
        before.ledger@,
        before.pages as nat,
        rs,
        #[trigger] positions[i],
    ) by {
        let c = cells[i];
        lemma_slot_offset(c.1 as nat, rs);
        lemma_slot_cell(c.1 as nat, rs);
        assert(free_after_growth(before.ledger@, before.pages as nat, slots, c.0 as int, c.1 as int));
    }
    assert forall|i: int, j: int| 0 <= i < positions.len() && 0 <= j < positions.len() && i != j implies #[trigger] positions[i]
        != #[trigger] positions[j] by {
        let a = cells[i];
        let b = cells[j];
        lemma_slot_offset(a.1 as nat, rs);
        lemma_slot_offset(b.1 as nat, rs);
        lemma_slot_cell(a.1 as nat, rs);
        lemma_slot_cell(b.1 as nat, rs);
        if i < j {
            assert(slot_lt(a, b));
        } else {
            assert(slot_lt(b, a));
        }
    }
    // what a new position holds
    assert forall|i: int| 0 <= i < positions.len() implies record_readable(shapes, #[trigger] window(after.page_bytes@, positions[i], rs))
        && decoded_record(shapes, window(after.page_bytes@, positions[i], rs)) == crate::dbtype::record_view(records[i]@) by {
        let r = records[i]@;
        assert(conforms(before.metadata.spec_fields(), r));
        assert(window(after.page_bytes@, positions[i], rs) == record_encoding(r));
        lemma_record_round_trip(r);
        lemma_same_shapes(r, shapes, record_encoding(r));
    }
    assert forall|k: int, v: ValueModel, pos: DataPosition|
        0 <= k < after.indexes@.len() && is_live(after.ledger@, after.pages as nat, rs, pos) implies (
        #[trigger] after.indexes@[k].lookup(v).contains(pos) <==> scan_match(
            after.page_bytes@,
            shapes,
            after.metadata.spec_indexes()[k] as int,
            v,
            pos,
        )) by {
        let fi = before.metadata.spec_indexes()[k] as int;
        let values = field_values(records, fi);
        let old_list = before.indexes@[k].lookup(v);
        let added = positions_holding(values, positions, v);
        assert(after.indexes@[k].lookup(v) == old_list + added);
        lemma_concat_contains(old_list, added, pos);
        lemma_holding_iff(values, positions, v, pos);
        lemma_live_after_insert(before, after, records, cells, pos);
        let s = pos.cell as nat / rs;
        lemma_slot_offset(s, rs);
        lemma_cell_slot(pos.cell as nat, rs);
        lemma_window_scan(after.page_bytes@, shapes, fi, v, pos, rs);
        if is_live(before.ledger@, before.pages as nat, rs, pos) {
            if added.contains(pos) {
                let i = choose|i: int| 0 <= i < values.len() && positions[i] == pos && #[trigger] values[i] == v;
                assert(!is_live(before.ledger@, before.pages as nat, rs, positions[i]));
            }
            lemma_window_scan(before.page_bytes@, shapes, fi, v, pos, rs);
            assert(window(after.page_bytes@, pos, rs) == window(before.page_bytes@, pos, rs));
        } else {
            let i = choose|i: int| 0 <= i < positions.len() && positions[i] == pos;
            if old_list.contains(pos) {
                assert(is_live(before.ledger@, before.pages as nat, rs, pos));
            }
            assert(window(after.page_bytes@, positions[i], rs) == window(after.page_bytes@, pos, rs));
            assert(values[i] == records[i]@[fi]@);
            assert(crate::dbtype::record_view(records[i]@)[fi] == records[i]@[fi]@);
            if added.contains(pos) {
                let j = choose|j: int| 0 <= j < values.len() && positions[j] == pos && #[trigger] values[j] == v;
                if j != i {
                    assert(positions[i] != positions[j]);
                }
            }
            if values[i] == v {
                assert(values[i] == v && positions[i] == pos);
            }
        }
    }
    assert forall|k: int, v: ValueModel, pos: DataPosition|
        0 <= k < after.indexes@.len() && #[trigger] after.indexes@[k].lookup(v).contains(pos) implies is_live(
        after.ledger@,
        after.pages as nat,
        rs,
        pos,
    ) by {
        let fi = before.metadata.spec_indexes()[k] as int;
        let values = field_values(records, fi);
        let old_list = before.indexes@[k].lookup(v);
        let added = positions_holding(values, positions, v);
        lemma_concat_contains(old_list, added, pos);
        lemma_holding_iff(values, positions, v, pos);
        lemma_live_after_insert(before, after, records, cells, pos);
        if added.contains(pos) {
            let i = choose|i: int| 0 <= i < values.len() && positions[i] == pos && #[trigger] values[i] == v;
            assert(positions.contains(pos));
        }
    }
    assert forall|pos: DataPosition| #[trigger] is_live(after.ledger@, after.pages as nat, rs, pos) implies readable_at(
        after.page_bytes@,
        shapes,
        pos,
    ) by {
        lemma_live_after_insert(before, after, records, cells, pos);
        lemma_slot_offset(pos.cell as nat / rs, rs);
        lemma_cell_slot(pos.cell as nat, rs);
        lemma_readable_iff_window(after.page_bytes@, shapes, pos, rs);
        if is_live(before.ledger@, before.pages as nat, rs, pos) {
            lemma_readable_iff_window(before.page_bytes@, shapes, pos, rs);
            assert(window(after.page_bytes@, pos, rs) == window(before.page_bytes@, pos, rs));
        } else {
            let i = choose|i: int| 0 <= i < positions.len() && positions[i] == pos;
            assert(record_readable(shapes, window(after.page_bytes@, positions[i], rs)));
        }
    }
}

proof fn lemma_without_contains(ps: Seq<DataPosition>, doomed: Seq<DataPosition>, p: DataPosition)
    ensures
        without(ps, doomed).contains(p) <==> ps.contains(p) && !doomed.contains(p),
    decreases ps.len(),
{
    let f = |x: DataPosition| !doomed.contains(x);
    if ps.len() == 0 {
        assert(without(ps, doomed) =~= ps);
    } else {
        let init = ps.drop_last();
        let x = ps.last();
        assert(ps =~= init.push(x));
        init.lemma_filter_push(x, f);
        lemma_without_contains(init, doomed, p);
        crate::ledger::lemma_push_contains(init, x, p);
        if f(x) {
            crate::ledger::lemma_push_contains(without(init, doomed), x, p);
        }
    }
}

proof fn lemma_live_after_delete(
    before: Table,
    after: Table,
    filters: Seq<FilterOption>,
    ps: Seq<DataPosition>,
    recs: Seq<Vec<Type>>,
    pos: DataPosition,
)
    requires
        before.wf(),
        removed(before, after, filters, ps, recs),
    ensures
        is_live(after.ledger@, after.pages as nat, before.metadata.spec_record_size() as nat, pos) <==> (is_live(
            before.ledger@,
            before.pages as nat,
            before.metadata.spec_record_size() as nat,
            pos,
        ) && !ps.contains(pos)),
{
    let rs = before.metadata.spec_record_size() as nat;
    let s = pos.cell as nat / rs;
    let slot_map = |p: DataPosition| slot_at(p, rs);
    let slots_of = ps.map_values(slot_map);
    if is_live(before.ledger@, before.pages as nat, rs, pos) {
        lemma_slot_offset(s, rs);
        if slots_of.contains((pos.page as u16, s as u16)) {
            let i = choose|i: int| 0 <= i < slots_of.len() && slots_of[i] == (pos.page as u16, s as u16);
            let q = ps[i];
            assert(ps.contains(q));
            assert(is_live(before.ledger@, before.pages as nat, rs, q));
            lemma_cell_slot(q.cell as nat, rs);
            lemma_cell_slot(pos.cell as nat, rs);
            assert(q.page == pos.page);
            assert(q.cell as nat / rs == s);
            assert(q == pos);
        }
        if ps.contains(pos) {
            let i = choose|i: int| 0 <= i < ps.len() && ps[i] == pos;
            assert(slots_of[i] == (pos.page as u16, s as u16));
        }
    }
}

/// Deleting the records a selection finds keeps the indexes in agreement
/// with the records.
pub proof fn lemma_delete_consistent(
    before: Table,
    after: Table,
    filters: Seq<FilterOption>,
    ps: Seq<DataPosition>,
    recs: Seq<Vec<Type>>,
)
    requires
        before.wf(),
        consistent(before),
        removed(before, after, filters, ps, recs),
        after.indexes@.len() == before.indexes@.len(),
    ensures
        consistent(after),
{
    let rs = before.metadata.spec_record_size() as nat;
    let shapes = shapes_of(before.metadata.spec_fields());
    assert forall|k: int, v: ValueModel, pos: DataPosition|
        0 <= k < after.indexes@.len() && is_live(after.ledger@, after.pages as nat, rs, pos) implies (
        #[trigger] after.indexes@[k].lookup(v).contains(pos) <==> scan_match(
            after.page_bytes@,
            shapes,
            after.metadata.spec_indexes()[k] as int,
            v,
            pos,
        )) by {
        lemma_live_after_delete(before, after, filters, ps, recs, pos);
        lemma_without_contains(before.indexes@[k].lookup(v), ps, pos);
    }
    assert forall|k: int, v: ValueModel, pos: DataPosition|
        0 <= k < after.indexes@.len() && #[trigger] after.indexes@[k].lookup(v).contains(pos) implies is_live(
        after.ledger@,
        after.pages as nat,
        rs,
        pos,
    ) by {
        let fi = before.metadata.spec_indexes()[k] as int;
        let values = field_values(recs, fi);
        let old_list = before.indexes@[k].lookup(v);
        lemma_without_contains(old_list, ps, pos);
        lemma_live_after_delete(before, after, filters, ps, recs, pos);
        assert(old_list.contains(pos));
        assert(is_live(before.ledger@, before.pages as nat, rs, pos));
        if ps.contains(pos) {
            let i = choose|i: int| 0 <= i < ps.len() && ps[i] == pos;
            assert(scan_match(before.page_bytes@, shapes, fi, v, pos));
            assert(crate::dbtype::record_view(recs[i]@) == decoded_record(shapes, bytes_at(before.page_bytes@, ps[i])));
            assert(crate::dbtype::record_view(recs[i]@)[fi] == recs[i]@[fi]@);
            assert(values[i] == v);
            assert(values.contains(v));
        }
    }
    assert forall|pos: DataPosition| #[trigger] is_live(after.ledger@, after.pages as nat, rs, pos) implies readable_at(
        after.page_bytes@,
        shapes,
        pos,
    ) by {
        lemma_live_after_delete(before, after, filters, ps, recs, pos);
        assert(is_live(before.ledger@, before.pages as nat, rs, pos));
    }
}

/// A table with no live record and empty indexes is consistent.
proof fn lemma_empty_consistent(t: Table)
    requires
        t.pages == 1,
        t.metadata.wf(),
        forall|q: int, s: int| #[trigger] covers(t.ledger@, q, s) <==> (q == 0 && 0 <= s < slots_for(
            t.metadata.spec_record_size() as nat,
        )),
        forall|k: int, w: ValueModel| 0 <= k < t.indexes@.len() ==> #[trigger] t.indexes@[k].lookup(w)
            == Seq::<DataPosition>::empty(),
    ensures
        consistent(t),
{
    let rs = t.metadata.spec_record_size() as nat;
    assert forall|pos: DataPosition| !is_live(t.ledger@, t.pages as nat, rs, pos) by {
        if is_live(t.ledger@, t.pages as nat, rs, pos) {
            assert(covers(t.ledger@, pos.page as int, (pos.cell as nat / rs) as int));
        }
    }
    assert forall|k: int, v: ValueModel, pos: DataPosition|
        0 <= k < t.indexes@.len() && is_live(t.ledger@, t.pages as nat, rs, pos) implies (
        #[trigger] t.indexes@[k].lookup(v).contains(pos) <==> scan_match(
            t.page_bytes@,
            shapes_of(t.metadata.spec_fields()),
            t.metadata.spec_indexes()[k] as int,
            v,
            pos,
        )) by {
    }
    assert forall|k: int, v: ValueModel, pos: DataPosition|
        0 <= k < t.indexes@.len() && #[trigger] t.indexes@[k].lookup(v).contains(pos) implies is_live(
        t.ledger@,
        t.pages as nat,
        rs,
        pos,
    ) by {
        assert(t.indexes@[k].lookup(v) == Seq::<DataPosition>::empty());
    }
}

proof fn lemma_field_before(shapes: Seq<Type>, j: int, fi: int)
    requires
        0 <= j < fi <= shapes.len(),
    ensures
        field_offset(shapes, j) + shapes[j].width() <= field_offset(shapes, fi),
{
    let t = shapes.take(fi);
    assert(t.take(j + 1) =~= shapes.take(j + 1));
    lemma_record_width_monotone(t, j + 1);
    assert(shapes.take(j + 1).drop_last() =~= shapes.take(j));
    assert(shapes.take(j + 1).last() == shapes[j]);
}

/// Writing a value's bytes over field `fi` of a record's window changes that
/// field to the value and leaves the others as they were.
proof fn lemma_patch_field(shapes: Seq<Type>, old_w: Seq<u8>, fi: int, value: Type)
    requires
        old_w.len() == record_width(shapes),
        0 <= fi < shapes.len(),
        value.tag() == shapes[fi].tag(),
        value.width() == shapes[fi].width(),
        value.round_trips(),
        record_readable(shapes, old_w),
    ensures
        patched(old_w, field_offset(shapes, fi), value.encoding()).len() == old_w.len(),
        record_readable(shapes, patched(old_w, field_offset(shapes, fi), value.encoding())),
        forall|j: int|
            0 <= j < shapes.len() && j != fi ==> #[trigger] decoded_record(
                shapes,
                patched(old_w, field_offset(shapes, fi), value.encoding()),
            )[j] == decoded_record(shapes, old_w)[j],
        decoded_record(shapes, patched(old_w, field_offset(shapes, fi), value.encoding()))[fi] == value@,
{
    let off = field_offset(shapes, fi) as int;
    let w = shapes[fi].width() as int;
    let enc = value.encoding();
    crate::dbtype::lemma_value_round_trip(value);
    assert(shapes.take(fi + 1).drop_last() =~= shapes.take(fi));
    assert(shapes.take(fi + 1).last() == shapes[fi]);
    lemma_record_width_monotone(shapes, fi + 1);
    let new_w = patched(old_w, off as nat, enc);
    assert(new_w.len() == old_w.len());
    assert forall|j: int| 0 <= j < shapes.len() && j != fi implies #[trigger] shapes[j].decoded(new_w.skip(field_offset(shapes, j) as int))
        == shapes[j].decoded(old_w.skip(field_offset(shapes, j) as int)) && shapes[j].readable(new_w.skip(field_offset(shapes, j) as int))
        == shapes[j].readable(old_w.skip(field_offset(shapes, j) as int)) by {
        let oj = field_offset(shapes, j) as int;
        let wj = shapes[j].width() as int;
        assert(shapes.take(j + 1).drop_last() =~= shapes.take(j));
        assert(shapes.take(j + 1).last() == shapes[j]);
        lemma_record_width_monotone(shapes, j + 1);
        if j < fi {
            lemma_field_before(shapes, j, fi);
        } else {
            lemma_field_before(shapes, fi, j);
        }
        assert(new_w.skip(oj).take(wj) =~= old_w.skip(oj).take(wj));
        lemma_decoded_prefix_pub(shapes[j], new_w.skip(oj), old_w.skip(oj));
    }
    assert(new_w.skip(off).take(w) =~= enc);
    assert(enc.take(w) =~= enc);
    lemma_decoded_prefix_pub(shapes[fi], new_w.skip(off), enc);
    assert(shapes[fi].decoded(enc) == value.decoded(enc));
    assert(shapes[fi].readable(enc) == value.readable(enc));
    assert forall|j: int| 0 <= j < shapes.len() implies #[trigger] shapes[j].readable(new_w.skip(field_offset(shapes, j) as int)) by {
        if j != fi {
            assert(shapes[j].readable(old_w.skip(field_offset(shapes, j) as int)));
            assert(shapes[j].decoded(new_w.skip(field_offset(shapes, j) as int)) == shapes[j].decoded(old_w.skip(field_offset(shapes, j) as int)));
        } else {
            assert(value.readable(enc));
        }
    }
    assert forall|j: int| 0 <= j < shapes.len() && j != fi implies #[trigger] decoded_record(shapes, new_w)[j] == decoded_record(shapes, old_w)[j] by {
        assert(shapes[j].decoded(new_w.skip(field_offset(shapes, j) as int)) == shapes[j].decoded(old_w.skip(field_offset(shapes, j) as int)));
    }
}

/// A readable record reads the same from its window.
proof fn lemma_readable_window(page_bytes: Seq<Vec<u8>>, shapes: Seq<Type>, pos: DataPosition, rs: nat)
    requires
        rs == record_width(shapes),
        readable_at(page_bytes, shapes, pos),
        pos.cell + rs <= page_bytes[pos.page as int]@.len(),
    ensures
        record_readable(shapes, window(page_bytes, pos, rs)),
        decoded_record(shapes, window(page_bytes, pos, rs)) == decoded_record(shapes, bytes_at(page_bytes, pos)),
        window(page_bytes, pos, rs).len() == rs,
{
    let b = bytes_at(page_bytes, pos);
    let win = window(page_bytes, pos, rs);
    assert(b.take(rs as int) =~= win.take(rs as int));
    lemma_record_prefix(shapes, b, win);
}

/// Changing a field of the records a selection finds, to a value that fits
/// the field, keeps the indexes in agreement with the records.
pub proof fn lemma_change_consistent(
    before: Table,
    after: Table,
    filters: Seq<FilterOption>,
    field: int,
    value: Type,
    ps: Seq<DataPosition>,
    recs: Seq<Vec<Type>>,
)
    requires
        before.wf(),
        consistent(before),
        changed(before, after, filters, field, value, ps, recs),
        after.indexes@.len() == before.indexes@.len(),
        0 <= field < before.metadata.spec_fields().len(),
        value.tag() == before.metadata.spec_fields()[field].type_.tag(),
        value.width() == before.metadata.spec_fields()[field].type_.width(),
        value.round_trips(),
    ensures
        consistent(after),
{
    let rs = before.metadata.spec_record_size() as nat;
    let shapes = shapes_of(before.metadata.spec_fields());
    let off = field_offset(shapes, field);
    assert forall|k: int, v: ValueModel, pos: DataPosition|
        0 <= k < after.indexes@.len() && is_live(after.ledger@, after.pages as nat, rs, pos) implies (
        #[trigger] after.indexes@[k].lookup(v).contains(pos) <==> scan_match(
            after.page_bytes@,
            shapes,
            after.metadata.spec_indexes()[k] as int,
            v,
            pos,
        )) by {
        let fk = before.metadata.spec_indexes()[k] as int;
        let s = pos.cell as nat / rs;
        lemma_slot_offset(s, rs);
        lemma_cell_slot(pos.cell as nat, rs);
        assert(is_live(before.ledger@, before.pages as nat, rs, pos));
        lemma_window_scan(after.page_bytes@, shapes, fk, v, pos, rs);
        lemma_window_scan(before.page_bytes@, shapes, fk, v, pos, rs);
        let old_list = before.indexes@[k].lookup(v);
        if ps.contains(pos) {
            let i = choose|i: int| 0 <= i < ps.len() && ps[i] == pos;
            lemma_readable_window(before.page_bytes@, shapes, pos, rs);
            let old_w = window(before.page_bytes@, pos, rs);
            lemma_patch_field(shapes, old_w, field, value);
            assert(window(after.page_bytes@, pos, rs) == patched(old_w, off, value.encoding()));
            assert(crate::dbtype::record_view(recs[i]@) == decoded_record(shapes, old_w));
            assert(crate::dbtype::record_view(recs[i]@)[fk] == recs[i]@[fk]@);
            if fk == field {
                let values = field_values(recs, field);
                lemma_without_contains(old_list, ps, pos);
                lemma_concat_contains(
                    if values.contains(v) { without(old_list, ps) } else { old_list },
                    if v == value@ { ps } else { Seq::empty() },
                    pos,
                );
                if !values.contains(v) && old_list.contains(pos) {
                    assert(values[i] == v);
                }
            }
        } else {
            assert(window(after.page_bytes@, pos, rs) == window(before.page_bytes@, pos, rs));
            if fk == field {
                let values = field_values(recs, field);
                lemma_without_contains(old_list, ps, pos);
                lemma_concat_contains(
                    if values.contains(v) { without(old_list, ps) } else { old_list },
                    if v == value@ { ps } else { Seq::empty() },
                    pos,
                );
            }
        }
    }
    assert forall|k: int, v: ValueModel, pos: DataPosition|
        0 <= k < after.indexes@.len() && #[trigger] after.indexes@[k].lookup(v).contains(pos) implies is_live(
        after.ledger@,
        after.pages as nat,
        rs,
        pos,
    ) by {
        let fk = before.metadata.spec_indexes()[k] as int;
        let old_list = before.indexes@[k].lookup(v);
        if fk == field {
            let values = field_values(recs, field);
            lemma_without_contains(old_list, ps, pos);
            lemma_concat_contains(
                if values.contains(v) { without(old_list, ps) } else { old_list },
                if v == value@ { ps } else { Seq::empty() },
                pos,
            );
            if ps.contains(pos) {
                assert(is_live(before.ledger@, before.pages as nat, rs, pos));
            }
        }
    }
    assert forall|pos: DataPosition| #[trigger] is_live(after.ledger@, after.pages as nat, rs, pos) implies readable_at(
        after.page_bytes@,
        shapes,
        pos,
    ) by {
        assert(is_live(before.ledger@, before.pages as nat, rs, pos));
        lemma_slot_offset(pos.cell as nat / rs, rs);
        lemma_cell_slot(pos.cell as nat, rs);
        lemma_readable_iff_window(after.page_bytes@, shapes, pos, rs);
        lemma_readable_iff_window(before.page_bytes@, shapes, pos, rs);
        if ps.contains(pos) {
            let old_w = window(before.page_bytes@, pos, rs);
            lemma_patch_field(shapes, old_w, field, value);
        }
    }
}

/// In a table whose indexes agree with its records (as every table built by
/// `create` and changed only by this type's operations does), filters select
/// the same positions through the indexes as by reading every record: an
/// equality filter on an indexed field answers as one on an unindexed field.
pub proof fn lemma_table_filters_agree(t: Table, filters: Seq<FilterOption>, pos: DataPosition)
    requires
        t.wf(),
        consistent(t),
    ensures
        selected(t.metadata, t.ledger@, t.pages as nat, t.indexes@, t.page_bytes@, filters, pos) == scanned(
            t.metadata,
            t.ledger@,
            t.pages as nat,
            t.page_bytes@,
            filters,
            pos,
        ),
{
    lemma_index_agrees_with_scan(t.metadata, t.ledger@, t.pages as nat, t.indexes@, t.page_bytes@, filters, pos);
}

/// In every table the operations keep well formed, the ledger's intervals are
/// sorted, never overlap and never touch, and every slot of every page is
/// either free in the ledger or the slot of a live record, never both.
pub proof fn lemma_table_slots_partition(t: Table, p: u16, s: u16)
    requires
        t.wf(),
        p < t.pages,
        s < slots_for(t.metadata.spec_record_size() as nat),
    ensures
        ledger_wf(t.ledger@, t.pages as nat, slots_for(t.metadata.spec_record_size() as nat)),
        covers(t.ledger@, p as int, s as int) != is_live(
            t.ledger@,
            t.pages as nat,
            t.metadata.spec_record_size() as nat,
            position_of((p, s), t.metadata.spec_record_size() as nat),
        ),
{
    lemma_slots_partition(t.ledger@, t.pages as nat, t.metadata.spec_record_size() as nat, p, s);
}

proof fn lemma_concat_contains(a: Seq<DataPosition>, b: Seq<DataPosition>, p: DataPosition)
    ensures
        (a + b).contains(p) <==> a.contains(p) || b.contains(p),
{
    let ab = a + b;
    if a.contains(p) {
        let j = choose|j: int| 0 <= j < a.len() && a[j] == p;
        assert(ab[j] == p);
    }
    if b.contains(p) {
        let j = choose|j: int| 0 <= j < b.len() && b[j] == p;
        assert(ab[a.len() + j] == p);
    }
    if ab.contains(p) {
        let j = choose|j: int| 0 <= j < ab.len() && ab[j] == p;
        if j < a.len() {
            assert(a[j] == p);
        } else {
            assert(b[j - a.len()] == p);
        }
    }
}


fn zero_page() -> (r: Vec<u8>)
    ensures
        r@.len() == 4096,
        forall|i: int| 0 <= i < 4096 ==> #[trigger] r@[i] == 0,
{
    let mut r: Vec<u8> = Vec::new();
    while r.len() < PAGE_SIZE_BYTES as usize
        invariant
            r@.len() <= 4096,
            forall|i: int| 0 <= i < r@.len() ==> #[trigger] r@[i] == 0,
        decreases 4096 - r@.len(),
    {
        r.push(0);
    }
    r
}

fn empty_indexes(n: usize) -> (r: Vec<Index>)
    ensures
        r@.len() == n,
        forall|k: int| 0 <= k < n ==> (#[trigger] r@[k]).wf(),
        forall|k: int, w: ValueModel| 0 <= k < n ==> #[trigger] r@[k].lookup(w) == Seq::<DataPosition>::empty(),
{
    let mut r: Vec<Index> = Vec::new();
    while r.len() < n
        invariant
            r@.len() <= n,
            forall|k: int| 0 <= k < r@.len() ==> (#[trigger] r@[k]).wf(),
            forall|k: int, w: ValueModel| 0 <= k < r@.len() ==> #[trigger] r@[k].lookup(w) == Seq::<DataPosition>::empty(),
        decreases n - r@.len(),
    {
        r.push(Index::new());
    }
    r
}

/// Writes `bytes` into page `page` from byte `cell` on.
fn write_record(page_bytes: &mut Vec<Vec<u8>>, page: usize, cell: usize, bytes: &Vec<u8>)
    requires
        page < old(page_bytes)@.len(),
        cell + bytes@.len() <= old(page_bytes)@[page as int]@.len(),
    ensures
        final(page_bytes)@.len() == old(page_bytes)@.len(),
        forall|p: int| 0 <= p < final(page_bytes)@.len() && p != page ==> #[trigger] final(page_bytes)@[p] == old(page_bytes)@[p],
        final(page_bytes)@[page as int]@.len() == old(page_bytes)@[page as int]@.len(),
        forall|x: int|
            0 <= x < final(page_bytes)@[page as int]@.len() ==> #[trigger] final(page_bytes)@[page as int]@[x] == if cell <= x < cell
                + bytes@.len() {
                bytes@[x - cell]
            } else {
                old(page_bytes)@[page as int]@[x]
            },
{
    let mut pg = page_bytes.remove(page);
    let ghost orig = pg@;
    let plen: usize = pg.len();
    let mut i: usize = 0;
    while i < bytes.len()
        invariant
            i <= bytes@.len(),
            cell + bytes@.len() <= orig.len(),
            pg@.len() == orig.len(),
            plen == pg@.len(),
            forall|x: int|
                0 <= x < pg@.len() ==> #[trigger] pg@[x] == if cell <= x < cell + i {
                    bytes@[x - cell]
                } else {
                    orig[x]
                },
        decreases bytes@.len() - i,
    {
        pg.set(cell + i, bytes[i]);
        i = i + 1;
    }
    page_bytes.insert(page, pg);
    assert forall|p: int| 0 <= p < page_bytes@.len() && p != page implies #[trigger] page_bytes@[p] == old(page_bytes)@[p] by {
    }
}

proof fn lemma_disjoint_slots(a: nat, b: nat, rs: nat)
    requires
        a < b,
        1 <= rs,
    ensures
        a * rs + rs <= b * rs,
{
    assert(a * rs + rs <= b * rs) by (nonlinear_arith)
        requires
            a < b,
            1 <= rs,
    ;
}

impl Table {
    pub open spec fn wf(&self) -> bool {
        let rs = self.metadata.spec_record_size() as nat;
        &&& self.metadata.wf()
        &&& self.pages <= 65536
        &&& ledger_wf(self.ledger@, self.pages as nat, slots_for(rs))
        &&& self.page_bytes@.len() == self.pages
        &&& forall|p: int| 0 <= p < self.pages ==> (#[trigger] self.page_bytes@[p])@.len() == 4096
        &&& self.indexes@.len() == self.metadata.spec_indexes().len()
        &&& forall|k: int| 0 <= k < self.indexes@.len() ==> (#[trigger] self.indexes@[k]).wf()
    }

    /// The index of the primary key.
    pub open spec fn pk_index(&self) -> Index {
        self.indexes@[slot_of(self.metadata.spec_indexes(), self.metadata.spec_primary_key() as int)]
    }

    /// A new table: one page, all of it free, and empty indexes.
    pub fn create(metadata: TableMetadata) -> (r: Table)
        requires
            metadata.wf(),
        ensures
            r.wf(),
            r.metadata == metadata,
            r.pages == 1,
            forall|q: int, s: int| #[trigger] covers(r.ledger@, q, s) <==> (q == 0 && 0 <= s < slots_for(
                metadata.spec_record_size() as nat,
            )),
            forall|k: int, w: ValueModel| 0 <= k < r.indexes@.len() ==> #[trigger] r.indexes@[k].lookup(w)
                == Seq::<DataPosition>::empty(),
            consistent(r),
    {
        let slots = slots_per_page(metadata.record_size());
        let ledger = initial_ledger(slots);
        let mut page_bytes: Vec<Vec<u8>> = Vec::new();
        page_bytes.push(zero_page());
        let indexes = empty_indexes(metadata.indexes_idx().len());
        let t = Table { metadata, ledger, pages: 1, page_bytes, indexes };
        proof {
            lemma_empty_consistent(t);
        }
        t
    }

    /// Inserts a batch of records, all or nothing. The batch is refused, and
    /// the table left as it was, when the stored ledger is not well formed,
    /// when a record does not fit the schema, when a record repeats a
    /// primary-key value the primary-key index lists a live position for, or
    /// when the table would need too many pages. Otherwise the records take
    /// the first free slots (pages being added as needed), their bytes are
    /// written there, and every index lists each record's position under its
    /// value.
    #[verifier::loop_isolation(false)]
    pub fn add_records(&mut self, records: &[Vec<Type>]) -> (r: Result<(), DbError>)
        requires
            old(self).wf(),
        ensures
            final(self).wf(),
            final(self).metadata == old(self).metadata,
            ({
                let fields = old(self).metadata.spec_fields();
                let records_ok = forall|i: int| 0 <= i < records@.len() ==> conforms(fields, #[trigger] records@[i]@);
                let unique = !repeats_key(old(self).pk_index(), records@, old(self).metadata.spec_primary_key() as int);
                &&& !records_ok <==> r == Err::<(), DbError>(DbError::InvalidSchema)
                &&& records_ok && !unique <==> r == Err::<(), DbError>(DbError::UniqueConstraintViolation)
                &&& records_ok && unique && records@.len() > capacity(
                    old(self).ledger@,
                    old(self).pages as nat,
                    slots_for(old(self).metadata.spec_record_size() as nat),
                ) <==> r == Err::<(), DbError>(DbError::TableFull)
                &&& r matches Err(e) ==> (e == DbError::InvalidSchema || e == DbError::UniqueConstraintViolation
                    || e == DbError::TableFull) && *final(self) == *old(self)
            }),
            r is Ok ==> exists|cells: Seq<(u16, u16)>| #[trigger] inserted(*old(self), *final(self), records@, cells),
            consistent(*old(self)) ==> consistent(*final(self)),
    {
        let ghost start = *self;
        let pk: u16 = self.metadata.primary_key();
        let idx = self.metadata.indexes_idx();
        proof {
            let ix = self.metadata.spec_indexes();
            let j = choose|j: int| 0 <= j < ix.len() && ix[j] == pk;
            assert(is_indexed(ix, pk as int));
            lemma_first_slot_exists(ix, pk as int);
        }
        let slot: usize = match find_slot(idx, pk as usize) {
            Some(k) => k,
            None => {
                return Err(DbError::CorruptedData);
            },
        };
        proof {
            lemma_first_slot_unique(self.metadata.spec_indexes(), pk as int, slot as int);
        }
        let plan = match plan_insert(&self.metadata, self.ledger.as_slice(), self.pages, &self.indexes[slot], records) {
            Ok(p) => p,
            Err(e) => {
                return Err(e);
            },
        };
        let rs: u16 = self.metadata.record_size();
        let ghost cells = plan.cells@;
        let ghost positions = positions_of_slots(cells, rs as nat);
        assert(plan.positions@ =~= positions);
        while (self.page_bytes.len() as u64) < plan.pages
            invariant
                self.metadata == start.metadata,
                self.ledger == start.ledger,
                self.pages == start.pages,
                self.indexes == start.indexes,
                self.page_bytes@.len() <= plan.pages,
                self.page_bytes@.len() >= start.pages,
                forall|p: int| 0 <= p < start.pages ==> #[trigger] self.page_bytes@[p] == start.page_bytes@[p],
                forall|p: int| 0 <= p < self.page_bytes@.len() ==> (#[trigger] self.page_bytes@[p])@.len() == 4096,
            decreases plan.pages - self.page_bytes@.len(),
        {
            self.page_bytes.push(zero_page());
        }
        let mut i: usize = 0;
        while i < plan.bytes.len()
            invariant
                i <= records@.len(),
                self.metadata == start.metadata,
                self.ledger == start.ledger,
                self.pages == start.pages,
                self.indexes == start.indexes,
                self.page_bytes@.len() == plan.pages,
                forall|p: int| 0 <= p < self.page_bytes@.len() ==> (#[trigger] self.page_bytes@[p])@.len() == 4096,
                forall|j: int|
                    0 <= j < i ==> #[trigger] self.page_bytes@[cells[j].0 as int]@.subrange(
                        positions[j].cell as int,
                        positions[j].cell + rs,
                    ) == record_encoding(records@[j]@),
                forall|pos: DataPosition|
                    #[trigger] is_live(start.ledger@, start.pages as nat, rs as nat, pos) ==> self.page_bytes@[pos.page as int]@.subrange(
                        pos.cell as int,
                        pos.cell + rs,
                    ) == start.page_bytes@[pos.page as int]@.subrange(pos.cell as int, pos.cell + rs),
            decreases records@.len() - i,
        {
            let pos = plan.positions[i];
            proof {
                lemma_slot_offset(cells[i as int].1 as nat, rs as nat);
            }
            let ghost before = self.page_bytes@;
            write_record(&mut self.page_bytes, pos.page as usize, pos.cell as usize, &plan.bytes[i]);
            proof {
                assert(pos == positions[i as int]);
                assert(pos.page == cells[i as int].0);
                assert forall|j: int| 0 <= j < i + 1 implies #[trigger] self.page_bytes@[cells[j].0 as int]@.subrange(
                    positions[j].cell as int,
                    positions[j].cell + rs,
                ) == record_encoding(records@[j]@) by {
                    let pj = cells[j].0 as int;
                    if j == i {
                        assert(self.page_bytes@[pj]@.subrange(positions[j].cell as int, positions[j].cell + rs)
                            =~= plan.bytes@[j]@);
                    } else if pj != pos.page {
                        assert(self.page_bytes@[pj] == before[pj]);
                    } else {
                        assert(crate::ledger::slot_lt(cells[j], cells[i as int]));
                        lemma_slot_offset(cells[j].1 as nat, rs as nat);
                        lemma_disjoint_slots(cells[j].1 as nat, cells[i as int].1 as nat, rs as nat);
                        assert(self.page_bytes@[pj]@.subrange(positions[j].cell as int, positions[j].cell + rs)
                            =~= before[pj]@.subrange(positions[j].cell as int, positions[j].cell + rs));
                    }
                }
                assert forall|q: DataPosition|
                    #[trigger] is_live(start.ledger@, start.pages as nat, rs as nat, q) implies self.page_bytes@[q.page as int]@.subrange(
                        q.cell as int,
                        q.cell + rs,
                    ) == start.page_bytes@[q.page as int]@.subrange(q.cell as int, q.cell + rs) by {
                    let pq = q.page as int;
                    let sq = q.cell as nat / rs as nat;
                    crate::engine::lemma_cell_slot(q.cell as nat, rs as nat);
                    lemma_slot_offset(sq, rs as nat);
                    if pq != pos.page {
                        assert(self.page_bytes@[pq] == before[pq]);
                    } else {
                        let si = cells[i as int].1 as nat;
                        assert(crate::ledger::free_after_growth(start.ledger@, start.pages as nat, slots_for(rs as nat), cells[i as int].0 as int, cells[i as int].1 as int));
                        assert(si != sq);
                        if si < sq {
                            lemma_disjoint_slots(si, sq, rs as nat);
                        } else {
                            lemma_disjoint_slots(sq, si, rs as nat);
                        }
                        assert(self.page_bytes@[pq]@.subrange(q.cell as int, q.cell + rs)
                            =~= before[pq]@.subrange(q.cell as int, q.cell + rs));
                    }
                }
            }
            i = i + 1;
        }
        let ghost written = self.page_bytes;
        let mut k: usize = 0;
        while k < self.indexes.len()
            invariant
                k <= self.indexes@.len(),
                self.metadata == start.metadata,
                self.ledger == start.ledger,
                self.pages == start.pages,
                self.page_bytes == written,
                self.indexes@.len() == start.indexes@.len(),
                forall|m: int| 0 <= m < self.indexes@.len() ==> (#[trigger] self.indexes@[m]).wf(),
                forall|m: int, w: ValueModel|
                    0 <= m < k ==> #[trigger] self.indexes@[m].lookup(w) == start.indexes@[m].lookup(w)
                        + positions_holding(
                        field_values(records@, start.metadata.spec_indexes()[m] as int),
                        positions,
                        w,
                    ),
                forall|m: int| k <= m < self.indexes@.len() ==> #[trigger] self.indexes@[m] == start.indexes@[m],
            decreases self.indexes@.len() - k,
        {
            let field: usize = idx[k] as usize;
            proof {
                assert forall|j: int| 0 <= j < records@.len() implies field < (#[trigger] records@[j])@.len() by {
                    assert(conforms(self.metadata.spec_fields(), records@[j]@));
                }
            }
            let ghost before = self.indexes@;
            let mut ix = self.indexes.remove(k);
            index_records(&mut ix, field, records, &plan.positions);
            self.indexes.insert(k, ix);
            proof {
                assert forall|m: int| 0 <= m < self.indexes@.len() && m != k implies #[trigger] self.indexes@[m] == before[m] by {
                }
            }
            k = k + 1;
        }
        self.ledger = plan.ledger;
        self.pages = plan.pages;
        assert(inserted(start, *self, records@, cells));
        proof {
            if consistent(start) {
                lemma_insert_consistent(start, *self, records@, cells);
            }
        }
        Ok(())
    }

    /// The records the filters select, in (page, cell) order. A filter must
    /// name a field (else an unknown field) and compare by equality (else an
    /// unsupported filter); a selected record that cannot be read is corrupted
    /// data or a truncated buffer.
    pub fn get_records(&self, filters: &[FilterOption]) -> (r: Result<Vec<Vec<Type>>, DbError>)
        requires
            self.wf(),
        ensures
            ({
                let known = forall|j: int|
                    0 <= j < filters@.len() ==> has_field(
                        self.metadata.spec_fields(),
                        (#[trigger] filters@[j]).spec_field().name@,
                    );
                let equal = forall|j: int|
                    0 <= j < filters@.len() ==> (#[trigger] filters@[j]).spec_filter() == Filter::Equal;
                &&& !known <==> r == Err::<Vec<Vec<Type>>, DbError>(DbError::UnknownField)
                &&& known && !equal <==> r == Err::<Vec<Vec<Type>>, DbError>(DbError::UnsupportedFilter)
                &&& r matches Err(e) ==> e == DbError::UnknownField || e == DbError::UnsupportedFilter || e
                    == DbError::CorruptedData || e == DbError::TruncatedBuffer
            }),
            r matches Ok(recs) ==> exists|ps: Seq<DataPosition>| #[trigger] found(*self, filters@, ps, recs@),
            r is Ok <==> filters_ok(*self, filters@) && selection_readable(*self, filters@),
            consistent(*self) && filters_ok(*self, filters@) ==> r is Ok,
    {
        proof {
            if consistent(*self) {
                lemma_consistent_readable(*self, filters@);
            }
        }
        let ps = match resolve(
            &self.metadata,
            self.ledger.as_slice(),
            self.pages,
            filters,
            self.indexes.as_slice(),
            self.page_bytes.as_slice(),
        ) {
            Ok(ps) => ps,
            Err(e) => {
                return Err(e);
            },
        };
        let shapes = field_shapes(&self.metadata);
        proof {
            lemma_selection_readable(*self, filters@, ps@);
        }
        match records_at(self.page_bytes.as_slice(), shapes.as_slice(), ps.as_slice()) {
            Ok(recs) => {
                assert(found(*self, filters@, ps@, recs@));
                Ok(recs)
            },
            Err(e) => Err(e),
        }
    }

    /// Deletes the records the filters select: their slots become free (runs
    /// merged), and no index lists their positions under their values any
    /// more. Errors are those of `get_records`, and leave the table as it was.
    #[verifier::loop_isolation(false)]
    pub fn delete_records(&mut self, filters: &[FilterOption]) -> (r: Result<(), DbError>)
        requires
            old(self).wf(),
        ensures
            final(self).wf(),
            ({
                let known = forall|j: int|
                    0 <= j < filters@.len() ==> has_field(
                        old(self).metadata.spec_fields(),
                        (#[trigger] filters@[j]).spec_field().name@,
                    );
                let equal = forall|j: int|
                    0 <= j < filters@.len() ==> (#[trigger] filters@[j]).spec_filter() == Filter::Equal;
                &&& !known <==> r == Err::<(), DbError>(DbError::UnknownField)
                &&& known && !equal <==> r == Err::<(), DbError>(DbError::UnsupportedFilter)
                &&& r matches Err(e) ==> (e == DbError::UnknownField || e == DbError::UnsupportedFilter || e
                    == DbError::CorruptedData || e == DbError::TruncatedBuffer) && *final(self) == *old(self)
            }),
            r is Ok ==> exists|ps: Seq<DataPosition>, recs: Seq<Vec<Type>>| #[trigger] removed(
                *old(self),
                *final(self),
                filters@,
                ps,
                recs,
            ),
            consistent(*old(self)) ==> consistent(*final(self)),
            r is Ok <==> filters_ok(*old(self), filters@) && selection_readable(*old(self), filters@),
            consistent(*old(self)) && filters_ok(*old(self), filters@) ==> r is Ok,
    {
        proof {
            if consistent(*self) {
                lemma_consistent_readable(*self, filters@);
            }
        }
        let ghost start = *self;
        let ps = match resolve(
            &self.metadata,
            self.ledger.as_slice(),
            self.pages,
            filters,
            self.indexes.as_slice(),
            self.page_bytes.as_slice(),
        ) {
            Ok(ps) => ps,
            Err(e) => {
                return Err(e);
            },
        };
        let shapes = field_shapes(&self.metadata);
        proof {
            lemma_selection_readable(*self, filters@, ps@);
        }
        let recs = match records_at(self.page_bytes.as_slice(), shapes.as_slice(), ps.as_slice()) {
            Ok(recs) => recs,
            Err(e) => {
                return Err(e);
            },
        };
        assert(found(start, filters@, ps@, recs@));
        let rs: u16 = self.metadata.record_size();
        let slots: u16 = slots_per_page(rs);
        let ghost slot_map = |p: DataPosition| slot_at(p, rs as nat);
        let mut cells: Vec<(u16, u16)> = Vec::new();
        let mut i: usize = 0;
        while i < ps.len()
            invariant
                i <= ps@.len(),
                *self == start,
                cells@ == ps@.take(i as int).map_values(slot_map),
                forall|j: int| 0 <= j < cells@.len() ==> (#[trigger] cells@[j]).0 < self.pages && cells@[j].1 < slots,
            decreases ps@.len() - i,
        {
            let pos = ps[i];
            assert(ps@.contains(pos));
            let c = (pos.page as u16, pos.cell / rs);
            cells.push(c);
            i = i + 1;
            assert(cells@ =~= ps@.take(i as int).map_values(slot_map));
        }
        assert(ps@.take(i as int) =~= ps@);
        let idx = self.metadata.indexes_idx();
        let mut k: usize = 0;
        while k < self.indexes.len()
            invariant
                k <= self.indexes@.len(),
                self.metadata == start.metadata,
                self.ledger == start.ledger,
                self.pages == start.pages,
                self.page_bytes == start.page_bytes,
                self.indexes@.len() == start.indexes@.len(),
                forall|m: int| 0 <= m < self.indexes@.len() ==> (#[trigger] self.indexes@[m]).wf(),
                forall|m: int, w: ValueModel|
                    0 <= m < k ==> #[trigger] self.indexes@[m].lookup(w) == if field_values(
                        recs@,
                        start.metadata.spec_indexes()[m] as int,
                    ).contains(w) {
                        without(start.indexes@[m].lookup(w), ps@)
                    } else {
                        start.indexes@[m].lookup(w)
                    },
                forall|m: int| k <= m < self.indexes@.len() ==> #[trigger] self.indexes@[m] == start.indexes@[m],
            decreases self.indexes@.len() - k,
        {
            let field: usize = idx[k] as usize;
            proof {
                assert forall|j: int| 0 <= j < recs@.len() implies field < (#[trigger] recs@[j])@.len() by {
                    assert(record_view(recs@[j]@).len() == recs@[j]@.len());
                }
            }
            let ghost before = self.indexes@;
            let mut ix = self.indexes.remove(k);
            unindex_records(&mut ix, field, recs.as_slice(), ps.as_slice());
            self.indexes.insert(k, ix);
            proof {
                assert forall|m: int| 0 <= m < self.indexes@.len() && m != k implies #[trigger] self.indexes@[m] == before[m] by {
                }
            }
            k = k + 1;
        }
        let ledger = reclaim(self.ledger.as_slice(), cells.as_slice(), self.pages, slots);
        self.ledger = ledger;
        assert(removed(start, *self, filters@, ps@, recs@));
        proof {
            if consistent(start) {
                lemma_delete_consistent(start, *self, filters@, ps@, recs@);
            }
        }
        Ok(())
    }

    /// A table from its parts as read from storage. Fails, as corrupted data,
    /// when the page count passes 65536, the ledger is not well formed for it,
    /// a page is not 4096 bytes, or there is not one well-formed index per
    /// indexed field.
    pub fn assemble(
        metadata: TableMetadata,
        ledger: Vec<FreeSpace>,
        pages: u64,
        page_bytes: Vec<Vec<u8>>,
        indexes: Vec<Index>,
    ) -> (r: Result<Table, DbError>)
        requires
            metadata.wf(),
            forall|k: int| 0 <= k < indexes@.len() ==> (#[trigger] indexes@[k]).wf(),
        ensures
            r matches Ok(t) ==> t.wf() && t.metadata == metadata && t.ledger == ledger && t.pages == pages
                && t.page_bytes == page_bytes && t.indexes == indexes,
            r is Ok <==> (pages <= 65536 && ledger_wf(
                ledger@,
                pages as nat,
                slots_for(metadata.spec_record_size() as nat),
            ) && page_bytes@.len() == pages && (forall|p: int|
                0 <= p < pages ==> (#[trigger] page_bytes@[p])@.len() == 4096)
                && indexes@.len() == metadata.spec_indexes().len()),
            r matches Err(e) ==> e == DbError::CorruptedData,
    {
        let slots = slots_per_page(metadata.record_size());
        if pages > 65536 || !crate::ledger::check_ledger(ledger.as_slice(), pages, slots) {
            return Err(DbError::CorruptedData);
        }
        if page_bytes.len() as u64 != pages || indexes.len() != metadata.indexes_idx().len() {
            return Err(DbError::CorruptedData);
        }
        let mut p: usize = 0;
        while p < page_bytes.len()
            invariant
                p <= page_bytes@.len(),
                forall|q: int| 0 <= q < p ==> (#[trigger] page_bytes@[q])@.len() == 4096,
            decreases page_bytes@.len() - p,
        {
            if page_bytes[p].len() != 4096 {
                return Err(DbError::CorruptedData);
            }
            p = p + 1;
        }
        Ok(Table { metadata, ledger, pages, page_bytes, indexes })
    }

    /// Sets field `field` of every record the filters select to `value`, in
    /// place. The field must exist (else an unknown field) and `value` must
    /// have its type and width (else an invalid schema); filter errors are
    /// those of `get_records`. Changing the primary key of more than one
    /// record, or to a value the primary-key index lists another position
    /// for, is a unique-constraint violation. Every error leaves the table as
    /// it was.
    #[verifier::loop_isolation(false)]
    #[verifier::rlimit(50)]
    pub fn change_records(&mut self, filters: &[FilterOption], field: u16, value: &Type) -> (r: Result<
        (),
        DbError,
    >)
        requires
            old(self).wf(),
        ensures
            final(self).wf(),
            r matches Err(e) ==> *final(self) == *old(self),
            field >= old(self).metadata.spec_fields().len() ==> r == Err::<(), DbError>(DbError::UnknownField),
            field < old(self).metadata.spec_fields().len() && (value.tag() != old(self).metadata.spec_fields()[field as int].type_.tag()
                || value.width() != old(self).metadata.spec_fields()[field as int].type_.width() || !value.round_trips()) ==> r == Err::<
                (),
                DbError,
            >(DbError::InvalidSchema),
            r is Ok ==> exists|ps: Seq<DataPosition>, recs: Seq<Vec<Type>>| #[trigger] changed(
                *old(self),
                *final(self),
                filters@,
                field as int,
                *value,
                ps,
                recs,
            ),
            consistent(*old(self)) ==> consistent(*final(self)),
            r is Ok <==> (field < old(self).metadata.spec_fields().len() && value.tag() == old(self).metadata.spec_fields()[field as int].type_.tag()
                && value.width() == old(self).metadata.spec_fields()[field as int].type_.width() && value.round_trips()
                && filters_ok(*old(self), filters@) && selection_readable(*old(self), filters@) && (field
                == old(self).metadata.spec_primary_key() ==> pk_change_ok(*old(self), filters@, *value))),
            r is Ok && field == old(self).metadata.spec_primary_key() ==> forall|ps: Seq<DataPosition>, recs: Seq<Vec<Type>>|
                #[trigger] found(*old(self), filters@, ps, recs) ==> ps.len() <= 1 && forall|q: DataPosition|
                    old(self).pk_index().lookup(value@).contains(q) ==> ps.contains(q),
    {
        let ghost start = *self;
        let fields = self.metadata.fields();
        let fi: usize = field as usize;
        if fi >= fields.len() {
            return Err(DbError::UnknownField);
        }
        if value.type_id() != fields[fi].type_.type_id() || value.size() != fields[fi].type_.size() || !value.fits() {
            return Err(DbError::InvalidSchema);
        }
        let ps = match resolve(
            &self.metadata,
            self.ledger.as_slice(),
            self.pages,
            filters,
            self.indexes.as_slice(),
            self.page_bytes.as_slice(),
        ) {
            Ok(ps) => ps,
            Err(e) => {
                return Err(e);
            },
        };
        let shapes = field_shapes(&self.metadata);
        proof {
            lemma_selection_readable(*self, filters@, ps@);
        }
        let recs = match records_at(self.page_bytes.as_slice(), shapes.as_slice(), ps.as_slice()) {
            Ok(recs) => recs,
            Err(e) => {
                return Err(e);
            },
        };
        assert(found(start, filters@, ps@, recs@));
        let idx = self.metadata.indexes_idx();
        if field == self.metadata.primary_key() {
            if ps.len() > 1 {
                proof {
                    assert(ps@.contains(ps@[0]) && ps@.contains(ps@[1]));
                    assert(crate::engine::pos_lt(ps@[0], ps@[1]));
                    assert(!pk_change_ok(start, filters@, *value));
                }
                return Err(DbError::UniqueConstraintViolation);
            }
            proof {
                let ix = self.metadata.spec_indexes();
                let j = choose|j: int| 0 <= j < ix.len() && ix[j] == field;
                assert(is_indexed(ix, field as int));
                lemma_first_slot_exists(ix, field as int);
            }
            let slot: usize = match find_slot(idx, fi) {
                Some(k) => k,
                None => {
                    return Err(DbError::CorruptedData);
                },
            };
            proof {
                lemma_first_slot_unique(self.metadata.spec_indexes(), field as int, slot as int);
            }
            let listed = self.indexes[slot].positions_of(value);
            let mut j: usize = 0;
            while j < listed.len()
                invariant
                    j <= listed@.len(),
                    *self == start,
                    forall|a: int| 0 <= a < j ==> ps@.contains(#[trigger] listed@[a]),
                decreases listed@.len() - j,
            {
                if ps.len() == 0 || listed[j] != ps[0] {
                    proof {
                        let q = listed@[j as int];
                        assert(start.pk_index().lookup(value@).contains(q));
                        if selected(start.metadata, start.ledger@, start.pages as nat, start.indexes@, start.page_bytes@, filters@, q) {
                            assert(ps@.contains(q));
                        }
                        assert(!pk_change_ok(start, filters@, *value));
                    }
                    return Err(DbError::UniqueConstraintViolation);
                }
                assert(ps@.contains(listed@[j as int])) by {
                    assert(ps@[0] == listed@[j as int]);
                }
                j = j + 1;
            }
            proof {
                assert forall|q: DataPosition| start.pk_index().lookup(value@).contains(q) implies ps@.contains(q) by {
                    let a = choose|a: int| 0 <= a < listed@.len() && listed@[a] == q;
                }
                assert forall|ps2: Seq<DataPosition>, recs2: Seq<Vec<Type>>| #[trigger] found(start, filters@, ps2, recs2) implies ps2.len() <= 1
                    && forall|q: DataPosition| start.pk_index().lookup(value@).contains(q) ==> ps2.contains(q) by {
                    lemma_same_selection(start, filters@, ps@, recs@, ps2, recs2);
                }
                assert forall|a: DataPosition, b: DataPosition|
                    #[trigger] selected(start.metadata, start.ledger@, start.pages as nat, start.indexes@, start.page_bytes@, filters@, a)
                        && #[trigger] selected(start.metadata, start.ledger@, start.pages as nat, start.indexes@, start.page_bytes@, filters@, b)
                        implies a == b by {
                    assert(ps@.contains(a) && ps@.contains(b));
                    let ia = choose|i: int| 0 <= i < ps@.len() && ps@[i] == a;
                    let ib = choose|i: int| 0 <= i < ps@.len() && ps@[i] == b;
                }
                assert forall|q: DataPosition| #[trigger] start.pk_index().lookup(value@).contains(q) implies selected(
                    start.metadata, start.ledger@, start.pages as nat, start.indexes@, start.page_bytes@, filters@, q) by {
                    assert(ps@.contains(q));
                }
            }
        }
        // indexes of the changed field
        let mut k: usize = 0;
        while k < self.indexes.len()
            invariant
                k <= self.indexes@.len(),
                self.metadata == start.metadata,
                self.ledger == start.ledger,
                self.pages == start.pages,
                self.page_bytes == start.page_bytes,
                self.indexes@.len() == start.indexes@.len(),
                forall|m: int| 0 <= m < self.indexes@.len() ==> (#[trigger] self.indexes@[m]).wf(),
                forall|m: int, w: ValueModel|
                    0 <= m < k ==> #[trigger] self.indexes@[m].lookup(w) == if start.metadata.spec_indexes()[m]
                        == field {
                        (if field_values(recs@, field as int).contains(w) {
                            without(start.indexes@[m].lookup(w), ps@)
                        } else {
                            start.indexes@[m].lookup(w)
                        }) + (if w == value@ {
                            ps@
                        } else {
                            Seq::empty()
                        })
                    } else {
                        start.indexes@[m].lookup(w)
                    },
                forall|m: int| k <= m < self.indexes@.len() ==> #[trigger] self.indexes@[m] == start.indexes@[m],
            decreases self.indexes@.len() - k,
        {
            if idx[k] == field {
                proof {
                    assert forall|j: int| 0 <= j < recs@.len() implies fi < (#[trigger] recs@[j])@.len() by {
                        assert(record_view(recs@[j]@).len() == recs@[j]@.len());
                    }
                }
                let ghost before = self.indexes@;
                let mut ix = self.indexes.remove(k);
                unindex_records(&mut ix, fi, recs.as_slice(), ps.as_slice());
                let ghost cleared = ix;
                let mut i: usize = 0;
                while i < ps.len()
                    invariant
                        i <= ps@.len(),
                        ix.wf(),
                        forall|w: ValueModel| #[trigger] ix.lookup(w) == cleared.lookup(w) + (if w == value@ {
                            ps@.take(i as int)
                        } else {
                            Seq::empty()
                        }),
                    decreases ps@.len() - i,
                {
                    ix.insert(value, ps[i]);
                    proof {
                        assert(ps@.take(i + 1) =~= ps@.take(i as int).push(ps@[i as int]));
                        assert forall|w: ValueModel| #[trigger] ix.lookup(w) == cleared.lookup(w) + (if w == value@ {
                            ps@.take(i + 1)
                        } else {
                            Seq::empty()
                        }) by {
                            if w == value@ {
                                assert(cleared.lookup(w) + ps@.take(i + 1) =~= (cleared.lookup(w) + ps@.take(i as int)).push(ps@[i as int]));
                            }
                        }
                    }
                    i = i + 1;
                }
                assert(ps@.take(i as int) =~= ps@);
                self.indexes.insert(k, ix);
                proof {
                    assert forall|m: int| 0 <= m < self.indexes@.len() && m != k implies #[trigger] self.indexes@[m] == before[m] by {
                    }
                    assert forall|w: ValueModel| #[trigger] self.indexes@[k as int].lookup(w) == (if field_values(recs@, field as int).contains(w) {
                            without(start.indexes@[k as int].lookup(w), ps@)
                        } else {
                            start.indexes@[k as int].lookup(w)
                        }) + (if w == value@ {
                            ps@
                        } else {
                            Seq::empty()
                        }) by {
                        if w != value@ {
                            assert(cleared.lookup(w) + Seq::<DataPosition>::empty() =~= cleared.lookup(w));
                        }
                    }
                }
            } else {
                proof {
                    assert forall|w: ValueModel| #[trigger] self.indexes@[k as int].lookup(w) == start.indexes@[k as int].lookup(w) by {
                    }
                }
            }
            k = k + 1;
        }
        // the records' bytes
        let bytes = value.serialize();
        proof {
            lemma_encoding_len(*value);
            lemma_record_width_monotone(shapes@, fi + 1);
            assert(shapes@.take(fi + 1).drop_last() =~= shapes@.take(fi as int));
            assert(shapes@.take(fi + 1).last() == shapes@[fi as int]);
        }
        let off: usize = offset_of(shapes.as_slice(), fi);
        let ghost indexes_done = self.indexes;
        let mut i: usize = 0;
        while i < ps.len()
            invariant
                i <= ps@.len(),
                self.metadata == start.metadata,
                self.ledger == start.ledger,
                self.pages == start.pages,
                self.indexes == indexes_done,
                self.page_bytes@.len() == start.page_bytes@.len(),
                forall|p: int| 0 <= p < self.page_bytes@.len() ==> (#[trigger] self.page_bytes@[p])@.len() == 4096,
                off == field_offset(shapes@, fi as int),
                off + bytes@.len() <= record_width(shapes@),
                bytes@ == value.encoding(),
                forall|j: int|
                    0 <= j < i ==> #[trigger] self.page_bytes@[ps@[j].page as int]@.subrange(
                        ps@[j].cell + off,
                        ps@[j].cell + off + value.width(),
                    ) == value.encoding(),
                forall|p: int| 0 <= p < self.page_bytes@.len() ==> (#[trigger] self.page_bytes@[p])@.len() == start.page_bytes@[p]@.len(),
                forall|q: DataPosition|
                    #[trigger] is_live(start.ledger@, start.pages as nat, start.metadata.spec_record_size() as nat, q)
                        ==> window(self.page_bytes@, q, start.metadata.spec_record_size() as nat) == if ps@.take(i as int).contains(q) {
                        patched(window(start.page_bytes@, q, start.metadata.spec_record_size() as nat), off as nat, value.encoding())
                    } else {
                        window(start.page_bytes@, q, start.metadata.spec_record_size() as nat)
                    },
            decreases ps@.len() - i,
        {
            let pos = ps[i];
            proof {
                assert(ps@.contains(pos));
                assert(is_live(start.ledger@, start.pages as nat, start.metadata.spec_record_size() as nat, pos));
                lemma_slot_offset(pos.cell as nat / start.metadata.spec_record_size() as nat, start.metadata.spec_record_size() as nat);
                crate::engine::lemma_cell_slot(pos.cell as nat, start.metadata.spec_record_size() as nat);
            }
            let ghost before = self.page_bytes@;
            write_record(&mut self.page_bytes, pos.page as usize, pos.cell as usize + off, &bytes);
            proof {
                assert forall|j: int| 0 <= j < i + 1 implies #[trigger] self.page_bytes@[ps@[j].page as int]@.subrange(
                    ps@[j].cell + off,
                    ps@[j].cell + off + value.width(),
                ) == value.encoding() by {
                    let pj = ps@[j].page as int;
                    if j == i {
                        assert(self.page_bytes@[pj]@.subrange(ps@[j].cell + off, ps@[j].cell + off + value.width())
                            =~= bytes@);
                    } else if pj != pos.page {
                        assert(self.page_bytes@[pj] == before[pj]);
                    } else {
                        let rs = start.metadata.spec_record_size() as nat;
                        assert(crate::engine::pos_lt(ps@[j], pos));
                        assert(ps@.contains(ps@[j]));
                        crate::engine::lemma_cell_slot(ps@[j].cell as nat, rs);
                        crate::engine::lemma_cell_slot(pos.cell as nat, rs);
                        let a = ps@[j].cell as nat / rs;
                        let b = pos.cell as nat / rs;
                        assert(a < b) by (nonlinear_arith)
                            requires
                                a * rs < b * rs,
                                1 <= rs,
                        ;
                        lemma_disjoint_slots(a, b, rs);
                        assert(self.page_bytes@[pj]@.subrange(ps@[j].cell + off, ps@[j].cell + off + value.width())
                            =~= before[pj]@.subrange(ps@[j].cell + off, ps@[j].cell + off + value.width()));
                    }
                }
                let rs = start.metadata.spec_record_size() as nat;
                assert(ps@.take(i + 1) =~= ps@.take(i as int).push(pos));
                assert forall|q: DataPosition|
                    #[trigger] is_live(start.ledger@, start.pages as nat, rs, q)
                        implies window(self.page_bytes@, q, rs) == if ps@.take(i + 1).contains(q) {
                        patched(window(start.page_bytes@, q, rs), off as nat, value.encoding())
                    } else {
                        window(start.page_bytes@, q, rs)
                    } by {
                    crate::ledger::lemma_push_contains(ps@.take(i as int), pos, q);
                    let pq = q.page as int;
                    lemma_cell_slot(q.cell as nat, rs);
                    lemma_slot_offset(q.cell as nat / rs, rs);
                    if q == pos {
                        if ps@.take(i as int).contains(q) {
                            let a = choose|a: int| 0 <= a < i && ps@.take(i as int)[a] == q;
                            assert(ps@[a] == ps@[i as int]);
                            assert(crate::engine::pos_lt(ps@[a], ps@[i as int]));
                        }
                        assert(window(self.page_bytes@, q, rs) =~= patched(window(before, q, rs), off as nat, value.encoding()));
                    } else if pq != pos.page {
                        assert(self.page_bytes@[pq] == before[pq]);
                    } else {
                        let a = q.cell as nat / rs;
                        let b = pos.cell as nat / rs;
                        assert(a != b);
                        if a < b {
                            lemma_disjoint_slots(a, b, rs);
                        } else {
                            lemma_disjoint_slots(b, a, rs);
                        }
                        assert(window(self.page_bytes@, q, rs) =~= window(before, q, rs));
                    }
                }
            }
            i = i + 1;
        }
        assert(ps@.take(i as int) =~= ps@);
        assert(changed(start, *self, filters@, field as int, *value, ps@, recs@));
        proof {
            if consistent(start) {
                lemma_change_consistent(start, *self, filters@, field as int, *value, ps@, recs@);
            }
        }
        Ok(())
    }

    /// Empties the table: one page, all of it free, and empty indexes.
    pub fn clear(&mut self)
        requires
            old(self).wf(),
        ensures
            final(self).wf(),
            final(self).metadata == old(self).metadata,
            final(self).pages == 1,
            forall|q: int, s: int| #[trigger] covers(final(self).ledger@, q, s) <==> (q == 0 && 0 <= s < slots_for(
                old(self).metadata.spec_record_size() as nat,
            )),
            forall|k: int, w: ValueModel|
                0 <= k < final(self).indexes@.len() ==> #[trigger] final(self).indexes@[k].lookup(w) == Seq::<
                    DataPosition,
                >::empty(),
            consistent(*final(self)),
    {
        let slots = slots_per_page(self.metadata.record_size());
        self.ledger = initial_ledger(slots);
        self.pages = 1;
        let mut page_bytes: Vec<Vec<u8>> = Vec::new();
        page_bytes.push(zero_page());
        self.page_bytes = page_bytes;
        self.indexes = empty_indexes(self.metadata.indexes_idx().len());
        proof {
            lemma_empty_consistent(*self);
        }
    }
}

/// The persisted page count: eight bytes, little-endian.
pub fn page_count_bytes(pages: u64) -> (r: Vec<u8>)
    ensures
        r@ == le_bytes(pages as nat, 8),
{
    let mut out: Vec<u8> = Vec::new();
    push_le(&mut out, pages as u128, 8);
    assert(out@ =~= le_bytes(pages as nat, 8));
    out
}

/// Reads a persisted page count; anything but eight bytes is corrupted data.
pub fn read_page_count(data: &[u8]) -> (r: Result<u64, DbError>)
    ensures
        data@.len() == 8 <==> r is Ok,
        r matches Ok(n) ==> n as nat == le_value(data@),
        r matches Err(e) ==> e == DbError::CorruptedData,
{
    if data.len() != 8 {
        return Err(DbError::CorruptedData);
    }
    let v: u128 = read_le(data, 0, 8);
    proof {
        assert(data@.subrange(0, 8) =~= data@);
        lemma_le_value_bound(data@);
        lemma_pow256_values();
    }
    Ok(v as u64)
}

} // verus!
