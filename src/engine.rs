//! The table engine's decisions: where a batch of records goes, which records
//! a list of filters selects, and what deleting them does to the ledger and
//! the indexes. Reading and writing the table's files is left to the caller.
use crate::dbtype::{
    decoded_record, deserialize_value, record_encoding, record_readable, record_view, record_width,
    serialize_values, Type, ValueModel,
};
use crate::error::DbError;
use crate::field::Field;
use crate::free_space::FreeSpace;
use crate::index::{contains_position, without, Index};
use crate::filters::{Filter, FilterOption};
use crate::ledger::{allocate, allocated, capacity, covers, ledger_wf, live_slots};
use crate::position::DataPosition;
use crate::table_metadata::{shapes_of, TableMetadata};
use vstd::prelude::*;
use vstd::slice::slice_subrange;

verus! {

/// The number of records a page of 4096 bytes holds.
pub open spec fn slots_for(record_size: nat) -> nat {
    4096nat / record_size
}

pub fn slots_per_page(record_size: u16) -> (r: u16)
    requires
        1 <= record_size <= 4096,
    ensures
        r == slots_for(record_size as nat),
        1 <= r <= 4096,
{
    assert(4096int / (record_size as int) >= 1) by (nonlinear_arith)
        requires
            1 <= record_size <= 4096,
    ;
    4096 / record_size
}

pub proof fn lemma_slot_offset(s: nat, rs: nat)
    requires
        1 <= rs <= 4096,
        s < slots_for(rs),
    ensures
        s * rs + rs <= 4096,
{
    let q = 4096nat / rs;
    vstd::arithmetic::div_mod::lemma_fundamental_div_mod(4096, rs as int);
    assert(s * rs + rs <= q * rs) by (nonlinear_arith)
        requires
            s + 1 <= q,
    ;
    assert(q * rs <= 4096) by (nonlinear_arith)
        requires
            4096int == rs * q + 4096int % (rs as int),
            4096int % (rs as int) >= 0,
    ;
}

/// The position of slot `slot.1` of page `slot.0` with records of `rs` bytes.
pub open spec fn position_of(slot: (u16, u16), rs: nat) -> DataPosition {
    DataPosition { page: slot.0 as u64, cell: (slot.1 as nat * rs) as u16 }
}

/// Whether `pos` is the start of a slot the ledger does not cover.
pub open spec fn is_live(ledger: Seq<FreeSpace>, pages: nat, rs: nat, pos: DataPosition) -> bool {
    &&& pos.page < pages
    &&& pos.cell as nat % rs == 0
    &&& pos.cell as nat / rs < slots_for(rs)
    &&& !covers(ledger, pos.page as int, (pos.cell as nat / rs) as int)
}

/// Whether a record fits the schema: one value per field, each of the
/// field's type and width, each read back unchanged from its bytes (a
/// varchar's text fits its width and does not end in NUL).
pub open spec fn conforms(fields: Seq<Field>, rec: Seq<Type>) -> bool {
    &&& rec.len() == fields.len()
    &&& forall|i: int|
        0 <= i < rec.len() ==> (#[trigger] rec[i]).tag() == fields[i].type_.tag() && rec[i].width()
            == fields[i].type_.width() && rec[i].round_trips()
}

/// Whether some record of the batch repeats a primary-key value the index
/// already lists a position for.
pub open spec fn repeats_key(pk_index: Index, records: Seq<Vec<Type>>, pk: int) -> bool {
    exists|i: int| 0 <= i < records.len() && pk_index.lookup((#[trigger] records[i])@[pk]@).len() > 0
}

/// What inserting a batch does: the ledger and page count after it, the slot
/// and position of each record, and the bytes to write there.
pub struct InsertPlan {
    pub ledger: Vec<FreeSpace>,
    pub pages: u64,
    pub cells: Vec<(u16, u16)>,
    pub positions: Vec<DataPosition>,
    pub bytes: Vec<Vec<u8>>,
}

fn conforms_exec(fields: &[Field], rec: &Vec<Type>) -> (r: bool)
    ensures
        r == conforms(fields@, rec@),
{
    if rec.len() != fields.len() {
        return false;
    }
    let mut i: usize = 0;
    while i < rec.len()
        invariant
            i <= rec@.len(),
            rec@.len() == fields@.len(),
            forall|j: int|
                0 <= j < i ==> (#[trigger] rec@[j]).tag() == fields@[j].type_.tag() && rec@[j].width()
                    == fields@[j].type_.width() && rec@[j].round_trips(),
        decreases rec@.len() - i,
    {
        if rec[i].type_id() != fields[i].type_.type_id() || rec[i].size() != fields[i].type_.size() {
            return false;
        }
        if !rec[i].fits() {
            return false;
        }
        i = i + 1;
    }
    true
}

/// Plans the insertion of a batch. The ledger read from disk must be well
/// formed for the page count (else corrupted data); every record must fit the
/// schema (else an invalid schema); no record may repeat a primary-key value
/// that the primary-key index lists a position for (else a unique-constraint
/// violation, and nothing is planned). Then the records take the first free
/// slots, new pages being added as `allocate` says, and record `i` is to be
/// written, as its encoding, at `positions[i]`.
#[verifier::loop_isolation(false)]
pub fn plan_insert(
    metadata: &TableMetadata,
    ledger: &[FreeSpace],
    pages: u64,
    pk_index: &Index,
    records: &[Vec<Type>],
) -> (r: Result<InsertPlan, DbError>)
    requires
        metadata.wf(),
        pk_index.wf(),
    ensures
        ({
            let rs = metadata.spec_record_size() as nat;
            let slots = slots_for(rs);
            let ledger_ok = pages <= 65536 && ledger_wf(ledger@, pages as nat, slots);
            let records_ok = forall|i: int|
                0 <= i < records@.len() ==> conforms(metadata.spec_fields(), #[trigger] records@[i]@);
            let unique = !repeats_key(*pk_index, records@, metadata.spec_primary_key() as int);
            &&& !ledger_ok <==> r == Err::<InsertPlan, DbError>(DbError::CorruptedData)
            &&& ledger_ok && !records_ok <==> r == Err::<InsertPlan, DbError>(DbError::InvalidSchema)
            &&& ledger_ok && records_ok && !unique <==> r == Err::<InsertPlan, DbError>(
                DbError::UniqueConstraintViolation,
            )
            &&& ledger_ok && records_ok && unique && records@.len() > capacity(ledger@, pages as nat, slots)
                <==> r == Err::<InsertPlan, DbError>(DbError::TableFull)
            &&& r matches Err(e) ==> e == DbError::CorruptedData || e == DbError::InvalidSchema || e
                == DbError::UniqueConstraintViolation || e == DbError::TableFull
            &&& r matches Ok(plan) ==> {
                &&& allocated(
                    ledger@,
                    pages as nat,
                    slots,
                    records@.len() as nat,
                    plan.ledger@,
                    plan.pages as nat,
                    plan.cells@,
                )
                &&& plan.positions@.len() == records@.len()
                &&& plan.bytes@.len() == records@.len()
                &&& forall|i: int|
                    0 <= i < records@.len() ==> #[trigger] plan.positions@[i] == position_of(
                        plan.cells@[i],
                        rs,
                    ) && plan.bytes@[i]@ == record_encoding(records@[i]@) && plan.bytes@[i]@.len() == rs
            }
        }),
{
    let rs: u16 = metadata.record_size();
    let slots: u16 = slots_per_page(rs);
    if pages > 65536 || !crate::ledger::check_ledger(ledger, pages, slots) {
        return Err(DbError::CorruptedData);
    }
    let fields = metadata.fields();
    let mut i: usize = 0;
    while i < records.len()
        invariant
            i <= records@.len(),
            fields@ == metadata.spec_fields(),
            forall|j: int| 0 <= j < i ==> conforms(metadata.spec_fields(), #[trigger] records@[j]@),
        decreases records@.len() - i,
    {
        if !conforms_exec(fields, &records[i]) {
            return Err(DbError::InvalidSchema);
        }
        i = i + 1;
    }
    let pk: usize = metadata.primary_key() as usize;
    let mut k: usize = 0;
    while k < records.len()
        invariant
            k <= records@.len(),
            metadata.wf(),
            pk == metadata.spec_primary_key(),
            forall|j: int| 0 <= j < records@.len() ==> conforms(metadata.spec_fields(), #[trigger] records@[j]@),
            forall|j: int| 0 <= j < k ==> pk_index.lookup((#[trigger] records@[j])@[pk as int]@).len() == 0,
        decreases records@.len() - k,
    {
        assert(conforms(metadata.spec_fields(), records@[k as int]@));
        if pk_index.positions_of(&records[k][pk]).len() > 0 {
            return Err(DbError::UniqueConstraintViolation);
        }
        k = k + 1;
    }
    let alloc = match allocate(ledger, pages, slots, records.len()) {
        Ok(a) => a,
        Err(e) => {
            return Err(e);
        },
    };
    let mut positions: Vec<DataPosition> = Vec::new();
    let mut bytes: Vec<Vec<u8>> = Vec::new();
    let mut n: usize = 0;
    while n < records.len()
        invariant
            n <= records@.len(),
            alloc.cells@.len() == records@.len(),
            metadata.wf(),
            rs == metadata.spec_record_size(),
            slots == slots_for(rs as nat),
            forall|i: int| 0 <= i < alloc.cells@.len() ==> (#[trigger] alloc.cells@[i]).1 < slots,
            forall|j: int| 0 <= j < records@.len() ==> conforms(metadata.spec_fields(), #[trigger] records@[j]@),
            positions@.len() == n,
            bytes@.len() == n,
            forall|i: int| 0 <= i < n ==> #[trigger] positions@[i] == position_of(alloc.cells@[i], rs as nat),
            forall|i: int| 0 <= i < n ==> (#[trigger] bytes@[i])@ == record_encoding(records@[i]@),
            forall|i: int| 0 <= i < n ==> (#[trigger] bytes@[i])@.len() == rs,
        decreases records@.len() - n,
    {
        let (page, slot) = alloc.cells[n];
        proof {
            lemma_slot_offset(slot as nat, rs as nat);
            crate::dbtype::lemma_record_encoding_len(records@[n as int]@);
            lemma_conforming_width(metadata.spec_fields(), records@[n as int]@);
        }
        let ghost old_positions = positions@;
        let ghost old_bytes = bytes@;
        let pos = DataPosition { page: page as u64, cell: slot * rs };
        let b = serialize_values(records[n].as_slice());
        assert(pos == position_of(alloc.cells@[n as int], rs as nat));
        assert(b@.len() == rs);
        positions.push(pos);
        bytes.push(b);
        assert forall|i: int| 0 <= i < n + 1 implies #[trigger] positions@[i] == position_of(alloc.cells@[i], rs as nat) by {
            if i < n {
                assert(positions@[i] == old_positions[i]);
            }
        }
        assert forall|i: int| 0 <= i < n + 1 implies (#[trigger] bytes@[i])@ == record_encoding(records@[i]@)
            && bytes@[i]@.len() == rs by {
            if i < n {
                assert(bytes@[i] == old_bytes[i]);
            }
        }
        n = n + 1;
    }
    Ok(InsertPlan { ledger: alloc.ledger, pages: alloc.pages, cells: alloc.cells, positions, bytes })
}

/// A record that fits the schema is as wide as the schema's records.
pub proof fn lemma_conforming_width(fields: Seq<Field>, rec: Seq<Type>)
    requires
        conforms(fields, rec),
    ensures
        record_width(rec) == record_width(shapes_of(fields)),
    decreases rec.len(),
{
    if rec.len() > 0 {
        let f2 = fields.drop_last();
        let r2 = rec.drop_last();
        assert(conforms(f2, r2)) by {
            assert forall|i: int| 0 <= i < r2.len() implies (#[trigger] r2[i]).tag() == f2[i].type_.tag()
                && r2[i].width() == f2[i].type_.width() by {
                assert(rec[i] == r2[i]);
            }
        }
        lemma_conforming_width(f2, r2);
        assert(shapes_of(fields).drop_last() =~= shapes_of(f2));
        assert(rec[rec.len() - 1].width() == fields[rec.len() - 1].type_.width());
    }
}

/// The values of field `field` of a batch of records.
pub open spec fn field_values(records: Seq<Vec<Type>>, field: int) -> Seq<ValueModel> {
    Seq::new(records.len(), |i: int| records[i]@[field]@)
}

/// The positions, in batch order, of the records whose value is `w`.
pub open spec fn positions_holding(
    values: Seq<ValueModel>,
    positions: Seq<DataPosition>,
    w: ValueModel,
) -> Seq<DataPosition>
    decreases values.len(),
{
    if values.len() == 0 {
        seq![]
    } else {
        let n = values.len() - 1;
        positions_holding(values.take(n), positions, w) + (if values[n] == w {
            seq![positions[n]]
        } else {
            seq![]
        })
    }
}

/// Lists each new record's position under its value of field `field`, after
/// the positions already listed for that value.
#[verifier::loop_isolation(false)]
pub fn index_records(
    index: &mut Index,
    field: usize,
    records: &[Vec<Type>],
    positions: &[DataPosition],
)
    requires
        old(index).wf(),
        records@.len() == positions@.len(),
        forall|i: int| 0 <= i < records@.len() ==> field < (#[trigger] records@[i])@.len(),
    ensures
        final(index).wf(),
        forall|w: ValueModel|
            #[trigger] final(index).lookup(w) == old(index).lookup(w) + positions_holding(
                field_values(records@, field as int),
                positions@,
                w,
            ),
{
    let ghost values = field_values(records@, field as int);
    let mut i: usize = 0;
    proof {
        assert forall|w: ValueModel| #[trigger] index.lookup(w) == old(index).lookup(w) + positions_holding(
            values.take(0),
            positions@,
            w,
        ) by {
            assert(old(index).lookup(w) + Seq::<DataPosition>::empty() =~= old(index).lookup(w));
        }
    }
    while i < records.len()
        invariant
            i <= records@.len(),
            index.wf(),
            forall|w: ValueModel|
                #[trigger] index.lookup(w) == old(index).lookup(w) + positions_holding(
                    values.take(i as int),
                    positions@,
                    w,
                ),
        decreases records@.len() - i,
    {
        let ghost before = *index;
        index.insert(&records[i][field], positions[i]);
        proof {
            let t = values.take(i + 1);
            assert(t.take(i as int) =~= values.take(i as int));
            assert(t[i as int] == records@[i as int]@[field as int]@);
            assert forall|w: ValueModel| #[trigger] index.lookup(w) == old(index).lookup(w) + positions_holding(
                t,
                positions@,
                w,
            ) by {
                if w == records@[i as int]@[field as int]@ {
                    assert(old(index).lookup(w) + positions_holding(t, positions@, w) =~= (old(index).lookup(w)
                        + positions_holding(values.take(i as int), positions@, w)).push(positions@[i as int]));
                } else {
                    assert(before.lookup(w) == index.lookup(w));
                    assert(positions_holding(t, positions@, w) =~= positions_holding(values.take(i as int), positions@, w));
                }
            }
        }
        i = i + 1;
    }
    assert(values.take(i as int) =~= values);
}

proof fn lemma_holding_contains(values: Seq<ValueModel>, positions: Seq<DataPosition>, i: int)
    requires
        0 <= i < values.len(),
        values.len() <= positions.len(),
    ensures
        positions_holding(values, positions, values[i]).contains(positions[i]),
    decreases values.len(),
{
    let n = values.len() - 1;
    let w = values[i];
    if i == n {
        let s = positions_holding(values, positions, w);
        assert(s[s.len() - 1] == positions[i]);
    } else {
        assert(values.take(n)[i] == w);
        lemma_holding_contains(values.take(n), positions, i);
        let a = positions_holding(values.take(n), positions, w);
        let j = choose|j: int| 0 <= j < a.len() && a[j] == positions[i];
        assert(positions_holding(values, positions, w)[j] == a[j]);
    }
}

/// After a batch is indexed, looking up a new record's value of the indexed
/// field gives a list that holds the record's position.
pub proof fn lemma_inserted_position_listed(
    before: Index,
    after: Index,
    records: Seq<Vec<Type>>,
    field: int,
    positions: Seq<DataPosition>,
    i: int,
)
    requires
        0 <= i < records.len(),
        records.len() == positions.len(),
        forall|w: ValueModel|
            #[trigger] after.lookup(w) == before.lookup(w) + positions_holding(
                field_values(records, field),
                positions,
                w,
            ),
    ensures
        after.lookup(records[i]@[field]@).contains(positions[i]),
{
    let values = field_values(records, field);
    let w = records[i]@[field]@;
    assert(values[i] == w);
    lemma_holding_contains(values, positions, i);
    let a = positions_holding(values, positions, w);
    let j = choose|j: int| 0 <= j < a.len() && a[j] == positions[i];
    assert(after.lookup(w)[before.lookup(w).len() + j] == positions[i]);
}

proof fn lemma_without_twice(ps: Seq<DataPosition>, doomed: Seq<DataPosition>)
    ensures
        without(without(ps, doomed), doomed) == without(ps, doomed),
    decreases ps.len(),
{
    let f = |x: DataPosition| !doomed.contains(x);
    if ps.len() > 0 {
        let init = ps.drop_last();
        let x = ps.last();
        assert(ps =~= init.push(x));
        lemma_without_twice(init, doomed);
        init.lemma_filter_push(x, f);
        if f(x) {
            init.filter(f).lemma_filter_push(x, f);
        }
    } else {
        assert(without(ps, doomed) =~= ps);
    }
}

/// Removes the deleted positions from the lists of every value that field
/// `field` of a deleted record holds.
#[verifier::loop_isolation(false)]
pub fn unindex_records(index: &mut Index, field: usize, records: &[Vec<Type>], doomed: &[DataPosition])
    requires
        old(index).wf(),
        forall|i: int| 0 <= i < records@.len() ==> field < (#[trigger] records@[i])@.len(),
    ensures
        final(index).wf(),
        forall|w: ValueModel|
            #[trigger] final(index).lookup(w) == if field_values(records@, field as int).contains(w) {
                without(old(index).lookup(w), doomed@)
            } else {
                old(index).lookup(w)
            },
{
    let ghost values = field_values(records@, field as int);
    let mut i: usize = 0;
    while i < records.len()
        invariant
            i <= records@.len(),
            index.wf(),
            forall|w: ValueModel|
                #[trigger] index.lookup(w) == if values.take(i as int).contains(w) {
                    without(old(index).lookup(w), doomed@)
                } else {
                    old(index).lookup(w)
                },
        decreases records@.len() - i,
    {
        let ghost before = *index;
        index.remove_positions(&records[i][field], doomed);
        proof {
            let t = values.take(i + 1);
            let v = records@[i as int]@[field as int]@;
            assert(t =~= values.take(i as int).push(v));
            assert forall|w: ValueModel| #[trigger] index.lookup(w) == if t.contains(w) {
                without(old(index).lookup(w), doomed@)
            } else {
                old(index).lookup(w)
            } by {
                crate::ledger::lemma_push_contains(values.take(i as int), v, w);
                if w == v {
                    lemma_without_twice(old(index).lookup(w), doomed@);
                } else {
                    assert(before.lookup(w) == index.lookup(w));
                }
            }
        }
        i = i + 1;
    }
    assert(values.take(i as int) =~= values);
}

/// After deletion no list of the index holds a deleted position.
pub proof fn lemma_deleted_position_unlisted(ps: Seq<DataPosition>, doomed: Seq<DataPosition>, d: DataPosition)
    requires
        doomed.contains(d),
    ensures
        !without(ps, doomed).contains(d),
{
    broadcast use vstd::seq_lib::group_filter_ensures;

    let f = |x: DataPosition| !doomed.contains(x);
    if without(ps, doomed).contains(d) {
        let j = choose|j: int| 0 <= j < without(ps, doomed).len() && without(ps, doomed)[j] == d;
        assert(f(without(ps, doomed)[j]));
    }
}

/// Positions strictly increasing in (page, cell) order.
pub open spec fn pos_lt(a: DataPosition, b: DataPosition) -> bool {
    a.page < b.page || (a.page == b.page && a.cell < b.cell)
}

pub open spec fn positions_sorted(ps: Seq<DataPosition>) -> bool {
    forall|i: int, j: int| 0 <= i < j < ps.len() ==> pos_lt(#[trigger] ps[i], #[trigger] ps[j])
}

pub proof fn lemma_slot_cell(s: nat, rs: nat)
    requires
        1 <= rs,
    ensures
        (s * rs) % rs == 0,
        (s * rs) / rs == s,
{
    vstd::arithmetic::div_mod::lemma_mod_multiples_basic(s as int, rs as int);
    vstd::arithmetic::div_mod::lemma_div_multiples_vanish(s as int, rs as int);
    assert(rs * s == s * rs) by (nonlinear_arith);
}

pub proof fn lemma_cell_slot(c: nat, rs: nat)
    requires
        1 <= rs,
        c % rs == 0,
    ensures
        c == (c / rs) * rs,
{
    vstd::arithmetic::div_mod::lemma_fundamental_div_mod(c as int, rs as int);
    assert(rs * (c / rs) == (c / rs) * rs) by (nonlinear_arith);
}

proof fn lemma_slot_order(a: nat, b: nat, rs: nat)
    requires
        a < b,
        1 <= rs,
    ensures
        a * rs < b * rs,
{
    assert(a * rs < b * rs) by (nonlinear_arith)
        requires
            a < b,
            1 <= rs,
    ;
}

/// The positions of the records the ledger does not mark free, in order.
#[verifier::loop_isolation(false)]
pub fn live_positions(ledger: &[FreeSpace], pages: u64, record_size: u16) -> (r: Vec<DataPosition>)
    requires
        pages <= 65536,
        1 <= record_size <= 4096,
    ensures
        positions_sorted(r@),
        forall|pos: DataPosition| #[trigger] r@.contains(pos) <==> is_live(ledger@, pages as nat, record_size as nat, pos),
{
    let rs = record_size;
    let slots = slots_per_page(rs);
    let live = live_slots(ledger, pages, slots);
    let mut out: Vec<DataPosition> = Vec::new();
    let mut i: usize = 0;
    while i < live.len()
        invariant
            i <= live@.len(),
            out@.len() == i,
            forall|j: int| 0 <= j < i ==> #[trigger] out@[j] == position_of(live@[j], rs as nat),
        decreases live@.len() - i,
    {
        let (p, s) = live[i];
        proof {
            lemma_slot_offset(s as nat, rs as nat);
        }
        let ghost before = out@;
        out.push(DataPosition { page: p as u64, cell: s * rs });
        assert forall|j: int| 0 <= j < i + 1 implies #[trigger] out@[j] == position_of(live@[j], rs as nat) by {
            if j < i {
                assert(out@[j] == before[j]);
            }
        }
        i = i + 1;
    }
    proof {
        assert forall|a: int, b: int| 0 <= a < b < out@.len() implies pos_lt(#[trigger] out@[a], #[trigger] out@[b]) by {
            let x = live@[a];
            let y = live@[b];
            lemma_slot_offset(x.1 as nat, rs as nat);
            lemma_slot_offset(y.1 as nat, rs as nat);
            if x.0 == y.0 {
                lemma_slot_order(x.1 as nat, y.1 as nat, rs as nat);
            }
        }
        assert forall|pos: DataPosition| #[trigger] out@.contains(pos) <==> is_live(ledger@, pages as nat, rs as nat, pos) by {
            if out@.contains(pos) {
                let j = choose|j: int| 0 <= j < out@.len() && out@[j] == pos;
                let x = live@[j];
                assert(live@.contains(x));
                lemma_slot_offset(x.1 as nat, rs as nat);
                lemma_slot_cell(x.1 as nat, rs as nat);
            }
            if is_live(ledger@, pages as nat, rs as nat, pos) {
                let s = pos.cell as nat / rs as nat;
                lemma_cell_slot(pos.cell as nat, rs as nat);
                let x = (pos.page as u16, s as u16);
                assert(live@.contains(x));
                let j = choose|j: int| 0 <= j < live@.len() && live@[j] == x;
                assert(out@[j] == pos);
            }
        }
    }
    out
}

/// Every slot of every page is either free in the ledger or the slot of a
/// live position, never both.
pub proof fn lemma_slots_partition(ledger: Seq<FreeSpace>, pages: nat, rs: nat, p: u16, s: u16)
    requires
        1 <= rs <= 4096,
        p < pages,
        s < slots_for(rs),
    ensures
        covers(ledger, p as int, s as int) != is_live(ledger, pages, rs, position_of((p, s), rs)),
{
    lemma_slot_offset(s as nat, rs);
    lemma_slot_cell(s as nat, rs);
}

/// The bytes of a page from the start of the record at `pos` on.
pub open spec fn bytes_at(page_bytes: Seq<Vec<u8>>, pos: DataPosition) -> Seq<u8> {
    page_bytes[pos.page as int]@.skip(pos.cell as int)
}

/// Whether the record at `pos` can be read with these shapes.
pub open spec fn readable_at(page_bytes: Seq<Vec<u8>>, shapes: Seq<Type>, pos: DataPosition) -> bool {
    &&& pos.page < page_bytes.len()
    &&& pos.cell <= page_bytes[pos.page as int]@.len()
    &&& record_width(shapes) <= bytes_at(page_bytes, pos).len()
    &&& record_readable(shapes, bytes_at(page_bytes, pos))
}

/// Whether the record at `pos` reads and its field `fi` holds `v`.
pub open spec fn scan_match(
    page_bytes: Seq<Vec<u8>>,
    shapes: Seq<Type>,
    fi: int,
    v: ValueModel,
    pos: DataPosition,
) -> bool {
    readable_at(page_bytes, shapes, pos) && decoded_record(shapes, bytes_at(page_bytes, pos))[fi] == v
}

/// Field `i` is the first field named `name`.
pub open spec fn first_named(fields: Seq<Field>, name: Seq<char>, i: int) -> bool {
    &&& 0 <= i < fields.len()
    &&& fields[i].name@ == name
    &&& forall|j: int| 0 <= j < i ==> (#[trigger] fields[j]).name@ != name
}

pub open spec fn has_field(fields: Seq<Field>, name: Seq<char>) -> bool {
    exists|i: int| 0 <= i < fields.len() && (#[trigger] fields[i]).name@ == name
}

/// The position of the first field named `name`.
pub open spec fn field_pos(fields: Seq<Field>, name: Seq<char>) -> int {
    choose|i: int| first_named(fields, name, i)
}

/// Entry `k` is the first entry of `indexes` that is `fi`.
pub open spec fn first_slot(indexes: Seq<u16>, fi: int, k: int) -> bool {
    &&& 0 <= k < indexes.len()
    &&& indexes[k] == fi
    &&& forall|j: int| 0 <= j < k ==> #[trigger] indexes[j] != fi
}

pub open spec fn is_indexed(indexes: Seq<u16>, fi: int) -> bool {
    exists|k: int| 0 <= k < indexes.len() && #[trigger] indexes[k] == fi
}

/// Which loaded index serves field `fi`.
pub open spec fn slot_of(indexes: Seq<u16>, fi: int) -> int {
    choose|k: int| first_slot(indexes, fi, k)
}

/// Whether the position passes one equality filter: through the field's index
/// where it has one, else by reading the record.
pub open spec fn keeps(
    metadata: TableMetadata,
    loaded: Seq<Index>,
    page_bytes: Seq<Vec<u8>>,
    f: FilterOption,
    pos: DataPosition,
) -> bool {
    let fields = metadata.spec_fields();
    let fi = field_pos(fields, f.spec_field().name@);
    let v = f.spec_field().type_@;
    if is_indexed(metadata.spec_indexes(), fi) {
        loaded[slot_of(metadata.spec_indexes(), fi)].lookup(v).contains(pos)
    } else {
        scan_match(page_bytes, shapes_of(fields), fi, v, pos)
    }
}

/// Whether the position is live and passes every filter.
pub open spec fn selected(
    metadata: TableMetadata,
    ledger: Seq<FreeSpace>,
    pages: nat,
    loaded: Seq<Index>,
    page_bytes: Seq<Vec<u8>>,
    filters: Seq<FilterOption>,
    pos: DataPosition,
) -> bool {
    &&& is_live(ledger, pages, metadata.spec_record_size() as nat, pos)
    &&& forall|j: int| 0 <= j < filters.len() ==> keeps(metadata, loaded, page_bytes, #[trigger] filters[j], pos)
}

proof fn lemma_first_named_unique(fields: Seq<Field>, name: Seq<char>, i: int)
    requires
        first_named(fields, name, i),
    ensures
        field_pos(fields, name) == i,
{
    let k = field_pos(fields, name);
    assert(first_named(fields, name, k));
    if k < i {
        assert(fields[k].name@ != name);
    } else if k > i {
        assert(fields[i].name@ != name);
    }
}

pub proof fn lemma_first_slot_unique(indexes: Seq<u16>, fi: int, k: int)
    requires
        first_slot(indexes, fi, k),
    ensures
        slot_of(indexes, fi) == k,
        is_indexed(indexes, fi),
{
    let m = slot_of(indexes, fi);
    assert(first_slot(indexes, fi, m));
    if m < k {
        assert(indexes[m] != fi);
    } else if m > k {
        assert(indexes[k] != fi);
    }
}

fn find_field(fields: &[Field], name: &String) -> (r: Option<usize>)
    ensures
        r is Some <==> has_field(fields@, name@),
        r matches Some(i) ==> first_named(fields@, name@, i as int),
{
    let mut i: usize = 0;
    while i < fields.len()
        invariant
            i <= fields@.len(),
            forall|j: int| 0 <= j < i ==> (#[trigger] fields@[j]).name@ != name@,
        decreases fields@.len() - i,
    {
        if fields[i].name.eq(name) {
            return Some(i);
        }
        i = i + 1;
    }
    None
}

pub fn find_slot(indexes: &[u16], fi: usize) -> (r: Option<usize>)
    ensures
        r is Some <==> is_indexed(indexes@, fi as int),
        r matches Some(k) ==> first_slot(indexes@, fi as int, k as int),
{
    let mut k: usize = 0;
    while k < indexes.len()
        invariant
            k <= indexes@.len(),
            forall|j: int| 0 <= j < k ==> #[trigger] indexes@[j] != fi,
        decreases indexes@.len() - k,
    {
        if indexes[k] as usize == fi {
            return Some(k);
        }
        k = k + 1;
    }
    None
}

/// The value shapes of the schema's fields, in order.
pub fn field_shapes(metadata: &TableMetadata) -> (r: Vec<Type>)
    ensures
        r@ == shapes_of(metadata.spec_fields()),
{
    let fields = metadata.fields();
    let mut out: Vec<Type> = Vec::new();
    let mut i: usize = 0;
    while i < fields.len()
        invariant
            i <= fields@.len(),
            fields@ == metadata.spec_fields(),
            out@ == shapes_of(fields@).take(i as int),
        decreases fields@.len() - i,
    {
        out.push(fields[i].type_.clone());
        i = i + 1;
        assert(out@ =~= shapes_of(fields@).take(i as int));
    }
    assert(shapes_of(fields@).take(i as int) =~= shapes_of(fields@));
    out
}

/// The record at `pos`, when it can be read.
fn record_at(page_bytes: &[Vec<u8>], shapes: &[Type], pos: DataPosition) -> (r: Result<Vec<Type>, DbError>)
    ensures
        r is Ok <==> readable_at(page_bytes@, shapes@, pos),
        r matches Ok(rec) ==> record_view(rec@) == decoded_record(shapes@, bytes_at(page_bytes@, pos)),
        r matches Err(e) ==> e == DbError::CorruptedData || e == DbError::TruncatedBuffer,
{
    if pos.page as usize >= page_bytes.len() || pos.page > usize::MAX as u64 {
        return Err(DbError::CorruptedData);
    }
    let page: &Vec<u8> = &page_bytes[pos.page as usize];
    if pos.cell as usize > page.len() {
        return Err(DbError::CorruptedData);
    }
    let rest = slice_subrange(page.as_slice(), pos.cell as usize, page.len());
    assert(rest@ =~= bytes_at(page_bytes@, pos));
    deserialize_value(rest, shapes)
}

fn scan_at(page_bytes: &[Vec<u8>], shapes: &[Type], fi: usize, v: &Type, pos: DataPosition) -> (r: bool)
    requires
        fi < shapes@.len(),
    ensures
        r == scan_match(page_bytes@, shapes@, fi as int, v@, pos),
{
    match record_at(page_bytes, shapes, pos) {
        Ok(rec) => {
            assert(record_view(rec@).len() == rec@.len());
            assert(decoded_record(shapes@, bytes_at(page_bytes@, pos)).len() == shapes@.len());
            assert(record_view(rec@)[fi as int] == rec@[fi as int]@);
            rec[fi] == *v
        },
        Err(_) => false,
    }
}

/// The positions the filters select: the live positions that pass every
/// filter, in (page, cell) order. A filter must name a field of the table
/// (else an unknown field) and compare by equality (else an unsupported
/// filter); the ledger must be well formed (else corrupted data). With no
/// filters every live position is selected.
#[verifier::loop_isolation(false)]
pub fn resolve(
    metadata: &TableMetadata,
    ledger: &[FreeSpace],
    pages: u64,
    filters: &[FilterOption],
    loaded: &[Index],
    page_bytes: &[Vec<u8>],
) -> (r: Result<Vec<DataPosition>, DbError>)
    requires
        metadata.wf(),
        loaded@.len() == metadata.spec_indexes().len(),
        forall|k: int| 0 <= k < loaded@.len() ==> (#[trigger] loaded@[k]).wf(),
    ensures
        ({
            let rs = metadata.spec_record_size() as nat;
            let ledger_ok = pages <= 65536 && ledger_wf(ledger@, pages as nat, slots_for(rs));
            let known = forall|j: int|
                0 <= j < filters@.len() ==> has_field(
                    metadata.spec_fields(),
                    (#[trigger] filters@[j]).spec_field().name@,
                );
            let equal = forall|j: int|
                0 <= j < filters@.len() ==> (#[trigger] filters@[j]).spec_filter() == Filter::Equal;
            &&& !ledger_ok <==> r == Err::<Vec<DataPosition>, DbError>(DbError::CorruptedData)
            &&& ledger_ok && !known <==> r == Err::<Vec<DataPosition>, DbError>(DbError::UnknownField)
            &&& ledger_ok && known && !equal <==> r == Err::<Vec<DataPosition>, DbError>(
                DbError::UnsupportedFilter,
            )
            &&& r matches Err(e) ==> e == DbError::CorruptedData || e == DbError::UnknownField || e
                == DbError::UnsupportedFilter
            &&& r matches Ok(ps) ==> positions_sorted(ps@) && forall|pos: DataPosition|
                #[trigger] ps@.contains(pos) <==> selected(
                    *metadata,
                    ledger@,
                    pages as nat,
                    loaded@,
                    page_bytes@,
                    filters@,
                    pos,
                )
        }),
{
    let rs: u16 = metadata.record_size();
    let slots: u16 = slots_per_page(rs);
    if pages > 65536 || !crate::ledger::check_ledger(ledger, pages, slots) {
        return Err(DbError::CorruptedData);
    }
    let fields = metadata.fields();
    let mut j: usize = 0;
    while j < filters.len()
        invariant
            j <= filters@.len(),
            fields@ == metadata.spec_fields(),
            forall|i: int|
                0 <= i < j ==> has_field(metadata.spec_fields(), (#[trigger] filters@[i]).spec_field().name@),
        decreases filters@.len() - j,
    {
        if find_field(fields, &filters[j].field().name).is_none() {
            return Err(DbError::UnknownField);
        }
        j = j + 1;
    }
    let mut j: usize = 0;
    while j < filters.len()
        invariant
            j <= filters@.len(),
            forall|i: int| 0 <= i < j ==> (#[trigger] filters@[i]).spec_filter() == Filter::Equal,
        decreases filters@.len() - j,
    {
        match filters[j].filter() {
            Filter::Equal => {},
            _ => {
                return Err(DbError::UnsupportedFilter);
            },
        }
        j = j + 1;
    }
    let shapes = field_shapes(metadata);
    let indexes = metadata.indexes_idx();
    let mut current = live_positions(ledger, pages, rs);
    let mut j: usize = 0;
    while j < filters.len()
        invariant
            j <= filters@.len(),
            fields@ == metadata.spec_fields(),
            shapes@ == shapes_of(metadata.spec_fields()),
            indexes@ == metadata.spec_indexes(),
            positions_sorted(current@),
            forall|pos: DataPosition| #[trigger] current@.contains(pos) <==> selected(
                *metadata,
                ledger@,
                pages as nat,
                loaded@,
                page_bytes@,
                filters@.take(j as int),
                pos,
            ),
        decreases filters@.len() - j,
    {
        let f = &filters[j];
        let fi: usize = match find_field(fields, &f.field().name) {
            Some(i) => i,
            None => {
                return Err(DbError::UnknownField);
            },
        };
        proof {
            lemma_first_named_unique(fields@, f.spec_field().name@, fi as int);
        }
        let value: &Type = &f.field().type_;
        let slot = find_slot(indexes, fi);
        let looked: Vec<DataPosition> = match slot {
            Some(k) => {
                proof {
                    lemma_first_slot_unique(indexes@, fi as int, k as int);
                }
                loaded[k].positions_of(value)
            },
            None => Vec::new(),
        };
        let mut next: Vec<DataPosition> = Vec::new();
        let mut i: usize = 0;
        while i < current.len()
            invariant
                i <= current@.len(),
                positions_sorted(current@),
                positions_sorted(next@),
                forall|a: int| 0 <= a < next@.len() ==> exists|b: int| 0 <= b < i && #[trigger] next@[a] == current@[b],
                forall|pos: DataPosition| #[trigger] next@.contains(pos) <==> (current@.take(i as int).contains(pos) && keeps(
                    *metadata,
                    loaded@,
                    page_bytes@,
                    *f,
                    pos,
                )),
            decreases current@.len() - i,
        {
            let pos = current[i];
            let keep: bool = match slot {
                Some(_) => contains_position(looked.as_slice(), pos),
                None => scan_at(page_bytes, &shapes, fi, value, pos),
            };
            let ghost before = next@;
            if keep {
                next.push(pos);
            }
            proof {
                let t = current@.take(i as int);
                assert(current@.take(i + 1) =~= t.push(pos));
                assert forall|q: DataPosition| #[trigger] next@.contains(q) <==> (current@.take(i + 1).contains(q) && keeps(
                    *metadata,
                    loaded@,
                    page_bytes@,
                    *f,
                    q,
                )) by {
                    crate::ledger::lemma_push_contains(t, pos, q);
                    if keep {
                        crate::ledger::lemma_push_contains(before, pos, q);
                    }
                }
                if keep {
                    assert forall|a: int, b: int| 0 <= a < b < next@.len() implies pos_lt(#[trigger] next@[a], #[trigger] next@[b]) by {
                        if b < before.len() {
                            assert(next@[a] == before[a] && next@[b] == before[b]);
                        } else {
                            let c = choose|c: int| 0 <= c < i && #[trigger] before[a] == current@[c];
                            assert(next@[a] == before[a]);
                        }
                    }
                    assert forall|a: int| 0 <= a < next@.len() implies exists|b: int| 0 <= b < i + 1 && #[trigger] next@[a] == current@[b] by {
                        if a < before.len() {
                            let c = choose|c: int| 0 <= c < i && #[trigger] before[a] == current@[c];
                            assert(next@[a] == current@[c]);
                        } else {
                            assert(next@[a] == current@[i as int]);
                        }
                    }
                }
            }
            i = i + 1;
        }
        proof {
            assert(current@.take(i as int) =~= current@);
            let ft = filters@.take(j + 1);
            assert(ft =~= filters@.take(j as int).push(*f));
            assert forall|pos: DataPosition| #[trigger] next@.contains(pos) <==> selected(
                *metadata,
                ledger@,
                pages as nat,
                loaded@,
                page_bytes@,
                ft,
                pos,
            ) by {
                if selected(*metadata, ledger@, pages as nat, loaded@, page_bytes@, ft, pos) {
                    assert forall|a: int| 0 <= a < j implies keeps(*metadata, loaded@, page_bytes@, #[trigger] filters@.take(j as int)[a], pos) by {
                        assert(ft[a] == filters@.take(j as int)[a]);
                    }
                    assert(ft[j as int] == *f);
                }
                if next@.contains(pos) {
                    assert forall|a: int| 0 <= a < ft.len() implies keeps(*metadata, loaded@, page_bytes@, #[trigger] ft[a], pos) by {
                        if a < j {
                            assert(ft[a] == filters@.take(j as int)[a]);
                        }
                    }
                }
            }
        }
        current = next;
        j = j + 1;
    }
    assert(filters@.take(j as int) =~= filters@);
    Ok(current)
}

/// Every loaded index lists, for every value, exactly the live positions whose
/// record holds that value in the indexed field.
pub open spec fn indexes_consistent(
    metadata: TableMetadata,
    ledger: Seq<FreeSpace>,
    pages: nat,
    loaded: Seq<Index>,
    page_bytes: Seq<Vec<u8>>,
) -> bool {
    forall|k: int, v: ValueModel, pos: DataPosition|
        0 <= k < loaded.len() && is_live(ledger, pages, metadata.spec_record_size() as nat, pos) ==> (
        #[trigger] loaded[k].lookup(v).contains(pos) <==> scan_match(
            page_bytes,
            shapes_of(metadata.spec_fields()),
            metadata.spec_indexes()[k] as int,
            v,
            pos,
        ))
}

/// Whether the position is live and every filter's field, read from the
/// record itself, equals the filter's value.
pub open spec fn scanned(
    metadata: TableMetadata,
    ledger: Seq<FreeSpace>,
    pages: nat,
    page_bytes: Seq<Vec<u8>>,
    filters: Seq<FilterOption>,
    pos: DataPosition,
) -> bool {
    &&& is_live(ledger, pages, metadata.spec_record_size() as nat, pos)
    &&& forall|j: int|
        0 <= j < filters.len() ==> scan_match(
            page_bytes,
            shapes_of(metadata.spec_fields()),
            field_pos(metadata.spec_fields(), (#[trigger] filters[j]).spec_field().name@),
            filters[j].spec_field().type_@,
            pos,
        )
}

pub proof fn lemma_first_slot_exists(indexes: Seq<u16>, fi: int)
    requires
        is_indexed(indexes, fi),
    ensures
        exists|k: int| first_slot(indexes, fi, k),
    decreases indexes.len(),
{
    let init = indexes.drop_last();
    if is_indexed(init, fi) {
        lemma_first_slot_exists(init, fi);
        let k = choose|k: int| first_slot(init, fi, k);
        assert forall|j: int| 0 <= j < k implies #[trigger] indexes[j] != fi by {
            assert(init[j] == indexes[j]);
        }
        assert(init[k] == indexes[k]);
        assert(first_slot(indexes, fi, k));
    } else {
        let n = indexes.len() - 1;
        let k = choose|k: int| 0 <= k < indexes.len() && #[trigger] indexes[k] == fi;
        if k < n {
            assert(init[k] == fi);
        }
        assert forall|j: int| 0 <= j < n implies #[trigger] indexes[j] != fi by {
            assert(init[j] == indexes[j]);
        }
        assert(first_slot(indexes, fi, n));
    }
}

/// Where the indexes agree with the records, selecting through indexes selects
/// the same positions as reading every candidate record: an equality filter on
/// an indexed field gives the same answer as on an unindexed one.
pub proof fn lemma_index_agrees_with_scan(
    metadata: TableMetadata,
    ledger: Seq<FreeSpace>,
    pages: nat,
    loaded: Seq<Index>,
    page_bytes: Seq<Vec<u8>>,
    filters: Seq<FilterOption>,
    pos: DataPosition,
)
    requires
        loaded.len() == metadata.spec_indexes().len(),
        indexes_consistent(metadata, ledger, pages, loaded, page_bytes),
    ensures
        selected(metadata, ledger, pages, loaded, page_bytes, filters, pos) == scanned(
            metadata,
            ledger,
            pages,
            page_bytes,
            filters,
            pos,
        ),
{
    let fields = metadata.spec_fields();
    let indexes = metadata.spec_indexes();
    if is_live(ledger, pages, metadata.spec_record_size() as nat, pos) {
        assert forall|j: int| 0 <= j < filters.len() implies keeps(metadata, loaded, page_bytes, #[trigger] filters[j], pos)
            == scan_match(
            page_bytes,
            shapes_of(fields),
            field_pos(fields, filters[j].spec_field().name@),
            filters[j].spec_field().type_@,
            pos,
        ) by {
            let fi = field_pos(fields, filters[j].spec_field().name@);
            if is_indexed(indexes, fi) {
                lemma_first_slot_exists(indexes, fi);
                let k = slot_of(indexes, fi);
                assert(first_slot(indexes, fi, k));
                let v = filters[j].spec_field().type_@;
                assert(loaded[k].lookup(v).contains(pos) == scan_match(page_bytes, shapes_of(fields), indexes[k] as int, v, pos));
            }
        }
    }
}

/// The records at the given positions, in the same order. Each must be
/// readable, else corrupted data (or a truncated buffer).
pub fn records_at(page_bytes: &[Vec<u8>], shapes: &[Type], positions: &[DataPosition]) -> (r: Result<
    Vec<Vec<Type>>,
    DbError,
>)
    ensures
        r is Ok <==> forall|i: int| 0 <= i < positions@.len() ==> readable_at(page_bytes@, shapes@, #[trigger] positions@[i]),
        r matches Err(e) ==> e == DbError::CorruptedData || e == DbError::TruncatedBuffer,
        r matches Ok(recs) ==> recs@.len() == positions@.len() && forall|i: int|
            0 <= i < positions@.len() ==> record_view((#[trigger] recs@[i])@) == decoded_record(
                shapes@,
                bytes_at(page_bytes@, positions@[i]),
            ),
{
    let mut out: Vec<Vec<Type>> = Vec::new();
    let mut i: usize = 0;
    while i < positions.len()
        invariant
            i <= positions@.len(),
            out@.len() == i,
            forall|j: int| 0 <= j < i ==> readable_at(page_bytes@, shapes@, #[trigger] positions@[j]),
            forall|j: int|
                0 <= j < i ==> record_view((#[trigger] out@[j])@) == decoded_record(
                    shapes@,
                    bytes_at(page_bytes@, positions@[j]),
                ),
        decreases positions@.len() - i,
    {
        match record_at(page_bytes, shapes, positions[i]) {
            Ok(rec) => {
                let ghost before = out@;
                out.push(rec);
                assert forall|j: int| 0 <= j < i + 1 implies record_view((#[trigger] out@[j])@) == decoded_record(
                    shapes@,
                    bytes_at(page_bytes@, positions@[j]),
                ) by {
                    if j < i {
                        assert(out@[j] == before[j]);
                    }
                }
            },
            Err(e) => {
                return Err(e);
            },
        }
        i = i + 1;
    }
    Ok(out)
}

} // verus!
