//! The shape of a table and its persisted form.
use crate::bytes::lemma_pow256_values;
use crate::dbtype::{record_width, Type};
use crate::error::DbError;
use crate::field::{field_bytes, Field};
use crate::free_space::{lemma_u16_bytes, u16_bytes};
use vstd::prelude::*;

verus! {

/// The number of bytes of a page.
pub const PAGE_SIZE_BYTES: u16 = 4096;

/// The value shapes of a list of fields.
pub open spec fn shapes_of(fields: Seq<Field>) -> Seq<Type> {
    fields.map_values(|f: Field| f.type_)
}

/// The rules of a schema: the primary key names a field that is not nullable
/// and is indexed, every index names a field, every name fits its length
/// byte, the counts fit in `u16`, a record fills at least one byte and at
/// most one page, and the varchar widths can be read back from the stored
/// form (`widths_recoverable`).
pub open spec fn schema_ok(fields: Seq<Field>, primary_key: u16, indexes: Seq<u16>) -> bool {
    &&& fields.len() <= u16::MAX
    &&& indexes.len() <= u16::MAX
    &&& primary_key < fields.len()
    &&& !fields[primary_key as int].nullable
    &&& indexes.contains(primary_key)
    &&& forall|i: int| 0 <= i < indexes.len() ==> #[trigger] indexes[i] < fields.len()
    &&& forall|i: int| 0 <= i < fields.len() ==> (#[trigger] fields[i]).name_fits()
    &&& 1 <= record_width(shapes_of(fields)) <= PAGE_SIZE_BYTES
    &&& widths_recoverable(fields)
}

/// Whether the varchar widths can be read back from the stored schema, whose
/// fields hold no width: a single varchar takes what the record size leaves,
/// and where there are several, every one has the widest width, 255.
pub open spec fn widths_recoverable(fields: Seq<Field>) -> bool {
    forall|i: int, j: int|
        0 <= i < fields.len() && 0 <= j < fields.len() && i != j && #[trigger] fields[i].type_.tag() == 11
            && #[trigger] fields[j].type_.tag() == 11 ==> fields[i].type_.width() == 255
}

fn check_recoverable(fields: &Vec<Field>) -> (r: bool)
    ensures
        r == widths_recoverable(fields@),
{
    let mut i: usize = 0;
    while i < fields.len()
        invariant
            i <= fields@.len(),
            forall|a: int, b: int|
                0 <= a < i && 0 <= b < fields@.len() && a != b && #[trigger] fields@[a].type_.tag() == 11
                    && #[trigger] fields@[b].type_.tag() == 11 ==> fields@[a].type_.width() == 255,
        decreases fields@.len() - i,
    {
        if fields[i].type_.type_id() == 11 && fields[i].type_.size() != 255 {
            let mut j: usize = 0;
            while j < fields.len()
                invariant
                    j <= fields@.len(),
                    i < fields@.len(),
                    fields@[i as int].type_.tag() == 11,
                    fields@[i as int].type_.width() != 255,
                    forall|b: int| 0 <= b < j && b != i ==> #[trigger] fields@[b].type_.tag() != 11,
                decreases fields@.len() - j,
            {
                if j != i && fields[j].type_.type_id() == 11 {
                    return false;
                }
                j = j + 1;
            }
        }
        i = i + 1;
    }
    true
}

pub open spec fn fields_bytes(fs: Seq<Field>) -> Seq<u8>
    decreases fs.len(),
{
    if fs.len() == 0 {
        seq![]
    } else {
        fields_bytes(fs.drop_last()) + field_bytes(fs.last())
    }
}

pub open spec fn u16s_bytes(xs: Seq<u16>) -> Seq<u8>
    decreases xs.len(),
{
    if xs.len() == 0 {
        seq![]
    } else {
        u16s_bytes(xs.drop_last()) + u16_bytes(xs.last())
    }
}

/// The persisted form of a schema: the field count, the fields, the record
/// size, the primary-key position, the index count and the indexed positions,
/// each number two bytes little-endian.
pub open spec fn metadata_bytes(
    fields: Seq<Field>,
    record_size: u16,
    primary_key: u16,
    indexes: Seq<u16>,
) -> Seq<u8> {
    u16_bytes(fields.len() as u16) + fields_bytes(fields) + u16_bytes(record_size) + u16_bytes(
        primary_key,
    ) + u16_bytes(indexes.len() as u16) + u16s_bytes(indexes)
}

/// The schema of a table.
#[derive(Debug)]
pub struct TableMetadata {
    fields: Vec<Field>,
    record_size: u16,
    primary_key_index: u16,
    indexes: Vec<u16>,
}

proof fn lemma_push_contains(s: Seq<u16>, x: u16, y: u16)
    ensures
        s.push(x).contains(y) <==> (s.contains(y) || x == y),
{
    let t = s.push(x);
    if s.contains(y) {
        let j = choose|j: int| 0 <= j < s.len() && s[j] == y;
        assert(t[j] == y);
    }
    if x == y {
        assert(t[s.len() as int] == y);
    }
    if t.contains(y) {
        let j = choose|j: int| 0 <= j < t.len() && t[j] == y;
        if j < s.len() {
            assert(s[j] == y);
        }
    }
}

/// Two lists of fields with the same names, types and nullable flags.
pub open spec fn same_fields(a: Seq<Field>, b: Seq<Field>) -> bool {
    &&& a.len() == b.len()
    &&& forall|i: int|
        0 <= i < a.len() ==> (#[trigger] a[i]).name@ == b[i].name@ && a[i].type_@ == b[i].type_@ && a[i].nullable
            == b[i].nullable
}

/// Two lists of fields that are stored alike: the same names, type tags and
/// nullable flags.
pub open spec fn stored_alike(a: Seq<Field>, b: Seq<Field>) -> bool {
    &&& a.len() == b.len()
    &&& forall|i: int|
        0 <= i < a.len() ==> (#[trigger] a[i]).name@ == b[i].name@ && a[i].type_.tag() == b[i].type_.tag()
            && a[i].nullable == b[i].nullable
}

/// The stored form of a schema.
pub open spec fn stored_form(m: TableMetadata) -> Seq<u8> {
    metadata_bytes(m.spec_fields(), m.spec_record_size(), m.spec_primary_key(), m.spec_indexes())
}

/// `data` starts with the stored form of the well-formed schema `m`, whose
/// fields are bare shapes.
pub open spec fn reads_back(m: TableMetadata, data: Seq<u8>) -> bool {
    &&& m.wf()
    &&& forall|i: int| 0 <= i < m.spec_fields().len() ==> (#[trigger] m.spec_fields()[i]).is_shape()
    &&& stored_form(m).is_prefix_of(data)
}

proof fn lemma_u16_inj(a: u16, b: u16)
    requires
        u16_bytes(a) == u16_bytes(b),
    ensures
        a == b,
{
    lemma_u16_bytes(a);
    lemma_u16_bytes(b);
}

proof fn lemma_prefix_sub(s: Seq<u8>, data: Seq<u8>, lo: int, hi: int)
    requires
        s.is_prefix_of(data),
        0 <= lo <= hi <= s.len(),
    ensures
        data.subrange(lo, hi) == s.subrange(lo, hi),
{
    assert forall|k: int| 0 <= k < hi - lo implies data.subrange(lo, hi)[k] == s.subrange(lo, hi)[k] by {
        assert(s[lo + k] == data.subrange(0, s.len() as int)[lo + k]);
    }
    assert(data.subrange(lo, hi) =~= s.subrange(lo, hi));
}

proof fn lemma_fields_bytes_alike(a: Seq<Field>, b: Seq<Field>)
    requires
        stored_alike(a, b),
    ensures
        fields_bytes(a) == fields_bytes(b),
    decreases a.len(),
{
    if a.len() > 0 {
        assert(stored_alike(a.drop_last(), b.drop_last())) by {
            assert forall|i: int| 0 <= i < a.len() - 1 implies (#[trigger] a.drop_last()[i]).name@ == b.drop_last()[i].name@
                && a.drop_last()[i].type_.tag() == b.drop_last()[i].type_.tag() && a.drop_last()[i].nullable
                == b.drop_last()[i].nullable by {
                assert(a[i] == a.drop_last()[i]);
                assert(b[i] == b.drop_last()[i]);
            }
        }
        lemma_fields_bytes_alike(a.drop_last(), b.drop_last());
        assert(field_bytes(a.last()) == field_bytes(b.last()));
    }
}

proof fn lemma_fields_bytes_prefix(fs: Seq<Field>, i: int)
    requires
        0 <= i <= fs.len(),
    ensures
        fields_bytes(fs.take(i)).is_prefix_of(fields_bytes(fs)),
    decreases fs.len() - i,
{
    if i < fs.len() {
        lemma_fields_bytes_prefix(fs, i + 1);
        assert(fs.take(i + 1).drop_last() =~= fs.take(i));
        let a = fields_bytes(fs.take(i));
        let b = fields_bytes(fs.take(i + 1));
        assert(b == a + field_bytes(fs.take(i + 1).last()));
        assert(a =~= b.subrange(0, a.len() as int));
        assert(b =~= fields_bytes(fs).subrange(0, b.len() as int));
        assert(a =~= fields_bytes(fs).subrange(0, a.len() as int));
    } else {
        assert(fs.take(i) =~= fs);
    }
}

proof fn lemma_u16s_bytes_prefix(xs: Seq<u16>, i: int)
    requires
        0 <= i <= xs.len(),
    ensures
        u16s_bytes(xs.take(i)).is_prefix_of(u16s_bytes(xs)),
        u16s_bytes(xs.take(i)).len() == 2 * i,
    decreases xs.len() - i,
{
    if i < xs.len() {
        lemma_u16s_bytes_prefix(xs, i + 1);
        assert(xs.take(i + 1).drop_last() =~= xs.take(i));
        let a = u16s_bytes(xs.take(i));
        let b = u16s_bytes(xs.take(i + 1));
        crate::bytes::lemma_le_bytes_len(xs[i] as nat, 2);
        assert(b == a + u16_bytes(xs.take(i + 1).last()));
        assert(a =~= b.subrange(0, a.len() as int));
        assert(b =~= u16s_bytes(xs).subrange(0, b.len() as int));
        assert(a =~= u16s_bytes(xs).subrange(0, a.len() as int));
    } else {
        assert(xs.take(i) =~= xs);
        lemma_u16s_len(xs);
    }
}

proof fn lemma_u16s_len(xs: Seq<u16>)
    ensures
        u16s_bytes(xs).len() == 2 * xs.len(),
    decreases xs.len(),
{
    if xs.len() > 0 {
        lemma_u16s_len(xs.drop_last());
        crate::bytes::lemma_le_bytes_len(xs.last() as nat, 2);
    }
}

/// Where each part of a schema's stored form lies.
proof fn lemma_stored_parts(m: TableMetadata, data: Seq<u8>)
    requires
        reads_back(m, data),
    ensures
        ({
            let fs = m.spec_fields();
            let a = 2 + fields_bytes(fs).len() as int;
            &&& data.subrange(0, 2) == u16_bytes(fs.len() as u16)
            &&& a + 6 + 2 * m.spec_indexes().len() <= data.len()
            &&& data.subrange(a, a + 2) == u16_bytes(m.spec_record_size())
            &&& data.subrange(a + 2, a + 4) == u16_bytes(m.spec_primary_key())
            &&& data.subrange(a + 4, a + 6) == u16_bytes(m.spec_indexes().len() as u16)
            &&& forall|k: int|
                0 <= k < m.spec_indexes().len() ==> data.subrange(a + 6 + 2 * k, a + 8 + 2 * k) == u16_bytes(
                    #[trigger] m.spec_indexes()[k],
                )
            &&& forall|i: int|
                0 <= i < fs.len() ==> field_bytes(#[trigger] fs[i]).is_prefix_of(
                    data.skip(2 + fields_bytes(fs.take(i)).len() as int),
                ) && 2 + fields_bytes(fs.take(i)).len() + field_bytes(fs[i]).len() == 2 + fields_bytes(fs.take(i + 1)).len()
        }),
{
    let fs = m.spec_fields();
    let ix = m.spec_indexes();
    let s = stored_form(m);
    let fb = fields_bytes(fs);
    let a = 2 + fb.len() as int;
    crate::bytes::lemma_le_bytes_len(fs.len() as nat, 2);
    crate::bytes::lemma_le_bytes_len(m.spec_record_size() as nat, 2);
    crate::bytes::lemma_le_bytes_len(m.spec_primary_key() as nat, 2);
    crate::bytes::lemma_le_bytes_len(ix.len() as nat, 2);
    lemma_u16s_len(ix);
    let head = u16_bytes(fs.len() as u16);
    let t1 = u16_bytes(m.spec_record_size());
    let t2 = u16_bytes(m.spec_primary_key());
    let t3 = u16_bytes(ix.len() as u16);
    let t4 = u16s_bytes(ix);
    assert(s == head + fb + t1 + t2 + t3 + t4);
    lemma_prefix_sub(s, data, 0, 2);
    assert(s.subrange(0, 2) =~= head);
    lemma_prefix_sub(s, data, a, a + 2);
    assert(s.subrange(a, a + 2) =~= t1);
    lemma_prefix_sub(s, data, a + 2, a + 4);
    assert(s.subrange(a + 2, a + 4) =~= t2);
    lemma_prefix_sub(s, data, a + 4, a + 6);
    assert(s.subrange(a + 4, a + 6) =~= t3);
    assert forall|k: int| 0 <= k < ix.len() implies data.subrange(a + 6 + 2 * k, a + 8 + 2 * k) == u16_bytes(#[trigger] ix[k]) by {
        lemma_u16s_bytes_prefix(ix, k);
        lemma_u16s_bytes_prefix(ix, k + 1);
        assert(ix.take(k + 1).drop_last() =~= ix.take(k));
        let pre = u16s_bytes(ix.take(k + 1));
        assert(pre == u16s_bytes(ix.take(k)) + u16_bytes(ix.take(k + 1).last()));
        crate::bytes::lemma_le_bytes_len(ix[k] as nat, 2);
        lemma_prefix_sub(s, data, a + 6 + 2 * k, a + 8 + 2 * k);
        assert(s.subrange(a + 6 + 2 * k, a + 8 + 2 * k) =~= pre.subrange(2 * k, 2 * k + 2));
        assert(pre.subrange(2 * k, 2 * k + 2) =~= u16_bytes(ix[k]));
    }
    assert forall|i: int| 0 <= i < fs.len() implies field_bytes(#[trigger] fs[i]).is_prefix_of(
        data.skip(2 + fields_bytes(fs.take(i)).len() as int),
    ) && 2 + fields_bytes(fs.take(i)).len() + field_bytes(fs[i]).len() == 2 + fields_bytes(fs.take(i + 1)).len() by {
        lemma_fields_bytes_prefix(fs, i + 1);
        assert(fs.take(i + 1).drop_last() =~= fs.take(i));
        let pre = fields_bytes(fs.take(i + 1));
        let lo = fields_bytes(fs.take(i)).len() as int;
        let fi = field_bytes(fs[i]);
        assert(pre == fields_bytes(fs.take(i)) + fi);
        lemma_prefix_sub(s, data, 2 + lo, 2 + lo + fi.len());
        assert(s.subrange(2 + lo, 2 + lo + fi.len()) =~= fi) by {
            assert forall|k: int| 0 <= k < fi.len() implies s.subrange(2 + lo, 2 + lo + fi.len())[k] == fi[k] by {
                assert(pre[lo + k] == fi[k]);
                assert(fb.subrange(0, pre.len() as int)[lo + k] == pre[lo + k]);
            }
        }
        let d = data.skip(2 + lo);
        assert(fi =~= d.subrange(0, fi.len() as int));
    }
}

proof fn lemma_width_diff(a: Seq<Type>, b: Seq<Type>, vi: int)
    requires
        a.len() == b.len(),
        0 <= vi < a.len(),
        forall|j: int| 0 <= j < a.len() && j != vi ==> (#[trigger] a[j]).width() == b[j].width(),
    ensures
        record_width(a) + b[vi].width() == record_width(b) + a[vi].width(),
    decreases a.len(),
{
    if vi < a.len() - 1 {
        assert forall|j: int| 0 <= j < a.len() - 1 && j != vi implies (#[trigger] a.drop_last()[j]).width() == b.drop_last()[j].width() by {
            assert(a.drop_last()[j] == a[j]);
            assert(b.drop_last()[j] == b[j]);
        }
        lemma_width_diff(a.drop_last(), b.drop_last(), vi);
        assert(a.last().width() == b.last().width());
    } else {
        lemma_same_widths(a.drop_last(), b.drop_last());
    }
}

proof fn lemma_same_widths(a: Seq<Type>, b: Seq<Type>)
    requires
        a.len() == b.len(),
        forall|j: int| 0 <= j < a.len() ==> (#[trigger] a[j]).width() == b[j].width(),
    ensures
        record_width(a) == record_width(b),
    decreases a.len(),
{
    if a.len() > 0 {
        assert forall|j: int| 0 <= j < a.len() - 1 implies (#[trigger] a.drop_last()[j]).width() == b.drop_last()[j].width() by {
            assert(a.drop_last()[j] == a[j]);
            assert(b.drop_last()[j] == b[j]);
        }
        lemma_same_widths(a.drop_last(), b.drop_last());
    }
}

/// Fields with the same names, types and flags obey the same rules and make
/// records of the same width.
proof fn lemma_same_fields_schema(a: Seq<Field>, b: Seq<Field>, primary_key: u16, indexes: Seq<u16>)
    requires
        same_fields(a, b),
    ensures
        record_width(shapes_of(a)) == record_width(shapes_of(b)),
        schema_ok(a, primary_key, indexes) == schema_ok(b, primary_key, indexes),
{
    assert forall|j: int| 0 <= j < a.len() implies (#[trigger] shapes_of(a)[j]).width() == shapes_of(b)[j].width() by {
        assert(a[j].type_@ == b[j].type_@);
    }
    lemma_same_widths(shapes_of(a), shapes_of(b));
    assert forall|i: int| 0 <= i < a.len() implies (#[trigger] a[i]).name_fits() == b[i].name_fits() by {
    }
    assert forall|i: int| 0 <= i < a.len() implies (#[trigger] a[i]).type_.width() == b[i].type_.width()
        && a[i].type_.tag() == b[i].type_.tag() by {
        assert(a[i].type_@ == b[i].type_@);
    }
    if (primary_key as int) < a.len() {
        assert(a[primary_key as int].nullable == b[primary_key as int].nullable);
    }
    assert(widths_recoverable(a) == widths_recoverable(b)) by {
        if widths_recoverable(a) {
            assert forall|i: int, j: int|
                0 <= i < b.len() && 0 <= j < b.len() && i != j && #[trigger] b[i].type_.tag() == 11
                    && #[trigger] b[j].type_.tag() == 11 implies b[i].type_.width() == 255 by {
                assert(a[i].type_.tag() == 11 && a[j].type_.tag() == 11);
                assert(a[i].type_.width() == 255);
            }
        }
        if widths_recoverable(b) {
            assert forall|i: int, j: int|
                0 <= i < a.len() && 0 <= j < a.len() && i != j && #[trigger] a[i].type_.tag() == 11
                    && #[trigger] a[j].type_.tag() == 11 implies a[i].type_.width() == 255 by {
                assert(b[i].type_.tag() == 11 && b[j].type_.tag() == 11);
                assert(b[i].type_.width() == 255);
            }
        }
    }
    assert forall|i: int| 0 <= i < a.len() implies (#[trigger] a[i]).name_fits() == b[i].name_fits() by {
    }
    if forall|i: int| 0 <= i < a.len() ==> (#[trigger] a[i]).name_fits() {
        assert forall|i: int| 0 <= i < b.len() implies (#[trigger] b[i]).name_fits() by {
            assert(a[i].name_fits());
        }
    }
    if forall|i: int| 0 <= i < b.len() ==> (#[trigger] b[i]).name_fits() {
        assert forall|i: int| 0 <= i < a.len() implies (#[trigger] a[i]).name_fits() by {
            assert(b[i].name_fits());
        }
    }
}

/// Gives a schema's varchar fields their widths back: a single varchar takes
/// what the record size leaves; several keep the widest width.
fn recover_widths(fields: Vec<Field>, record_size: u16) -> (r: Option<Vec<Field>>)
    requires
        fields@.len() <= 65535,
        forall|i: int|
            0 <= i < fields@.len() ==> (#[trigger] fields@[i]).is_shape() && (fields@[i].type_.tag() == 11
                ==> fields@[i].type_.width() == 255),
    ensures
        r matches Some(out) ==> stored_alike(out@, fields@) && forall|i: int|
            0 <= i < out@.len() ==> (#[trigger] out@[i]).is_shape(),
        forall|g: Seq<Field>|
            #[trigger] stored_alike(g, fields@) && (forall|i: int| 0 <= i < g.len() ==> (#[trigger] g[i]).is_shape())
                && widths_recoverable(g) && record_width(shapes_of(g)) == record_size ==> r is Some && same_fields(
                r->Some_0@,
                g,
            ),
{
    let ghost shapes = shapes_of(fields@);
    let mut total: u64 = 0;
    let mut count: usize = 0;
    let mut first: usize = 0;
    let mut last: usize = 0;
    let mut i: usize = 0;
    assert(shapes.take(0) =~= Seq::<Type>::empty());
    while i < fields.len()
        invariant
            i <= fields@.len() <= 65535,
            shapes == shapes_of(fields@),
            total == record_width(shapes.take(i as int)),
            total <= 255 * i,
            count <= i,
            count >= 1 ==> first <= last < i && fields@[first as int].type_.tag() == 11 && fields@[last as int].type_.tag() == 11,
            count == 0 ==> forall|j: int| 0 <= j < i ==> (#[trigger] fields@[j]).type_.tag() != 11,
            count == 1 ==> forall|j: int| 0 <= j < i && (#[trigger] fields@[j]).type_.tag() == 11 ==> j == last,
            count >= 2 ==> first != last,
        decreases fields@.len() - i,
    {
        assert(shapes.take(i + 1).drop_last() =~= shapes.take(i as int));
        total = total + fields[i].type_.size() as u64;
        if fields[i].type_.type_id() == 11 {
            if count == 0 {
                first = i;
            }
            last = i;
            count = count + 1;
        }
        i = i + 1;
    }
    assert(shapes.take(i as int) =~= shapes);
    if count != 1 {
        proof {
            assert forall|g: Seq<Field>|
                #[trigger] stored_alike(g, fields@) && (forall|k: int| 0 <= k < g.len() ==> (#[trigger] g[k]).is_shape())
                    && widths_recoverable(g) && record_width(shapes_of(g)) == record_size implies same_fields(fields@, g) by {
                assert forall|k: int| 0 <= k < g.len() implies (#[trigger] fields@[k]).name@ == g[k].name@ && fields@[k].type_@
                    == g[k].type_@ && fields@[k].nullable == g[k].nullable by {
                    assert(g[k].is_shape());
                    assert(fields@[k].is_shape());
                    if fields@[k].type_.tag() == 11 {
                        let other = if k == first { last } else { first };
                        assert(g[other as int].type_.tag() == 11);
                        assert(g[k].type_.width() == 255);
                    }
                }
            }
        }
        return Some(fields);
    }
    let vi = last;
    if (record_size as u64) + 255 < total || (record_size as u64) + 255 - total > 255 {
        proof {
            assert forall|g: Seq<Field>|
                !(#[trigger] stored_alike(g, fields@) && (forall|k: int| 0 <= k < g.len() ==> (#[trigger] g[k]).is_shape())
                    && widths_recoverable(g) && record_width(shapes_of(g)) == record_size) by {
                if stored_alike(g, fields@) && (forall|k: int| 0 <= k < g.len() ==> (#[trigger] g[k]).is_shape())
                    && widths_recoverable(g) && record_width(shapes_of(g)) == record_size {
                    assert forall|j: int| 0 <= j < shapes.len() && j != vi implies (#[trigger] shapes[j]).width()
                        == shapes_of(g)[j].width() by {
                        assert(g[j].is_shape());
                        assert(fields@[j].is_shape());
                    }
                    lemma_width_diff(shapes, shapes_of(g), vi as int);
                }
            }
        }
        return None;
    }
    let w: u8 = ((record_size as u64) + 255 - total) as u8;
    let mut out = fields;
    let old_field = out.remove(vi);
    let replaced = Field { name: old_field.name, type_: Type::Varchar(w, String::new()), nullable: old_field.nullable };
    out.insert(vi, replaced);
    proof {
        assert forall|k: int| 0 <= k < out@.len() && k != vi implies #[trigger] out@[k] == fields@[k] by {
        }
        assert forall|g: Seq<Field>|
            #[trigger] stored_alike(g, fields@) && (forall|k: int| 0 <= k < g.len() ==> (#[trigger] g[k]).is_shape())
                && widths_recoverable(g) && record_width(shapes_of(g)) == record_size implies same_fields(out@, g) by {
            assert forall|j: int| 0 <= j < shapes.len() && j != vi implies (#[trigger] shapes[j]).width()
                == shapes_of(g)[j].width() by {
                assert(g[j].is_shape());
                assert(fields@[j].is_shape());
            }
            lemma_width_diff(shapes, shapes_of(g), vi as int);
            assert forall|k: int| 0 <= k < g.len() implies (#[trigger] out@[k]).name@ == g[k].name@ && out@[k].type_@
                == g[k].type_@ && out@[k].nullable == g[k].nullable by {
                assert(g[k].is_shape());
                if k != vi {
                    assert(fields@[k].is_shape());
                    assert(out@[k] == fields@[k]);
                }
            }
        }
    }
    Some(out)
}

fn push_u16(out: &mut Vec<u8>, x: u16)
    ensures
        final(out)@ == old(out)@ + u16_bytes(x),
{
    proof {
        lemma_pow256_values();
        reveal_with_fuel(crate::bytes::le_bytes, 3);
    }
    out.push((x % 256) as u8);
    out.push((x / 256) as u8);
    assert(final(out)@ =~= old(out)@ + u16_bytes(x));
}

fn read_u16_at(data: &[u8], at: usize) -> (r: u16)
    requires
        at + 2 <= data@.len(),
    ensures
        u16_bytes(r) == data@.subrange(at as int, at + 2),
{
    let lo: u8 = data[at];
    let hi: u8 = data[at + 1];
    let r: u16 = lo as u16 + 256 * hi as u16;
    proof {
        lemma_pow256_values();
        reveal_with_fuel(crate::bytes::le_bytes, 3);
        assert(u16_bytes(r) =~= data@.subrange(at as int, at + 2));
    }
    r
}

fn append(out: &mut Vec<u8>, b: &Vec<u8>)
    ensures
        final(out)@ == old(out)@ + b@,
{
    let mut j: usize = 0;
    while j < b.len()
        invariant
            j <= b@.len(),
            out@ == old(out)@ + b@.take(j as int),
        decreases b@.len() - j,
    {
        out.push(b[j]);
        j = j + 1;
        assert(out@ =~= old(out)@ + b@.take(j as int));
    }
    assert(b@.take(j as int) =~= b@);
}

/// Checks the rules of `schema_ok` and computes the record size.
fn check_schema(fields: &Vec<Field>, primary_key: u16, indexes: &Vec<u16>) -> (r: Option<u16>)
    ensures
        r is Some <==> schema_ok(fields@, primary_key, indexes@),
        r matches Some(size) ==> size == record_width(shapes_of(fields@)),
{
    if fields.len() > 65535 || indexes.len() > 65535 {
        return None;
    }
    if primary_key as usize >= fields.len() {
        return None;
    }
    if fields[primary_key as usize].nullable {
        return None;
    }
    let mut has_pk = false;
    let mut i: usize = 0;
    while i < indexes.len()
        invariant
            i <= indexes@.len(),
            fields@.len() <= 65535,
            forall|j: int| 0 <= j < i ==> #[trigger] indexes@[j] < fields@.len(),
            has_pk <==> indexes@.take(i as int).contains(primary_key),
        decreases indexes@.len() - i,
    {
        if indexes[i] as usize >= fields.len() {
            return None;
        }
        if indexes[i] == primary_key {
            has_pk = true;
        }
        assert(indexes@.take(i + 1) =~= indexes@.take(i as int).push(indexes@[i as int]));
        proof {
            lemma_push_contains(indexes@.take(i as int), indexes@[i as int], primary_key);
        }
        i = i + 1;
    }
    assert(indexes@.take(i as int) =~= indexes@);
    if !has_pk {
        return None;
    }
    let mut total: u64 = 0;
    let mut k: usize = 0;
    let ghost shapes = shapes_of(fields@);
    assert(shapes.take(0) =~= Seq::<Type>::empty());
    while k < fields.len()
        invariant
            k <= fields@.len() <= 65535,
            shapes == shapes_of(fields@),
            total == record_width(shapes.take(k as int)),
            total <= 255 * k,
            forall|j: int| 0 <= j < k ==> (#[trigger] fields@[j]).name_fits(),
        decreases fields@.len() - k,
    {
        if fields[k].name.as_str().as_bytes().len() > 255 {
            return None;
        }
        assert(shapes.take(k + 1).drop_last() =~= shapes.take(k as int));
        total = total + fields[k].type_.size() as u64;
        k = k + 1;
    }
    assert(shapes.take(k as int) =~= shapes);
    if total < 1 || total > 4096 {
        return None;
    }
    if !check_recoverable(fields) {
        return None;
    }
    Some(total as u16)
}

impl TableMetadata {
    pub closed spec fn spec_fields(&self) -> Seq<Field> {
        self.fields@
    }

    pub closed spec fn spec_record_size(&self) -> u16 {
        self.record_size
    }

    pub closed spec fn spec_primary_key(&self) -> u16 {
        self.primary_key_index
    }

    pub closed spec fn spec_indexes(&self) -> Seq<u16> {
        self.indexes@
    }

    pub open spec fn wf(&self) -> bool {
        &&& schema_ok(self.spec_fields(), self.spec_primary_key(), self.spec_indexes())
        &&& self.spec_record_size() == record_width(shapes_of(self.spec_fields()))
    }

    /// The number of records a page holds.
    pub open spec fn slots_per_page(&self) -> nat {
        PAGE_SIZE_BYTES as nat / self.spec_record_size() as nat
    }

    /// A schema; the primary key is indexed whether `indexes` names it or not.
    /// Fails when the rules of `schema_ok` are broken.
    pub fn new(fields: Vec<Field>, primary_key_index: u16, indexes: Vec<u16>) -> (r: Result<
        TableMetadata,
        DbError,
    >)
        ensures
            ({
                let all = if indexes@.contains(primary_key_index) {
                    indexes@
                } else {
                    indexes@.push(primary_key_index)
                };
                &&& r is Ok <==> schema_ok(fields@, primary_key_index, all)
                &&& r matches Ok(m) ==> m.wf() && m.spec_fields() == fields@
                    && m.spec_primary_key() == primary_key_index && m.spec_indexes() == all
                &&& r matches Err(e) ==> e == DbError::InvalidSchema
            }),
    {
        let mut indexes = indexes;
        let mut present = false;
        let mut i: usize = 0;
        while i < indexes.len()
            invariant
                i <= indexes@.len(),
                present <==> indexes@.take(i as int).contains(primary_key_index),
            decreases indexes@.len() - i,
        {
            if indexes[i] == primary_key_index {
                present = true;
            }
            assert(indexes@.take(i + 1) =~= indexes@.take(i as int).push(indexes@[i as int]));
            proof {
                lemma_push_contains(indexes@.take(i as int), indexes@[i as int], primary_key_index);
            }
            i = i + 1;
        }
        assert(indexes@.take(i as int) =~= indexes@);
        if !present {
            if indexes.len() >= 65535 {
                return Err(DbError::InvalidSchema);
            }
            indexes.push(primary_key_index);
            assert(indexes@.contains(primary_key_index)) by {
                assert(indexes@[indexes@.len() - 1] == primary_key_index);
            }
        }
        match check_schema(&fields, primary_key_index, &indexes) {
            Some(record_size) => Ok(TableMetadata { fields, record_size, primary_key_index, indexes }),
            None => Err(DbError::InvalidSchema),
        }
    }

    /// The persisted bytes of the schema.
    pub fn serialize(&self) -> (r: Result<Vec<u8>, ()>)
        requires
            self.wf(),
        ensures
            r == Ok::<Vec<u8>, ()>(r->Ok_0),
            r->Ok_0@ == metadata_bytes(
                self.spec_fields(),
                self.spec_record_size(),
                self.spec_primary_key(),
                self.spec_indexes(),
            ),
    {
        let mut out: Vec<u8> = Vec::new();
        push_u16(&mut out, self.fields.len() as u16);
        let ghost head = out@;
        let mut i: usize = 0;
        assert(self.fields@.take(0) =~= Seq::<Field>::empty());
        while i < self.fields.len()
            invariant
                i <= self.fields@.len(),
                self.wf(),
                out@ == head + fields_bytes(self.fields@.take(i as int)),
            decreases self.fields@.len() - i,
        {
            assert(self.fields@[i as int].name_fits());
            let b = self.fields[i].serialize();
            append(&mut out, &b);
            assert(self.fields@.take(i + 1).drop_last() =~= self.fields@.take(i as int));
            i = i + 1;
        }
        assert(self.fields@.take(i as int) =~= self.fields@);
        push_u16(&mut out, self.record_size);
        push_u16(&mut out, self.primary_key_index);
        push_u16(&mut out, self.indexes.len() as u16);
        let ghost mid = out@;
        let mut k: usize = 0;
        assert(self.indexes@.take(0) =~= Seq::<u16>::empty());
        while k < self.indexes.len()
            invariant
                k <= self.indexes@.len(),
                out@ == mid + u16s_bytes(self.indexes@.take(k as int)),
            decreases self.indexes@.len() - k,
        {
            push_u16(&mut out, self.indexes[k]);
            assert(self.indexes@.take(k + 1).drop_last() =~= self.indexes@.take(k as int));
            k = k + 1;
        }
        assert(self.indexes@.take(k as int) =~= self.indexes@);
        assert(out@ =~= metadata_bytes(
            self.spec_fields(),
            self.spec_record_size(),
            self.spec_primary_key(),
            self.spec_indexes(),
        ));
        Ok(out)
    }

    /// Reads a schema from the start of `data`. Missing bytes, a field that
    /// cannot be read, a varchar width the record size cannot give, a stored
    /// record size that does not match the fields, and a schema that breaks
    /// the rules are corrupted data. What is read serializes back to the bytes
    /// it was read from; and every well-formed schema of bare shapes reads
    /// back from its own bytes.
    pub fn deserialize(data: &[u8]) -> (r: Result<TableMetadata, DbError>)
        ensures
            r matches Ok(m) ==> reads_back(m, data@),
            r matches Err(e) ==> e == DbError::CorruptedData,
            forall|m: TableMetadata| #[trigger] reads_back(m, data@) ==> r is Ok && same_fields(
                r->Ok_0.spec_fields(),
                m.spec_fields(),
            ) && r->Ok_0.spec_record_size() == m.spec_record_size() && r->Ok_0.spec_primary_key()
                == m.spec_primary_key() && r->Ok_0.spec_indexes() == m.spec_indexes(),
    {
        let dlen: usize = data.len();
        if dlen < 2 {
            proof {
                assert forall|m: TableMetadata| !#[trigger] reads_back(m, data@) by {
                    if reads_back(m, data@) {
                        lemma_stored_parts(m, data@);
                    }
                }
            }
            return Err(DbError::CorruptedData);
        }
        let count: u16 = read_u16_at(data, 0);
        proof {
            assert forall|m: TableMetadata| #[trigger] reads_back(m, data@) implies count as int == m.spec_fields().len() by {
                lemma_stored_parts(m, data@);
                lemma_u16_inj(count, m.spec_fields().len() as u16);
            }
        }
        let mut at: usize = 2;
        let mut fields: Vec<Field> = Vec::new();
        let mut i: u16 = 0;
        assert(fields@ =~= Seq::<Field>::empty());
        while i < count
            invariant
                i <= count,
                2 <= at <= data@.len(),
                dlen == data@.len(),
                fields@.len() == i,
                u16_bytes(count) == data@.subrange(0, 2),
                u16_bytes(count) + fields_bytes(fields@) == data@.take(at as int),
                forall|j: int|
                    0 <= j < i ==> (#[trigger] fields@[j]).is_shape() && (fields@[j].type_.tag() == 11
                        ==> fields@[j].type_.width() == 255),
                forall|m: TableMetadata| #[trigger] reads_back(m, data@) ==> count as int == m.spec_fields().len()
                    && at == 2 + fields_bytes(m.spec_fields().take(i as int)).len() && stored_alike(
                    fields@,
                    m.spec_fields().take(i as int),
                ),
            decreases count - i,
        {
            let ghost before = fields@;
            match Field::deserialize(data, at) {
                Ok((f, next)) => {
                    fields.push(f);
                    assert(fields@.drop_last() =~= before);
                    assert(data@.take(next as int) =~= data@.take(at as int) + data@.subrange(
                        at as int,
                        next as int,
                    ));
                    proof {
                        assert forall|m: TableMetadata| #[trigger] reads_back(m, data@) implies count as int
                            == m.spec_fields().len() && next == 2 + fields_bytes(m.spec_fields().take(i + 1)).len()
                            && stored_alike(fields@, m.spec_fields().take(i + 1)) by {
                            let fs = m.spec_fields();
                            lemma_stored_parts(m, data@);
                            assert(fs[i as int].name_fits());
                            assert(field_bytes(fs[i as int]).is_prefix_of(data@.skip(at as int)));
                            assert forall|j: int| 0 <= j < i + 1 implies (#[trigger] fields@[j]).name@ == fs.take(i + 1)[j].name@
                                && fields@[j].type_.tag() == fs.take(i + 1)[j].type_.tag() && fields@[j].nullable
                                == fs.take(i + 1)[j].nullable by {
                                if j < i {
                                    assert(fields@[j] == before[j]);
                                    assert(fs.take(i as int)[j] == fs.take(i + 1)[j]);
                                }
                            }
                        }
                    }
                    at = next;
                },
                Err(e) => {
                    proof {
                        assert forall|m: TableMetadata| !#[trigger] reads_back(m, data@) by {
                            if reads_back(m, data@) {
                                let fs = m.spec_fields();
                                lemma_stored_parts(m, data@);
                                assert(fs[i as int].name_fits());
                                assert(field_bytes(fs[i as int]).is_prefix_of(data@.skip(at as int)));
                            }
                        }
                    }
                    return Err(e);
                },
            }
            i = i + 1;
        }
        proof {
            assert forall|m: TableMetadata| #[trigger] reads_back(m, data@) implies at == 2 + fields_bytes(m.spec_fields()).len()
                && stored_alike(fields@, m.spec_fields()) by {
                assert(m.spec_fields().take(i as int) =~= m.spec_fields());
            }
        }
        if dlen - at < 6 {
            proof {
                assert forall|m: TableMetadata| !#[trigger] reads_back(m, data@) by {
                    if reads_back(m, data@) {
                        lemma_stored_parts(m, data@);
                    }
                }
            }
            return Err(DbError::CorruptedData);
        }
        let record_size: u16 = read_u16_at(data, at);
        let primary_key_index: u16 = read_u16_at(data, at + 2);
        let index_count: u16 = read_u16_at(data, at + 4);
        let ghost head_end = at + 6;
        proof {
            assert forall|m: TableMetadata| #[trigger] reads_back(m, data@) implies record_size == m.spec_record_size()
                && primary_key_index == m.spec_primary_key() && index_count as int == m.spec_indexes().len() by {
                lemma_stored_parts(m, data@);
                lemma_u16_inj(record_size, m.spec_record_size());
                lemma_u16_inj(primary_key_index, m.spec_primary_key());
                lemma_u16_inj(index_count, m.spec_indexes().len() as u16);
            }
        }
        assert(data@.take(head_end) =~= data@.take(at as int) + u16_bytes(record_size) + u16_bytes(
            primary_key_index,
        ) + u16_bytes(index_count));
        at = at + 6;
        let mut indexes: Vec<u16> = Vec::new();
        let mut k: u16 = 0;
        assert(indexes@ =~= Seq::<u16>::empty());
        while k < index_count
            invariant
                k <= index_count,
                head_end <= at <= data@.len(),
                dlen == data@.len(),
                indexes@.len() == k,
                at == head_end + 2 * k,
                data@.take(at as int) == data@.take(head_end) + u16s_bytes(indexes@),
                forall|m: TableMetadata| #[trigger] reads_back(m, data@) ==> head_end == 2 + fields_bytes(m.spec_fields()).len() + 6
                    && index_count as int == m.spec_indexes().len() && indexes@ == m.spec_indexes().take(k as int),
            decreases index_count - k,
        {
            if dlen - at < 2 {
                proof {
                    assert forall|m: TableMetadata| !#[trigger] reads_back(m, data@) by {
                        if reads_back(m, data@) {
                            lemma_stored_parts(m, data@);
                            assert(data@.subrange(head_end + 2 * k, head_end + 2 + 2 * k) == u16_bytes(m.spec_indexes()[k as int]));
                        }
                    }
                }
                return Err(DbError::CorruptedData);
            }
            let x: u16 = read_u16_at(data, at);
            let ghost before = indexes@;
            indexes.push(x);
            proof {
                assert forall|m: TableMetadata| #[trigger] reads_back(m, data@) implies indexes@ == m.spec_indexes().take(k + 1) by {
                    lemma_stored_parts(m, data@);
                    assert(data@.subrange(head_end + 2 * k, head_end + 2 + 2 * k) == u16_bytes(m.spec_indexes()[k as int]));
                    lemma_u16_inj(x, m.spec_indexes()[k as int]);
                    assert(indexes@ =~= m.spec_indexes().take(k + 1));
                }
            }
            assert(indexes@.drop_last() =~= before);
            assert(data@.take(at + 2) =~= data@.take(at as int) + data@.subrange(at as int, at + 2));
            at = at + 2;
            k = k + 1;
        }
        proof {
            assert forall|m: TableMetadata| #[trigger] reads_back(m, data@) implies indexes@ == m.spec_indexes() by {
                assert(m.spec_indexes().take(k as int) =~= m.spec_indexes());
            }
        }
        let ghost parsed = fields@;
        let recovered = match recover_widths(fields, record_size) {
            Some(f) => f,
            None => {
                proof {
                    assert forall|m: TableMetadata| !#[trigger] reads_back(m, data@) by {
                        if reads_back(m, data@) {
                            assert(stored_alike(m.spec_fields(), parsed)) by {
                                assert forall|j: int| 0 <= j < parsed.len() implies (#[trigger] m.spec_fields()[j]).name@ == parsed[j].name@
                                    && m.spec_fields()[j].type_.tag() == parsed[j].type_.tag() && m.spec_fields()[j].nullable == parsed[j].nullable by {
                                    assert(parsed[j].name@ == m.spec_fields()[j].name@);
                                }
                            }
                        }
                    }
                }
                return Err(DbError::CorruptedData);
            },
        };
        proof {
            lemma_fields_bytes_alike(recovered@, parsed);
        }
        match check_schema(&recovered, primary_key_index, &indexes) {
            Some(size) => {
                if size != record_size {
                    proof {
                        assert forall|m: TableMetadata| !#[trigger] reads_back(m, data@) by {
                            if reads_back(m, data@) {
                                assert(stored_alike(m.spec_fields(), parsed)) by {
                                    assert forall|j: int| 0 <= j < parsed.len() implies (#[trigger] m.spec_fields()[j]).name@ == parsed[j].name@
                                        && m.spec_fields()[j].type_.tag() == parsed[j].type_.tag() && m.spec_fields()[j].nullable == parsed[j].nullable by {
                                        assert(parsed[j].name@ == m.spec_fields()[j].name@);
                                    }
                                }
                                lemma_same_fields_schema(recovered@, m.spec_fields(), primary_key_index, indexes@);
                            }
                        }
                    }
                    return Err(DbError::CorruptedData);
                }
                let m = TableMetadata { fields: recovered, record_size, primary_key_index, indexes };
                assert(metadata_bytes(
                    m.spec_fields(),
                    m.spec_record_size(),
                    m.spec_primary_key(),
                    m.spec_indexes(),
                ) =~= data@.take(at as int));
                proof {
                    assert forall|m2: TableMetadata| #[trigger] reads_back(m2, data@) implies same_fields(m.spec_fields(), m2.spec_fields()) by {
                        assert(stored_alike(m2.spec_fields(), parsed)) by {
                            assert forall|j: int| 0 <= j < parsed.len() implies (#[trigger] m2.spec_fields()[j]).name@ == parsed[j].name@
                                && m2.spec_fields()[j].type_.tag() == parsed[j].type_.tag() && m2.spec_fields()[j].nullable == parsed[j].nullable by {
                                assert(parsed[j].name@ == m2.spec_fields()[j].name@);
                            }
                        }
                    }
                }
                Ok(m)
            },
            None => {
                proof {
                    assert forall|m: TableMetadata| !#[trigger] reads_back(m, data@) by {
                        if reads_back(m, data@) {
                            assert(stored_alike(m.spec_fields(), parsed)) by {
                                assert forall|j: int| 0 <= j < parsed.len() implies (#[trigger] m.spec_fields()[j]).name@ == parsed[j].name@
                                    && m.spec_fields()[j].type_.tag() == parsed[j].type_.tag() && m.spec_fields()[j].nullable == parsed[j].nullable by {
                                    assert(parsed[j].name@ == m.spec_fields()[j].name@);
                                }
                            }
                            lemma_same_fields_schema(recovered@, m.spec_fields(), primary_key_index, indexes@);
                        }
                    }
                }
                Err(DbError::CorruptedData)
            },
        }
    }

    pub fn record_size(&self) -> (r: u16)
        ensures
            r == self.spec_record_size(),
    {
        self.record_size
    }

    pub fn fields(&self) -> (r: &[Field])
        ensures
            r@ == self.spec_fields(),
    {
        self.fields.as_slice()
    }

    pub fn primary_key(&self) -> (r: u16)
        ensures
            r == self.spec_primary_key(),
    {
        self.primary_key_index
    }

    /// The indexed fields, in the order of `indexes_idx`.
    pub fn indexes(&self) -> (r: Vec<&Field>)
        requires
            self.wf(),
        ensures
            r@.len() == self.spec_indexes().len(),
            forall|i: int|
                0 <= i < r@.len() ==> *(#[trigger] r@[i]) == self.spec_fields()[self.spec_indexes()[i] as int],
    {
        let mut out: Vec<&Field> = Vec::new();
        let mut i: usize = 0;
        while i < self.indexes.len()
            invariant
                i <= self.indexes@.len(),
                self.wf(),
                out@.len() == i,
                forall|j: int| 0 <= j < i ==> *(#[trigger] out@[j]) == self.fields@[self.indexes@[j] as int],
            decreases self.indexes@.len() - i,
        {
            let idx: usize = self.indexes[i] as usize;
            out.push(&self.fields[idx]);
            i = i + 1;
        }
        out
    }

    pub fn indexes_idx(&self) -> (r: &[u16])
        ensures
            r@ == self.spec_indexes(),
    {
        self.indexes.as_slice()
    }
}

} // verus!
