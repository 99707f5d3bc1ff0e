//! A named, typed column of a table, and its persisted form.
use crate::dbtype::Type;
use crate::error::DbError;
use crate::text::utf8_string;
use vstd::prelude::*;
use vstd::utf8::encode_utf8;

verus! {

broadcast use vstd::utf8::encode_utf8_decode_utf8, vstd::utf8::decode_utf8_encode_utf8;

/// A column: its name, the shape of its values, and whether it may be empty.
#[derive(Debug)]
pub struct Field {
    pub name: String,
    pub type_: Type,
    pub nullable: bool,
}

impl Clone for Field {
    fn clone(&self) -> (r: Field)
        ensures
            r == *self,
    {
        Field { name: self.name.clone(), type_: self.type_.clone(), nullable: self.nullable }
    }
}

impl PartialEq for Field {
    fn eq(&self, other: &Field) -> (r: bool) {
        self.name.eq(&other.name) && self.type_ == other.type_ && self.nullable == other.nullable
    }
}

impl vstd::std_specs::cmp::PartialEqSpecImpl for Field {
    open spec fn obeys_eq_spec() -> bool {
        true
    }

    open spec fn eq_spec(&self, other: &Field) -> bool {
        self.name@ == other.name@ && self.type_@ == other.type_@ && self.nullable == other.nullable
    }
}

impl Eq for Field {

}

/// The number of bytes a field name takes at most.
pub const MAX_NAME_BYTES: usize = 255;

/// The persisted form of a field: the name's byte length, the name's UTF-8
/// bytes, the type tag and the nullable flag. A varchar's declared width is
/// not part of it; the schema's record size carries it.
pub open spec fn field_bytes(f: Field) -> Seq<u8> {
    let name = encode_utf8(f.name@);
    seq![name.len() as u8] + name + seq![f.type_.tag(), if f.nullable { 1u8 } else { 0u8 }]
}

/// What the persisted form of `f` says about the bytes from `start` on.
proof fn lemma_field_bytes_at(f: Field, data: Seq<u8>, start: int)
    requires
        0 <= start <= data.len(),
        field_bytes(f).is_prefix_of(data.skip(start)),
        f.name_fits(),
    ensures
        ({
            let name = encode_utf8(f.name@);
            &&& start + name.len() + 3 <= data.len()
            &&& data[start] == name.len()
            &&& data.subrange(start + 1, start + 1 + name.len()) == name
            &&& data[start + 1 + name.len()] == f.type_.tag()
            &&& data[start + 2 + name.len()] == (if f.nullable { 1u8 } else { 0u8 })
            &&& field_bytes(f).len() == name.len() + 3
        }),
{
    let name = encode_utf8(f.name@);
    let n = name.len() as int;
    let fb = field_bytes(f);
    let d = data.skip(start);
    assert(fb.len() == n + 3);
    assert forall|k: int| 0 <= k < fb.len() implies data[start + k] == #[trigger] fb[k] by {
        assert(fb[k] == d.subrange(0, fb.len() as int)[k]);
        assert(d[k] == data[start + k]);
    }
    assert(fb[0] == name.len() as u8);
    assert forall|i: int| 0 <= i < n implies data.subrange(start + 1, start + 1 + n)[i] == name[i] by {
        assert(fb[1 + i] == name[i]);
    }
    assert(data.subrange(start + 1, start + 1 + n) =~= name);
    assert(fb[1 + n] == f.type_.tag());
    assert(fb[2 + n] == (if f.nullable { 1u8 } else { 0u8 }));
}

impl Field {
    /// Whether the name fits its one-byte length prefix.
    pub open spec fn name_fits(&self) -> bool {
        encode_utf8(self.name@).len() <= 255
    }

    /// Whether the type is a bare shape: zero payload (a varchar's number is
    /// its width), empty text.
    pub open spec fn is_shape(&self) -> bool {
        self.type_.num() == (if self.type_.tag() == 11 { self.type_.width() as int } else { 0 })
            && self.type_.text() == Seq::<char>::empty()
    }

    /// A field; fails when the name takes more than 255 bytes.
    pub fn new(name: String, type_: Type, nullable: bool) -> (r: Result<Field, DbError>)
        ensures
            r is Ok <==> encode_utf8(name@).len() <= 255,
            r matches Ok(f) ==> f.name == name && f.type_ == type_ && f.nullable == nullable,
            r matches Err(e) ==> e == DbError::InvalidSchema,
    {
        if name.as_str().as_bytes().len() > MAX_NAME_BYTES {
            Err(DbError::InvalidSchema)
        } else {
            Ok(Field { name, type_, nullable })
        }
    }

    /// The persisted bytes of the field.
    pub fn serialize(&self) -> (r: Vec<u8>)
        requires
            self.name_fits(),
        ensures
            r@ == field_bytes(*self),
    {
        let name: &[u8] = self.name.as_str().as_bytes();
        let mut out: Vec<u8> = Vec::new();
        out.push(name.len() as u8);
        let mut i: usize = 0;
        while i < name.len()
            invariant
                i <= name@.len(),
                name@ == encode_utf8(self.name@),
                out@ == seq![name@.len() as u8] + name@.take(i as int),
            decreases name@.len() - i,
        {
            out.push(name[i]);
            i = i + 1;
            assert(out@ =~= seq![name@.len() as u8] + name@.take(i as int));
        }
        assert(name@.take(i as int) =~= name@);
        out.push(self.type_.type_id());
        out.push(if self.nullable { 1u8 } else { 0u8 });
        assert(out@ =~= field_bytes(*self));
        out
    }

    /// Reads a field from `data[start..]`, giving the field and where the bytes
    /// after it start. Missing bytes, a name that is not UTF-8, an unknown type
    /// tag and a nullable flag other than 0 or 1 are corrupted data. A varchar
    /// comes back with the widest width, 255. The bytes of every field whose
    /// name fits are read back.
    pub fn deserialize(data: &[u8], start: usize) -> (r: Result<(Field, usize), DbError>)
        requires
            start <= data@.len(),
        ensures
            r matches Ok((f, next)) ==> start < next <= data@.len() && f.name_fits() && f.is_shape()
                && (f.type_.tag() == 11 ==> f.type_.width() == 255)
                && field_bytes(f) == data@.subrange(start as int, next as int),
            r matches Err(e) ==> e == DbError::CorruptedData,
            forall|g: Field|
                #[trigger] field_bytes(g).is_prefix_of(data@.skip(start as int)) && g.name_fits() ==> r is Ok
                    && r->Ok_0.1 == start + field_bytes(g).len() && r->Ok_0.0.name@ == g.name@
                    && r->Ok_0.0.type_.tag() == g.type_.tag() && r->Ok_0.0.nullable == g.nullable,
    {
        let dlen: usize = data.len();
        if start >= dlen {
            proof {
                assert forall|g: Field| !(#[trigger] field_bytes(g).is_prefix_of(data@.skip(start as int)) && g.name_fits()) by {
                    if field_bytes(g).is_prefix_of(data@.skip(start as int)) && g.name_fits() {
                        lemma_field_bytes_at(g, data@, start as int);
                    }
                }
            }
            return Err(DbError::CorruptedData);
        }
        let name_len: usize = data[start] as usize;
        if dlen - start - 1 < name_len + 2 {
            proof {
                assert forall|g: Field| !(#[trigger] field_bytes(g).is_prefix_of(data@.skip(start as int)) && g.name_fits()) by {
                    if field_bytes(g).is_prefix_of(data@.skip(start as int)) && g.name_fits() {
                        lemma_field_bytes_at(g, data@, start as int);
                    }
                }
            }
            return Err(DbError::CorruptedData);
        }
        let mut name_bytes: Vec<u8> = Vec::new();
        let mut i: usize = 0;
        while i < name_len
            invariant
                i <= name_len,
                start + 1 + name_len + 2 <= data@.len(),
                dlen == data@.len(),
                name_bytes@ == data@.subrange(start + 1, start + 1 + i),
            decreases name_len - i,
        {
            name_bytes.push(data[start + 1 + i]);
            i = i + 1;
            assert(name_bytes@ =~= data@.subrange(start + 1, start + 1 + i));
        }
        let ghost raw = name_bytes@;
        let name = match utf8_string(name_bytes) {
            Some(s) => s,
            None => {
                proof {
                    assert forall|g: Field| !(#[trigger] field_bytes(g).is_prefix_of(data@.skip(start as int)) && g.name_fits()) by {
                        if field_bytes(g).is_prefix_of(data@.skip(start as int)) && g.name_fits() {
                            lemma_field_bytes_at(g, data@, start as int);
                            vstd::utf8::encode_utf8_valid_utf8(g.name@);
                        }
                    }
                }
                return Err(DbError::CorruptedData);
            },
        };
        let mut at: usize = start + 1 + name_len;
        let tag: u8 = data[at];
        at = at + 1;
        let type_ = match Type::from_type_id(tag) {
            Some(t) => t,
            None => {
                proof {
                    assert forall|g: Field| !(#[trigger] field_bytes(g).is_prefix_of(data@.skip(start as int)) && g.name_fits()) by {
                        if field_bytes(g).is_prefix_of(data@.skip(start as int)) && g.name_fits() {
                            lemma_field_bytes_at(g, data@, start as int);
                        }
                    }
                }
                return Err(DbError::CorruptedData);
            },
        };
        let nullable: bool = data[at] != 0;
        if data[at] > 1 {
            proof {
                assert forall|g: Field| !(#[trigger] field_bytes(g).is_prefix_of(data@.skip(start as int)) && g.name_fits()) by {
                    if field_bytes(g).is_prefix_of(data@.skip(start as int)) && g.name_fits() {
                        lemma_field_bytes_at(g, data@, start as int);
                    }
                }
            }
            return Err(DbError::CorruptedData);
        }
        at = at + 1;
        let f = Field { name, type_, nullable };
        proof {
            assert(encode_utf8(f.name@) == raw);
            assert(field_bytes(f) =~= data@.subrange(start as int, at as int));
            assert forall|g: Field| #[trigger] field_bytes(g).is_prefix_of(data@.skip(start as int)) && g.name_fits() implies at
                == start + field_bytes(g).len() && f.name@ == g.name@ && f.type_.tag() == g.type_.tag() && f.nullable == g.nullable by {
                lemma_field_bytes_at(g, data@, start as int);
                assert(raw == encode_utf8(g.name@));
            }
        }
        Ok((f, at))
    }
}

} // verus!
