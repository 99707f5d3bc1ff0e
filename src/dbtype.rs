//! Typed values: fixed-width binary codec and the total order used by indexes.
use crate::bytes::{
    le_bytes, le_value, lemma_le_bytes_len, lemma_le_round_trip, lemma_le_value_bound,
    lemma_pow256_monotone, lemma_pow256_values, pow256, push_le, read_le,
};
use crate::error::DbError;
use crate::text::utf8_string;
use core::cmp::Ordering;
use vstd::prelude::*;
use vstd::utf8::{
    decode_utf8, encode_scalar, encode_utf8, has_width_1_encoding, is_scalar, valid_utf8,
};

verus! {

broadcast use vstd::utf8::encode_utf8_decode_utf8, vstd::utf8::encode_utf8_valid_utf8;

/// A typed scalar value. A `Varchar` carries its declared byte width and its text.
#[derive(Debug)]
pub enum Type {
    I8(i8),
    I16(i16),
    I32(i32),
    I64(i64),
    I128(i128),
    U8(u8),
    U16(u16),
    U32(u32),
    U64(u64),
    U128(u128),
    Varchar(u8, String),
    Boolean(bool),
}

/// The model of a value: its type tag, its number (for a varchar, the declared
/// width; for a boolean, 0 or 1) and its text (empty but for a varchar).
pub type ValueModel = (u8, int, Seq<char>);

impl View for Type {
    type V = ValueModel;

    open spec fn view(&self) -> ValueModel {
        (self.tag(), self.num(), self.text())
    }
}

/// `x` as the unsigned number with the same `w` low bytes (two's complement).
pub open spec fn unsigned_bits(x: int, w: nat) -> nat {
    if x < 0 {
        (x + pow256(w)) as nat
    } else {
        x as nat
    }
}

/// The signed number whose two's complement in `w` bytes is `u`.
pub open spec fn signed_value(u: nat, w: nat) -> int {
    if 2 * u >= pow256(w) {
        u - pow256(w)
    } else {
        u as int
    }
}

/// `b` cut or filled with zero bytes to exactly `n` bytes.
pub open spec fn zero_padded(b: Seq<u8>, n: nat) -> Seq<u8> {
    if b.len() >= n {
        b.take(n as int)
    } else {
        b + Seq::new((n - b.len()) as nat, |i: int| 0u8)
    }
}

/// `b` without its trailing zero bytes.
pub open spec fn trim_zeros(b: Seq<u8>) -> Seq<u8>
    decreases b.len(),
{
    if b.len() > 0 && b.last() == 0 {
        trim_zeros(b.drop_last())
    } else {
        b
    }
}

impl Type {
    /// The persisted type tag.
    pub open spec fn tag(&self) -> u8 {
        match self {
            Type::I8(_) => 1,
            Type::I16(_) => 2,
            Type::I32(_) => 3,
            Type::I64(_) => 4,
            Type::I128(_) => 5,
            Type::U8(_) => 6,
            Type::U16(_) => 7,
            Type::U32(_) => 8,
            Type::U64(_) => 9,
            Type::U128(_) => 10,
            Type::Varchar(_, _) => 11,
            Type::Boolean(_) => 12,
        }
    }

    /// The number of bytes the value occupies in a record.
    pub open spec fn width(&self) -> nat {
        match self {
            Type::I8(_) | Type::U8(_) | Type::Boolean(_) => 1,
            Type::I16(_) | Type::U16(_) => 2,
            Type::I32(_) | Type::U32(_) => 4,
            Type::I64(_) | Type::U64(_) => 8,
            Type::I128(_) | Type::U128(_) => 16,
            Type::Varchar(len, _) => *len as nat,
        }
    }

    pub open spec fn num(&self) -> int {
        match self {
            Type::I8(x) => *x as int,
            Type::I16(x) => *x as int,
            Type::I32(x) => *x as int,
            Type::I64(x) => *x as int,
            Type::I128(x) => *x as int,
            Type::U8(x) => *x as int,
            Type::U16(x) => *x as int,
            Type::U32(x) => *x as int,
            Type::U64(x) => *x as int,
            Type::U128(x) => *x as int,
            Type::Varchar(len, _) => *len as int,
            Type::Boolean(b) => if *b { 1 } else { 0 },
        }
    }

    pub open spec fn text(&self) -> Seq<char> {
        match self {
            Type::Varchar(_, s) => s@,
            _ => seq![],
        }
    }

    pub open spec fn is_signed(&self) -> bool {
        1 <= self.tag() <= 5
    }

    /// The bytes that encode the value: little-endian two's complement for
    /// integers, one byte for a boolean, and for a varchar its UTF-8 bytes cut
    /// or zero-filled to the declared width.
    pub open spec fn encoding(&self) -> Seq<u8> {
        match self {
            Type::Varchar(len, s) => zero_padded(encode_utf8(s@), *len as nat),
            Type::Boolean(b) => seq![if *b { 1u8 } else { 0u8 }],
            _ => le_bytes(unsigned_bits(self.num(), self.width()), self.width()),
        }
    }

    /// Whether a value of this shape can be read back from bytes `b` that are
    /// long enough: a varchar's bytes, zeros trimmed, must be valid UTF-8.
    pub open spec fn readable(&self, b: Seq<u8>) -> bool {
        match self {
            Type::Varchar(len, _) => valid_utf8(trim_zeros(b.take(*len as int))),
            _ => true,
        }
    }

    /// The value of this shape read from the first `width()` bytes of `b`.
    pub open spec fn decoded(&self, b: Seq<u8>) -> ValueModel {
        let u = le_value(b.take(self.width() as int));
        match self {
            Type::Varchar(len, _) => (
                11u8,
                *len as int,
                decode_utf8(trim_zeros(b.take(*len as int))),
            ),
            Type::Boolean(_) => (12u8, if b[0] != 0 { 1int } else { 0int }, seq![]),
            _ => (
                self.tag(),
                if self.is_signed() { signed_value(u, self.width()) } else { u as int },
                seq![],
            ),
        }
    }

    /// Whether decoding the value's own encoding gives it back: a varchar's
    /// UTF-8 bytes must fit its declared width and its text must not end in
    /// the NUL character (trailing zero bytes are taken as padding).
    pub open spec fn round_trips(&self) -> bool {
        match self {
            Type::Varchar(len, s) => encode_utf8(s@).len() <= *len as nat && (s@.len() == 0 || s@.last()
                != '\0'),
            _ => true,
        }
    }

    /// Whether the value reads back unchanged from its own bytes.
    pub fn fits(&self) -> (r: bool)
        ensures
            r == self.round_trips(),
    {
        match self {
            Type::Varchar(len, s) => {
                let b: &[u8] = s.as_str().as_bytes();
                proof {
                    lemma_utf8_trailing_zero(s@);
                }
                b.len() <= *len as usize && (b.len() == 0 || b[b.len() - 1] != 0)
            },
            _ => true,
        }
    }

    pub fn type_id(&self) -> (r: u8)
        ensures
            r == self.tag(),
    {
        match self {
            Type::I8(_) => 1,
            Type::I16(_) => 2,
            Type::I32(_) => 3,
            Type::I64(_) => 4,
            Type::I128(_) => 5,
            Type::U8(_) => 6,
            Type::U16(_) => 7,
            Type::U32(_) => 8,
            Type::U64(_) => 9,
            Type::U128(_) => 10,
            Type::Varchar(_, _) => 11,
            Type::Boolean(_) => 12,
        }
    }

    pub fn size(&self) -> (r: u8)
        ensures
            r as nat == self.width(),
    {
        match self {
            Type::I8(_) | Type::U8(_) | Type::Boolean(_) => 1,
            Type::I16(_) | Type::U16(_) => 2,
            Type::I32(_) | Type::U32(_) => 4,
            Type::I64(_) | Type::U64(_) => 8,
            Type::I128(_) | Type::U128(_) => 16,
            Type::Varchar(len, _) => *len,
        }
    }

    /// The zero value of the type with tag `id`; a varchar gets the widest
    /// declared width, 255. Unknown tags give `None`.
    pub fn from_type_id(id: u8) -> (r: Option<Type>)
        ensures
            r is Some <==> 1 <= id <= 12,
            r matches Some(t) ==> t.tag() == id && t.num() == (if id == 11 { 255int } else { 0int })
                && t.text() == Seq::<char>::empty(),
    {
        match id {
            1 => Some(Type::I8(0)),
            2 => Some(Type::I16(0)),
            3 => Some(Type::I32(0)),
            4 => Some(Type::I64(0)),
            5 => Some(Type::I128(0)),
            6 => Some(Type::U8(0)),
            7 => Some(Type::U16(0)),
            8 => Some(Type::U32(0)),
            9 => Some(Type::U64(0)),
            10 => Some(Type::U128(0)),
            11 => Some(Type::Varchar(255, String::new())),
            12 => Some(Type::Boolean(false)),
            _ => None,
        }
    }
}

/// `256^w` for a width below 16 bytes.
fn pow256_exec(w: usize) -> (r: u128)
    requires
        w < 16,
    ensures
        r as nat == pow256(w as nat),
{
    let mut r: u128 = 1;
    let mut i: usize = 0;
    while i < w
        invariant
            i <= w < 16,
            r as nat == pow256(i as nat),
        decreases w - i,
    {
        proof {
            lemma_pow256_monotone((i + 1) as nat, 15);
            lemma_pow256_values();
            assert(pow256(15) * 256 == pow256(16));
        }
        r = r * 256;
        i = i + 1;
    }
    r
}

/// The two's complement bits of `x` in `w` bytes.
fn signed_bits(x: i128, w: usize) -> (r: u128)
    requires
        1 <= w <= 16,
        -(pow256(w as nat) as int) <= 2 * x < pow256(w as nat),
    ensures
        r as nat == unsigned_bits(x as int, w as nat),
{
    if x >= 0 {
        x as u128
    } else if w == 16 {
        proof {
            lemma_pow256_values();
        }
        u128::MAX - ((-(x + 1)) as u128)
    } else {
        let p: u128 = pow256_exec(w);
        proof {
            lemma_pow256_monotone(w as nat, 15);
            lemma_pow256_values();
            assert(pow256(15) * 256 == pow256(16));
        }
        (x + p as i128) as u128
    }
}

/// The signed number whose `w`-byte two's complement is `u`.
fn signed_from_bits(u: u128, w: usize) -> (r: i128)
    requires
        1 <= w <= 16,
        u < pow256(w as nat),
    ensures
        r as int == signed_value(u as nat, w as nat),
        -(pow256(w as nat) as int) <= 2 * r < pow256(w as nat),
{
    proof {
        lemma_pow256_values();
    }
    if w == 16 {
        if u >= 0x8000_0000_0000_0000_0000_0000_0000_0000 {
            -((u128::MAX - u) as i128) - 1
        } else {
            u as i128
        }
    } else {
        let p: u128 = pow256_exec(w);
        proof {
            lemma_pow256_monotone(w as nat, 15);
            assert(pow256(15) * 256 == pow256(16));
        }
        if 2 * u >= p {
            u as i128 - p as i128
        } else {
            u as i128
        }
    }
}

impl Type {
    /// The value's bytes, as `encoding` describes them.
    pub fn serialize(&self) -> (r: Vec<u8>)
        ensures
            r@ == self.encoding(),
    {
        let mut out: Vec<u8> = Vec::new();
        proof {
            lemma_pow256_values();
        }
        match self {
            Type::I8(x) => push_le(&mut out, signed_bits(*x as i128, 1), 1),
            Type::I16(x) => push_le(&mut out, signed_bits(*x as i128, 2), 2),
            Type::I32(x) => push_le(&mut out, signed_bits(*x as i128, 4), 4),
            Type::I64(x) => push_le(&mut out, signed_bits(*x as i128, 8), 8),
            Type::I128(x) => push_le(&mut out, signed_bits(*x, 16), 16),
            Type::U8(x) => push_le(&mut out, *x as u128, 1),
            Type::U16(x) => push_le(&mut out, *x as u128, 2),
            Type::U32(x) => push_le(&mut out, *x as u128, 4),
            Type::U64(x) => push_le(&mut out, *x as u128, 8),
            Type::U128(x) => push_le(&mut out, *x, 16),
            Type::Boolean(b) => out.push(if *b { 1u8 } else { 0u8 }),
            Type::Varchar(len, s) => {
                let src: &[u8] = s.as_str().as_bytes();
                let n: usize = *len as usize;
                let mut i: usize = 0;
                while i < n
                    invariant
                        i <= n,
                        n == *len as nat,
                        src@ == encode_utf8(s@),
                        out@.len() == i,
                        forall|j: int|
                            0 <= j < i ==> out@[j] == zero_padded(encode_utf8(s@), n as nat)[j],
                    decreases n - i,
                {
                    if i < src.len() {
                        out.push(src[i]);
                    } else {
                        out.push(0u8);
                    }
                    i = i + 1;
                }
                assert(out@ =~= zero_padded(encode_utf8(s@), n as nat));
            },
        }
        assert(out@ =~= self.encoding());
        out
    }

    /// Reads a value of this shape from `data[start..]`.
    fn decode_at(&self, data: &[u8], start: usize) -> (r: Result<Type, DbError>)
        requires
            start <= data@.len(),
        ensures
            ({
                let b = data@.subrange(start as int, data@.len() as int);
                match r {
                    Ok(v) => self.width() <= b.len() && self.readable(b) && v@ == self.decoded(b),
                    Err(e) => if b.len() < self.width() {
                        e == DbError::TruncatedBuffer
                    } else {
                        !self.readable(b) && e == DbError::CorruptedData
                    },
                }
            }),
    {
        let ghost b = data@.subrange(start as int, data@.len() as int);
        let dlen: usize = data.len();
        let avail: usize = dlen - start;
        if avail < self.size() as usize {
            return Err(DbError::TruncatedBuffer);
        }
        proof {
            lemma_pow256_values();
            assert(data@.subrange(start as int, start + self.width()) =~= b.take(self.width() as int));
            lemma_le_value_bound(b.take(self.width() as int));
        }
        match self {
            Type::I8(_) => Ok(Type::I8(signed_from_bits(read_le(data, start, 1), 1) as i8)),
            Type::I16(_) => Ok(Type::I16(signed_from_bits(read_le(data, start, 2), 2) as i16)),
            Type::I32(_) => Ok(Type::I32(signed_from_bits(read_le(data, start, 4), 4) as i32)),
            Type::I64(_) => Ok(Type::I64(signed_from_bits(read_le(data, start, 8), 8) as i64)),
            Type::I128(_) => Ok(Type::I128(signed_from_bits(read_le(data, start, 16), 16))),
            Type::U8(_) => Ok(Type::U8(read_le(data, start, 1) as u8)),
            Type::U16(_) => Ok(Type::U16(read_le(data, start, 2) as u16)),
            Type::U32(_) => Ok(Type::U32(read_le(data, start, 4) as u32)),
            Type::U64(_) => Ok(Type::U64(read_le(data, start, 8) as u64)),
            Type::U128(_) => Ok(Type::U128(read_le(data, start, 16))),
            Type::Boolean(_) => Ok(Type::Boolean(data[start] != 0)),
            Type::Varchar(len, _) => {
                let n: usize = *len as usize;
                let mut k: usize = n;
                while k > 0 && data[start + (k - 1)] == 0
                    invariant
                        k <= n,
                        n == *len as nat,
                        start + n <= data@.len(),
                        dlen == data@.len(),
                        b == data@.subrange(start as int, data@.len() as int),
                        trim_zeros(b.take(n as int)) == trim_zeros(b.take(k as int)),
                    decreases k,
                {
                    assert(b.take(k as int).drop_last() =~= b.take(k - 1));
                    k = k - 1;
                }
                let mut kept: Vec<u8> = Vec::new();
                let mut i: usize = 0;
                while i < k
                    invariant
                        i <= k <= n,
                        start + n <= data@.len(),
                        dlen == data@.len(),
                        b == data@.subrange(start as int, data@.len() as int),
                        kept@ == b.take(i as int),
                    decreases k - i,
                {
                    kept.push(data[start + i]);
                    i = i + 1;
                    assert(kept@ =~= b.take(i as int));
                }
                assert(trim_zeros(b.take(k as int)) == b.take(k as int));
                match utf8_string(kept) {
                    Some(text) => Ok(Type::Varchar(*len, text)),
                    None => Err(DbError::CorruptedData),
                }
            },
        }
    }

    /// Reads a value of the shape `type_` from the start of `data`.
    pub fn deserialize(data: &[u8], type_: &Type) -> (r: Result<Type, DbError>)
        ensures
            match r {
                Ok(v) => type_.width() <= data@.len() && type_.readable(data@) && v@ == type_.decoded(
                    data@,
                ),
                Err(e) => if data@.len() < type_.width() {
                    e == DbError::TruncatedBuffer
                } else {
                    !type_.readable(data@) && e == DbError::CorruptedData
                },
            },
    {
        assert(data@.subrange(0, data@.len() as int) =~= data@);
        type_.decode_at(data, 0)
    }
}

impl Clone for Type {
    fn clone(&self) -> (r: Type)
        ensures
            r == *self,
    {
        match self {
            Type::I8(x) => Type::I8(*x),
            Type::I16(x) => Type::I16(*x),
            Type::I32(x) => Type::I32(*x),
            Type::I64(x) => Type::I64(*x),
            Type::I128(x) => Type::I128(*x),
            Type::U8(x) => Type::U8(*x),
            Type::U16(x) => Type::U16(*x),
            Type::U32(x) => Type::U32(*x),
            Type::U64(x) => Type::U64(*x),
            Type::U128(x) => Type::U128(*x),
            Type::Varchar(len, s) => Type::Varchar(*len, s.clone()),
            Type::Boolean(b) => Type::Boolean(*b),
        }
    }
}

/// Two values are equal when their tags, numbers and texts are.
impl PartialEq for Type {
    fn eq(&self, other: &Type) -> (r: bool) {
        match (self, other) {
            (Type::I8(a), Type::I8(b)) => *a == *b,
            (Type::I16(a), Type::I16(b)) => *a == *b,
            (Type::I32(a), Type::I32(b)) => *a == *b,
            (Type::I64(a), Type::I64(b)) => *a == *b,
            (Type::I128(a), Type::I128(b)) => *a == *b,
            (Type::U8(a), Type::U8(b)) => *a == *b,
            (Type::U16(a), Type::U16(b)) => *a == *b,
            (Type::U32(a), Type::U32(b)) => *a == *b,
            (Type::U64(a), Type::U64(b)) => *a == *b,
            (Type::U128(a), Type::U128(b)) => *a == *b,
            (Type::Varchar(la, sa), Type::Varchar(lb, sb)) => {
                *la == *lb && sa.eq(sb)
            },
            (Type::Boolean(a), Type::Boolean(b)) => {
                assert(self@ == other@ <==> *a == *b);
                *a == *b
            },
            _ => {
                assert(self.tag() != other.tag());
                false
            },
        }
    }
}

impl vstd::std_specs::cmp::PartialEqSpecImpl for Type {
    open spec fn obeys_eq_spec() -> bool {
        true
    }

    open spec fn eq_spec(&self, other: &Type) -> bool {
        self@ == other@
    }
}

impl Eq for Type {

}

/// The order of two integers.
pub open spec fn int_order(a: int, b: int) -> Ordering {
    if a < b {
        Ordering::Less
    } else if a > b {
        Ordering::Greater
    } else {
        Ordering::Equal
    }
}

/// Lexicographic order of byte strings.
pub open spec fn bytes_order(a: Seq<u8>, b: Seq<u8>) -> Ordering
    decreases a.len(),
{
    if a.len() == 0 && b.len() == 0 {
        Ordering::Equal
    } else if a.len() == 0 {
        Ordering::Less
    } else if b.len() == 0 {
        Ordering::Greater
    } else if a[0] != b[0] {
        int_order(a[0] as int, b[0] as int)
    } else {
        bytes_order(a.drop_first(), b.drop_first())
    }
}

/// The total order of values: by type tag, then by number (a varchar's
/// declared width), then by the UTF-8 bytes of the text.
pub open spec fn value_order(a: ValueModel, b: ValueModel) -> Ordering {
    if a.0 != b.0 {
        int_order(a.0 as int, b.0 as int)
    } else if a.1 != b.1 {
        int_order(a.1, b.1)
    } else {
        bytes_order(encode_utf8(a.2), encode_utf8(b.2))
    }
}

fn order_signed(a: i128, b: i128) -> (r: Ordering)
    ensures
        r == int_order(a as int, b as int),
{
    if a < b {
        Ordering::Less
    } else if a > b {
        Ordering::Greater
    } else {
        Ordering::Equal
    }
}

fn order_unsigned(a: u128, b: u128) -> (r: Ordering)
    ensures
        r == int_order(a as int, b as int),
{
    if a < b {
        Ordering::Less
    } else if a > b {
        Ordering::Greater
    } else {
        Ordering::Equal
    }
}

fn order_bytes(a: &[u8], b: &[u8]) -> (r: Ordering)
    ensures
        r == bytes_order(a@, b@),
{
    let mut i: usize = 0;
    assert(a@.skip(0) =~= a@);
    assert(b@.skip(0) =~= b@);
    while i < a.len() && i < b.len() && a[i] == b[i]
        invariant
            i <= a@.len(),
            i <= b@.len(),
            bytes_order(a@, b@) == bytes_order(a@.skip(i as int), b@.skip(i as int)),
        decreases a@.len() - i,
    {
        assert(a@.skip(i as int).drop_first() =~= a@.skip(i + 1));
        assert(b@.skip(i as int).drop_first() =~= b@.skip(i + 1));
        i = i + 1;
    }
    if i == a.len() && i == b.len() {
        Ordering::Equal
    } else if i == a.len() {
        Ordering::Less
    } else if i == b.len() {
        Ordering::Greater
    } else {
        order_unsigned(a[i] as u128, b[i] as u128)
    }
}

impl Type {
    /// Orders two values of the same type by their payloads.
    fn data_cmp(&self, other: &Type) -> (r: Ordering)
        requires
            self.tag() == other.tag(),
        ensures
            r == value_order(self@, other@),
    {
        match (self, other) {
            (Type::I8(a), Type::I8(b)) => order_signed(*a as i128, *b as i128),
            (Type::I16(a), Type::I16(b)) => order_signed(*a as i128, *b as i128),
            (Type::I32(a), Type::I32(b)) => order_signed(*a as i128, *b as i128),
            (Type::I64(a), Type::I64(b)) => order_signed(*a as i128, *b as i128),
            (Type::I128(a), Type::I128(b)) => order_signed(*a, *b),
            (Type::U8(a), Type::U8(b)) => order_unsigned(*a as u128, *b as u128),
            (Type::U16(a), Type::U16(b)) => order_unsigned(*a as u128, *b as u128),
            (Type::U32(a), Type::U32(b)) => order_unsigned(*a as u128, *b as u128),
            (Type::U64(a), Type::U64(b)) => order_unsigned(*a as u128, *b as u128),
            (Type::U128(a), Type::U128(b)) => order_unsigned(*a, *b),
            (Type::Boolean(a), Type::Boolean(b)) => order_unsigned(
                if *a { 1 } else { 0 },
                if *b { 1 } else { 0 },
            ),
            (Type::Varchar(la, sa), Type::Varchar(lb, sb)) => {
                if *la != *lb {
                    order_unsigned(*la as u128, *lb as u128)
                } else {
                    order_bytes(sa.as_str().as_bytes(), sb.as_str().as_bytes())
                }
            },
            _ => Ordering::Equal,
        }
    }

    /// Orders two values: by type tag first, then by payload.
    pub fn cmp(&self, other: &Type) -> (r: Ordering)
        ensures
            r == value_order(self@, other@),
    {
        let a: u8 = self.type_id();
        let b: u8 = other.type_id();
        if a != b {
            order_unsigned(a as u128, b as u128)
        } else {
            self.data_cmp(other)
        }
    }
}

proof fn lemma_bytes_order_props(a: Seq<u8>, b: Seq<u8>)
    ensures
        bytes_order(a, b) == Ordering::Equal <==> a == b,
        bytes_order(a, b) == Ordering::Less <==> bytes_order(b, a) == Ordering::Greater,
    decreases a.len(),
{
    if a.len() > 0 && b.len() > 0 && a[0] == b[0] {
        lemma_bytes_order_props(a.drop_first(), b.drop_first());
        if a.drop_first() == b.drop_first() {
            assert(a =~= seq![a[0]] + a.drop_first());
            assert(b =~= seq![b[0]] + b.drop_first());
        }
    } else if a.len() == 0 && b.len() == 0 {
        assert(a =~= b);
    }
}

proof fn lemma_bytes_order_trans(a: Seq<u8>, b: Seq<u8>, c: Seq<u8>)
    requires
        bytes_order(a, b) == Ordering::Less,
        bytes_order(b, c) == Ordering::Less,
    ensures
        bytes_order(a, c) == Ordering::Less,
    decreases a.len(),
{
    if a.len() > 0 && b.len() > 0 && c.len() > 0 && a[0] == b[0] && b[0] == c[0] {
        lemma_bytes_order_trans(a.drop_first(), b.drop_first(), c.drop_first());
    }
}

proof fn lemma_int_order(a: int, b: int)
    ensures
        int_order(a, b) == Ordering::Equal <==> a == b,
        int_order(a, b) == Ordering::Less <==> int_order(b, a) == Ordering::Greater,
{
}

/// The order of values is a strict total order: `Equal` exactly on equal
/// values, `Less` one way exactly when `Greater` the other.
pub proof fn lemma_value_order_props(a: ValueModel, b: ValueModel)
    ensures
        value_order(a, b) == Ordering::Equal <==> a == b,
        value_order(a, b) == Ordering::Less <==> value_order(b, a) == Ordering::Greater,
{
    lemma_int_order(a.0 as int, b.0 as int);
    lemma_int_order(a.1, b.1);
    lemma_bytes_order_props(encode_utf8(a.2), encode_utf8(b.2));
    vstd::utf8::encode_utf8_decode_utf8(a.2);
    vstd::utf8::encode_utf8_decode_utf8(b.2);
}

/// The order of values is transitive.
pub proof fn lemma_value_order_trans(a: ValueModel, b: ValueModel, c: ValueModel)
    requires
        value_order(a, b) == Ordering::Less,
        value_order(b, c) == Ordering::Less,
    ensures
        value_order(a, c) == Ordering::Less,
{
    if a.0 == b.0 && b.0 == c.0 && a.1 == b.1 && b.1 == c.1 {
        lemma_bytes_order_trans(encode_utf8(a.2), encode_utf8(b.2), encode_utf8(c.2));
    }
}

proof fn lemma_trim_padding(e: Seq<u8>, k: nat)
    requires
        e.len() == 0 || e.last() != 0,
    ensures
        trim_zeros(e + Seq::new(k, |i: int| 0u8)) == e,
    decreases k,
{
    let padded = e + Seq::new(k, |i: int| 0u8);
    if k == 0 {
        assert(padded =~= e);
    } else {
        assert(padded.drop_last() =~= e + Seq::new((k - 1) as nat, |i: int| 0u8));
        lemma_trim_padding(e, (k - 1) as nat);
    }
}

proof fn lemma_scalar_last_byte(c: u32)
    requires
        is_scalar(c),
    ensures
        encode_scalar(c).len() > 0,
        encode_scalar(c).last() == 0 <==> c == 0,
{
    if has_width_1_encoding(c) {
        assert((c & 0x7F) as u8 == 0 <==> c == 0) by (bit_vector)
            requires
                c <= 0x7F,
        ;
    } else {
        assert(0x80 | (c & 0x3F) as u8 != 0) by (bit_vector);
    }
}

/// The UTF-8 bytes of a text end in a zero byte exactly when the text ends
/// in the NUL character.
pub proof fn lemma_utf8_trailing_zero(s: Seq<char>)
    ensures
        encode_utf8(s).len() == 0 <==> s.len() == 0,
        s.len() > 0 ==> (encode_utf8(s).last() == 0 <==> s.last() == '\0'),
    decreases s.len(),
{
    if s.len() > 0 {
        let c = s[0];
        vstd::utf8::char_is_scalar(c);
        lemma_scalar_last_byte(c as u32);
        let rest = s.drop_first();
        lemma_utf8_trailing_zero(rest);
        if rest.len() == 0 {
            assert(encode_utf8(rest) =~= Seq::<u8>::empty());
            assert(encode_utf8(s) =~= encode_scalar(c as u32));
            vstd::utf8::char_u32_cast(c, c as u32);
            vstd::utf8::char_u32_cast('\0', 0u32);
            assert(s.last() == c);
        } else {
            assert(s.last() == rest.last());
            assert(encode_utf8(s).last() == encode_utf8(rest).last());
        }
    }
}

/// Decoding a value's encoding with the value as shape gives the value back,
/// for every value whose text fits its declared width.
pub proof fn lemma_value_round_trip(v: Type)
    requires
        v.round_trips(),
    ensures
        v.encoding().len() == v.width(),
        v.readable(v.encoding()),
        v.decoded(v.encoding()) == v@,
{
    lemma_pow256_values();
    let w = v.width();
    match v {
        Type::Varchar(len, s) => {
            let e = encode_utf8(s@);
            let enc = v.encoding();
            lemma_utf8_trailing_zero(s@);
            assert(enc =~= e + Seq::new((len - e.len()) as nat, |i: int| 0u8));
            assert(enc.take(len as int) =~= enc);
            lemma_trim_padding(e, (len - e.len()) as nat);
            assert(trim_zeros(enc.take(len as int)) == e);
            vstd::utf8::encode_utf8_decode_utf8(s@);
            assert(decode_utf8(e) == s@);
        },
        Type::Boolean(_) => {
        },
        _ => {
            let bits = unsigned_bits(v.num(), w);
            lemma_le_bytes_len(bits, w);
            lemma_le_round_trip(bits, w);
            assert(v.encoding().take(w as int) =~= v.encoding());
            assert(bits < pow256(w));
            vstd::arithmetic::div_mod::lemma_small_mod(bits, pow256(w));
            assert(le_value(v.encoding().take(w as int)) == bits);
            if v.is_signed() {
                assert(signed_value(bits, w) == v.num());
            }
        },
    }
}

/// Every value's encoding is exactly as wide as the value.
pub proof fn lemma_encoding_len(v: Type)
    ensures
        v.encoding().len() == v.width(),
{
    match v {
        Type::Varchar(len, s) => {
            let e = encode_utf8(s@);
            if e.len() < len {
                assert(v.encoding().len() == e.len() + (len - e.len()));
            }
        },
        Type::Boolean(_) => {},
        _ => {
            lemma_le_bytes_len(unsigned_bits(v.num(), v.width()), v.width());
        },
    }
}

/// A record's bytes are as wide as its shapes say.
pub proof fn lemma_record_encoding_len(r: Seq<Type>)
    ensures
        record_encoding(r).len() == record_width(r),
    decreases r.len(),
{
    if r.len() > 0 {
        lemma_record_encoding_len(r.drop_last());
        lemma_encoding_len(r.last());
    }
}

/// Decoding a value's encoding with any shape of the same type and width
/// (such as the schema's field type) gives the value back, for every value
/// whose text fits its declared width.
pub proof fn lemma_value_round_trip_with_shape(v: Type, shape: Type)
    requires
        v.round_trips(),
        shape.tag() == v.tag(),
        shape.width() == v.width(),
    ensures
        shape.readable(v.encoding()),
        shape.decoded(v.encoding()) == v@,
{
    lemma_value_round_trip(v);
}

/// The bytes of a record: its values' encodings, in field order.
pub open spec fn record_encoding(vs: Seq<Type>) -> Seq<u8>
    decreases vs.len(),
{
    if vs.len() == 0 {
        seq![]
    } else {
        record_encoding(vs.drop_last()) + vs.last().encoding()
    }
}

/// The number of bytes a record of these shapes occupies.
pub open spec fn record_width(shapes: Seq<Type>) -> nat
    decreases shapes.len(),
{
    if shapes.len() == 0 {
        0
    } else {
        record_width(shapes.drop_last()) + shapes.last().width()
    }
}

/// Where field `i` starts within a record.
pub open spec fn field_offset(shapes: Seq<Type>, i: int) -> nat {
    record_width(shapes.take(i))
}

/// Whether every field of a record can be read back from `b`.
pub open spec fn record_readable(shapes: Seq<Type>, b: Seq<u8>) -> bool {
    forall|i: int| 0 <= i < shapes.len() ==> #[trigger] shapes[i].readable(b.skip(field_offset(shapes, i) as int))
}

/// The values of a record of these shapes read from `b`.
pub open spec fn decoded_record(shapes: Seq<Type>, b: Seq<u8>) -> Seq<ValueModel> {
    Seq::new(shapes.len(), |i: int| shapes[i].decoded(b.skip(field_offset(shapes, i) as int)))
}

pub open spec fn record_view(vs: Seq<Type>) -> Seq<ValueModel> {
    vs.map_values(|v: Type| v@)
}

pub proof fn lemma_record_width_monotone(shapes: Seq<Type>, i: int)
    requires
        0 <= i <= shapes.len(),
    ensures
        record_width(shapes.take(i)) <= record_width(shapes),
    decreases shapes.len(),
{
    if i < shapes.len() {
        assert(shapes.drop_last().take(i) =~= shapes.take(i));
        lemma_record_width_monotone(shapes.drop_last(), i);
    } else {
        assert(shapes.take(i) =~= shapes);
    }
}

/// Concatenates the encodings of the values of a record.
pub fn serialize_values(data: &[Type]) -> (r: Vec<u8>)
    ensures
        r@ == record_encoding(data@),
{
    let mut out: Vec<u8> = Vec::new();
    let mut i: usize = 0;
    assert(data@.take(0) =~= Seq::<Type>::empty());
    while i < data.len()
        invariant
            i <= data@.len(),
            out@ == record_encoding(data@.take(i as int)),
        decreases data@.len() - i,
    {
        let bytes: Vec<u8> = data[i].serialize();
        let mut j: usize = 0;
        let ghost before = out@;
        while j < bytes.len()
            invariant
                j <= bytes@.len(),
                out@ == before + bytes@.take(j as int),
            decreases bytes@.len() - j,
        {
            out.push(bytes[j]);
            j = j + 1;
            assert(out@ =~= before + bytes@.take(j as int));
        }
        assert(bytes@.take(j as int) =~= bytes@);
        assert(data@.take(i + 1).drop_last() =~= data@.take(i as int));
        i = i + 1;
    }
    assert(data@.take(i as int) =~= data@);
    out
}

/// Reads a record of the given shapes from the start of `data`.
pub fn deserialize_value(data: &[u8], record_structure: &[Type]) -> (r: Result<Vec<Type>, DbError>)
    ensures
        match r {
            Ok(vs) => record_width(record_structure@) <= data@.len() && record_readable(
                record_structure@,
                data@,
            ) && record_view(vs@) == decoded_record(record_structure@, data@),
            Err(e) => if data@.len() < record_width(record_structure@) {
                e == DbError::TruncatedBuffer
            } else {
                !record_readable(record_structure@, data@) && e == DbError::CorruptedData
            },
        },
{
    let mut total: u128 = 0;
    let mut i: usize = 0;
    assert(record_structure@.take(0) =~= Seq::<Type>::empty());
    while i < record_structure.len()
        invariant
            i <= record_structure@.len(),
            total == record_width(record_structure@.take(i as int)),
            total <= 255 * i,
        decreases record_structure@.len() - i,
    {
        assert(record_structure@.take(i + 1).drop_last() =~= record_structure@.take(i as int));
        total = total + record_structure[i].size() as u128;
        i = i + 1;
    }
    assert(record_structure@.take(i as int) =~= record_structure@);
    let dlen: usize = data.len();
    if total > dlen as u128 {
        return Err(DbError::TruncatedBuffer);
    }
    let mut result: Vec<Type> = Vec::new();
    let mut cursor: usize = 0;
    let mut k: usize = 0;
    while k < record_structure.len()
        invariant
            k <= record_structure@.len(),
            record_width(record_structure@) <= data@.len(),
            dlen == data@.len(),
            cursor == field_offset(record_structure@, k as int),
            result@.len() == k,
            forall|j: int| 0 <= j < k ==> #[trigger] record_structure@[j].readable(data@.skip(field_offset(record_structure@, j) as int)),
            forall|j: int| 0 <= j < k ==> #[trigger] result@[j]@ == record_structure@[j].decoded(data@.skip(field_offset(record_structure@, j) as int)),
        decreases record_structure@.len() - k,
    {
        proof {
            assert(record_structure@.take(k + 1).drop_last() =~= record_structure@.take(k as int));
            assert(record_structure@.take(k + 1).last() == record_structure@[k as int]);
            assert(record_width(record_structure@.take(k + 1)) == record_width(record_structure@.take(k as int))
                + record_structure@[k as int].width());
            lemma_record_width_monotone(record_structure@, k + 1);
        }
        assert(data@.subrange(cursor as int, data@.len() as int) =~= data@.skip(cursor as int));
        match record_structure[k].decode_at(data, cursor) {
            Ok(v) => {
                result.push(v);
            },
            Err(e) => {
                assert(!record_structure@[k as int].readable(data@.skip(field_offset(record_structure@, k as int) as int)));
                return Err(e);
            },
        }
        cursor = cursor + record_structure[k].size() as usize;
        k = k + 1;
    }
    assert(record_view(result@) =~= decoded_record(record_structure@, data@));
    Ok(result)
}

/// Decoding depends only on the first `width()` bytes.
pub proof fn lemma_decoded_prefix_pub(v: Type, b1: Seq<u8>, b2: Seq<u8>)
    requires
        b1.len() >= v.width(),
        b2.len() >= v.width(),
        b1.take(v.width() as int) == b2.take(v.width() as int),
    ensures
        v.decoded(b1) == v.decoded(b2),
        v.readable(b1) == v.readable(b2),
{
    lemma_decoded_prefix(v, b1, b2);
}

proof fn lemma_decoded_prefix(v: Type, b1: Seq<u8>, b2: Seq<u8>)
    requires
        b1.len() >= v.width(),
        b2.len() >= v.width(),
        b1.take(v.width() as int) == b2.take(v.width() as int),
    ensures
        v.decoded(b1) == v.decoded(b2),
        v.readable(b1) == v.readable(b2),
{
    if let Type::Boolean(_) = v {
        assert(b1[0] == b1.take(1)[0]);
        assert(b2[0] == b2.take(1)[0]);
    }
}

proof fn lemma_record_encoding_field(r: Seq<Type>, i: int)
    requires
        0 <= i < r.len(),
        forall|j: int| 0 <= j < r.len() ==> (#[trigger] r[j]).round_trips(),
    ensures
        record_encoding(r).len() == record_width(r),
        field_offset(r, i) + r[i].width() <= record_width(r),
        record_encoding(r).subrange(
            field_offset(r, i) as int,
            (field_offset(r, i) + r[i].width()) as int,
        ) == r[i].encoding(),
    decreases r.len(),
{
    let init = r.drop_last();
    lemma_value_round_trip(r.last());
    if r.len() == 1 {
        assert(init =~= Seq::<Type>::empty());
        assert(r.take(0) =~= Seq::<Type>::empty());
        assert(record_encoding(init) =~= Seq::<u8>::empty());
        assert(record_width(init) == 0);
        assert(record_encoding(r) =~= r[0].encoding());
        assert(record_encoding(r).subrange(0, r[0].width() as int) =~= r[0].encoding());
    } else {
        lemma_record_encoding_field(init, if i < init.len() { i } else { 0 });
        if i == init.len() {
            assert(r.take(i) =~= init);
            assert(record_encoding(r).subrange(
                field_offset(r, i) as int,
                (field_offset(r, i) + r[i].width()) as int,
            ) =~= r[i].encoding());
        } else {
            assert(init.take(i) =~= r.take(i));
            assert(init[i] == r[i]);
            assert(record_encoding(r).subrange(
                field_offset(r, i) as int,
                (field_offset(r, i) + r[i].width()) as int,
            ) =~= record_encoding(init).subrange(
                field_offset(init, i) as int,
                (field_offset(init, i) + init[i].width()) as int,
            ));
        }
    }
}

/// Decoding a record's bytes with the record's own values as shapes gives the
/// record back, when every varchar's text fits its declared width.
pub proof fn lemma_record_round_trip(r: Seq<Type>)
    requires
        forall|j: int| 0 <= j < r.len() ==> (#[trigger] r[j]).round_trips(),
    ensures
        record_encoding(r).len() == record_width(r),
        record_readable(r, record_encoding(r)),
        decoded_record(r, record_encoding(r)) == record_view(r),
{
    let enc = record_encoding(r);
    if r.len() == 0 {
        assert(decoded_record(r, enc) =~= record_view(r));
    } else {
        lemma_record_encoding_field(r, 0);
        assert forall|i: int| 0 <= i < r.len() implies #[trigger] r[i].readable(
            enc.skip(field_offset(r, i) as int),
        ) && r[i].decoded(enc.skip(field_offset(r, i) as int)) == r[i]@ by {
            lemma_record_encoding_field(r, i);
            lemma_value_round_trip(r[i]);
            let b1 = enc.skip(field_offset(r, i) as int);
            assert(b1.take(r[i].width() as int) =~= r[i].encoding().take(r[i].width() as int));
            lemma_decoded_prefix(r[i], b1, r[i].encoding());
        }
        assert forall|i: int| 0 <= i < r.len() implies #[trigger] decoded_record(r, enc)[i]
            == record_view(r)[i] by {
            assert(r[i].readable(enc.skip(field_offset(r, i) as int)));
        }
        assert(decoded_record(r, enc) =~= record_view(r));
    }
}

/// Values with the same tags and widths decode bytes alike.
pub proof fn lemma_same_shapes(r: Seq<Type>, shapes: Seq<Type>, b: Seq<u8>)
    requires
        r.len() == shapes.len(),
        forall|j: int| 0 <= j < r.len() ==> (#[trigger] r[j]).tag() == shapes[j].tag() && r[j].width() == shapes[j].width(),
    ensures
        record_width(r) == record_width(shapes),
        record_readable(r, b) == record_readable(shapes, b),
        decoded_record(r, b) == decoded_record(shapes, b),
    decreases r.len(),
{
    if r.len() > 0 {
        lemma_same_shapes(r.drop_last(), shapes.drop_last(), b);
        assert(r.last().width() == shapes.last().width());
    }
    assert forall|i: int| 0 <= i < r.len() implies #[trigger] field_offset(r, i) == field_offset(shapes, i) by {
        lemma_same_shapes_prefix(r, shapes, i);
    }
    assert forall|i: int| 0 <= i < r.len() implies #[trigger] r[i].decoded(b.skip(field_offset(r, i) as int))
        == shapes[i].decoded(b.skip(field_offset(shapes, i) as int)) && r[i].readable(b.skip(field_offset(r, i) as int))
        == shapes[i].readable(b.skip(field_offset(shapes, i) as int)) by {
        assert(field_offset(r, i) == field_offset(shapes, i));
    }
    assert(decoded_record(r, b) =~= decoded_record(shapes, b));
    if record_readable(r, b) {
        assert forall|i: int| 0 <= i < shapes.len() implies #[trigger] shapes[i].readable(b.skip(field_offset(shapes, i) as int)) by {
            assert(r[i].readable(b.skip(field_offset(r, i) as int)));
        }
    }
    if record_readable(shapes, b) {
        assert forall|i: int| 0 <= i < r.len() implies #[trigger] r[i].readable(b.skip(field_offset(r, i) as int)) by {
            assert(shapes[i].readable(b.skip(field_offset(shapes, i) as int)));
        }
    }
}

proof fn lemma_same_shapes_prefix(r: Seq<Type>, shapes: Seq<Type>, i: int)
    requires
        0 <= i <= r.len(),
        r.len() == shapes.len(),
        forall|j: int| 0 <= j < r.len() ==> (#[trigger] r[j]).tag() == shapes[j].tag() && r[j].width() == shapes[j].width(),
    ensures
        record_width(r.take(i)) == record_width(shapes.take(i)),
    decreases i,
{
    if i > 0 {
        lemma_same_shapes_prefix(r, shapes, i - 1);
        assert(r.take(i).drop_last() =~= r.take(i - 1));
        assert(shapes.take(i).drop_last() =~= shapes.take(i - 1));
        assert(r.take(i).last() == r[i - 1]);
        assert(shapes.take(i).last() == shapes[i - 1]);
    }
}

/// Decoding a record's bytes with shapes of the same types and widths (such
/// as the schema's field types) gives the record back, when every varchar's
/// text fits its declared width.
pub proof fn lemma_record_round_trip_with_shapes(r: Seq<Type>, shapes: Seq<Type>)
    requires
        r.len() == shapes.len(),
        forall|j: int| 0 <= j < r.len() ==> (#[trigger] r[j]).tag() == shapes[j].tag() && r[j].width() == shapes[j].width(),
        forall|j: int| 0 <= j < r.len() ==> (#[trigger] r[j]).round_trips(),
    ensures
        record_encoding(r).len() == record_width(shapes),
        record_readable(shapes, record_encoding(r)),
        decoded_record(shapes, record_encoding(r)) == record_view(r),
{
    lemma_record_round_trip(r);
    lemma_same_shapes(r, shapes, record_encoding(r));
}

} // verus!
