//! One run of free record slots on a page, and its 6-byte persisted form.
use crate::bytes::{le_bytes, le_value, lemma_le_round_trip, lemma_pow256_values, pow256};
use crate::error::DbError;
use vstd::prelude::*;

verus! {

/// The number of bytes of one persisted interval.
pub const FREE_SPACE_SECTION_SIZE: usize = 6;

/// The free slots `begin..end` (slot indices, not bytes) of page `page`.
#[derive(Debug, Clone, Copy, PartialEq, Eq, Structural)]
pub struct FreeSpace {
    pub page: u16,
    pub begin: u16,
    pub end: u16,
}

/// The two little-endian bytes of `x`.
pub open spec fn u16_bytes(x: u16) -> Seq<u8> {
    le_bytes(x as nat, 2)
}

/// The persisted bytes of an interval: page, begin and end, two bytes each.
pub open spec fn interval_bytes(f: FreeSpace) -> Seq<u8> {
    u16_bytes(f.page) + u16_bytes(f.begin) + u16_bytes(f.end)
}

/// The persisted bytes of a list of intervals.
pub open spec fn intervals_bytes(fs: Seq<FreeSpace>) -> Seq<u8>
    decreases fs.len(),
{
    if fs.len() == 0 {
        seq![]
    } else {
        intervals_bytes(fs.drop_last()) + interval_bytes(fs.last())
    }
}

/// The interval stored in the six bytes `b`.
pub open spec fn interval_of(b: Seq<u8>) -> FreeSpace {
    FreeSpace {
        page: le_value(b.subrange(0, 2)) as u16,
        begin: le_value(b.subrange(2, 4)) as u16,
        end: le_value(b.subrange(4, 6)) as u16,
    }
}

pub proof fn lemma_u16_bytes(x: u16)
    ensures
        u16_bytes(x) == seq![(x % 256) as u8, (x / 256) as u8],
        le_value(u16_bytes(x)) == x,
{
    lemma_pow256_values();
    reveal_with_fuel(le_bytes, 3);
    assert(u16_bytes(x) =~= seq![(x % 256) as u8, (x / 256) as u8]);
    lemma_le_round_trip(x as nat, 2);
    vstd::arithmetic::div_mod::lemma_small_mod(x as nat, pow256(2));
}

fn read_u16(data: &[u8], start: usize) -> (r: u16)
    requires
        start + 2 <= data@.len(),
    ensures
        r as nat == le_value(data@.subrange(start as int, start + 2)),
{
    let lo: u8 = data[start];
    let hi: u8 = data[start + 1];
    let ghost s = data@.subrange(start as int, start + 2);
    assert(s.drop_first().drop_first() =~= Seq::<u8>::empty());
    reveal_with_fuel(le_value, 3);
    assert(s[0] == lo && s[1] == hi);
    lo as u16 + 256 * hi as u16
}

impl FreeSpace {
    /// The interval `begin..end` of `page`; it must not be empty.
    pub fn new(page: u16, begin: u16, end: u16) -> (r: Result<FreeSpace, DbError>)
        ensures
            begin < end <==> r is Ok,
            r matches Ok(f) ==> f == (FreeSpace { page, begin, end }),
            r matches Err(e) ==> e == DbError::EmptyInterval,
    {
        if begin >= end {
            Err(DbError::EmptyInterval)
        } else {
            Ok(FreeSpace { page, begin, end })
        }
    }

    /// The interval stored in six bytes.
    pub fn deserialize(data: &[u8; 6]) -> (r: FreeSpace)
        ensures
            r == interval_of(data@),
    {
        let s: &[u8] = data.as_slice();
        FreeSpace { page: read_u16(s, 0), begin: read_u16(s, 2), end: read_u16(s, 4) }
    }

    /// The intervals stored back to back in `data`. A length that is not a
    /// multiple of six is corrupted data.
    pub fn deserialize_multiple(data: &[u8]) -> (r: Result<Vec<FreeSpace>, DbError>)
        ensures
            data@.len() % 6 == 0 <==> r is Ok,
            r matches Err(e) ==> e == DbError::CorruptedData,
            r matches Ok(v) ==> v@.len() * 6 == data@.len() && forall|i: int|
                0 <= i < v@.len() ==> #[trigger] v@[i] == interval_of(data@.subrange(6 * i, 6 * i + 6)),
    {
        if data.len() % FREE_SPACE_SECTION_SIZE != 0 {
            return Err(DbError::CorruptedData);
        }
        let dlen: usize = data.len();
        let count: usize = dlen / FREE_SPACE_SECTION_SIZE;
        let mut result: Vec<FreeSpace> = Vec::new();
        let mut i: usize = 0;
        while i < count
            invariant
                i <= count,
                count * 6 == data@.len(),
                dlen == data@.len(),
                result@.len() == i,
                forall|j: int|
                    0 <= j < i ==> #[trigger] result@[j] == interval_of(data@.subrange(6 * j, 6 * j + 6)),
            decreases count - i,
        {
            let at: usize = i * FREE_SPACE_SECTION_SIZE;
            let ghost chunk = data@.subrange(6 * i, 6 * i + 6);
            assert(chunk.subrange(0, 2) =~= data@.subrange(at as int, at + 2));
            assert(chunk.subrange(2, 4) =~= data@.subrange(at + 2, at + 4));
            assert(chunk.subrange(4, 6) =~= data@.subrange(at + 4, at + 6));
            let f = FreeSpace {
                page: read_u16(data, at),
                begin: read_u16(data, at + 2),
                end: read_u16(data, at + 4),
            };
            result.push(f);
            i = i + 1;
        }
        Ok(result)
    }

    /// The six persisted bytes of the interval.
    pub fn serialize(&self) -> (r: [u8; 6])
        ensures
            r@ == interval_bytes(*self),
    {
        proof {
            lemma_u16_bytes(self.page);
            lemma_u16_bytes(self.begin);
            lemma_u16_bytes(self.end);
        }
        let r: [u8; 6] = [
            (self.page % 256) as u8,
            (self.page / 256) as u8,
            (self.begin % 256) as u8,
            (self.begin / 256) as u8,
            (self.end % 256) as u8,
            (self.end / 256) as u8,
        ];
        assert(r@ =~= interval_bytes(*self));
        r
    }

    /// The persisted bytes of all intervals, in order.
    pub fn serialize_multiple(data: &[FreeSpace]) -> (r: Vec<u8>)
        ensures
            r@ == intervals_bytes(data@),
    {
        let mut result: Vec<u8> = Vec::new();
        let mut i: usize = 0;
        assert(data@.take(0) =~= Seq::<FreeSpace>::empty());
        while i < data.len()
            invariant
                i <= data@.len(),
                result@ == intervals_bytes(data@.take(i as int)),
            decreases data@.len() - i,
        {
            let b = data[i].serialize();
            let ghost before = result@;
            let mut j: usize = 0;
            while j < 6
                invariant
                    j <= 6,
                    b@.len() == 6,
                    result@ == before + b@.take(j as int),
                decreases 6 - j,
            {
                result.push(b[j]);
                j = j + 1;
                assert(result@ =~= before + b@.take(j as int));
            }
            assert(b@.take(6) =~= b@);
            assert(data@.take(i + 1).drop_last() =~= data@.take(i as int));
            i = i + 1;
        }
        assert(data@.take(i as int) =~= data@);
        result
    }

    pub fn begin(&self) -> (r: u16)
        ensures
            r == self.begin,
    {
        self.begin
    }

    pub fn end(&self) -> (r: u16)
        ensures
            r == self.end,
    {
        self.end
    }

    /// The number of free slots in the interval.
    pub fn free_space(&self) -> (r: u16)
        requires
            self.begin <= self.end,
        ensures
            r == self.end - self.begin,
    {
        self.end - self.begin
    }

    /// Takes `shift` slots from the front of the interval. Fails, changing
    /// nothing, when fewer than `shift` slots are free; otherwise tells whether
    /// the interval is now empty.
    pub fn move_begining(&mut self, shift: u16) -> (r: Result<bool, ()>)
        requires
            old(self).begin <= old(self).end,
        ensures
            final(self).page == old(self).page,
            final(self).end == old(self).end,
            shift <= old(self).end - old(self).begin <==> r is Ok,
            r is Ok ==> final(self).begin == old(self).begin + shift,
            r is Err ==> final(self).begin == old(self).begin,
            r matches Ok(empty) ==> empty == (final(self).begin == final(self).end),
    {
        if self.free_space() < shift {
            return Err(());
        }
        self.begin = self.begin + shift;
        Ok(self.free_space() == 0)
    }

    /// Moves the end of the interval `shift` slots further.
    pub fn extend_end(&mut self, shift: u16)
        requires
            old(self).end + shift <= u16::MAX,
        ensures
            *final(self) == (FreeSpace { end: (old(self).end + shift) as u16, ..*old(self) }),
    {
        self.end = self.end + shift;
    }
}

/// Reading back the bytes of a list of intervals gives the list.
pub proof fn lemma_intervals_round_trip(fs: Seq<FreeSpace>)
    ensures
        intervals_bytes(fs).len() == 6 * fs.len(),
        forall|i: int|
            0 <= i < fs.len() ==> #[trigger] interval_of(intervals_bytes(fs).subrange(6 * i, 6 * i + 6))
                == fs[i],
    decreases fs.len(),
{
    if fs.len() > 0 {
        let init = fs.drop_last();
        lemma_intervals_round_trip(init);
        let f = fs.last();
        lemma_u16_bytes(f.page);
        lemma_u16_bytes(f.begin);
        lemma_u16_bytes(f.end);
        let all = intervals_bytes(fs);
        assert forall|i: int| 0 <= i < fs.len() implies #[trigger] interval_of(
            all.subrange(6 * i, 6 * i + 6),
        ) == fs[i] by {
            if i < init.len() {
                assert(all.subrange(6 * i, 6 * i + 6) =~= intervals_bytes(init).subrange(
                    6 * i,
                    6 * i + 6,
                ));
                assert(init[i] == fs[i]);
            } else {
                let chunk = all.subrange(6 * i, 6 * i + 6);
                assert(chunk =~= interval_bytes(f));
                assert(chunk.subrange(0, 2) =~= u16_bytes(f.page));
                assert(chunk.subrange(2, 4) =~= u16_bytes(f.begin));
                assert(chunk.subrange(4, 6) =~= u16_bytes(f.end));
            }
        }
    }
}

} // verus!
