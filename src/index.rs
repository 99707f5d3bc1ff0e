//! A per-field index: a map from values to the positions of the records that
//! hold them.
use crate::dbtype::{lemma_value_order_props, lemma_value_order_trans, value_order, Type, ValueModel};
use core::cmp::Ordering;
use crate::error::DbError;
use crate::wire::{
    bincode_bytes, decode_entries, encode_entries, wire_footprint, wire_view, WireEntry, DECODE_LIMIT,
};
use crate::position::DataPosition;
use vstd::prelude::*;

verus! {

/// One key of an index and the positions that hold it, in insertion order.
pub struct IndexEntry {
    pub key: Type,
    pub positions: Vec<DataPosition>,
}

/// An index of one field. No two entries share a key.
pub struct Index {
    entries: Vec<IndexEntry>,
}

/// The positions of `ps` that `doomed` does not name, in order.
pub open spec fn without(ps: Seq<DataPosition>, doomed: Seq<DataPosition>) -> Seq<DataPosition> {
    ps.filter(|x: DataPosition| !doomed.contains(x))
}

fn copy_positions(ps: &Vec<DataPosition>) -> (r: Vec<DataPosition>)
    ensures
        r@ == ps@,
{
    let mut out: Vec<DataPosition> = Vec::new();
    let mut i: usize = 0;
    while i < ps.len()
        invariant
            i <= ps@.len(),
            out@ == ps@.take(i as int),
        decreases ps@.len() - i,
    {
        out.push(ps[i]);
        i = i + 1;
        assert(out@ =~= ps@.take(i as int));
    }
    assert(ps@.take(i as int) =~= ps@);
    out
}

pub fn contains_position(ps: &[DataPosition], x: DataPosition) -> (r: bool)
    ensures
        r == ps@.contains(x),
{
    let mut i: usize = 0;
    while i < ps.len()
        invariant
            i <= ps@.len(),
            forall|j: int| 0 <= j < i ==> ps@[j] != x,
        decreases ps@.len() - i,
    {
        if ps[i] == x {
            return true;
        }
        i = i + 1;
    }
    false
}

impl Index {
    /// The entries as (key, positions) pairs.
    pub closed spec fn spec_entries(&self) -> Seq<(ValueModel, Seq<DataPosition>)> {
        self.entries@.map_values(|e: IndexEntry| (e.key@, e.positions@))
    }

    /// No two entries share a key, and the entries are in the order of their
    /// keys.
    pub open spec fn wf(&self) -> bool {
        &&& forall|i: int, j: int|
            0 <= i < j < self.spec_entries().len() ==> (#[trigger] self.spec_entries()[i]).0
                != (#[trigger] self.spec_entries()[j]).0
        &&& forall|i: int, j: int|
            0 <= i < j < self.spec_entries().len() ==> value_order(
                (#[trigger] self.spec_entries()[i]).0,
                (#[trigger] self.spec_entries()[j]).0,
            ) == Ordering::Less
    }

    pub open spec fn has_key(&self, v: ValueModel) -> bool {
        exists|i: int| 0 <= i < self.spec_entries().len() && (#[trigger] self.spec_entries()[i]).0 == v
    }

    /// The positions the index lists for `v`; none when `v` is not a key.
    pub open spec fn lookup(&self, v: ValueModel) -> Seq<DataPosition> {
        if self.has_key(v) {
            self.spec_entries()[choose|i: int|
                0 <= i < self.spec_entries().len() && (#[trigger] self.spec_entries()[i]).0 == v].1
        } else {
            Seq::empty()
        }
    }

    /// An index with no keys.
    pub fn new() -> (r: Index)
        ensures
            r.wf(),
            r.keys_round_trip(),
            r.spec_entries().len() == 0,
            forall|v: ValueModel| r.lookup(v) == Seq::<DataPosition>::empty(),
    {
        let r = Index { entries: Vec::new() };
        assert(r.spec_entries() =~= Seq::empty());
        assert(r.keys_round_trip());
        r
    }

    /// The number of keys.
    pub fn len(&self) -> (r: usize)
        ensures
            r == self.spec_entries().len(),
    {
        self.entries.len()
    }

    proof fn lemma_lookup_at(&self, i: int)
        requires
            self.wf(),
            0 <= i < self.spec_entries().len(),
        ensures
            self.has_key(self.spec_entries()[i].0),
            self.lookup(self.spec_entries()[i].0) == self.spec_entries()[i].1,
    {
        let v = self.spec_entries()[i].0;
        assert(self.spec_entries()[i].0 == v);
        let k = choose|k: int| 0 <= k < self.spec_entries().len() && (#[trigger] self.spec_entries()[k]).0 == v;
        if k != i {
            if k < i {
                assert(self.spec_entries()[k].0 != self.spec_entries()[i].0);
            } else {
                assert(self.spec_entries()[i].0 != self.spec_entries()[k].0);
            }
        }
    }

    /// Where `v` is a key, its entry's place.
    fn find(&self, v: &Type) -> (r: Option<usize>)
        requires
            self.wf(),
        ensures
            r is Some <==> self.has_key(v@),
            r matches Some(i) ==> i < self.spec_entries().len() && self.spec_entries()[i as int].0 == v@,
    {
        let mut i: usize = 0;
        while i < self.entries.len()
            invariant
                i <= self.entries@.len(),
                forall|j: int| 0 <= j < i ==> (#[trigger] self.spec_entries()[j]).0 != v@,
            decreases self.entries@.len() - i,
        {
            if self.entries[i].key == *v {
                assert(self.spec_entries()[i as int].0 == v@);
                return Some(i);
            }
            i = i + 1;
        }
        None
    }

    /// The positions listed for `v`.
    pub fn positions_of(&self, v: &Type) -> (r: Vec<DataPosition>)
        requires
            self.wf(),
        ensures
            r@ == self.lookup(v@),
    {
        match self.find(v) {
            Some(i) => {
                proof {
                    self.lemma_lookup_at(i as int);
                }
                copy_positions(&self.entries[i].positions)
            },
            None => Vec::new(),
        }
    }

    /// Whether `v` is a key.
    pub fn contains_key(&self, v: &Type) -> (r: bool)
        requires
            self.wf(),
        ensures
            r == self.has_key(v@),
    {
        self.find(v).is_some()
    }

    /// Adds `pos` to the end of the positions listed for `v`, making `v` a key
    /// if it is not one.
    #[verifier::rlimit(100)]
    #[verifier::spinoff_prover]
    pub fn insert(&mut self, v: &Type, pos: DataPosition)
        requires
            old(self).wf(),
        ensures
            final(self).wf(),
            old(self).keys_round_trip() && v.round_trips() ==> final(self).keys_round_trip(),
            final(self).lookup(v@) == old(self).lookup(v@).push(pos),
            final(self).has_key(v@),
            forall|w: ValueModel| w != v@ ==> #[trigger] final(self).lookup(w) == old(self).lookup(w),
            forall|w: ValueModel| w != v@ ==> #[trigger] final(self).has_key(w) == old(self).has_key(w),
    {
        let ghost before = self.spec_entries();
        match self.find(v) {
            Some(i) => {
                proof {
                    old(self).lemma_lookup_at(i as int);
                }
                let mut entry = self.entries.remove(i);
                entry.positions.push(pos);
                self.entries.insert(i, entry);
                assert(self.spec_entries() =~= before.update(i as int, (v@, before[i as int].1.push(pos))));
                proof {
                    assert forall|a: int, b: int| 0 <= a < b < self.spec_entries().len() implies (#[trigger] self.spec_entries()[a]).0
                        != (#[trigger] self.spec_entries()[b]).0 by {
                        assert(before[a].0 == self.spec_entries()[a].0);
                        assert(before[b].0 == self.spec_entries()[b].0);
                    }
                    self.lemma_lookup_at(i as int);
                    assert forall|w: ValueModel| w != v@ implies self.lookup(w) == old(self).lookup(w)
                        && self.has_key(w) == old(self).has_key(w) by {
                        if old(self).has_key(w) {
                            let k = choose|k: int| 0 <= k < before.len() && (#[trigger] before[k]).0 == w;
                            old(self).lemma_lookup_at(k);
                            assert(self.spec_entries()[k] == before[k]);
                            self.lemma_lookup_at(k);
                        }
                        if self.has_key(w) {
                            let k = choose|k: int| 0 <= k < self.spec_entries().len() && (#[trigger] self.spec_entries()[k]).0 == w;
                            assert(self.spec_entries()[k] == before[k]);
                        }
                    }
                }
            },
            None => {
                let mut p: usize = 0;
                while p < self.entries.len() && key_before(&self.entries[p].key, v)
                    invariant
                        p <= self.entries@.len(),
                        self.spec_entries() == before,
                        forall|j: int| 0 <= j < p ==> value_order((#[trigger] before[j]).0, v@) == Ordering::Less,
                    decreases self.entries@.len() - p,
                {
                    p = p + 1;
                }
                proof {
                    if p < before.len() {
                        lemma_value_order_props(before[p as int].0, v@);
                        lemma_value_order_props(v@, before[p as int].0);
                        assert(before[p as int].0 != v@);
                        assert(value_order(v@, before[p as int].0) == Ordering::Less);
                    }
                }
                let mut positions: Vec<DataPosition> = Vec::new();
                positions.push(pos);
                self.entries.insert(p, IndexEntry { key: v.clone(), positions });
                let ghost e = (v@, seq![pos]);
                assert(self.spec_entries() =~= before.insert(p as int, e));
                proof {
                    let n = p as int;
                    let ne = self.spec_entries();
                    assert forall|k: int| 0 <= k < ne.len() implies #[trigger] ne[k] == (if k < n {
                        before[k]
                    } else if k == n {
                        e
                    } else {
                        before[k - 1]
                    }) by {
                    }
                    assert forall|a: int, b: int| 0 <= a < b < ne.len() implies (#[trigger] ne[a]).0 != (#[trigger] ne[b]).0
                        && value_order(ne[a].0, ne[b].0) == Ordering::Less by {
                        let ka = if a < n { a } else if a == n { -1 } else { a - 1 };
                        let kb = if b < n { b } else if b == n { -1 } else { b - 1 };
                        if a != n && b != n {
                            assert(value_order(before[ka].0, before[kb].0) == Ordering::Less);
                        } else if a == n {
                            if kb > n {
                                assert(value_order(before[n].0, before[kb].0) == Ordering::Less);
                                lemma_value_order_trans(v@, before[n].0, before[kb].0);
                            }
                            lemma_value_order_props(v@, before[kb].0);
                        } else {
                            lemma_value_order_props(before[ka].0, v@);
                        }
                    }
                    self.lemma_lookup_at(n);
                    assert(old(self).lookup(v@) =~= Seq::<DataPosition>::empty());
                    assert(Seq::<DataPosition>::empty().push(pos) =~= seq![pos]);
                    assert forall|w: ValueModel| w != v@ implies self.lookup(w) == old(self).lookup(w)
                        && self.has_key(w) == old(self).has_key(w) by {
                        if old(self).has_key(w) {
                            let k = choose|k: int| 0 <= k < before.len() && (#[trigger] before[k]).0 == w;
                            old(self).lemma_lookup_at(k);
                            let k2 = if k < n { k } else { k + 1 };
                            assert(ne[k2] == before[k]);
                            self.lemma_lookup_at(k2);
                        }
                        if self.has_key(w) {
                            let k = choose|k: int| 0 <= k < ne.len() && (#[trigger] ne[k]).0 == w;
                            if k < n {
                                assert(ne[k] == before[k]);
                            } else if k > n {
                                assert(ne[k] == before[k - 1]);
                            }
                        }
                    }
                }
            },
        }
    }

    /// Drops from the positions listed for `v` every position `doomed` names.
    pub fn remove_positions(&mut self, v: &Type, doomed: &[DataPosition])
        requires
            old(self).wf(),
        ensures
            final(self).wf(),
            old(self).keys_round_trip() ==> final(self).keys_round_trip(),
            final(self).lookup(v@) == without(old(self).lookup(v@), doomed@),
            final(self).has_key(v@) == old(self).has_key(v@),
            forall|w: ValueModel| w != v@ ==> #[trigger] final(self).lookup(w) == old(self).lookup(w),
            forall|w: ValueModel| w != v@ ==> #[trigger] final(self).has_key(w) == old(self).has_key(w),
    {
        let ghost before = self.spec_entries();
        match self.find(v) {
            Some(i) => {
                proof {
                    old(self).lemma_lookup_at(i as int);
                }
                let mut entry = self.entries.remove(i);
                let old_positions = entry.positions;
                let mut kept: Vec<DataPosition> = Vec::new();
                let mut k: usize = 0;
                while k < old_positions.len()
                    invariant
                        k <= old_positions@.len(),
                        kept@ == without(old_positions@.take(k as int), doomed@),
                    decreases old_positions@.len() - k,
                {
                    let x = old_positions[k];
                    let keep = !contains_position(doomed, x);
                    if keep {
                        kept.push(x);
                    }
                    proof {
                        let t = old_positions@.take(k as int);
                        assert(old_positions@.take(k + 1) =~= t.push(x));
                        t.lemma_filter_push(x, |y: DataPosition| !doomed@.contains(y));
                    }
                    k = k + 1;
                }
                assert(old_positions@.take(k as int) =~= old_positions@);
                entry.positions = kept;
                self.entries.insert(i, entry);
                assert(self.spec_entries() =~= before.update(i as int, (v@, without(before[i as int].1, doomed@))));
                proof {
                    assert forall|a: int, b: int| 0 <= a < b < self.spec_entries().len() implies (#[trigger] self.spec_entries()[a]).0
                        != (#[trigger] self.spec_entries()[b]).0 by {
                        assert(before[a].0 == self.spec_entries()[a].0);
                        assert(before[b].0 == self.spec_entries()[b].0);
                    }
                    self.lemma_lookup_at(i as int);
                    assert forall|w: ValueModel| w != v@ implies self.lookup(w) == old(self).lookup(w)
                        && self.has_key(w) == old(self).has_key(w) by {
                        if old(self).has_key(w) {
                            let k = choose|k: int| 0 <= k < before.len() && (#[trigger] before[k]).0 == w;
                            old(self).lemma_lookup_at(k);
                            assert(self.spec_entries()[k] == before[k]);
                            self.lemma_lookup_at(k);
                        }
                        if self.has_key(w) {
                            let k = choose|k: int| 0 <= k < self.spec_entries().len() && (#[trigger] self.spec_entries()[k]).0 == w;
                            assert(self.spec_entries()[k] == before[k]);
                        }
                    }
                }
            },
            None => {
                assert(without(Seq::<DataPosition>::empty(), doomed@) =~= Seq::<DataPosition>::empty());
            },
        }
    }
}

/// Whether `a` comes before `b` in the order of values.
fn key_before(a: &Type, b: &Type) -> (r: bool)
    ensures
        r == (value_order(a@, b@) == Ordering::Less),
{
    match a.cmp(b) {
        Ordering::Less => true,
        _ => false,
    }
}

proof fn lemma_round_trips_by_view(a: Type, b: Type)
    requires
        a@ == b@,
    ensures
        a.round_trips() == b.round_trips(),
{
}

/// The persisted form of an entry.
pub open spec fn entry_wire(key: Type, positions: Seq<DataPosition>) -> (u8, u8, Seq<u8>, Seq<(u64, u16)>) {
    (
        key.tag(),
        key.width() as u8,
        key.encoding(),
        positions.map_values(|p: DataPosition| (p.page, p.cell)),
    )
}

fn position_pairs(ps: &Vec<DataPosition>) -> (r: Vec<(u64, u16)>)
    ensures
        r@ == ps@.map_values(|p: DataPosition| (p.page, p.cell)),
{
    let mut out: Vec<(u64, u16)> = Vec::new();
    let mut i: usize = 0;
    while i < ps.len()
        invariant
            i <= ps@.len(),
            out@ == ps@.take(i as int).map_values(|p: DataPosition| (p.page, p.cell)),
        decreases ps@.len() - i,
    {
        out.push((ps[i].page, ps[i].cell));
        i = i + 1;
        assert(out@ =~= ps@.take(i as int).map_values(|p: DataPosition| (p.page, p.cell)));
    }
    assert(ps@.take(i as int) =~= ps@);
    out
}

impl Index {
    /// The persisted entries, in order.
    pub closed spec fn spec_wire(&self) -> Seq<(u8, u8, Seq<u8>, Seq<(u64, u16)>)> {
        self.entries@.map_values(|e: IndexEntry| entry_wire(e.key, e.positions@))
    }

    /// The persisted bytes of the index: its entries, each as the key's tag,
    /// width and encoding and the listed (page, cell) pairs, bincode-encoded.
    pub fn to_bytes(&self) -> (r: Result<Vec<u8>, DbError>)
        ensures
            r matches Ok(b) && b@ == bincode_bytes(self.spec_wire()),
    {
        let mut wire: Vec<WireEntry> = Vec::new();
        let mut i: usize = 0;
        while i < self.entries.len()
            invariant
                i <= self.entries@.len(),
                wire@.len() == i,
                wire_view(wire@) == self.spec_wire().take(i as int),
            decreases self.entries@.len() - i,
        {
            let e = &self.entries[i];
            let tag = e.key.type_id();
            let width = e.key.size();
            let enc = e.key.serialize();
            let pairs = position_pairs(&e.positions);
            let ghost before = wire@;
            let w: WireEntry = (tag, width, enc, pairs);
            wire.push(w);
            assert(wire_view(wire@)[i as int] == self.spec_wire()[i as int]);
            assert forall|j: int| 0 <= j < i implies wire_view(wire@)[j] == wire_view(before)[j] by {
                assert(wire@[j] == before[j]);
            }
            i = i + 1;
            assert(wire_view(wire@) =~= self.spec_wire().take(i as int));
        }
        assert(self.spec_wire().take(i as int) =~= self.spec_wire());
        match encode_entries(&wire) {
            Some(b) => Ok(b),
            None => Err(DbError::IoError),
        }
    }

    /// Whether the index reads back from its own persisted bytes: it is well
    /// formed, every key reads back from its own encoding, and decoding stays
    /// within bincode's limit.
    pub open spec fn reads_back(&self) -> bool {
        &&& self.wf()
        &&& self.keys_round_trip()
        &&& wire_footprint(self.spec_wire()) <= DECODE_LIMIT
    }

    /// Every key reads back from its own encoding.
    pub closed spec fn keys_round_trip(&self) -> bool {
        forall|i: int| 0 <= i < self.entries@.len() ==> (#[trigger] self.entries@[i]).key.round_trips()
    }

    /// Reads an index from its persisted bytes. Bytes bincode cannot read, a
    /// key that does not decode to a value of its tag and width or does not
    /// read back from its own encoding, and a key that repeats are corrupted
    /// data. The bytes `to_bytes` gives for an index that reads back give an
    /// index with the same entries.
    pub fn from_bytes(bytes: &[u8]) -> (r: Result<Index, DbError>)
        ensures
            r matches Ok(ix) ==> ix.wf() && ix.keys_round_trip(),
            r matches Err(e) ==> e == DbError::CorruptedData,
            forall|ix: Index| #[trigger] bincode_bytes(ix.spec_wire()) == bytes@ && ix.reads_back() ==> r is Ok
                && r->Ok_0.spec_entries() == ix.spec_entries(),
    {
        let wire = match decode_entries(bytes) {
            Some(w) => w,
            None => {
                return Err(DbError::CorruptedData);
            },
        };
        let mut index = Index::new();
        let mut i: usize = 0;
        assert(index.spec_entries() =~= Seq::empty());
        while i < wire.len()
            invariant
                i <= wire@.len(),
                index.wf(),
                index.keys_round_trip(),
                forall|ix: Index| #[trigger] bincode_bytes(ix.spec_wire()) == bytes@ && ix.reads_back() ==> wire_view(wire@)
                    == ix.spec_wire() && index.spec_entries() == ix.spec_entries().take(i as int),
            decreases wire@.len() - i,
        {
            let (tag, width, payload, pairs) = &wire[i];
            let shape = if *tag == 11 {
                Type::Varchar(*width, String::new())
            } else {
                match Type::from_type_id(*tag) {
                    Some(t) => t,
                    None => {
                        proof {
                            assert forall|ix: Index| !(#[trigger] bincode_bytes(ix.spec_wire()) == bytes@ && ix.reads_back()) by {
                                if bincode_bytes(ix.spec_wire()) == bytes@ && ix.reads_back() {
                                    assert(wire_view(wire@)[i as int] == ix.spec_wire()[i as int]);
                                }
                            }
                        }
                        return Err(DbError::CorruptedData);
                    },
                }
            };
            proof {
                assert forall|ix: Index| #[trigger] bincode_bytes(ix.spec_wire()) == bytes@ && ix.reads_back() implies shape.tag()
                    == ix.entries@[i as int].key.tag() && shape.width() == ix.entries@[i as int].key.width()
                    && payload@ == ix.entries@[i as int].key.encoding() by {
                    assert(wire_view(wire@)[i as int] == ix.spec_wire()[i as int]);
                    let key = ix.entries@[i as int].key;
                    crate::dbtype::lemma_encoding_len(key);
                }
            }
            if payload.len() != shape.size() as usize {
                proof {
                    assert forall|ix: Index| !(#[trigger] bincode_bytes(ix.spec_wire()) == bytes@ && ix.reads_back()) by {
                        if bincode_bytes(ix.spec_wire()) == bytes@ && ix.reads_back() {
                            crate::dbtype::lemma_encoding_len(ix.entries@[i as int].key);
                        }
                    }
                }
                return Err(DbError::CorruptedData);
            }
            let key = match Type::deserialize(payload.as_slice(), &shape) {
                Ok(k) => k,
                Err(_) => {
                    proof {
                        assert forall|ix: Index| !(#[trigger] bincode_bytes(ix.spec_wire()) == bytes@ && ix.reads_back()) by {
                            if bincode_bytes(ix.spec_wire()) == bytes@ && ix.reads_back() {
                                let k0 = ix.entries@[i as int].key;
                                assert(k0.round_trips());
                                crate::dbtype::lemma_value_round_trip_with_shape(k0, shape);
                            }
                        }
                    }
                    return Err(DbError::CorruptedData);
                },
            };
            proof {
                assert forall|ix: Index| #[trigger] bincode_bytes(ix.spec_wire()) == bytes@ && ix.reads_back() implies key@
                    == ix.entries@[i as int].key@ by {
                    let k0 = ix.entries@[i as int].key;
                    assert(k0.round_trips());
                    crate::dbtype::lemma_value_round_trip_with_shape(k0, shape);
                }
            }
            if !key.fits() {
                proof {
                    assert forall|ix: Index| !(#[trigger] bincode_bytes(ix.spec_wire()) == bytes@ && ix.reads_back()) by {
                        if bincode_bytes(ix.spec_wire()) == bytes@ && ix.reads_back() {
                            let k0 = ix.entries@[i as int].key;
                            assert(k0.round_trips());
                            lemma_round_trips_by_view(k0, key);
                        }
                    }
                }
                return Err(DbError::CorruptedData);
            }
            if index.contains_key(&key) {
                proof {
                    assert forall|ix: Index| !(#[trigger] bincode_bytes(ix.spec_wire()) == bytes@ && ix.reads_back()) by {
                        if bincode_bytes(ix.spec_wire()) == bytes@ && ix.reads_back() {
                            let j = choose|j: int| 0 <= j < index.spec_entries().len() && (#[trigger] index.spec_entries()[j]).0 == key@;
                            assert(index.spec_entries()[j] == ix.spec_entries()[j]);
                            assert(ix.spec_entries()[i as int].0 == key@);
                        }
                    }
                }
                return Err(DbError::CorruptedData);
            }
            let n_entries = index.entries.len();
            if n_entries > 0 && !key_before(&index.entries[n_entries - 1].key, &key) {
                proof {
                    assert forall|ix: Index| !(#[trigger] bincode_bytes(ix.spec_wire()) == bytes@ && ix.reads_back()) by {
                        if bincode_bytes(ix.spec_wire()) == bytes@ && ix.reads_back() {
                            assert(index.spec_entries()[n_entries - 1] == ix.spec_entries()[n_entries - 1]);
                            assert(ix.spec_entries()[i as int].0 == key@);
                        }
                    }
                }
                return Err(DbError::CorruptedData);
            }
            let mut positions: Vec<DataPosition> = Vec::new();
            let mut j: usize = 0;
            while j < pairs.len()
                invariant
                    j <= pairs@.len(),
                    positions@.len() == j,
                    forall|a: int| 0 <= a < j ==> (#[trigger] positions@[a]).page == pairs@[a].0 && positions@[a].cell == pairs@[a].1,
                decreases pairs@.len() - j,
            {
                let (page, cell) = pairs[j];
                positions.push(DataPosition { page, cell });
                j = j + 1;
            }
            proof {
                assert forall|ix: Index| #[trigger] bincode_bytes(ix.spec_wire()) == bytes@ && ix.reads_back() implies positions@
                    == ix.entries@[i as int].positions@ by {
                    assert(wire_view(wire@)[i as int] == ix.spec_wire()[i as int]);
                    let ps = ix.entries@[i as int].positions@;
                    assert(pairs@ == ps.map_values(|p: DataPosition| (p.page, p.cell)));
                    assert(positions@ =~= ps);
                }
            }
            let ghost before = index.spec_entries();
            index.entries.push(IndexEntry { key, positions });
            proof {
                let n = before.len() as int;
                assert(index.spec_entries() =~= before.push((key@, positions@)));
                assert forall|a: int, b: int| 0 <= a < b < index.spec_entries().len() implies (#[trigger] index.spec_entries()[a]).0
                    != (#[trigger] index.spec_entries()[b]).0 && value_order(index.spec_entries()[a].0, index.spec_entries()[b].0)
                    == Ordering::Less by {
                    if b == n {
                        assert(before[a] == index.spec_entries()[a]);
                        if a < n - 1 {
                            lemma_value_order_trans(before[a].0, before[n - 1].0, key@);
                        }
                        lemma_value_order_props(before[a].0, key@);
                    } else {
                        assert(before[a] == index.spec_entries()[a]);
                        assert(before[b] == index.spec_entries()[b]);
                    }
                }
                assert forall|ix: Index| #[trigger] bincode_bytes(ix.spec_wire()) == bytes@ && ix.reads_back() implies index.spec_entries()
                    == ix.spec_entries().take(i + 1) by {
                    assert(ix.spec_entries().take(i + 1) =~= ix.spec_entries().take(i as int).push(ix.spec_entries()[i as int]));
                }
            }
            i = i + 1;
        }
        proof {
            assert forall|ix: Index| #[trigger] bincode_bytes(ix.spec_wire()) == bytes@ && ix.reads_back() implies index.spec_entries()
                == ix.spec_entries() by {
                assert(ix.spec_entries().take(i as int) =~= ix.spec_entries());
            }
        }
        Ok(index)
    }
}

} // verus!
