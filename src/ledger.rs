//! The free-space ledger: the free record slots of every page of a table, as
//! sorted intervals that never overlap or touch.
use crate::error::DbError;
use crate::free_space::FreeSpace;
use vstd::prelude::*;

verus! {

/// Whether slot `s` of page `p` lies in an interval of `l`.
pub open spec fn covers(l: Seq<FreeSpace>, p: int, s: int) -> bool {
    exists|i: int| 0 <= i < l.len() && (#[trigger] l[i]).page == p && l[i].begin <= s < l[i].end
}

/// `a` lies wholly before `b`, with at least one slot between them on one page.
pub open spec fn separated(a: FreeSpace, b: FreeSpace) -> bool {
    a.page < b.page || (a.page == b.page && a.end < b.begin)
}

/// A ledger of a table with `pages` pages of `slots` slots: every interval is
/// non-empty and in range, and the intervals are sorted by (page, begin),
/// never overlap and never touch.
pub open spec fn ledger_wf(l: Seq<FreeSpace>, pages: nat, slots: nat) -> bool {
    &&& forall|i: int|
        0 <= i < l.len() ==> (#[trigger] l[i]).page < pages && l[i].begin < l[i].end <= slots
    &&& forall|i: int, j: int| 0 <= i < j < l.len() ==> separated(#[trigger] l[i], #[trigger] l[j])
}

/// Slot `a` comes before slot `b` in (page, slot) order.
pub open spec fn slot_lt(a: (u16, u16), b: (u16, u16)) -> bool {
    a.0 < b.0 || (a.0 == b.0 && a.1 < b.1)
}

/// The slots are strictly increasing in (page, slot) order.
pub open spec fn slots_sorted(cells: Seq<(u16, u16)>) -> bool {
    forall|i: int, j: int| 0 <= i < j < cells.len() ==> slot_lt(#[trigger] cells[i], #[trigger] cells[j])
}

/// Marks the slots of page `p` that `l` covers.
#[verifier::loop_isolation(false)]
fn page_free_cells(l: &[FreeSpace], p: u16, slots: u16) -> (r: Vec<bool>)
    ensures
        r@.len() == slots,
        forall|s: int| 0 <= s < slots ==> #[trigger] r@[s] == covers(l@, p as int, s),
{
    let mut bits: Vec<bool> = Vec::new();
    let mut s: u16 = 0;
    while s < slots
        invariant
            s <= slots,
            bits@.len() == s,
            forall|x: int| 0 <= x < s ==> !#[trigger] bits@[x],
        decreases slots - s,
    {
        bits.push(false);
        s = s + 1;
    }
    let mut i: usize = 0;
    while i < l.len()
        invariant
            i <= l@.len(),
            bits@.len() == slots,
            forall|x: int| 0 <= x < slots ==> #[trigger] bits@[x] == covers(l@.take(i as int), p as int, x),
        decreases l@.len() - i,
    {
        let f = l[i];
        let ghost prev = l@.take(i as int);
        let ghost next = l@.take(i + 1);
        assert(next =~= prev.push(f));
        if f.page == p {
            let mut c: u16 = f.begin;
            let stop: u16 = if f.end < slots { f.end } else { slots };
            while c < stop
                invariant
                    f == l@[i as int],
                    f.page == p,
                    f.begin <= c,
                    stop <= slots,
                    stop <= f.end,
                    bits@.len() == slots,
                    forall|x: int|
                        0 <= x < slots ==> #[trigger] bits@[x] == (covers(prev, p as int, x) || (f.begin <= x
                            < c && x < stop)),
                decreases stop - c,
            {
                bits.set(c as usize, true);
                c = c + 1;
            }
            assert forall|x: int| 0 <= x < slots implies #[trigger] bits@[x] == covers(next, p as int, x) by {
                if covers(prev, p as int, x) {
                    let j = choose|j: int| 0 <= j < prev.len() && (#[trigger] prev[j]).page == p && prev[j].begin <= x < prev[j].end;
                    assert(next[j] == prev[j]);
                }
                if f.begin <= x < f.end {
                    assert(next[i as int] == f);
                }
                if covers(next, p as int, x) {
                    let j = choose|j: int| 0 <= j < next.len() && (#[trigger] next[j]).page == p && next[j].begin <= x < next[j].end;
                    if j < i {
                        assert(prev[j] == next[j]);
                    }
                }
            }
        } else {
            assert forall|x: int| 0 <= x < slots implies #[trigger] bits@[x] == covers(next, p as int, x) by {
                if covers(prev, p as int, x) {
                    let j = choose|j: int| 0 <= j < prev.len() && (#[trigger] prev[j]).page == p && prev[j].begin <= x < prev[j].end;
                    assert(next[j] == prev[j]);
                }
                if covers(next, p as int, x) {
                    let j = choose|j: int| 0 <= j < next.len() && (#[trigger] next[j]).page == p && next[j].begin <= x < next[j].end;
                    if j < i {
                        assert(prev[j] == next[j]);
                    }
                }
            }
        }
        i = i + 1;
    }
    assert(l@.take(i as int) =~= l@);
    bits
}

/// Appends the maximal runs of marked slots of page `p` to `out`, in order.
#[verifier::loop_isolation(false)]
fn push_runs(out: &mut Vec<FreeSpace>, p: u16, bits: &Vec<bool>)
    requires
        bits@.len() <= u16::MAX,
    ensures
        final(out)@.take(old(out)@.len() as int) == old(out)@,
        final(out)@.len() >= old(out)@.len(),
        forall|i: int|
            old(out)@.len() <= i < final(out)@.len() ==> (#[trigger] final(out)@[i]).page == p
                && final(out)@[i].begin < final(out)@[i].end <= bits@.len(),
        forall|i: int, j: int|
            old(out)@.len() <= i < j < final(out)@.len() ==> #[trigger] final(out)@[i].end
                < #[trigger] final(out)@[j].begin,
        forall|s: int|
            0 <= s < bits@.len() ==> (#[trigger] bits@[s] <==> covers(
                final(out)@.skip(old(out)@.len() as int),
                p as int,
                s,
            )),
{
    let ghost start = old(out)@.len() as int;
    let n: usize = bits.len();
    let mut c: usize = 0;
    assert(out@.skip(start) =~= Seq::<FreeSpace>::empty());
    while c < n
        invariant
            n == bits@.len() <= u16::MAX,
            c <= n,
            out@.len() >= start,
            out@.take(start) == old(out)@,
            forall|i: int|
                start <= i < out@.len() ==> (#[trigger] out@[i]).page == p && out@[i].begin
                    < out@[i].end <= c,
            forall|i: int, j: int| start <= i < j < out@.len() ==> #[trigger] out@[i].end < #[trigger] out@[j].begin,
            out@.len() > start ==> (out@.last().end == n || !bits@[out@.last().end as int]),
            forall|s: int| 0 <= s < c ==> (#[trigger] bits@[s] <==> covers(out@.skip(start), p as int, s)),
            forall|s: int| c <= s ==> !covers(out@.skip(start), p as int, s),
        decreases n - c,
    {
        if bits[c] {
            let first: usize = c;
            while c < n && bits[c]
                invariant
                    first <= c <= n,
                    forall|s: int| first <= s < c ==> #[trigger] bits@[s],
                decreases n - c,
            {
                c = c + 1;
            }
            let ghost before = out@;
            let f = FreeSpace { page: p, begin: first as u16, end: c as u16 };
            out.push(f);
            assert(out@.take(start) =~= before.take(start));
            assert(out@.skip(start) =~= before.skip(start).push(f));
            let ghost run = out@.skip(start);
            assert forall|s: int| 0 <= s < c implies (#[trigger] bits@[s] <==> covers(run, p as int, s)) by {
                if s >= first {
                    assert(run[run.len() - 1] == f);
                } else {
                    if covers(before.skip(start), p as int, s) {
                        let j = choose|j: int| 0 <= j < before.skip(start).len() && (#[trigger] before.skip(start)[j]).page == p && before.skip(start)[j].begin <= s < before.skip(start)[j].end;
                        assert(run[j] == before.skip(start)[j]);
                    }
                    if covers(run, p as int, s) {
                        let j = choose|j: int| 0 <= j < run.len() && (#[trigger] run[j]).page == p && run[j].begin <= s < run[j].end;
                        if j < run.len() - 1 {
                            assert(before.skip(start)[j] == run[j]);
                        }
                    }
                }
            }
            assert forall|s: int| c <= s implies !covers(run, p as int, s) by {
                if covers(run, p as int, s) {
                    let j = choose|j: int| 0 <= j < run.len() && (#[trigger] run[j]).page == p && run[j].begin <= s < run[j].end;
                    if j < run.len() - 1 {
                        assert(before.skip(start)[j] == run[j]);
                        assert(out@[start + j] == run[j]);
                    }
                }
            }
            proof {
                if before.len() > start {
                    assert(before.last().end < first) by {
                        if before.last().end == first {
                            assert(bits@[first as int]);
                        }
                    }
                }
            }
        } else {
            let ghost run = out@.skip(start);
            assert(!covers(run, p as int, c as int));
            c = c + 1;
        }
    }
}

proof fn lemma_covers_concat(a: Seq<FreeSpace>, b: Seq<FreeSpace>, p: int, s: int)
    ensures
        covers(a + b, p, s) <==> covers(a, p, s) || covers(b, p, s),
{
    let ab = a + b;
    if covers(a, p, s) {
        let j = choose|j: int| 0 <= j < a.len() && (#[trigger] a[j]).page == p && a[j].begin <= s < a[j].end;
        assert(ab[j] == a[j]);
    }
    if covers(b, p, s) {
        let j = choose|j: int| 0 <= j < b.len() && (#[trigger] b[j]).page == p && b[j].begin <= s < b[j].end;
        assert(ab[a.len() + j] == b[j]);
    }
    if covers(ab, p, s) {
        let j = choose|j: int| 0 <= j < ab.len() && (#[trigger] ab[j]).page == p && ab[j].begin <= s < ab[j].end;
        if j < a.len() {
            assert(a[j] == ab[j]);
        } else {
            assert(b[j - a.len()] == ab[j]);
        }
    }
}

/// Appending the runs of page `p` to a ledger of the pages before `p` keeps it
/// well formed, and adds exactly the runs' slots.
proof fn lemma_append_page(old_l: Seq<FreeSpace>, new_l: Seq<FreeSpace>, p: int, slots: nat)
    requires
        ledger_wf(old_l, p as nat, slots),
        0 <= p,
        new_l.take(old_l.len() as int) == old_l,
        new_l.len() >= old_l.len(),
        forall|i: int|
            old_l.len() <= i < new_l.len() ==> (#[trigger] new_l[i]).page == p && new_l[i].begin
                < new_l[i].end <= slots,
        forall|i: int, j: int|
            old_l.len() <= i < j < new_l.len() ==> #[trigger] new_l[i].end < #[trigger] new_l[j].begin,
    ensures
        ledger_wf(new_l, (p + 1) as nat, slots),
        forall|q: int, s: int|
            #[trigger] covers(new_l, q, s) <==> covers(old_l, q, s) || (q == p && covers(
                new_l.skip(old_l.len() as int),
                q,
                s,
            )),
{
    let tail = new_l.skip(old_l.len() as int);
    assert(new_l =~= old_l + tail);
    assert forall|q: int, s: int| #[trigger] covers(new_l, q, s) <==> covers(old_l, q, s) || (q == p
        && covers(tail, q, s)) by {
        lemma_covers_concat(old_l, tail, q, s);
        if covers(tail, q, s) {
            let j = choose|j: int| 0 <= j < tail.len() && (#[trigger] tail[j]).page == q && tail[j].begin <= s < tail[j].end;
            assert(new_l[old_l.len() + j] == tail[j]);
        }
    }
    assert forall|i: int, j: int| 0 <= i < j < new_l.len() implies separated(#[trigger] new_l[i], #[trigger] new_l[j]) by {
        if j < old_l.len() {
            assert(old_l[i] == new_l[i] && old_l[j] == new_l[j]);
        } else if i < old_l.len() {
            assert(old_l[i] == new_l[i]);
        }
    }
    assert forall|i: int| 0 <= i < new_l.len() implies (#[trigger] new_l[i]).page < p + 1 && new_l[i].begin < new_l[i].end <= slots by {
        if i < old_l.len() {
            assert(old_l[i] == new_l[i]);
        }
    }
}

/// The ledger after the slots `cells` are freed: every slot the old ledger
/// covers or `cells` names is free, no other is, and the ledger stays well
/// formed (adjacent and overlapping runs are merged).
#[verifier::loop_isolation(false)]
pub fn reclaim(ledger: &[FreeSpace], cells: &[(u16, u16)], pages: u64, slots: u16) -> (r: Vec<FreeSpace>)
    requires
        ledger_wf(ledger@, pages as nat, slots as nat),
        pages <= 65536,
        forall|i: int| 0 <= i < cells@.len() ==> (#[trigger] cells@[i]).0 < pages && cells@[i].1 < slots,
    ensures
        ledger_wf(r@, pages as nat, slots as nat),
        forall|q: int, s: int|
            #[trigger] covers(r@, q, s) <==> (covers(ledger@, q, s) || (0 <= q < 65536 && 0 <= s < 65536
                && cells@.contains((q as u16, s as u16)))),
{
    let mut out: Vec<FreeSpace> = Vec::new();
    let mut p: u64 = 0;
    while p < pages
        invariant
            p <= pages <= 65536,
            ledger_wf(out@, p as nat, slots as nat),
            forall|q: int, s: int|
                #[trigger] covers(out@, q, s) <==> (q < p && (covers(ledger@, q, s) || (0 <= q < 65536 && 0
                    <= s < 65536 && cells@.contains((q as u16, s as u16))))),
        decreases pages - p,
    {
        let pg: u16 = p as u16;
        let mut bits = page_free_cells(ledger, pg, slots);
        let mut k: usize = 0;
        while k < cells.len()
            invariant
                k <= cells@.len(),
                bits@.len() == slots,
                forall|s: int|
                    0 <= s < slots ==> #[trigger] bits@[s] == (covers(ledger@, p as int, s) || cells@.take(
                        k as int,
                    ).contains((pg, s as u16))),
            decreases cells@.len() - k,
        {
            let (cp, cs) = cells[k];
            if cp == pg {
                bits.set(cs as usize, true);
            }
            proof {
                let prev = cells@.take(k as int);
                assert(cells@.take(k + 1) =~= prev.push(cells@[k as int]));
                assert forall|s: int| 0 <= s < slots implies #[trigger] bits@[s] == (covers(ledger@, p as int, s)
                    || cells@.take(k + 1).contains((pg, s as u16))) by {
                    let next = cells@.take(k + 1);
                    if prev.contains((pg, s as u16)) {
                        let j = choose|j: int| 0 <= j < prev.len() && prev[j] == (pg, s as u16);
                        assert(next[j] == prev[j]);
                    }
                    if next.contains((pg, s as u16)) {
                        let j = choose|j: int| 0 <= j < next.len() && next[j] == (pg, s as u16);
                        if j < k {
                            assert(prev[j] == next[j]);
                        }
                    }
                    if cp == pg && cs == s {
                        assert(next[k as int] == (pg, s as u16));
                    }
                }
            }
            k = k + 1;
        }
        assert(cells@.take(k as int) =~= cells@);
        let ghost before = out@;
        push_runs(&mut out, pg, &bits);
        proof {
            lemma_append_page(before, out@, p as int, slots as nat);
            assert forall|q: int, s: int| #[trigger] covers(out@, q, s) <==> (q < p + 1 && (covers(ledger@, q, s) || (0 <= q
                < 65536 && 0 <= s < 65536 && cells@.contains((q as u16, s as u16))))) by {
                let tail = out@.skip(before.len() as int);
                if covers(tail, q, s) {
                    let j = choose|j: int| 0 <= j < tail.len() && (#[trigger] tail[j]).page == q && tail[j].begin <= s < tail[j].end;
                    assert(tail[j] == out@[before.len() + j]);
                    assert(0 <= s < slots);
                    assert(bits@[s]);
                }
                if q == p && 0 <= s < slots {
                    assert(bits@[s] <==> covers(tail, q, s));
                }
                if q == p && covers(ledger@, q, s) {
                    let j = choose|j: int| 0 <= j < ledger@.len() && (#[trigger] ledger@[j]).page == q && ledger@[j].begin <= s < ledger@[j].end;
                    assert(s < slots);
                }
                if q == p && 0 <= s < 65536 && cells@.contains((q as u16, s as u16)) {
                    let j = choose|j: int| 0 <= j < cells@.len() && cells@[j] == (q as u16, s as u16);
                    assert(s < slots);
                }
            }
        }
        p = p + 1;
    }
    proof {
        assert forall|q: int, s: int| #[trigger] covers(out@, q, s) <==> (covers(ledger@, q, s) || (0 <= q < 65536 && 0
            <= s < 65536 && cells@.contains((q as u16, s as u16)))) by {
            if covers(ledger@, q, s) {
                let j = choose|j: int| 0 <= j < ledger@.len() && (#[trigger] ledger@[j]).page == q && ledger@[j].begin <= s < ledger@[j].end;
            }
            if 0 <= q < 65536 && 0 <= s < 65536 && cells@.contains((q as u16, s as u16)) {
                let j = choose|j: int| 0 <= j < cells@.len() && cells@[j] == (q as u16, s as u16);
            }
        }
    }
    out
}

/// The slots no interval covers, page by page, in (page, slot) order.
#[verifier::loop_isolation(false)]
pub fn live_slots(ledger: &[FreeSpace], pages: u64, slots: u16) -> (r: Vec<(u16, u16)>)
    requires
        pages <= 65536,
    ensures
        slots_sorted(r@),
        forall|i: int| 0 <= i < r@.len() ==> (#[trigger] r@[i]).0 < pages && r@[i].1 < slots,
        forall|q: u16, s: u16|
            #[trigger] r@.contains((q, s)) <==> (q < pages && s < slots && !covers(ledger@, q as int, s as int)),
{
    let mut out: Vec<(u16, u16)> = Vec::new();
    let mut p: u64 = 0;
    while p < pages
        invariant
            p <= pages <= 65536,
            slots_sorted(out@),
            forall|i: int| 0 <= i < out@.len() ==> (#[trigger] out@[i]).0 < p && out@[i].1 < slots,
            forall|q: u16, s: u16|
                #[trigger] out@.contains((q, s)) <==> (q < p && s < slots && !covers(ledger@, q as int, s as int)),
        decreases pages - p,
    {
        let pg: u16 = p as u16;
        let bits = page_free_cells(ledger, pg, slots);
        let mut s: u16 = 0;
        let ghost base = out@;
        while s < slots
            invariant
                s <= slots,
                out@.len() >= base.len(),
                out@.take(base.len() as int) == base,
                slots_sorted(out@),
                forall|i: int| 0 <= i < base.len() ==> (#[trigger] out@[i]).0 < pg,
                forall|i: int| base.len() <= i < out@.len() ==> (#[trigger] out@[i]).0 == pg && out@[i].1 < s,
                forall|i: int| 0 <= i < out@.len() ==> (#[trigger] out@[i]).1 < slots,
                forall|q: u16, t: u16|
                    #[trigger] out@.contains((q, t)) <==> ((q < p && t < slots && !covers(ledger@, q as int, t as int))
                        || (q == pg && t < s && !covers(ledger@, q as int, t as int))),
            decreases slots - s,
        {
            if !bits[s as usize] {
                let ghost prev = out@;
                out.push((pg, s));
                proof {
                    assert forall|i: int| 0 <= i < base.len() implies (#[trigger] out@[i]).0 < pg by {
                        assert(out@[i] == prev[i]);
                    }
                    assert(out@.take(base.len() as int) =~= prev.take(base.len() as int));
                    assert forall|q: u16, t: u16| #[trigger] out@.contains((q, t)) <==> ((q < p && t < slots
                        && !covers(ledger@, q as int, t as int)) || (q == pg && t < s + 1 && !covers(ledger@, q as int, t as int))) by {
                        if prev.contains((q, t)) {
                            let j = choose|j: int| 0 <= j < prev.len() && prev[j] == (q, t);
                            assert(out@[j] == prev[j]);
                        }
                        if out@.contains((q, t)) {
                            let j = choose|j: int| 0 <= j < out@.len() && out@[j] == (q, t);
                            if j < prev.len() {
                                assert(prev[j] == out@[j]);
                            }
                        }
                        if q == pg && t == s {
                            assert(out@[prev.len() as int] == (q, t));
                        }
                    }
                    assert forall|i: int, j: int| 0 <= i < j < out@.len() implies slot_lt(#[trigger] out@[i], #[trigger] out@[j]) by {
                        if j < prev.len() {
                            assert(prev[i] == out@[i] && prev[j] == out@[j]);
                        } else {
                            assert(prev.len() == j);
                            if i < base.len() {
                                assert(out@[i] == prev[i]);
                            } else {
                                assert(out@[i] == prev[i]);
                            }
                        }
                    }
                }
            } else {
                proof {
                    assert forall|q: u16, t: u16| #[trigger] out@.contains((q, t)) <==> ((q < p && t < slots
                        && !covers(ledger@, q as int, t as int)) || (q == pg && t < s + 1 && !covers(ledger@, q as int, t as int))) by {
                    }
                }
            }
            s = s + 1;
        }
        p = p + 1;
    }
    out
}

pub proof fn lemma_push_contains<T>(s: Seq<T>, x: T, y: T)
    ensures
        s.push(x).contains(y) <==> (s.contains(y) || x == y),
{
    let t = s.push(x);
    if s.contains(y) {
        let j = choose|j: int| 0 <= j < s.len() && s[j] == y;
        assert(t[j] == y);
    }
    if x == y {
        assert(t[s.len() as int] == y);
    }
    if t.contains(y) {
        let j = choose|j: int| 0 <= j < t.len() && t[j] == y;
        if j < s.len() {
            assert(s[j] == y);
        }
    }
}

/// How many of the first `n` slots of page `q` are free once the table has
/// grown past its `pages` pages.
pub open spec fn free_on_page(l: Seq<FreeSpace>, pages: nat, slots: nat, q: int, n: int) -> nat
    decreases n,
{
    if n <= 0 {
        0
    } else {
        free_on_page(l, pages, slots, q, n - 1) + (if free_after_growth(l, pages, slots, q, n - 1) {
            1nat
        } else {
            0nat
        })
    }
}

/// How many slots of the pages below `p` are free once the table has grown.
pub open spec fn free_below(l: Seq<FreeSpace>, pages: nat, slots: nat, p: int) -> nat
    decreases p,
{
    if p <= 0 {
        0
    } else {
        free_below(l, pages, slots, p - 1) + free_on_page(l, pages, slots, p - 1, slots as int)
    }
}

/// How many slots a table can still give, counting every page the ledger can
/// number (65536).
pub open spec fn capacity(l: Seq<FreeSpace>, pages: nat, slots: nat) -> nat {
    free_below(l, pages, slots, 65536)
}

proof fn lemma_free_below_monotone(l: Seq<FreeSpace>, pages: nat, slots: nat, p: int, q: int)
    requires
        0 <= p <= q,
    ensures
        free_below(l, pages, slots, p) <= free_below(l, pages, slots, q),
    decreases q - p,
{
    if p < q {
        lemma_free_below_monotone(l, pages, slots, p, q - 1);
    }
}

/// Whether slot `s` of page `q` is free once the table has grown past its
/// `pages` pages: the ledger covers it, or it lies on a new page.
pub open spec fn free_after_growth(l: Seq<FreeSpace>, pages: nat, slots: nat, q: int, s: int) -> bool {
    covers(l, q, s) || (pages <= q && 0 <= s < slots)
}

/// `new_ledger`, `new_pages` and `cells` are what taking `count` slots from
/// `ledger` gives: `count` distinct slots in (page, slot) order, each free
/// once the table has grown; the new ledger is well formed and covers exactly
/// the free slots not taken; every slot left free comes after every slot
/// taken; and a new page is added only if a slot on the last one is taken.
pub open spec fn allocated(
    ledger: Seq<FreeSpace>,
    pages: nat,
    slots: nat,
    count: nat,
    new_ledger: Seq<FreeSpace>,
    new_pages: nat,
    cells: Seq<(u16, u16)>,
) -> bool {
    &&& pages <= new_pages <= 65536
    &&& ledger_wf(new_ledger, new_pages, slots)
    &&& cells.len() == count
    &&& slots_sorted(cells)
    &&& forall|i: int|
        0 <= i < cells.len() ==> (#[trigger] cells[i]).0 < new_pages && cells[i].1 < slots
            && free_after_growth(ledger, pages, slots, cells[i].0 as int, cells[i].1 as int)
    &&& forall|q: int, s: int|
        #[trigger] covers(new_ledger, q, s) <==> (0 <= q < new_pages && free_after_growth(
            ledger,
            pages,
            slots,
            q,
            s,
        ) && !cells.contains((q as u16, s as u16)))
    &&& forall|q: int, s: int, i: int|
        covers(new_ledger, q, s) && 0 <= i < cells.len() ==> slot_lt(
            #[trigger] cells[i],
            (q as u16, s as u16),
        ) && #[trigger] covers(new_ledger, q, s)
    &&& new_pages > pages ==> count > 0 && cells.last().0 == new_pages - 1
}

/// Where a batch of records goes: the slots taken, the ledger after taking
/// them, and the page count after any new pages.
pub struct Allocation {
    pub ledger: Vec<FreeSpace>,
    pub pages: u64,
    pub cells: Vec<(u16, u16)>,
}

/// Takes the first `count` free slots in (page, slot) order, adding whole free
/// pages after the last one while too few are free. Fails when the pages
/// needed would pass the 65536 a ledger can number: exactly when `count`
/// exceeds the table's `capacity`.
#[verifier::loop_isolation(false)]
pub fn allocate(ledger: &[FreeSpace], pages: u64, slots: u16, count: usize) -> (r: Result<
    Allocation,
    DbError,
>)
    requires
        ledger_wf(ledger@, pages as nat, slots as nat),
        pages <= 65536,
        1 <= slots,
    ensures
        r is Err <==> count > capacity(ledger@, pages as nat, slots as nat),
        r matches Err(e) ==> e == DbError::TableFull,
        r matches Ok(a) ==> allocated(
            ledger@,
            pages as nat,
            slots as nat,
            count as nat,
            a.ledger@,
            a.pages as nat,
            a.cells@,
        ),
{
    let mut out: Vec<FreeSpace> = Vec::new();
    let mut cells: Vec<(u16, u16)> = Vec::new();
    let mut remaining: usize = count;
    let mut p: u64 = 0;
    while p < pages || remaining > 0
        invariant
            p <= 65536,
            pages <= 65536,
            remaining + cells@.len() == count,
            ledger_wf(out@, p as nat, slots as nat),
            forall|q: int, s: int|
                #[trigger] covers(out@, q, s) <==> (0 <= q < p && free_after_growth(
                    ledger@,
                    pages as nat,
                    slots as nat,
                    q,
                    s,
                ) && !cells@.contains((q as u16, s as u16))),
            forall|i: int|
                0 <= i < cells@.len() ==> (#[trigger] cells@[i]).0 < p && cells@[i].1 < slots && free_after_growth(
                    ledger@,
                    pages as nat,
                    slots as nat,
                    cells@[i].0 as int,
                    cells@[i].1 as int,
                ),
            slots_sorted(cells@),
            forall|q: int, s: int, i: int|
                covers(out@, q, s) && 0 <= i < cells@.len() ==> slot_lt(
                    #[trigger] cells@[i],
                    (q as u16, s as u16),
                ) && #[trigger] covers(out@, q, s),
            remaining > 0 ==> forall|q: int, s: int| !#[trigger] covers(out@, q, s),
            p > pages ==> cells@.len() > 0 && cells@.last().0 == p - 1,
            remaining == (if count >= free_below(ledger@, pages as nat, slots as nat, p as int) {
                count - free_below(ledger@, pages as nat, slots as nat, p as int)
            } else {
                0
            }),
        decreases 65536 - p,
    {
        if p >= 65536 {
            return Err(DbError::TableFull);
        }
        let pg: u16 = p as u16;
        let mut bits: Vec<bool> = if p < pages {
            page_free_cells(ledger, pg, slots)
        } else {
            let mut all: Vec<bool> = Vec::new();
            while all.len() < slots as usize
                invariant
                    all@.len() <= slots,
                    forall|t: int| 0 <= t < all@.len() ==> #[trigger] all@[t],
                decreases slots - all@.len(),
            {
                all.push(true);
            }
            all
        };
        let ghost orig = bits@;
        assert forall|t: int| 0 <= t < slots implies #[trigger] orig[t] == free_after_growth(
            ledger@,
            pages as nat,
            slots as nat,
            p as int,
            t,
        ) by {
            if p >= pages {
                if covers(ledger@, p as int, t) {
                    let j = choose|j: int| 0 <= j < ledger@.len() && (#[trigger] ledger@[j]).page == p && ledger@[j].begin <= t < ledger@[j].end;
                }
            }
        }
        let ghost cells_before = cells@;
        let ghost remaining_before = remaining;
        let mut s: u16 = 0;
        while s < slots
            invariant
                s <= slots,
                bits@.len() == slots,
                remaining + cells@.len() == count,
                cells@.len() >= cells_before.len(),
                cells@.take(cells_before.len() as int) == cells_before,
                forall|i: int| cells_before.len() <= i < cells@.len() ==> (#[trigger] cells@[i]).0 == pg
                    && cells@[i].1 < s && orig[cells@[i].1 as int],
                forall|i: int| 0 <= i < cells_before.len() ==> (#[trigger] cells_before[i]).1 < slots,
                forall|t: int| s <= t < slots ==> #[trigger] bits@[t] == orig[t],
                forall|t: int|
                    0 <= t < s ==> (#[trigger] bits@[t] <==> (orig[t] && !cells@.contains((pg, t as u16)))),
                forall|t: int| 0 <= t < s ==> (orig[t] ==> (bits@[t] || cells@.contains((pg, t as u16)))),
                forall|t: int, i: int|
                    0 <= t < s && 0 <= i < cells@.len() && #[trigger] bits@[t] ==> slot_lt(
                        #[trigger] cells@[i],
                        (pg, t as u16),
                    ),
                remaining > 0 ==> forall|t: int| 0 <= t < s ==> !#[trigger] bits@[t],
                cells@.len() - cells_before.len() == (if remaining_before <= free_on_page(ledger@, pages as nat, slots as nat, p as int, s as int) {
                    remaining_before as int
                } else {
                    free_on_page(ledger@, pages as nat, slots as nat, p as int, s as int) as int
                }),
                slots_sorted(cells@),
                forall|t: u16| #[trigger] cells@.contains((pg, t)) ==> t < s,
            decreases slots - s,
        {
            if remaining > 0 && bits[s as usize] {
                let ghost prev = cells@;
                bits.set(s as usize, false);
                cells.push((pg, s));
                remaining = remaining - 1;
                proof {
                    assert(cells@.take(cells_before.len() as int) =~= prev.take(cells_before.len() as int));
                    assert forall|t: int| 0 <= t < s + 1 implies (#[trigger] bits@[t] <==> (orig[t]
                        && !cells@.contains((pg, t as u16)))) by {
                        lemma_push_contains(prev, (pg, s), (pg, t as u16));
                    }
                    assert forall|t: int| 0 <= t < s + 1 && orig[t] implies (bits@[t] || cells@.contains(
                        (pg, t as u16),
                    )) by {
                        lemma_push_contains(prev, (pg, s), (pg, t as u16));
                    }
                    assert forall|t: u16| #[trigger] cells@.contains((pg, t)) implies t < s + 1 by {
                        lemma_push_contains(prev, (pg, s), (pg, t));
                    }
                    assert forall|i: int, j: int| 0 <= i < j < cells@.len() implies slot_lt(
                        #[trigger] cells@[i],
                        #[trigger] cells@[j],
                    ) by {
                        if j < prev.len() {
                            assert(prev[i] == cells@[i] && prev[j] == cells@[j]);
                        } else {
                            assert(cells@[i] == prev[i]);
                            if i >= cells_before.len() {
                            } else {
                                assert(cells_before[i] == prev[i]);
                            }
                        }
                    }
                    assert forall|t: int, i: int|
                        0 <= t < s + 1 && 0 <= i < cells@.len() && #[trigger] bits@[t] implies slot_lt(
                        #[trigger] cells@[i],
                        (pg, t as u16),
                    ) by {
                    }
                    assert forall|i: int| cells_before.len() <= i < cells@.len() implies (#[trigger] cells@[i]).0 == pg
                        && cells@[i].1 < s + 1 && orig[cells@[i].1 as int] by {
                        if i < prev.len() {
                            assert(prev[i] == cells@[i]);
                        }
                    }
                }
            }
            proof {
                assert forall|t: int, i: int|
                    0 <= t < s + 1 && 0 <= i < cells@.len() && #[trigger] bits@[t] implies slot_lt(
                    #[trigger] cells@[i],
                    (pg, t as u16),
                ) by {
                    if i < cells_before.len() {
                        assert(cells@.take(cells_before.len() as int)[i] == cells@[i]);
                        assert(cells_before[i].0 < p);
                    }
                }
            }
            s = s + 1;
        }
        let ghost before = out@;
        push_runs(&mut out, pg, &bits);
        proof {
            lemma_append_page(before, out@, p as int, slots as nat);
            let tail = out@.skip(before.len() as int);
            assert forall|i: int| 0 <= i < cells_before.len() implies cells@[i] == cells_before[i] by {
                assert(cells@.take(cells_before.len() as int)[i] == cells@[i]);
            }
            assert forall|q: int, t: int| #[trigger] covers(out@, q, t) <==> (0 <= q < p + 1 && free_after_growth(
                ledger@,
                pages as nat,
                slots as nat,
                q,
                t,
            ) && !cells@.contains((q as u16, t as u16))) by {
                if covers(tail, q, t) {
                    let j = choose|j: int| 0 <= j < tail.len() && (#[trigger] tail[j]).page == q && tail[j].begin <= t < tail[j].end;
                    assert(tail[j] == out@[before.len() + j]);
                }
                if 0 <= q < p {
                    assert(!covers(tail, q, t));
                    assert(cells@.contains((q as u16, t as u16)) <==> cells_before.contains((q as u16, t as u16))) by {
                        if cells@.contains((q as u16, t as u16)) {
                            let j = choose|j: int| 0 <= j < cells@.len() && cells@[j] == (q as u16, t as u16);
                            if j >= cells_before.len() {
                                assert(cells@[j].0 == pg);
                            } else {
                                assert(cells_before[j] == cells@[j]);
                            }
                        }
                        if cells_before.contains((q as u16, t as u16)) {
                            let j = choose|j: int| 0 <= j < cells_before.len() && cells_before[j] == (q as u16, t as u16);
                            assert(cells@[j] == cells_before[j]);
                        }
                    }
                } else if q == p {
                    assert(!covers(before, q, t));
                    if 0 <= t < slots {
                        assert(bits@[t] <==> covers(tail, q, t));
                        assert(orig[t] == free_after_growth(ledger@, pages as nat, slots as nat, q, t));
                        assert((q as u16, t as u16) == (pg, t as u16));
                    } else {
                        assert(!covers(tail, q, t));
                        if covers(ledger@, q, t) {
                            let j = choose|j: int| 0 <= j < ledger@.len() && (#[trigger] ledger@[j]).page == q && ledger@[j].begin <= t < ledger@[j].end;
                        }
                    }
                } else {
                    assert(!covers(tail, q, t));
                    assert(!covers(before, q, t));
                }
            }
            assert forall|i: int|
                0 <= i < cells@.len() implies (#[trigger] cells@[i]).0 < p + 1 && cells@[i].1 < slots && free_after_growth(
                ledger@,
                pages as nat,
                slots as nat,
                cells@[i].0 as int,
                cells@[i].1 as int,
            ) by {
                if i < cells_before.len() {
                    assert(cells_before[i] == cells@[i]);
                }
            }
            assert forall|q: int, t: int, i: int|
                covers(out@, q, t) && 0 <= i < cells@.len() implies slot_lt(
                #[trigger] cells@[i],
                (q as u16, t as u16),
            ) && #[trigger] covers(out@, q, t) by {
                if q < p {
                    assert(covers(before, q, t));
                    if i >= cells_before.len() {
                        assert(remaining_before == 0 ==> cells@.len() == cells_before.len());
                        assert(!(remaining_before > 0));
                    } else {
                        assert(cells_before[i] == cells@[i]);
                    }
                } else {
                    assert(covers(tail, q, t));
                    let j = choose|j: int| 0 <= j < tail.len() && (#[trigger] tail[j]).page == q && tail[j].begin <= t < tail[j].end;
                    assert(tail[j] == out@[before.len() + j]);
                    assert(bits@[t]);
                }
            }
            if remaining > 0 {
                assert forall|q: int, t: int| !#[trigger] covers(out@, q, t) by {
                    if covers(tail, q, t) {
                        let j = choose|j: int| 0 <= j < tail.len() && (#[trigger] tail[j]).page == q && tail[j].begin <= t < tail[j].end;
                        assert(tail[j] == out@[before.len() + j]);
                        assert(bits@[t]);
                    }
                    if covers(before, q, t) {
                        assert(remaining_before > 0);
                    }
                }
            }
            if p >= pages {
                assert(remaining_before > 0);
                assert(orig[0]);
                assert(cells@.len() > cells_before.len()) by {
                    if cells@.len() == cells_before.len() {
                        assert(!bits@[0]);
                        assert(cells@.contains((pg, 0u16)));
                        let j = choose|j: int| 0 <= j < cells@.len() && cells@[j] == (pg, 0u16);
                        assert(cells_before[j] == cells@[j]);
                    }
                }
                assert(cells@.last().0 == pg);
            } else if p + 1 > pages {
            }
        }
        p = p + 1;
    }
    proof {
        lemma_free_below_monotone(ledger@, pages as nat, slots as nat, p as int, 65536);
    }
    Ok(Allocation { ledger: out, pages: p, cells })
}

/// Whether `l` is a well-formed ledger of `pages` pages of `slots` slots.
pub fn check_ledger(l: &[FreeSpace], pages: u64, slots: u16) -> (r: bool)
    ensures
        r == ledger_wf(l@, pages as nat, slots as nat),
{
    let mut i: usize = 0;
    while i < l.len()
        invariant
            i <= l@.len(),
            forall|j: int| 0 <= j < i ==> (#[trigger] l@[j]).page < pages && l@[j].begin < l@[j].end <= slots,
            forall|a: int, b: int| 0 <= a < b < i ==> separated(#[trigger] l@[a], #[trigger] l@[b]),
        decreases l@.len() - i,
    {
        let f = l[i];
        if f.page as u64 >= pages || f.begin >= f.end || f.end > slots {
            return false;
        }
        if i > 0 {
            let g = l[i - 1];
            if !(g.page < f.page || (g.page == f.page && g.end < f.begin)) {
                assert(!separated(l@[i - 1], l@[i as int]));
                return false;
            }
        }
        assert forall|a: int, b: int| 0 <= a < b < i + 1 implies separated(#[trigger] l@[a], #[trigger] l@[b]) by {
            if b == i && a < i - 1 {
                assert(separated(l@[a], l@[i - 1]));
            }
        }
        i = i + 1;
    }
    true
}

/// The ledger of a table with one page, all of it free.
pub fn initial_ledger(slots: u16) -> (r: Vec<FreeSpace>)
    requires
        1 <= slots,
    ensures
        ledger_wf(r@, 1, slots as nat),
        forall|q: int, s: int| #[trigger] covers(r@, q, s) <==> (q == 0 && 0 <= s < slots),
{
    let mut r: Vec<FreeSpace> = Vec::new();
    r.push(FreeSpace { page: 0, begin: 0, end: slots });
    assert forall|q: int, s: int| #[trigger] covers(r@, q, s) <==> (q == 0 && 0 <= s < slots) by {
        if q == 0 && 0 <= s < slots {
            assert(r@[0].page == q);
        }
    }
    r
}

} // verus!
