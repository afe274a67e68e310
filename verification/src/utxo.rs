//! The UTXO set: a mapping from outpoint to coin, kept as a vector sorted
//! by the canonical outpoint order so that the canonical serialization of
//! structurally equal sets is bytewise identical.

use vstd::prelude::*;
use crate::types::{
    Coin, CoinV, OutPoint, OutPointV, outpoint_lt, outpoint_cmp, lemma_outpoint_lt_trans,
    lemma_outpoint_lt_asym, MAX_MONEY,
};
use crate::bytes::{
    le_bytes, le_to_int, ser_compact_size, parse_compact_size, read_compact_size,
    write_compact_size, push_le_bytes, push_slice, read_u32_le,
};

verus! {

/// The mapping a sequence of entries denotes; earlier entries win, though
/// well-formed sets never repeat a key.
pub open spec fn entries_map(s: Seq<(OutPointV, CoinV)>) -> Map<OutPointV, CoinV>
    decreases s.len(),
{
    if s.len() == 0 {
        Map::empty()
    } else {
        entries_map(s.drop_first()).insert(s[0].0, s[0].1)
    }
}

/// Well-formedness of an entry sequence: strictly sorted keys (hence
/// unique), 32-byte hashes, and amounts within range.
pub open spec fn entries_wf(s: Seq<(OutPointV, CoinV)>) -> bool {
    &&& forall|i: int, j: int|
        0 <= i < j < s.len() ==> outpoint_lt(#[trigger] s[i].0, #[trigger] s[j].0)
    &&& forall|i: int| 0 <= i < s.len() ==> (#[trigger] s[i].0).hash.len() == 32
    &&& forall|i: int| 0 <= i < s.len() ==> (#[trigger] s[i].1).value <= MAX_MONEY
}

/// A key is in the map exactly when some entry carries it.
pub proof fn lemma_entries_map_contains(s: Seq<(OutPointV, CoinV)>, k: OutPointV)
    ensures
        entries_map(s).contains_key(k) <==> exists|i: int| 0 <= i < s.len() && s[i].0 == k,
    decreases s.len(),
{
    if s.len() > 0 {
        lemma_entries_map_contains(s.drop_first(), k);
        if s[0].0 == k {
            assert(s[0].0 == k && 0 <= 0 < s.len());
        } else {
            if exists|i: int| 0 <= i < s.drop_first().len() && s.drop_first()[i].0 == k {
                let i = choose|i: int| 0 <= i < s.drop_first().len() && s.drop_first()[i].0 == k;
                assert(s[i + 1].0 == k);
            }
            if exists|i: int| 0 <= i < s.len() && s[i].0 == k {
                let i = choose|i: int| 0 <= i < s.len() && s[i].0 == k;
                assert(s.drop_first()[i - 1].0 == k);
            }
        }
    }
}

/// With unique keys, the entry that carries a key gives its value.
pub proof fn lemma_entries_map_value(s: Seq<(OutPointV, CoinV)>, i: int)
    requires
        forall|m: int, n: int| 0 <= m < n < s.len() ==> (#[trigger] s[m]).0 != (#[trigger] s[n]).0,
        0 <= i < s.len(),
    ensures
        entries_map(s).contains_key(s[i].0),
        entries_map(s)[s[i].0] == s[i].1,
    decreases s.len(),
{
    lemma_entries_map_contains(s, s[i].0);
    if i == 0 {
    } else {
        let t = s.drop_first();
        assert(t[i - 1] == s[i]);
        assert(forall|m: int, n: int|
            0 <= m < n < t.len() ==> (#[trigger] t[m]).0 != (#[trigger] t[n]).0) by {
            assert(forall|m: int| 0 <= m < t.len() ==> t[m] == s[m + 1]);
        }
        lemma_entries_map_value(t, i - 1);
        assert(s[0].0 != s[i].0);
    }
}

/// Strict sortedness makes keys unique.
pub proof fn lemma_sorted_unique(s: Seq<(OutPointV, CoinV)>)
    requires
        forall|i: int, j: int|
            0 <= i < j < s.len() ==> outpoint_lt(#[trigger] s[i].0, #[trigger] s[j].0),
    ensures
        forall|m: int, n: int| 0 <= m < n < s.len() ==> (#[trigger] s[m]).0 != (#[trigger] s[n]).0,
{
    assert forall|m: int, n: int| 0 <= m < n < s.len() implies (#[trigger] s[m]).0 != (
    #[trigger] s[n]).0 by {
        lemma_outpoint_lt_asym(s[m].0, s[n].0);
    }
}

/// The UTXO set.
pub struct UtxoSet {
    entries: Vec<(OutPoint, Coin)>,
}

impl View for UtxoSet {
    type V = Map<OutPointV, CoinV>;

    closed spec fn view(&self) -> Map<OutPointV, CoinV> {
        entries_map(self.seq_view())
    }
}

impl UtxoSet {
    /// The abstraction of a concrete entry list.
    pub open spec fn seq_of(entries: Seq<(OutPoint, Coin)>) -> Seq<(OutPointV, CoinV)> {
        entries.map_values(|p: (OutPoint, Coin)| (p.0@, p.1@))
    }

    /// The entry sequence, in canonical order.
    pub closed spec fn seq_view(&self) -> Seq<(OutPointV, CoinV)> {
        Self::seq_of(self.entries@)
    }

    /// Well-formedness: entries strictly sorted by outpoint, in range.
    pub open spec fn wf(&self) -> bool {
        entries_wf(self.seq_view())
    }

    /// An empty set.
    pub fn new() -> (r: UtxoSet)
        ensures
            r.wf(),
            r@ == Map::<OutPointV, CoinV>::empty(),
            r.seq_view() == Seq::<(OutPointV, CoinV)>::empty(),
    {
        let r = UtxoSet { entries: Vec::new() };
        proof {
            assert(r.seq_view() =~= Seq::<(OutPointV, CoinV)>::empty());
        }
        r
    }

    /// The number of entries.
    pub fn len(&self) -> (r: usize)
        ensures
            r == self.seq_view().len(),
    {
        self.entries.len()
    }

    /// Locates an outpoint among the sorted entries by bisection:
    /// either its index, or the position where it would stand, with
    /// every earlier key below it and every later key above.
    fn find_position(&self, op: &OutPoint) -> (r: (usize, bool))
        requires
            self.wf(),
        ensures
            r.1 ==> r.0 < self.seq_view().len() && self.seq_view()[r.0 as int].0 == op@,
            !r.1 ==> ({
                &&& r.0 <= self.seq_view().len()
                &&& forall|j: int|
                    0 <= j < r.0 ==> outpoint_lt((#[trigger] self.seq_view()[j]).0, op@)
                &&& forall|j: int|
                    r.0 <= j < self.seq_view().len() ==> outpoint_lt(
                        op@,
                        (#[trigger] self.seq_view()[j]).0,
                    )
            }),
    {
        let ghost s = self.seq_view();
        let mut lo: usize = 0;
        let mut hi: usize = self.entries.len();
        while lo < hi
            invariant
                self.wf(),
                s == self.seq_view(),
                lo <= hi <= s.len(),
                s.len() == self.entries@.len(),
                forall|j: int| 0 <= j < lo ==> outpoint_lt((#[trigger] s[j]).0, op@),
                forall|j: int| hi <= j < s.len() ==> outpoint_lt(op@, (#[trigger] s[j]).0),
            decreases hi - lo,
        {
            let mid = lo + (hi - lo) / 2;
            let e = &self.entries[mid];
            let c = outpoint_cmp(&e.0, op);
            proof {
                assert(s[mid as int].0 == e.0@);
            }
            if c == 0 {
                return (mid, true);
            }
            if c == -1 {
                proof {
                    assert forall|j: int| 0 <= j < mid + 1 implies outpoint_lt(
                        (#[trigger] s[j]).0,
                        op@,
                    ) by {
                        if lo <= j < mid {
                            lemma_outpoint_lt_trans(s[j].0, s[mid as int].0, op@);
                        }
                    }
                }
                lo = mid + 1;
            } else {
                proof {
                    assert(outpoint_lt(op@, s[mid as int].0));
                    assert forall|j: int| mid <= j < s.len() implies outpoint_lt(
                        op@,
                        (#[trigger] s[j]).0,
                    ) by {
                        if j > mid {
                            lemma_outpoint_lt_trans(op@, s[mid as int].0, s[j].0);
                        }
                    }
                }
                hi = mid;
            }
        }
        (lo, false)
    }

    /// Looks a coin up by outpoint.
    pub fn get(&self, op: &OutPoint) -> (r: Option<&Coin>)
        requires
            self.wf(),
        ensures
            match r {
                Some(c) => self@.contains_key(op@) && self@[op@] == c@,
                None => !self@.contains_key(op@),
            },
    {
        let ghost s = self.seq_view();
        let (pos, found) = self.find_position(op);
        if found {
            proof {
                lemma_sorted_unique(s);
                lemma_entries_map_value(s, pos as int);
            }
            Some(&self.entries[pos].1)
        } else {
            proof {
                assert forall|j: int| 0 <= j < s.len() implies (#[trigger] s[j]).0 != op@ by {
                    if j < pos {
                        lemma_outpoint_lt_asym(s[j].0, op@);
                    } else {
                        lemma_outpoint_lt_asym(op@, s[j].0);
                    }
                }
                lemma_entries_map_contains(s, op@);
            }
            None
        }
    }

    /// Inserts a coin. Returns `false`, changing nothing, when the
    /// outpoint is already present: a duplicate is a consensus failure.
    pub fn insert(&mut self, op: OutPoint, coin: Coin) -> (r: bool)
        requires
            old(self).wf(),
            coin@.value <= MAX_MONEY,
        ensures
            final(self).wf(),
            r ==> !old(self)@.contains_key(op@) && final(self)@ == old(self)@.insert(op@, coin@),
            !r ==> old(self)@.contains_key(op@) && final(self)@ == old(self)@
                && final(self).seq_view() == old(self).seq_view(),
    {
        let ghost s = self.seq_view();
        let (i, found) = self.find_position(&op);
        if found {
            proof {
                lemma_sorted_unique(s);
                lemma_entries_map_value(s, i as int);
            }
            return false;
        }
        proof {
            assert forall|j: int| 0 <= j < s.len() implies (#[trigger] s[j]).0 != op@ by {
                if j < i {
                    lemma_outpoint_lt_asym(s[j].0, op@);
                } else {
                    lemma_outpoint_lt_asym(op@, s[j].0);
                }
            }
            lemma_entries_map_contains(s, op@);
        }
        let ghost opv = op@;
        let ghost coinv = coin@;
        self.entries.insert(i, (op, coin));
        proof {
            let t = self.seq_view();
            assert(t =~= s.insert(i as int, (opv, coinv)));
            assert(t.len() == s.len() + 1);
            assert(forall|j: int| 0 <= j < i ==> t[j] == s[j]);
            assert(t[i as int] == (opv, coinv));
            assert(forall|j: int| i < j < t.len() ==> t[j] == s[j - 1]);
            assert forall|m: int, n: int| 0 <= m < n < t.len() implies outpoint_lt(
                (#[trigger] t[m]).0,
                (#[trigger] t[n]).0,
            ) by {
                if m < i && n > i {
                    assert(t[m].0 == s[m].0 && t[n].0 == s[n - 1].0);
                } else if m == i && n > i {
                    assert(t[n].0 == s[n - 1].0);
                } else if m > i {
                    assert(t[m].0 == s[m - 1].0 && t[n].0 == s[n - 1].0);
                }
            }
            assert forall|j: int| 0 <= j < t.len() implies (#[trigger] t[j]).0.hash.len() == 32
                && (#[trigger] t[j]).1.value <= MAX_MONEY by {
                if j < i {
                    assert(t[j] == s[j]);
                } else if j > i {
                    assert(t[j] == s[j - 1]);
                } else {
                    assert(t[j] == (opv, coinv));
                    assert(opv.hash.len() == 32);
                }
            }
            assert(entries_wf(t));
            lemma_sorted_unique(t);
            lemma_sorted_unique(s);
            lemma_insert_map(s, t, i as int, opv, coinv);
        }
        true
    }

    /// Removes a coin, returning it for the undo log.
    pub fn remove(&mut self, op: &OutPoint) -> (r: Option<Coin>)
        requires
            old(self).wf(),
        ensures
            final(self).wf(),
            match r {
                Some(c) => old(self)@.contains_key(op@) && c@ == old(self)@[op@] && final(self)@
                    == old(self)@.remove(op@),
                None => !old(self)@.contains_key(op@) && final(self)@ == old(self)@
                    && final(self).seq_view() == old(self).seq_view(),
            },
    {
        let ghost s = self.seq_view();
        let (i, found) = self.find_position(op);
        if !found {
            proof {
                assert forall|j: int| 0 <= j < s.len() implies (#[trigger] s[j]).0 != op@ by {
                    if j < i {
                        lemma_outpoint_lt_asym(s[j].0, op@);
                    } else {
                        lemma_outpoint_lt_asym(op@, s[j].0);
                    }
                }
                lemma_entries_map_contains(s, op@);
            }
            return None;
        }
        proof {
            lemma_sorted_unique(s);
            lemma_entries_map_value(s, i as int);
        }
        let removed = self.entries.remove(i);
        let ghost opv = op@;
        proof {
            let t = self.seq_view();
            assert(t =~= s.remove(i as int));
            assert(forall|j: int| 0 <= j < i ==> t[j] == s[j]);
            assert(forall|j: int| i <= j < t.len() ==> t[j] == s[j + 1]);
            assert(entries_wf(t));
            lemma_sorted_unique(t);
            lemma_remove_map(s, t, i as int, opv);
        }
        Some(removed.1)
    }

    /// An independent copy with the same contents, safe to hand to
    /// another worker.
    pub fn snapshot(&self) -> (r: UtxoSet)
        ensures
            r.seq_view() == self.seq_view(),
            r@ == self@,
            self.wf() ==> r.wf(),
    {
        let mut entries: Vec<(OutPoint, Coin)> = Vec::new();
        proof {
            assert(Self::seq_of(entries@) =~= self.seq_view().subrange(0, 0));
        }
        let mut i: usize = 0;
        while i < self.entries.len()
            invariant
                i <= self.entries@.len(),
                Self::seq_of(entries@) == self.seq_view().subrange(0, i as int),
            decreases self.entries@.len() - i,
        {
            let e = &self.entries[i];
            let pair = (e.0.dup(), e.1.dup());
            let ghost pairv = (pair.0@, pair.1@);
            let ghost before = entries@;
            entries.push(pair);
            proof {
                assert(entries@.len() == before.len() + 1);
                assert(Self::seq_of(before).len() == i as int);
                assert(before.len() == i as int);
                assert(Self::seq_of(entries@).len() == entries@.len());
                assert(Self::seq_of(entries@).len() == i + 1);
                assert(pairv == self.seq_view()[i as int]);
                assert forall|j: int| 0 <= j < i + 1 implies Self::seq_of(entries@)[j]
                    == self.seq_view().subrange(0, i + 1)[j] by {
                    if j < i {
                        assert(entries@[j] == before[j]);
                        assert(Self::seq_of(before)[j] == self.seq_view().subrange(0, i as int)[j]);
                    } else {
                        assert(entries@[j] == pair);
                    }
                }
                assert(Self::seq_of(entries@) =~= self.seq_view().subrange(0, i + 1));
            }
            i = i + 1;
        }
        let r = UtxoSet { entries };
        proof {
            assert(r.seq_view() =~= self.seq_view());
        }
        r
    }
}

/// Inserting an entry at its sorted position inserts its key in the map.
proof fn lemma_insert_map(
    s: Seq<(OutPointV, CoinV)>,
    t: Seq<(OutPointV, CoinV)>,
    i: int,
    k: OutPointV,
    c: CoinV,
)
    requires
        0 <= i <= s.len(),
        t == s.insert(i, (k, c)),
        forall|m: int, n: int| 0 <= m < n < s.len() ==> (#[trigger] s[m]).0 != (#[trigger] s[n]).0,
        forall|m: int, n: int| 0 <= m < n < t.len() ==> (#[trigger] t[m]).0 != (#[trigger] t[n]).0,
        forall|j: int| 0 <= j < s.len() ==> (#[trigger] s[j]).0 != k,
    ensures
        entries_map(t) == entries_map(s).insert(k, c),
{
    let mt = entries_map(t);
    let ms = entries_map(s).insert(k, c);
    assert forall|key: OutPointV| mt.contains_key(key) implies ms.contains_key(key) by {
        lemma_entries_map_contains(t, key);
        let j = choose|j: int| 0 <= j < t.len() && t[j].0 == key;
        if j == i {
        } else {
            let j2: int = if j < i { j } else { j - 1 };
            assert(s[j2].0 == key);
            lemma_entries_map_contains(s, key);
        }
    }
    assert forall|key: OutPointV| ms.contains_key(key) implies mt.contains_key(key) by {
        if key == k {
            assert(t[i].0 == k);
            lemma_entries_map_contains(t, key);
        } else {
            lemma_entries_map_contains(s, key);
            let j = choose|j: int| 0 <= j < s.len() && s[j].0 == key;
            let j2: int = if j < i { j } else { j + 1 };
            assert(t[j2].0 == key);
            lemma_entries_map_contains(t, key);
        }
    }
    assert forall|key: OutPointV| mt.contains_key(key) implies mt[key] == ms[key] by {
        lemma_entries_map_contains(t, key);
        let j = choose|j: int| 0 <= j < t.len() && t[j].0 == key;
        lemma_entries_map_value(t, j);
        if j == i {
            assert(mt[key] == c);
        } else {
            let j2: int = if j < i { j } else { j - 1 };
            assert(s[j2].0 == key && s[j2].1 == t[j].1);
            lemma_entries_map_value(s, j2);
            assert(key != k);
        }
    }
    assert(mt =~= ms);
}

/// Removing an entry removes its key from the map.
proof fn lemma_remove_map(
    s: Seq<(OutPointV, CoinV)>,
    t: Seq<(OutPointV, CoinV)>,
    i: int,
    k: OutPointV,
)
    requires
        0 <= i < s.len(),
        s[i].0 == k,
        t == s.remove(i),
        forall|m: int, n: int| 0 <= m < n < s.len() ==> (#[trigger] s[m]).0 != (#[trigger] s[n]).0,
        forall|m: int, n: int| 0 <= m < n < t.len() ==> (#[trigger] t[m]).0 != (#[trigger] t[n]).0,
    ensures
        entries_map(t) == entries_map(s).remove(k),
{
    let mt = entries_map(t);
    let ms = entries_map(s).remove(k);
    assert forall|key: OutPointV| mt.contains_key(key) implies ms.contains_key(key) by {
        lemma_entries_map_contains(t, key);
        let j = choose|j: int| 0 <= j < t.len() && t[j].0 == key;
        let j2: int = if j < i { j } else { j + 1 };
        assert(s[j2].0 == key);
        lemma_entries_map_contains(s, key);
        assert(key != k);
    }
    assert forall|key: OutPointV| ms.contains_key(key) implies mt.contains_key(key) by {
        lemma_entries_map_contains(s, key);
        let j = choose|j: int| 0 <= j < s.len() && s[j].0 == key;
        assert(j != i);
        let j2: int = if j < i { j } else { j - 1 };
        assert(t[j2].0 == key);
        lemma_entries_map_contains(t, key);
    }
    assert forall|key: OutPointV| mt.contains_key(key) implies mt[key] == ms[key] by {
        lemma_entries_map_contains(t, key);
        let j = choose|j: int| 0 <= j < t.len() && t[j].0 == key;
        lemma_entries_map_value(t, j);
        let j2: int = if j < i { j } else { j + 1 };
        assert(s[j2].0 == key && s[j2].1 == t[j].1);
        lemma_entries_map_value(s, j2);
        assert(key != k);
    }
    assert(mt =~= ms);
}

/// The height-and-coinbase field of the canonical form: height doubled,
/// with the coinbase flag in the low bit.
pub open spec fn packed_height(c: CoinV) -> int {
    c.height * 2 + (if c.is_coinbase {
        1int
    } else {
        0int
    })
}

/// The canonical serialization of one entry: outpoint, value, script
/// length, script, packed height.
pub open spec fn ser_entry(k: OutPointV, c: CoinV) -> Seq<u8> {
    k.hash + le_bytes(k.index as int, 4) + ser_compact_size(c.value as int) + ser_compact_size(
        c.script_pubkey.len() as int,
    ) + c.script_pubkey + ser_compact_size(packed_height(c))
}

/// The canonical serialization of an entry sequence, in order.
pub open spec fn ser_entries(s: Seq<(OutPointV, CoinV)>) -> Seq<u8>
    decreases s.len(),
{
    if s.len() == 0 {
        Seq::empty()
    } else {
        ser_entry(s[0].0, s[0].1) + ser_entries(s.drop_first())
    }
}

pub proof fn lemma_ser_entries_push(s: Seq<(OutPointV, CoinV)>, e: (OutPointV, CoinV))
    ensures
        ser_entries(s.push(e)) == ser_entries(s) + ser_entry(e.0, e.1),
    decreases s.len(),
{
    if s.len() == 0 {
        assert(s.push(e)[0] == e);
        assert(s.push(e).drop_first() =~= s);
        assert(ser_entries(s) + ser_entry(e.0, e.1) =~= ser_entry(e.0, e.1));
        assert(ser_entries(s.push(e)) =~= ser_entry(e.0, e.1) + ser_entries(s));
        assert(ser_entries(s) =~= Seq::empty());
        assert(ser_entry(e.0, e.1) + Seq::empty() =~= ser_entry(e.0, e.1));
    } else {
        assert(s.push(e).drop_first() =~= s.drop_first().push(e));
        lemma_ser_entries_push(s.drop_first(), e);
        assert(s.push(e)[0] == s[0]);
        assert((ser_entry(s[0].0, s[0].1) + ser_entries(s.drop_first())) + ser_entry(e.0, e.1)
            =~= ser_entry(s[0].0, s[0].1) + (ser_entries(s.drop_first()) + ser_entry(e.0, e.1)));
    }
}

/// Parses one canonical entry at `pos`.
pub open spec fn parse_canon_entry(b: Seq<u8>, pos: int) -> Option<((OutPointV, CoinV), int)> {
    if pos < 0 || pos + 36 > b.len() {
        None
    } else {
        let hash = b.subrange(pos, pos + 32);
        let index = le_to_int(b.subrange(pos + 32, pos + 36));
        match parse_compact_size(b, pos + 36) {
            None => None,
            Some(pv) => {
                let p1 = pos + 36 + pv.1;
                match parse_compact_size(b, p1) {
                    None => None,
                    Some(pl) => {
                        let p2 = p1 + pl.1;
                        if p2 + pl.0 > b.len() {
                            None
                        } else {
                            let script = b.subrange(p2, p2 + pl.0);
                            match parse_compact_size(b, p2 + pl.0) {
                                None => None,
                                Some(ph) => {
                                    if pv.0 <= MAX_MONEY && ph.0 / 2 <= u32::MAX {
                                        Some(
                                            (
                                                (
                                                    OutPointV { hash, index: index as u32 },
                                                    CoinV {
                                                        value: pv.0 as u64,
                                                        script_pubkey: script,
                                                        height: (ph.0 / 2) as u32,
                                                        is_coinbase: ph.0 % 2 == 1,
                                                    },
                                                ),
                                                p2 + pl.0 + ph.1,
                                            ),
                                        )
                                    } else {
                                        None
                                    }
                                },
                            }
                        }
                    },
                }
            },
        }
    }
}

/// A successful entry parse moves forward and stays within the buffer.
pub proof fn lemma_parse_canon_entry_advances(b: Seq<u8>, pos: int)
    requires
        parse_canon_entry(b, pos) is Some,
    ensures
        ({
            let p = parse_canon_entry(b, pos);
            p matches Some(q) ==> pos + 36 < q.1 <= b.len()
        }),
{
    let pv = parse_compact_size(b, pos + 36);
    crate::bytes::lemma_parse_compact_size_bounds(b, pos + 36);
    let p1 = pos + 36 + pv.unwrap().1;
    crate::bytes::lemma_parse_compact_size_bounds(b, p1);
    let pl = parse_compact_size(b, p1);
    let p2 = p1 + pl.unwrap().1;
    crate::bytes::lemma_parse_compact_size_bounds(b, p2 + pl.unwrap().0);
}

/// Parses canonical entries from `pos` to the end of the buffer.
pub open spec fn parse_canon_entries(b: Seq<u8>, pos: int) -> Option<Seq<(OutPointV, CoinV)>>
    decreases b.len() - pos,
    when 0 <= pos <= b.len()
    via parse_canon_entries_dec
{
    if pos == b.len() {
        Some(Seq::empty())
    } else {
        match parse_canon_entry(b, pos) {
            None => None,
            Some(q) => match parse_canon_entries(b, q.1) {
                None => None,
                Some(rest) => Some(seq![q.0] + rest),
            },
        }
    }
}

#[via_fn]
proof fn parse_canon_entries_dec(b: Seq<u8>, pos: int) {
    if pos != b.len() && parse_canon_entry(b, pos) is Some {
        lemma_parse_canon_entry_advances(b, pos);
    }
}

/// A successful entry parse yields a 32-byte hash and an amount in range.
pub proof fn lemma_parse_canon_entry_wf(b: Seq<u8>, pos: int)
    requires
        parse_canon_entry(b, pos) is Some,
    ensures
        ({
            let q = parse_canon_entry(b, pos)->Some_0;
            q.0.0.hash.len() == 32 && q.0.1.value <= MAX_MONEY
        }),
{
}

impl UtxoSet {
    /// The view is the mapping its entry sequence denotes.
    pub proof fn lemma_view_is_entries_map(&self)
        ensures
            self@ == entries_map(self.seq_view()),
    {
    }

    /// The canonical serialization: entries in outpoint order, each as
    /// outpoint, value, script and packed height.
    pub fn serialize_canonical(&self) -> (r: Vec<u8>)
        ensures
            r@ == ser_entries(self.seq_view()),
    {
        let mut out: Vec<u8> = Vec::new();
        proof {
            assert(ser_entries(self.seq_view().subrange(0, 0)) =~= Seq::<u8>::empty());
            assert(out@ =~= ser_entries(self.seq_view().subrange(0, 0)));
        }
        let mut i: usize = 0;
        while i < self.entries.len()
            invariant
                i <= self.entries@.len(),
                out@ == ser_entries(self.seq_view().subrange(0, i as int)),
            decreases self.entries@.len() - i,
        {
            let e = &self.entries[i];
            let ghost pre = out@;
            push_slice(&mut out, e.0.hash.as_slice());
            push_le_bytes(&mut out, e.0.index as u64, 4);
            write_compact_size(&mut out, e.1.value);
            write_compact_size(&mut out, e.1.script_pubkey.len() as u64);
            push_slice(&mut out, e.1.script_pubkey.as_slice());
            let packed: u64 = (e.1.height as u64) * 2 + (if e.1.is_coinbase {
                1
            } else {
                0
            });
            write_compact_size(&mut out, packed);
            proof {
                let k = self.seq_view()[i as int].0;
                let c = self.seq_view()[i as int].1;
                assert(k == e.0@ && c == e.1@);
                assert(packed as int == packed_height(c));
                assert(out@ =~= pre + ser_entry(k, c));
                assert(self.seq_view().subrange(0, i + 1) =~= self.seq_view().subrange(
                    0,
                    i as int,
                ).push((k, c)));
                lemma_ser_entries_push(self.seq_view().subrange(0, i as int), (k, c));
            }
            i = i + 1;
        }
        proof {
            assert(self.seq_view().subrange(0, self.seq_view().len() as int) =~= self.seq_view());
        }
        out
    }

    /// Rebuilds a set from its canonical serialization. Succeeds exactly
    /// when the bytes parse and the entries come sorted and in range.
    pub fn deserialize_canonical(data: &Vec<u8>) -> (r: Option<UtxoSet>)
        ensures
            match r {
                Some(u) => {
                    &&& parse_canon_entries(data@, 0) == Some(u.seq_view())
                    &&& u.wf()
                    &&& u@ == entries_map(u.seq_view())
                },
                None => parse_canon_entries(data@, 0) is None || !entries_wf(
                    parse_canon_entries(data@, 0)->Some_0,
                ),
            },
    {
        let n = data.len();
        let mut entries: Vec<(OutPoint, Coin)> = Vec::new();
        let mut pos: usize = 0;
        proof {
            assert(Self::seq_of(entries@) =~= Seq::<(OutPointV, CoinV)>::empty());
        }
        while pos < n
            invariant
                pos <= n,
                n == data@.len(),
                entries_wf(Self::seq_of(entries@)),
                entries@.len() == Self::seq_of(entries@).len(),
                match parse_canon_entries(data@, pos as int) {
                    Some(rest) => parse_canon_entries(data@, 0) == Some(
                        Self::seq_of(entries@) + rest,
                    ),
                    None => parse_canon_entries(data@, 0) is None,
                },
            decreases n - pos,
        {
            let ghost acc = Self::seq_of(entries@);
            match read_canon_entry(data, pos) {
                None => {
                    return None;
                },
                Some(parsed) => {
                    let (op, coin) = parsed.0;
                    let np = parsed.1;
                    let ghost q = parse_canon_entry(data@, pos as int)->Some_0;
                    proof {
                        lemma_parse_canon_entry_advances(data@, pos as int);
                    }
                    if entries.len() > 0 {
                        let c = outpoint_cmp(&entries[entries.len() - 1].0, &op);
                        if c != -1 {
                            proof {
                                let lastv = acc[acc.len() - 1].0;
                                assert(!outpoint_lt(lastv, op@)) by {
                                    if c == 0 {
                                        crate::types::lemma_bytes_lt_irrefl(lastv.hash);
                                    } else {
                                        lemma_outpoint_lt_asym(op@, lastv);
                                    }
                                }
                                match parse_canon_entries(data@, np as int) {
                                    None => {},
                                    Some(rest2) => {
                                        let full = acc + (seq![q.0] + rest2);
                                        assert(parse_canon_entries(data@, 0) == Some(full));
                                        assert(full[acc.len() - 1] == acc[acc.len() - 1]);
                                        assert(full[acc.len() as int] == q.0);
                                        assert(q.0.0 == op@);
                                        assert(!outpoint_lt(
                                            full[acc.len() - 1].0,
                                            full[acc.len() as int].0,
                                        ));
                                    },
                                }
                            }
                            return None;
                        }
                    }
                    proof {
                        let t = acc.push((op@, coin@));
                        lemma_parse_canon_entry_wf(data@, pos as int);
                        assert forall|m: int, x: int| 0 <= m < x < t.len() implies outpoint_lt(
                            (#[trigger] t[m]).0,
                            (#[trigger] t[x]).0,
                        ) by {
                            if x < t.len() - 1 {
                                assert(t[m] == acc[m] && t[x] == acc[x]);
                            } else {
                                assert(acc.len() > 0);
                                assert(t[x] == (op@, coin@));
                                assert(t[m] == acc[m]);
                                if m < acc.len() - 1 {
                                    lemma_outpoint_lt_trans(
                                        acc[m].0,
                                        acc[acc.len() - 1].0,
                                        op@,
                                    );
                                }
                            }
                        }
                        assert(entries_wf(t));
                    }
                    entries.push((op, coin));
                    proof {
                        assert(Self::seq_of(entries@) =~= acc.push((op@, coin@)));
                        match parse_canon_entries(data@, np as int) {
                            None => {},
                            Some(rest2) => {
                                assert(parse_canon_entries(data@, pos as int) == Some(
                                    seq![q.0] + rest2,
                                ));
                                assert(acc + (seq![q.0] + rest2) =~= Self::seq_of(entries@)
                                    + rest2);
                            },
                        }
                    }
                    pos = np;
                },
            }
        }
        let u = UtxoSet { entries };
        proof {
            assert(parse_canon_entries(data@, pos as int) == Some(
                Seq::<(OutPointV, CoinV)>::empty(),
            ));
            assert(Self::seq_of(entries@) + Seq::<(OutPointV, CoinV)>::empty() =~= u.seq_view());
        }
        Some(u)
    }
}

/// Reads one canonical entry; agrees exactly with the parse function.
pub fn read_canon_entry(data: &Vec<u8>, pos: usize) -> (r: Option<((OutPoint, Coin), usize)>)
    ensures
        match r {
            Some(q) => parse_canon_entry(data@, pos as int) matches Some(sq) && sq.0.0 == q.0.0@
                && sq.0.1 == q.0.1@ && sq.1 == q.1 as int,
            None => parse_canon_entry(data@, pos as int) is None,
        },
{
    let n = data.len();
    if pos > n || n - pos < 36 {
        return None;
    }
    let mut hash = [0u8; 32];
    let mut j: usize = 0;
    while j < 32
        invariant
            j <= 32,
            n == data@.len(),
            pos + 36 <= n,
            forall|m: int| 0 <= m < j ==> hash@[m] == data@[pos + m],
        decreases 32 - j,
    {
        hash[j] = data[pos + j];
        j = j + 1;
    }
    proof {
        assert(hash@ =~= data@.subrange(pos as int, pos + 32));
    }
    let index = read_u32_le(data, pos + 32);
    proof {
        crate::bytes::lemma_le_to_int_bound(data@.subrange(pos + 32, pos + 36));
        crate::bytes::lemma_pow256_values();
    }
    let (value, n1) = match read_compact_size(data, pos + 36) {
        None => {
            return None;
        },
        Some(p) => p,
    };
    proof {
        crate::bytes::lemma_parse_compact_size_bounds(data@, pos + 36);
    }
    let p1 = pos + 36 + n1;
    let (slen, n2) = match read_compact_size(data, p1) {
        None => {
            return None;
        },
        Some(p) => p,
    };
    proof {
        crate::bytes::lemma_parse_compact_size_bounds(data@, p1 as int);
    }
    let p2 = p1 + n2;
    if slen > (n - p2) as u64 {
        return None;
    }
    let slen_us = slen as usize;
    let script = crate::bytes::subvec(data, p2, p2 + slen_us);
    let (packed, n3) = match read_compact_size(data, p2 + slen_us) {
        None => {
            return None;
        },
        Some(p) => p,
    };
    proof {
        crate::bytes::lemma_parse_compact_size_bounds(data@, p2 + slen_us);
    }
    if !(value <= MAX_MONEY && packed / 2 <= 0xffff_ffff) {
        return None;
    }
    let op = OutPoint { hash, index };
    let coin = Coin {
        value,
        script_pubkey: script,
        height: (packed / 2) as u32,
        is_coinbase: packed % 2 == 1,
    };
    Some(((op, coin), p2 + slen_us + n3))
}

/// The length of a compact-size encoding.
pub proof fn lemma_ser_cs_len(v: int)
    requires
        0 <= v,
    ensures
        ser_compact_size(v).len() == (if v < 0xfd {
            1int
        } else if v <= 0xffff {
            3int
        } else if v <= 0xffff_ffff {
            5int
        } else {
            9int
        }),
{
    crate::bytes::lemma_le_bytes_len(v, 2);
    crate::bytes::lemma_le_bytes_len(v, 4);
    crate::bytes::lemma_le_bytes_len(v, 8);
}

/// Splits a buffer equality at a component boundary.
pub proof fn lemma_concat_extract(b: Seq<u8>, pos: int, x: Seq<u8>, y: Seq<u8>)
    requires
        0 <= pos,
        pos + x.len() + y.len() <= b.len(),
        b.subrange(pos, pos + x.len() + y.len()) == x + y,
    ensures
        b.subrange(pos, pos + x.len() as int) == x,
        b.subrange(pos + x.len() as int, pos + x.len() + y.len()) == y,
{
    assert forall|i: int| 0 <= i < x.len() implies b.subrange(pos, pos + x.len() as int)[i]
        == x[i] by {
        assert(b.subrange(pos, pos + x.len() + y.len())[i] == (x + y)[i]);
    }
    assert(b.subrange(pos, pos + x.len() as int) =~= x);
    assert forall|i: int| 0 <= i < y.len() implies b.subrange(
        pos + x.len() as int,
        pos + x.len() + y.len(),
    )[i] == y[i] by {
        assert(b.subrange(pos + x.len() as int, pos + x.len() + y.len())[i] == b[pos + x.len()
            + i]);
        assert(b.subrange(pos, pos + x.len() + y.len())[x.len() + i] == b[pos + x.len() + i]);
        assert(b.subrange(pos, pos + x.len() + y.len())[x.len() + i] == (x + y)[x.len() + i]);
        assert((x + y)[x.len() + i] == y[i]);
    }
    assert(b.subrange(pos + x.len() as int, pos + x.len() + y.len()) =~= y);
}

/// A serialized entry embedded in a buffer parses back to itself.
pub proof fn lemma_ser_entry_round_trip(b: Seq<u8>, pos: int, e: (OutPointV, CoinV))
    requires
        e.0.hash.len() == 32,
        e.1.value <= MAX_MONEY,
        e.1.script_pubkey.len() < 0x1_0000_0000_0000_0000,
        0 <= pos,
        pos + ser_entry(e.0, e.1).len() <= b.len(),
        b.subrange(pos, pos + ser_entry(e.0, e.1).len()) == ser_entry(e.0, e.1),
    ensures
        parse_canon_entry(b, pos) == Some((e, pos + ser_entry(e.0, e.1).len())),
{
    let k = e.0;
    let c = e.1;
    let s = ser_entry(k, c);
    let script = c.script_pubkey;
    let slen = script.len() as int;
    let packed = packed_height(c);
    crate::bytes::lemma_pow256_values();
    crate::bytes::lemma_le_bytes_len(k.index as int, 4);
    lemma_ser_cs_len(c.value as int);
    lemma_ser_cs_len(slen);
    lemma_ser_cs_len(packed);
    let a1 = k.hash;
    let a2 = le_bytes(k.index as int, 4);
    let a3 = ser_compact_size(c.value as int);
    let a4 = ser_compact_size(slen);
    let a6 = ser_compact_size(packed);
    let l3 = a3.len() as int;
    let l4 = a4.len() as int;
    let l6 = a6.len() as int;
    let r4 = a4 + (script + a6);
    let r3 = a3 + r4;
    let r2 = a2 + r3;
    let r1 = a1 + r2;
    assert(s =~= r1);
    assert(s.len() == 36 + l3 + l4 + slen + l6);
    let o2 = pos + 36;
    let o3 = o2 + l3;
    let o4 = o3 + l4;
    let o5 = o4 + slen;
    let send = o5 + l6;
    lemma_concat_extract(b, pos, a1, r2);
    lemma_concat_extract(b, pos + 32, a2, r3);
    lemma_concat_extract(b, o2, a3, r4);
    lemma_concat_extract(b, o3, a4, script + a6);
    lemma_concat_extract(b, o4, script, a6);
    // the hash
    assert(b.subrange(pos, pos + 32) == a1);
    // the index
    crate::bytes::lemma_le_round_trip(k.index as int, 4);
    assert(le_to_int(b.subrange(pos + 32, pos + 36)) == k.index as int);
    // the value
    crate::bytes::lemma_compact_size_round_trip(b, o2, c.value as int);
    // the script length
    crate::bytes::lemma_compact_size_round_trip(b, o3, slen);
    // the script
    assert(b.subrange(o4, o4 + slen) == script);
    // the packed height
    crate::bytes::lemma_compact_size_round_trip(b, o5, packed);
    // reassemble
    assert(packed / 2 == c.height) by {
        assert(packed == c.height * 2 + (if c.is_coinbase {
            1int
        } else {
            0int
        }));
    }
    assert(packed % 2 == 1 <==> c.is_coinbase);
    let q = parse_canon_entry(b, pos)->Some_0;
    assert(parse_canon_entry(b, pos) is Some);
    assert(q.0.0 =~= k);
    assert(q.0.1 =~= c);
    assert(q.1 == send);
    assert(q.0 == e);
}

/// A serialized entry run that fills the rest of the buffer parses back
/// to the entries it was written from.
pub proof fn lemma_ser_entries_round_trip(b: Seq<u8>, pos: int, s: Seq<(OutPointV, CoinV)>)
    requires
        0 <= pos <= b.len(),
        b.subrange(pos, b.len() as int) == ser_entries(s),
        forall|i: int|
            0 <= i < s.len() ==> (#[trigger] s[i]).0.hash.len() == 32 && s[i].1.value <= MAX_MONEY
                && s[i].1.script_pubkey.len() < 0x1_0000_0000_0000_0000,
    ensures
        parse_canon_entries(b, pos) == Some(s),
    decreases s.len(),
{
    if s.len() == 0 {
        assert(b.subrange(pos, b.len() as int).len() == 0);
        assert(pos == b.len());
    } else {
        let e = s[0];
        let el = ser_entry(e.0, e.1).len() as int;
        assert(ser_entries(s) == ser_entry(e.0, e.1) + ser_entries(s.drop_first()));
        assert(pos + el + ser_entries(s.drop_first()).len() == b.len());
        lemma_concat_extract(b, pos, ser_entry(e.0, e.1), ser_entries(s.drop_first()));
        lemma_ser_entry_round_trip(b, pos, e);
        let np = pos + el;
        assert(b.subrange(np, b.len() as int) == ser_entries(s.drop_first()));
        assert(forall|i: int|
            0 <= i < s.drop_first().len() ==> (#[trigger] s.drop_first()[i]) == s[i + 1]);
        lemma_ser_entries_round_trip(b, np, s.drop_first());
        assert(pos < b.len());
        assert(seq![e] + s.drop_first() =~= s);
    }
}

/// Re-deserializing a canonically serialized UTXO set yields the same
/// entry sequence, and so the same set.
pub proof fn lemma_canonical_round_trip(u: UtxoSet)
    requires
        u.wf(),
        forall|i: int|
            0 <= i < u.seq_view().len() ==> (#[trigger] u.seq_view()[i]).1.script_pubkey.len()
                < 0x1_0000_0000_0000_0000,
    ensures
        parse_canon_entries(ser_entries(u.seq_view()), 0) == Some(u.seq_view()),
{
    let b = ser_entries(u.seq_view());
    assert(b.subrange(0, b.len() as int) =~= b);
    lemma_ser_entries_round_trip(b, 0, u.seq_view());
}

/// Two sorted entry sequences denoting the same mapping are identical;
/// hence canonical serialization depends only on the set's contents.
pub proof fn lemma_sorted_entries_determined(s: Seq<(OutPointV, CoinV)>, t: Seq<(OutPointV, CoinV)>)
    requires
        entries_wf(s),
        entries_wf(t),
        entries_map(s) == entries_map(t),
    ensures
        s == t,
    decreases s.len(),
{
    lemma_sorted_unique(s);
    lemma_sorted_unique(t);
    if s.len() == 0 {
        if t.len() > 0 {
            lemma_entries_map_value(t, 0);
            lemma_entries_map_contains(s, t[0].0);
        }
        assert(s =~= t);
    } else if t.len() == 0 {
        lemma_entries_map_value(s, 0);
        lemma_entries_map_contains(t, s[0].0);
    } else {
        // the heads carry the minimum key of the shared mapping
        lemma_entries_map_value(s, 0);
        lemma_entries_map_value(t, 0);
        if s[0].0 != t[0].0 {
            lemma_entries_map_contains(t, s[0].0);
            let j = choose|j: int| 0 <= j < t.len() && t[j].0 == s[0].0;
            assert(j > 0);
            assert(outpoint_lt(t[0].0, s[0].0));
            lemma_entries_map_contains(s, t[0].0);
            let m = choose|m: int| 0 <= m < s.len() && s[m].0 == t[0].0;
            assert(m > 0);
            assert(outpoint_lt(s[0].0, t[0].0));
            lemma_outpoint_lt_asym(s[0].0, t[0].0);
        }
        assert(s[0].0 == t[0].0);
        assert(s[0].1 == t[0].1);
        let sr = s.drop_first();
        let tr = t.drop_first();
        assert(forall|i: int| 0 <= i < sr.len() ==> (#[trigger] sr[i]) == s[i + 1]);
        assert(forall|i: int| 0 <= i < tr.len() ==> (#[trigger] tr[i]) == t[i + 1]);
        assert(entries_wf(sr));
        assert(entries_wf(tr));
        lemma_head_removed(s);
        lemma_head_removed(t);
        assert(entries_map(sr) == entries_map(tr));
        lemma_sorted_entries_determined(sr, tr);
        assert forall|j: int| 0 <= j < s.len() implies s[j] == t[j] by {
            if j == 0 {
                assert(s[0] =~= t[0]);
            } else {
                assert(s[j] == sr[j - 1] && t[j] == tr[j - 1]);
            }
        }
        assert(s =~= t);
    }
}

/// With a head key absent from the tail, the tail's mapping is the whole
/// mapping with the head key removed.
proof fn lemma_head_removed(s: Seq<(OutPointV, CoinV)>)
    requires
        s.len() > 0,
        forall|m: int, n: int| 0 <= m < n < s.len() ==> (#[trigger] s[m]).0 != (#[trigger] s[n]).0,
    ensures
        entries_map(s.drop_first()) == entries_map(s).remove(s[0].0),
{
    let r = s.drop_first();
    assert(forall|i: int| 0 <= i < r.len() ==> (#[trigger] r[i]) == s[i + 1]);
    lemma_entries_map_contains(r, s[0].0);
    assert(!entries_map(r).contains_key(s[0].0));
    assert(entries_map(s) == entries_map(r).insert(s[0].0, s[0].1));
    assert(entries_map(s).remove(s[0].0) =~= entries_map(r));
}

/// Structurally equal well-formed sets serialize to identical bytes: the
/// checkpoint-comparison anchor.
pub proof fn lemma_canonical_deterministic(a: UtxoSet, b: UtxoSet)
    requires
        a.wf(),
        b.wf(),
        a@ == b@,
    ensures
        a.seq_view() == b.seq_view(),
        ser_entries(a.seq_view()) == ser_entries(b.seq_view()),
{
    lemma_sorted_entries_determined(a.seq_view(), b.seq_view());
}

/// In a sorted sequence with a position whose key is not below `k` and not
/// equal to it, `k` is below that key.
proof fn lemma_outpoint_lt_total(s: Seq<(OutPointV, CoinV)>, j: int, k: OutPointV)
    requires
        entries_wf(s),
        0 <= j < s.len(),
        !outpoint_lt(s[j].0, k),
        s[j].0 != k,
        k.hash.len() == 32,
    ensures
        outpoint_lt(k, s[j].0),
{
    crate::types::lemma_outpoint_lt_total(s[j].0, k);
}

} // verus!
