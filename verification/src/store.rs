//! An in-memory key-value store of columns: one table of entries, ordered by
//! column and then by key.
use vstd::prelude::*;
use crate::bytes::{
    bytes_eq, bytes_lt, lex_le, lex_lt, lemma_lex_asymmetric, lemma_lex_irreflexive, lemma_lex_transitive, lemma_lex_total,
    starts_with,
};
use crate::column::{column_id, lemma_column_id, Column, IterDirection, WriteOperation};
use crate::error::Error;

verus! {

/// A stored entry: its column, key and value.
pub type Entry = (Column, Vec<u8>, Vec<u8>);

/// Where an entry stands: its column and key.
pub open spec fn entry_pos(e: Entry) -> (Column, Seq<u8>) {
    (e.0, e.1@)
}

/// The order of positions: by column id, then by key.
pub open spec fn pos_lt(a: (Column, Seq<u8>), b: (Column, Seq<u8>)) -> bool {
    column_id(a.0) < column_id(b.0) || (a.0 == b.0 && lex_lt(a.1, b.1))
}

/// Entries in strictly increasing position order.
pub open spec fn sorted_entries(s: Seq<Entry>) -> bool {
    forall|i: int, j: int| 0 <= i < j < s.len() ==> #[trigger] pos_lt(entry_pos(s[i]), entry_pos(s[j]))
}

/// The contents that a sequence of entries stands for.
pub open spec fn entries_view(s: Seq<Entry>) -> Map<(Column, Seq<u8>), Seq<u8>> {
    Map::new(
        |p: (Column, Seq<u8>)| exists|i: int| 0 <= i < s.len() && entry_pos(s[i]) == p,
        |p: (Column, Seq<u8>)| s[choose|i: int| 0 <= i < s.len() && entry_pos(s[i]) == p].2@,
    )
}

pub proof fn lemma_pos_lt_irreflexive(a: (Column, Seq<u8>))
    ensures
        !pos_lt(a, a),
{
    lemma_lex_irreflexive(a.1);
}

pub proof fn lemma_pos_lt_transitive(a: (Column, Seq<u8>), b: (Column, Seq<u8>), c: (Column, Seq<u8>))
    requires
        pos_lt(a, b),
        pos_lt(b, c),
    ensures
        pos_lt(a, c),
{
    lemma_column_id(a.0, b.0);
    lemma_column_id(b.0, c.0);
    lemma_column_id(a.0, c.0);
    if a.0 == b.0 && b.0 == c.0 {
        lemma_lex_transitive(a.1, b.1, c.1);
    }
}

pub proof fn lemma_pos_lt_total(a: (Column, Seq<u8>), b: (Column, Seq<u8>))
    ensures
        a == b || pos_lt(a, b) || pos_lt(b, a),
{
    lemma_column_id(a.0, b.0);
    lemma_lex_total(a.1, b.1);
}

/// In sorted entries a position occurs at one index only.
pub proof fn lemma_sorted_unique(s: Seq<Entry>, i: int, j: int)
    requires
        sorted_entries(s),
        0 <= i < s.len(),
        0 <= j < s.len(),
        entry_pos(s[i]) == entry_pos(s[j]),
    ensures
        i == j,
{
    if i < j {
        assert(pos_lt(entry_pos(s[i]), entry_pos(s[j])));
        lemma_pos_lt_irreflexive(entry_pos(s[i]));
    } else if j < i {
        assert(pos_lt(entry_pos(s[j]), entry_pos(s[i])));
        lemma_pos_lt_irreflexive(entry_pos(s[i]));
    }
}

/// The contents hold each entry's value at its position.
pub proof fn lemma_view_at(s: Seq<Entry>, i: int)
    requires
        sorted_entries(s),
        0 <= i < s.len(),
    ensures
        entries_view(s).contains_key(entry_pos(s[i])),
        entries_view(s)[entry_pos(s[i])] == s[i].2@,
{
    let p = entry_pos(s[i]);
    assert(exists|k: int| 0 <= k < s.len() && entry_pos(s[k]) == p);
    let j = choose|k: int| 0 <= k < s.len() && entry_pos(s[k]) == p;
    lemma_sorted_unique(s, i, j);
}

/// Every position in the contents is that of some entry.
pub proof fn lemma_view_has(s: Seq<Entry>, p: (Column, Seq<u8>))
    requires
        entries_view(s).contains_key(p),
    ensures
        exists|i: int| 0 <= i < s.len() && entry_pos(s[i]) == p,
{
}

/// Splitting point of a sorted sequence at position `p`.
pub open spec fn is_split(s: Seq<Entry>, p: (Column, Seq<u8>), idx: int) -> bool {
    &&& 0 <= idx <= s.len()
    &&& forall|i: int| 0 <= i < idx ==> #[trigger] pos_lt(entry_pos(s[i]), p)
    &&& forall|i: int| idx <= i < s.len() ==> !#[trigger] pos_lt(entry_pos(s[i]), p)
}

/// At a split point, `p` is in the contents exactly when it is the entry there.
pub proof fn lemma_split_lookup(s: Seq<Entry>, p: (Column, Seq<u8>), idx: int)
    requires
        sorted_entries(s),
        is_split(s, p, idx),
    ensures
        entries_view(s).contains_key(p) <==> (idx < s.len() && entry_pos(s[idx]) == p),
        idx < s.len() && entry_pos(s[idx]) != p ==> pos_lt(p, entry_pos(s[idx])),
{
    if idx < s.len() {
        lemma_pos_lt_total(p, entry_pos(s[idx]));
    }
    if entries_view(s).contains_key(p) {
        let j = choose|k: int| 0 <= k < s.len() && entry_pos(s[k]) == p;
        if j < idx {
            assert(pos_lt(entry_pos(s[j]), p));
            lemma_pos_lt_irreflexive(p);
        } else if j > idx {
            assert(pos_lt(entry_pos(s[idx]), entry_pos(s[j])));
            lemma_pos_lt_total(p, entry_pos(s[idx]));
            if entry_pos(s[idx]) != p {
                lemma_pos_lt_transitive(p, entry_pos(s[idx]), p);
                lemma_pos_lt_irreflexive(p);
            }
        }
    }
    if idx < s.len() && entry_pos(s[idx]) == p {
        assert(0 <= idx < s.len() && entry_pos(s[idx]) == p);
    }
}

/// The bytes of an optional byte vector.
pub open spec fn opt_bytes(o: Option<Vec<u8>>) -> Option<Seq<u8>> {
    match o {
        Some(v) => Some(v@),
        None => None,
    }
}

/// The key and value bytes of a sequence of pairs.
pub open spec fn pairs_view(r: Seq<(Vec<u8>, Vec<u8>)>) -> Seq<(Seq<u8>, Seq<u8>)> {
    Seq::new(r.len(), |i: int| (r[i].0@, r[i].1@))
}

/// Whether an iteration with this prefix, start and direction walks key `k`:
/// `k` has the prefix, and lies at or after the start (forward) or at or
/// before it (reverse).
pub open spec fn selected(
    k: Seq<u8>,
    prefix: Option<Seq<u8>>,
    start: Option<Seq<u8>>,
    direction: IterDirection,
) -> bool {
    &&& match prefix {
        Some(p) => p.is_prefix_of(k),
        None => true,
    }
    &&& match start {
        Some(st) => match direction {
            IterDirection::Forward => lex_le(st, k),
            IterDirection::Reverse => lex_le(k, st),
        },
        None => true,
    }
}

/// Keys in the order of the direction: increasing forward, decreasing in reverse.
pub open spec fn in_direction(a: Seq<u8>, b: Seq<u8>, direction: IterDirection) -> bool {
    match direction {
        IterDirection::Forward => lex_lt(a, b),
        IterDirection::Reverse => lex_lt(b, a),
    }
}

/// `r` lists exactly the selected entries of column `c` of `m`, each once, in
/// the order of the direction.
pub open spec fn is_iteration(
    m: Map<(Column, Seq<u8>), Seq<u8>>,
    c: Column,
    prefix: Option<Seq<u8>>,
    start: Option<Seq<u8>>,
    direction: IterDirection,
    r: Seq<(Seq<u8>, Seq<u8>)>,
) -> bool {
    &&& forall|j: int|
        0 <= j < r.len() ==> {
            &&& m.contains_key((c, #[trigger] r[j].0))
            &&& m[(c, r[j].0)] == r[j].1
            &&& selected(r[j].0, prefix, start, direction)
        }
    &&& forall|k: Seq<u8>|
        m.contains_key((c, k)) && #[trigger] selected(k, prefix, start, direction) ==> exists|j: int|
            0 <= j < r.len() && r[j].0 == k
    &&& forall|i: int, j: int| 0 <= i < j < r.len() ==> #[trigger] in_direction(r[i].0, r[j].0, direction)
}

/// Some pair of `s` has key `k`.
pub open spec fn has_key(s: Seq<(Seq<u8>, Seq<u8>)>, k: Seq<u8>) -> bool {
    exists|j: int| 0 <= j < s.len() && s[j].0 == k
}

/// Two sequences of pairs, each strictly ordered by key in `direction`, with
/// the same keys and the same value for each key, are equal.
proof fn lemma_same_ordered_pairs(a: Seq<(Seq<u8>, Seq<u8>)>, b: Seq<(Seq<u8>, Seq<u8>)>, direction: IterDirection)
    requires
        forall|i: int, j: int| 0 <= i < j < a.len() ==> #[trigger] in_direction(a[i].0, a[j].0, direction),
        forall|i: int, j: int| 0 <= i < j < b.len() ==> #[trigger] in_direction(b[i].0, b[j].0, direction),
        forall|i: int| 0 <= i < a.len() ==> has_key(b, #[trigger] a[i].0),
        forall|j: int| 0 <= j < b.len() ==> has_key(a, #[trigger] b[j].0),
        forall|i: int, j: int| 0 <= i < a.len() && 0 <= j < b.len() && a[i].0 == b[j].0 ==> #[trigger] a[i].1 == #[trigger] b[j].1,
    ensures
        a == b,
    decreases a.len(),
{
    if a.len() == 0 {
        if b.len() > 0 {
            assert(has_key(a, b[0].0));
        }
        assert(a =~= b);
    } else {
        assert(has_key(b, a[0].0));
        let j = choose|j: int| 0 <= j < b.len() && b[j].0 == a[0].0;
        if j > 0 {
            assert(has_key(a, b[0].0));
            let i = choose|i: int| 0 <= i < a.len() && a[i].0 == b[0].0;
            assert(in_direction(b[0].0, b[j].0, direction));
            if i == 0 {
                lemma_lex_irreflexive(a[0].0);
            } else {
                assert(in_direction(a[0].0, a[i].0, direction));
                lemma_lex_asymmetric(a[0].0, a[i].0);
            }
        }
        let a1 = a.drop_first();
        let b1 = b.drop_first();
        assert forall|i: int| 0 <= i < a1.len() implies has_key(b1, #[trigger] a1[i].0) by {
            assert(in_direction(a[0].0, a[i + 1].0, direction));
            lemma_lex_irreflexive(a[0].0);
            assert(has_key(b, a[i + 1].0));
            let k = choose|k: int| 0 <= k < b.len() && b[k].0 == a[i + 1].0;
            assert(k != 0);
            assert(b1[k - 1].0 == a1[i].0);
        }
        assert forall|k: int| 0 <= k < b1.len() implies has_key(a1, #[trigger] b1[k].0) by {
            assert(in_direction(b[0].0, b[k + 1].0, direction));
            lemma_lex_irreflexive(b[0].0);
            assert(has_key(a, b[k + 1].0));
            let i = choose|i: int| 0 <= i < a.len() && a[i].0 == b[k + 1].0;
            assert(i != 0);
            assert(a1[i - 1].0 == b1[k].0);
        }
        assert forall|i: int, j: int| 0 <= i < j < a1.len() implies #[trigger] in_direction(a1[i].0, a1[j].0, direction) by {
            assert(in_direction(a[i + 1].0, a[j + 1].0, direction));
        }
        assert forall|i: int, j: int| 0 <= i < j < b1.len() implies #[trigger] in_direction(b1[i].0, b1[j].0, direction) by {
            assert(in_direction(b[i + 1].0, b[j + 1].0, direction));
        }
        assert forall|i: int, k: int| 0 <= i < a1.len() && 0 <= k < b1.len() && a1[i].0 == b1[k].0 implies #[trigger] a1[i].1 == #[trigger] b1[k].1 by {
            assert(a[i + 1].1 == b[k + 1].1);
        }
        lemma_same_ordered_pairs(a1, b1, direction);
        assert(a[0].1 == b[0].1);
        assert(a =~= seq![a[0]] + a1);
        assert(b =~= seq![b[0]] + b1);
    }
}

/// An iteration is determined by the contents and its bounds: two walks with
/// the same bounds give the same entries in the same order.
pub proof fn lemma_iteration_unique(
    m: Map<(Column, Seq<u8>), Seq<u8>>,
    c: Column,
    prefix: Option<Seq<u8>>,
    start: Option<Seq<u8>>,
    direction: IterDirection,
    r1: Seq<(Seq<u8>, Seq<u8>)>,
    r2: Seq<(Seq<u8>, Seq<u8>)>,
)
    requires
        is_iteration(m, c, prefix, start, direction, r1),
        is_iteration(m, c, prefix, start, direction, r2),
    ensures
        r1 == r2,
{
    assert forall|i: int| 0 <= i < r1.len() implies has_key(r2, #[trigger] r1[i].0) by {
        assert(m.contains_key((c, r1[i].0)) && selected(r1[i].0, prefix, start, direction));
    }
    assert forall|j: int| 0 <= j < r2.len() implies has_key(r1, #[trigger] r2[j].0) by {
        assert(m.contains_key((c, r2[j].0)) && selected(r2[j].0, prefix, start, direction));
    }
    assert forall|i: int, j: int| 0 <= i < r1.len() && 0 <= j < r2.len() && r1[i].0 == r2[j].0 implies #[trigger] r1[i].1 == #[trigger] r2[j].1 by {
        assert(m[(c, r1[i].0)] == r1[i].1);
        assert(m[(c, r2[j].0)] == r2[j].1);
    }
    lemma_same_ordered_pairs(r1, r2, direction);
}

/// Walking a column backwards, with no start, gives the entries of walking it
/// forwards in reverse order.
pub proof fn lemma_reverse_walk(
    m: Map<(Column, Seq<u8>), Seq<u8>>,
    c: Column,
    prefix: Option<Seq<u8>>,
    forward: Seq<(Seq<u8>, Seq<u8>)>,
    reverse: Seq<(Seq<u8>, Seq<u8>)>,
)
    requires
        is_iteration(m, c, prefix, None, IterDirection::Forward, forward),
        is_iteration(m, c, prefix, None, IterDirection::Reverse, reverse),
    ensures
        reverse == forward.reverse(),
{
    let rf = forward.reverse();
    let n = forward.len();
    assert forall|j: int| 0 <= j < rf.len() implies {
        &&& m.contains_key((c, #[trigger] rf[j].0))
        &&& m[(c, rf[j].0)] == rf[j].1
        &&& selected(rf[j].0, prefix, None, IterDirection::Reverse)
    } by {
        assert(rf[j] == forward[n - 1 - j]);
        assert(m.contains_key((c, forward[n - 1 - j].0)));
    }
    assert forall|k: Seq<u8>| m.contains_key((c, k)) && #[trigger] selected(k, prefix, None, IterDirection::Reverse) implies exists|j: int|
        0 <= j < rf.len() && rf[j].0 == k by {
        assert(selected(k, prefix, None, IterDirection::Forward));
        let i = choose|i: int| 0 <= i < forward.len() && forward[i].0 == k;
        assert(rf[n - 1 - i] == forward[i]);
    }
    assert forall|i: int, j: int| 0 <= i < j < rf.len() implies #[trigger] in_direction(rf[i].0, rf[j].0, IterDirection::Reverse) by {
        assert(rf[i] == forward[n - 1 - i]);
        assert(rf[j] == forward[n - 1 - j]);
        assert(in_direction(forward[n - 1 - j].0, forward[n - 1 - i].0, IterDirection::Forward));
    }
    lemma_iteration_unique(m, c, prefix, None, IterDirection::Reverse, reverse, rf);
}

/// Whether `key` is walked by an iteration with these bounds.
fn is_selected(
    key: &[u8],
    prefix: &Option<Vec<u8>>,
    start: &Option<Vec<u8>>,
    direction: IterDirection,
) -> (r: bool)
    ensures
        r == selected(key@, opt_bytes(*prefix), opt_bytes(*start), direction),
{
    let prefix_ok = match prefix {
        Some(p) => starts_with(key, p.as_slice()),
        None => true,
    };
    let start_ok = match start {
        Some(st) => match direction {
            IterDirection::Forward => bytes_eq(st.as_slice(), key) || bytes_lt(st.as_slice(), key),
            IterDirection::Reverse => bytes_eq(key, st.as_slice()) || bytes_lt(key, st.as_slice()),
        },
        None => true,
    };
    prefix_ok && start_ok
}

/// Whether entry `e` stands before position `(c, key)`.
fn entry_before(e: &Entry, c: Column, key: &[u8]) -> (r: bool)
    ensures
        r == pos_lt(entry_pos(*e), (c, key@)),
{
    proof {
        lemma_column_id(e.0, c);
    }
    let a = e.0.id();
    let b = c.id();
    if a < b {
        true
    } else if a == b {
        bytes_lt(e.1.as_slice(), key)
    } else {
        false
    }
}

/// An in-memory store of byte keys and values in columns.
pub struct MemoryStore {
    entries: Vec<Entry>,
}

impl View for MemoryStore {
    type V = Map<(Column, Seq<u8>), Seq<u8>>;

    closed spec fn view(&self) -> Map<(Column, Seq<u8>), Seq<u8>> {
        entries_view(self.entries@)
    }
}

impl MemoryStore {
    /// The store's invariant: its entries are in strictly increasing order.
    pub closed spec fn wf(&self) -> bool {
        sorted_entries(self.entries@)
    }

    /// An empty store.
    pub fn new() -> (r: Self)
        ensures
            r.wf(),
            r@ == Map::<(Column, Seq<u8>), Seq<u8>>::empty(),
    {
        let r = MemoryStore { entries: Vec::new() };
        assert(r@ =~= Map::<(Column, Seq<u8>), Seq<u8>>::empty());
        r
    }

    /// Binary search for position `(c, key)`.
    fn search(&self, c: Column, key: &[u8]) -> (r: (usize, bool))
        requires
            self.wf(),
        ensures
            is_split(self.entries@, (c, key@), r.0 as int),
            r.1 == (r.0 < self.entries.len() && entry_pos(self.entries@[r.0 as int]) == (c, key@)),
            r.1 == self@.contains_key((c, key@)),
    {
        let ghost s = self.entries@;
        let ghost p = (c, key@);
        let mut lo: usize = 0;
        let mut hi: usize = self.entries.len();
        while lo < hi
            invariant
                s == self.entries@,
                p == (c, key@),
                sorted_entries(s),
                0 <= lo <= hi <= s.len(),
                forall|i: int| 0 <= i < lo ==> #[trigger] pos_lt(entry_pos(s[i]), p),
                forall|i: int| hi <= i < s.len() ==> !#[trigger] pos_lt(entry_pos(s[i]), p),
            decreases hi - lo,
        {
            let mid = lo + (hi - lo) / 2;
            let before = entry_before(&self.entries[mid], c, key);
            assert(before == pos_lt(entry_pos(s[mid as int]), p));
            if before {
                proof {
                    assert forall|i: int| 0 <= i < mid + 1 implies #[trigger] pos_lt(entry_pos(s[i]), p) by {
                        if i < mid {
                            assert(pos_lt(entry_pos(s[i]), entry_pos(s[mid as int])));
                            lemma_pos_lt_transitive(entry_pos(s[i]), entry_pos(s[mid as int]), p);
                        }
                    }
                }
                lo = mid + 1;
            } else {
                proof {
                    assert forall|i: int| mid <= i < s.len() implies !#[trigger] pos_lt(entry_pos(s[i]), p) by {
                        if i > mid && pos_lt(entry_pos(s[i]), p) {
                            assert(pos_lt(entry_pos(s[mid as int]), entry_pos(s[i])));
                            lemma_pos_lt_transitive(entry_pos(s[mid as int]), entry_pos(s[i]), p);
                        }
                    }
                }
                hi = mid;
            }
        }
        let found = if lo < self.entries.len() {
            let e = &self.entries[lo];
            e.0 == c && bytes_eq(e.1.as_slice(), key)
        } else {
            false
        };
        proof {
            lemma_split_lookup(s, p, lo as int);
        }
        (lo, found)
    }

    /// The value stored under `key` in column `c`.
    pub fn get_value(&self, key: &[u8], c: Column) -> (r: Option<Vec<u8>>)
        requires
            self.wf(),
        ensures
            match r {
                Some(v) => self@.contains_key((c, key@)) && v@ == self@[(c, key@)],
                None => !self@.contains_key((c, key@)),
            },
    {
        let (idx, found) = self.search(c, key);
        if found {
            proof {
                lemma_view_at(self.entries@, idx as int);
            }
            Some(vstd::slice::slice_to_vec(self.entries[idx].2.as_slice()))
        } else {
            None
        }
    }

    /// Whether `key` is stored in column `c`.
    pub fn contains(&self, key: &[u8], c: Column) -> (r: bool)
        requires
            self.wf(),
        ensures
            r == self@.contains_key((c, key@)),
    {
        self.search(c, key).1
    }

    /// Stores `value` under `key` in column `c`; returns the value it replaces.
    pub fn put_value(&mut self, key: &[u8], c: Column, value: Vec<u8>) -> (r: Option<Vec<u8>>)
        requires
            old(self).wf(),
        ensures
            final(self).wf(),
            final(self)@ == old(self)@.insert((c, key@), value@),
            match r {
                Some(v) => old(self)@.contains_key((c, key@)) && v@ == old(self)@[(c, key@)],
                None => !old(self)@.contains_key((c, key@)),
            },
    {
        let ghost s = self.entries@;
        let ghost p = (c, key@);
        let (idx, found) = self.search(c, key);
        if found {
            proof {
                lemma_view_at(s, idx as int);
            }
            let (c0, k0, v0) = self.entries.remove(idx);
            self.entries.insert(idx, (c0, k0, value));
            proof {
                let t = self.entries@;
                assert(t =~= s.update(idx as int, (c0, k0, value)));
                assert(sorted_entries(t)) by {
                    assert forall|i: int, j: int| 0 <= i < j < t.len() implies #[trigger] pos_lt(entry_pos(t[i]), entry_pos(t[j])) by {
                        assert(entry_pos(t[i]) == entry_pos(s[i]));
                        assert(entry_pos(t[j]) == entry_pos(s[j]));
                    }
                }
                assert forall|q: (Column, Seq<u8>)| #![auto] entries_view(t).contains_key(q) <==> entries_view(s).insert(p, value@).contains_key(q) by {
                    if entries_view(s).contains_key(q) {
                        let j = choose|k: int| 0 <= k < s.len() && entry_pos(s[k]) == q;
                        assert(entry_pos(t[j]) == q);
                    }
                    if entries_view(t).contains_key(q) {
                        let j = choose|k: int| 0 <= k < t.len() && entry_pos(t[k]) == q;
                        assert(entry_pos(s[j]) == q);
                    }
                }
                assert forall|q: (Column, Seq<u8>)| #![auto] entries_view(t).contains_key(q) implies entries_view(t)[q] == entries_view(s).insert(p, value@)[q] by {
                    let j = choose|k: int| 0 <= k < t.len() && entry_pos(t[k]) == q;
                    lemma_view_at(t, j);
                    if j != idx {
                        lemma_view_at(s, j);
                        if q == p {
                            lemma_sorted_unique(s, j, idx as int);
                        }
                    }
                }
                assert(entries_view(t) =~= entries_view(s).insert(p, value@));
            }
            Some(v0)
        } else {
            let entry = (c, vstd::slice::slice_to_vec(key), value);
            self.entries.insert(idx, entry);
            proof {
                lemma_split_lookup(s, p, idx as int);
                let t = self.entries@;
                assert(t =~= s.insert(idx as int, entry));
                assert(sorted_entries(t)) by {
                    assert forall|i: int, j: int| 0 <= i < j < t.len() implies #[trigger] pos_lt(entry_pos(t[i]), entry_pos(t[j])) by {
                        if j < idx {
                        } else if j == idx {
                            assert(pos_lt(entry_pos(s[i]), p));
                        } else if i < idx {
                            assert(pos_lt(entry_pos(s[i]), entry_pos(s[j - 1])));
                        } else if i == idx {
                            assert(pos_lt(p, entry_pos(s[idx as int])));
                            if j - 1 > idx {
                                assert(pos_lt(entry_pos(s[idx as int]), entry_pos(s[j - 1])));
                                lemma_pos_lt_transitive(p, entry_pos(s[idx as int]), entry_pos(s[j - 1]));
                            }
                        } else {
                            assert(pos_lt(entry_pos(s[i - 1]), entry_pos(s[j - 1])));
                        }
                    }
                }
                assert forall|q: (Column, Seq<u8>)| #![auto] entries_view(t).contains_key(q) <==> entries_view(s).insert(p, value@).contains_key(q) by {
                    if entries_view(s).contains_key(q) {
                        let j = choose|k: int| 0 <= k < s.len() && entry_pos(s[k]) == q;
                        if j < idx {
                            assert(entry_pos(t[j]) == q);
                        } else {
                            assert(entry_pos(t[j + 1]) == q);
                        }
                    }
                    if q == p {
                        assert(entry_pos(t[idx as int]) == q);
                    }
                    if entries_view(t).contains_key(q) && q != p {
                        let j = choose|k: int| 0 <= k < t.len() && entry_pos(t[k]) == q;
                        if j < idx {
                            assert(entry_pos(s[j]) == q);
                        } else {
                            assert(entry_pos(s[j - 1]) == q);
                        }
                    }
                }
                assert forall|q: (Column, Seq<u8>)| #![auto] entries_view(t).contains_key(q) implies entries_view(t)[q] == entries_view(s).insert(p, value@)[q] by {
                    let j = choose|k: int| 0 <= k < t.len() && entry_pos(t[k]) == q;
                    lemma_view_at(t, j);
                    if j < idx {
                        lemma_view_at(s, j);
                    } else if j > idx {
                        lemma_view_at(s, j - 1);
                    }
                }
                assert(entries_view(t) =~= entries_view(s).insert(p, value@));
            }
            None
        }
    }

    /// Removes `key` from column `c`; returns the value it held.
    pub fn delete_value(&mut self, key: &[u8], c: Column) -> (r: Option<Vec<u8>>)
        requires
            old(self).wf(),
        ensures
            final(self).wf(),
            final(self)@ == old(self)@.remove((c, key@)),
            match r {
                Some(v) => old(self)@.contains_key((c, key@)) && v@ == old(self)@[(c, key@)],
                None => !old(self)@.contains_key((c, key@)),
            },
    {
        let ghost s = self.entries@;
        let ghost p = (c, key@);
        let (idx, found) = self.search(c, key);
        if found {
            proof {
                lemma_view_at(s, idx as int);
            }
            let (_c0, _k0, v0) = self.entries.remove(idx);
            proof {
                let t = self.entries@;
                assert(t =~= s.remove(idx as int));
                assert(sorted_entries(t)) by {
                    assert forall|i: int, j: int| 0 <= i < j < t.len() implies #[trigger] pos_lt(entry_pos(t[i]), entry_pos(t[j])) by {
                        let si = if i < idx { i } else { i + 1 };
                        let sj = if j < idx { j } else { j + 1 };
                        assert(pos_lt(entry_pos(s[si]), entry_pos(s[sj])));
                    }
                }
                assert forall|q: (Column, Seq<u8>)| #![auto] entries_view(t).contains_key(q) <==> entries_view(s).remove(p).contains_key(q) by {
                    if entries_view(s).contains_key(q) && q != p {
                        let j = choose|k: int| 0 <= k < s.len() && entry_pos(s[k]) == q;
                        if j < idx {
                            assert(entry_pos(t[j]) == q);
                        } else {
                            assert(j != idx);
                            assert(entry_pos(t[j - 1]) == q);
                        }
                    }
                    if entries_view(t).contains_key(q) {
                        let j = choose|k: int| 0 <= k < t.len() && entry_pos(t[k]) == q;
                        let sj = if j < idx { j } else { j + 1 };
                        assert(entry_pos(s[sj]) == q);
                        if q == p {
                            lemma_sorted_unique(s, sj, idx as int);
                        }
                    }
                }
                assert forall|q: (Column, Seq<u8>)| #![auto] entries_view(t).contains_key(q) implies entries_view(t)[q] == entries_view(s).remove(p)[q] by {
                    let j = choose|k: int| 0 <= k < t.len() && entry_pos(t[k]) == q;
                    lemma_view_at(t, j);
                    let sj = if j < idx { j } else { j + 1 };
                    lemma_view_at(s, sj);
                }
                assert(entries_view(t) =~= entries_view(s).remove(p));
            }
            Some(v0)
        } else {
            assert(entries_view(s) =~= entries_view(s).remove(p));
            None
        }
    }
    /// The entries of column `c` whose keys have `prefix` and lie from `start`
    /// on in the given direction, as (key, value) pairs in that direction's
    /// order.
    pub fn iter_entries(
        &self,
        c: Column,
        prefix: &Option<Vec<u8>>,
        start: &Option<Vec<u8>>,
        direction: IterDirection,
    ) -> (r: Vec<(Vec<u8>, Vec<u8>)>)
        requires
            self.wf(),
        ensures
            is_iteration(self@, c, opt_bytes(*prefix), opt_bytes(*start), direction, pairs_view(r@)),
    {
        let ghost s = self.entries@;
        let ghost pre = opt_bytes(*prefix);
        let ghost st = opt_bytes(*start);
        let mut out: Vec<(Vec<u8>, Vec<u8>)> = Vec::new();
        let ghost mut idxs: Seq<int> = Seq::empty();
        let n = self.entries.len();
        let forward = match direction {
            IterDirection::Forward => true,
            IterDirection::Reverse => false,
        };
        let mut k: usize = 0;
        while k < n
            invariant
                s == self.entries@,
                n == s.len(),
                sorted_entries(s),
                pre == opt_bytes(*prefix),
                st == opt_bytes(*start),
                forward == (direction == IterDirection::Forward),
                0 <= k <= n,
                out.len() == idxs.len(),
                forall|j: int|
                    0 <= j < idxs.len() ==> {
                        &&& 0 <= #[trigger] idxs[j] < n
                        &&& (if forward { idxs[j] < k } else { idxs[j] >= n - k })
                        &&& entry_pos(s[idxs[j]]) == (c, out@[j].0@)
                        &&& s[idxs[j]].2@ == out@[j].1@
                        &&& selected(out@[j].0@, pre, st, direction)
                    },
                forall|i: int, j: int|
                    0 <= i < j < idxs.len() ==> (if forward { #[trigger] idxs[i] < #[trigger] idxs[j] } else { idxs[i] > idxs[j] }),
                forall|m: int|
                    (if forward { 0 <= m < k } else { n - k <= m < n }) && s[m].0 == c && selected(s[m].1@, pre, st, direction)
                        ==> exists|j: int| 0 <= j < idxs.len() && #[trigger] idxs[j] == m,
            decreases n - k,
        {
            let ghost idxs0 = idxs;
            let pos = if forward { k } else { n - 1 - k };
            let e = &self.entries[pos];
            if e.0 == c && is_selected(e.1.as_slice(), prefix, start, direction) {
                let item = (vstd::slice::slice_to_vec(e.1.as_slice()), vstd::slice::slice_to_vec(e.2.as_slice()));
                let ghost out0 = out@;
                out.push(item);
                proof {
                    idxs = idxs.push(pos as int);
                    assert(idxs[idxs.len() - 1] == pos as int);
                    assert forall|j: int| 0 <= j < idxs.len() implies {
                        &&& 0 <= #[trigger] idxs[j] < n
                        &&& (if forward { idxs[j] < k + 1 } else { idxs[j] >= n - (k + 1) })
                        &&& entry_pos(s[idxs[j]]) == (c, out@[j].0@)
                        &&& s[idxs[j]].2@ == out@[j].1@
                        &&& selected(out@[j].0@, pre, st, direction)
                    } by {
                        if j < idxs.len() - 1 {
                            assert(idxs[j] == idxs0[j]);
                            assert(out@[j] == out0[j]);
                        }
                    }
                }
            }
            proof {
                assert forall|m: int|
                    (if forward { 0 <= m < k + 1 } else { n - (k + 1) <= m < n }) && s[m].0 == c && selected(s[m].1@, pre, st, direction)
                    implies exists|j: int| 0 <= j < idxs.len() && #[trigger] idxs[j] == m by {
                    if m == pos as int {
                        assert(idxs[idxs.len() - 1] == m);
                    } else {
                        let j = choose|j: int| 0 <= j < idxs0.len() && #[trigger] idxs0[j] == m;
                        assert(0 <= j < idxs.len() && idxs[j] == m);
                    }
                }
            }
            k = k + 1;
        }
        proof {
            let r = pairs_view(out@);
            assert forall|j: int| 0 <= j < r.len() implies {
                &&& self@.contains_key((c, #[trigger] r[j].0))
                &&& self@[(c, r[j].0)] == r[j].1
                &&& selected(r[j].0, pre, st, direction)
            } by {
                lemma_view_at(s, idxs[j]);
            }
            assert forall|key: Seq<u8>| self@.contains_key((c, key)) && #[trigger] selected(key, pre, st, direction)
                implies exists|j: int| 0 <= j < r.len() && r[j].0 == key by {
                lemma_view_has(s, (c, key));
                let m = choose|i: int| 0 <= i < s.len() && entry_pos(s[i]) == (c, key);
                let j = choose|j: int| 0 <= j < idxs.len() && #[trigger] idxs[j] == m;
                assert(r[j].0 == key);
            }
            assert forall|i: int, j: int| 0 <= i < j < r.len() implies #[trigger] in_direction(r[i].0, r[j].0, direction) by {
                if forward {
                    assert(pos_lt(entry_pos(s[idxs[i]]), entry_pos(s[idxs[j]])));
                } else {
                    assert(pos_lt(entry_pos(s[idxs[j]]), entry_pos(s[idxs[i]])));
                }
            }
        }
        out
    }
}

/// What `m` holds at `(c, k)`, if anything.
pub open spec fn lookup(m: Map<(Column, Seq<u8>), Seq<u8>>, c: Column, k: Seq<u8>) -> Option<Seq<u8>> {
    if m.contains_key((c, k)) {
        Some(m[(c, k)])
    } else {
        None
    }
}

/// The contents after one write operation.
pub open spec fn apply_write(m: Map<(Column, Seq<u8>), Seq<u8>>, op: WriteOperation) -> Map<(Column, Seq<u8>), Seq<u8>> {
    match op {
        WriteOperation::Insert(k, c, v) => m.insert((c, k@), v@),
        WriteOperation::Remove(k, c) => m.remove((c, k@)),
    }
}

/// The contents after the operations `ops[i]` for which `applied[i]` holds, in order.
pub open spec fn apply_writes_where(
    m: Map<(Column, Seq<u8>), Seq<u8>>,
    ops: Seq<WriteOperation>,
    applied: Seq<bool>,
) -> Map<(Column, Seq<u8>), Seq<u8>>
    decreases ops.len(),
{
    if ops.len() == 0 {
        m
    } else {
        let before = apply_writes_where(m, ops.drop_last(), applied.drop_last());
        if applied.last() {
            apply_write(before, ops.last())
        } else {
            before
        }
    }
}

/// The contents after all of `ops`, in order.
pub open spec fn apply_writes(m: Map<(Column, Seq<u8>), Seq<u8>>, ops: Seq<WriteOperation>) -> Map<(Column, Seq<u8>), Seq<u8>> {
    apply_writes_where(m, ops, Seq::new(ops.len(), |i: int| true))
}

/// Applying all of `ops` and then `op`.
pub proof fn lemma_apply_writes_push(m: Map<(Column, Seq<u8>), Seq<u8>>, ops: Seq<WriteOperation>, op: WriteOperation)
    ensures
        apply_writes(m, ops.push(op)) == apply_write(apply_writes(m, ops), op),
{
    let all = Seq::new(ops.push(op).len(), |i: int| true);
    assert(ops.push(op).drop_last() =~= ops);
    assert(all.drop_last() =~= Seq::new(ops.len(), |i: int| true));
}

/// A key-value store with columns.
pub trait KeyValueStore {
    /// The store's contents: the value at each (column, key).
    spec fn contents(&self) -> Map<(Column, Seq<u8>), Seq<u8>>;

    /// The store's invariant.
    spec fn inv(&self) -> bool;

    /// Whether every operation of the store succeeds.
    spec fn infallible(&self) -> bool;

    /// The value under `key` in `column`.
    fn get(&self, key: &[u8], column: Column) -> (r: Result<Option<Vec<u8>>, Error>)
        requires
            self.inv(),
        ensures
            self.infallible() ==> r is Ok,
            match r {
                Ok(v) => opt_bytes(v) == lookup(self.contents(), column, key@),
                Err(_) => true,
            },
    ;

    /// Stores `value` under `key` in `column`; gives back the value replaced.
    /// A failed write leaves the contents as they were.
    fn put(&mut self, key: &[u8], column: Column, value: Vec<u8>) -> (r: Result<Option<Vec<u8>>, Error>)
        requires
            old(self).inv(),
        ensures
            final(self).inv(),
            final(self).infallible() == old(self).infallible(),
            old(self).infallible() ==> r is Ok,
            match r {
                Ok(prev) => {
                    &&& opt_bytes(prev) == lookup(old(self).contents(), column, key@)
                    &&& final(self).contents() == old(self).contents().insert((column, key@), value@)
                },
                Err(_) => final(self).contents() == old(self).contents(),
            },
    ;

    /// Removes `key` from `column`; gives back the value removed.
    /// A failed removal leaves the contents as they were.
    fn delete(&mut self, key: &[u8], column: Column) -> (r: Result<Option<Vec<u8>>, Error>)
        requires
            old(self).inv(),
        ensures
            final(self).inv(),
            final(self).infallible() == old(self).infallible(),
            old(self).infallible() ==> r is Ok,
            match r {
                Ok(prev) => {
                    &&& opt_bytes(prev) == lookup(old(self).contents(), column, key@)
                    &&& final(self).contents() == old(self).contents().remove((column, key@))
                },
                Err(_) => final(self).contents() == old(self).contents(),
            },
    ;

    /// Whether `key` is in `column`.
    fn contains_key(&self, key: &[u8], column: Column) -> (r: Result<bool, Error>)
        requires
            self.inv(),
        ensures
            self.infallible() ==> r is Ok,
            match r {
                Ok(b) => b == self.contents().contains_key((column, key@)),
                Err(_) => true,
            },
    ;

    /// The entries of `column` with `prefix`, from `start` on, in `direction`.
    fn iter_all(
        &self,
        column: Column,
        prefix: Option<Vec<u8>>,
        start: Option<Vec<u8>>,
        direction: IterDirection,
    ) -> (r: Result<Vec<(Vec<u8>, Vec<u8>)>, Error>)
        requires
            self.inv(),
        ensures
            self.infallible() ==> r is Ok,
            match r {
                Ok(items) => is_iteration(self.contents(), column, opt_bytes(prefix), opt_bytes(start), direction, pairs_view(items@)),
                Err(_) => true,
            },
    ;
}

/// `e` is an error that `put` of a store of type `D` with contents
/// `contents` gives back when asked to store `value` under `key` in `column`:
/// the store's own refusal.
pub open spec fn put_refused<D: KeyValueStore + ?Sized>(
    contents: Map<(Column, Seq<u8>), Seq<u8>>,
    key: Seq<u8>,
    column: Column,
    value: Seq<u8>,
    e: Error,
) -> bool {
    exists|d: &mut D, k: &[u8], v: Vec<u8>|
        d.contents() == contents && k@ == key && v@ == value && #[trigger] call_ensures(
            D::put,
            (d, k, column, v),
            Err::<Option<Vec<u8>>, Error>(e),
        )
}

/// `e` is an error that `get` of store `db` gives back when asked for `key`
/// in `column`.
pub open spec fn get_refused<D: KeyValueStore>(db: &D, key: Seq<u8>, column: Column, e: Error) -> bool {
    exists|k: &[u8]| k@ == key && #[trigger] call_ensures(D::get, (db, k, column), Err::<Option<Vec<u8>>, Error>(e))
}

/// `e` is an error that `delete` of a store of type `D` with contents
/// `contents` gives back when asked to remove `key` from `column`.
pub open spec fn delete_refused<D: KeyValueStore + ?Sized>(
    contents: Map<(Column, Seq<u8>), Seq<u8>>,
    key: Seq<u8>,
    column: Column,
    e: Error,
) -> bool {
    exists|d: &mut D, k: &[u8]|
        d.contents() == contents && k@ == key && #[trigger] call_ensures(D::delete, (d, k, column), Err::<Option<Vec<u8>>, Error>(e))
}

/// The store of type `D` with contents `contents` refuses the operation
/// `op`: its `put` or `delete` gives back an error.
pub open spec fn write_refused<D: KeyValueStore + ?Sized>(contents: Map<(Column, Seq<u8>), Seq<u8>>, op: WriteOperation) -> bool {
    match op {
        WriteOperation::Insert(k, c, v) => exists|e: Error| #[trigger] put_refused::<D>(contents, k@, c, v@, e),
        WriteOperation::Remove(k, c) => exists|e: Error| #[trigger] delete_refused::<D>(contents, k@, c, e),
    }
}

/// Writing a batch of operations.
pub trait BatchOperations: KeyValueStore {
    /// Hands each operation to the store, in order, whatever came back for
    /// the ones before; an operation that the store refuses is skipped.
    fn batch_write(&mut self, entries: Vec<WriteOperation>) -> (r: Result<(), Error>)
        requires
            old(self).inv(),
        ensures
            final(self).inv(),
            final(self).infallible() == old(self).infallible(),
            r is Ok,
            exists|applied: Seq<bool>|
                {
                    &&& applied.len() == entries@.len()
                    &&& old(self).infallible() ==> applied == Seq::new(entries@.len(), |i: int| true)
                    &&& final(self).contents() == apply_writes_where(old(self).contents(), entries@, applied)
                    &&& forall|i: int|
                        0 <= i < entries@.len() && !#[trigger] applied[i] ==> write_refused::<Self>(
                            apply_writes_where(old(self).contents(), entries@.subrange(0, i), applied.subrange(0, i)),
                            entries@[i],
                        )
                },
    {
        let ghost m0 = self.contents();
        let ghost inf = self.infallible();
        let ghost mut applied: Seq<bool> = Seq::empty();
        let mut i: usize = 0;
        while i < entries.len()
            invariant
                self.inv(),
                self.infallible() == inf,
                0 <= i <= entries.len(),
                applied.len() == i,
                inf ==> applied == Seq::new(i as nat, |j: int| true),
                self.contents() == apply_writes_where(m0, entries@.subrange(0, i as int), applied),
                forall|j: int|
                    0 <= j < i && !#[trigger] applied[j] ==> write_refused::<Self>(
                        apply_writes_where(m0, entries@.subrange(0, j), applied.subrange(0, j)),
                        entries@[j],
                    ),
            decreases entries.len() - i,
        {
            let ghost before = self.contents();
            let ok = match &entries[i] {
                WriteOperation::Insert(key, column, value) => {
                    let v = vstd::slice::slice_to_vec(value.as_slice());
                    let r = self.put(key.as_slice(), *column, v);
                    proof {
                        if r is Err {
                            assert(put_refused::<Self>(before, key@, *column, value@, r->Err_0));
                            assert(write_refused::<Self>(before, entries@[i as int]));
                        }
                    }
                    r.is_ok()
                },
                WriteOperation::Remove(key, column) => {
                    let r = self.delete(key.as_slice(), *column);
                    proof {
                        if r is Err {
                            assert(delete_refused::<Self>(before, key@, *column, r->Err_0));
                            assert(write_refused::<Self>(before, entries@[i as int]));
                        }
                    }
                    r.is_ok()
                },
            };
            proof {
                let ops = entries@.subrange(0, i + 1);
                let flags = applied.push(ok);
                assert(ops.drop_last() =~= entries@.subrange(0, i as int));
                assert(flags.drop_last() =~= applied);
                assert(ops.last() == entries@[i as int]);
                if inf {
                    assert(flags =~= Seq::new((i + 1) as nat, |j: int| true));
                }
                assert(flags.subrange(0, i as int) =~= applied);
                assert forall|j: int| 0 <= j < i + 1 && !#[trigger] flags[j] implies write_refused::<Self>(
                    apply_writes_where(m0, entries@.subrange(0, j), flags.subrange(0, j)),
                    entries@[j],
                ) by {
                    if j < i {
                        assert(flags.subrange(0, j) =~= applied.subrange(0, j));
                        assert(flags[j] == applied[j]);
                    } else {
                        assert(flags.subrange(0, j) =~= applied);
                    }
                }
                applied = flags;
            }
            i = i + 1;
        }
        assert(entries@.subrange(0, i as int) =~= entries@);
        assert(applied.len() == entries@.len());
        Ok(())
    }
}

/// A store that a database can run on.
pub trait TransactableStorage: KeyValueStore + BatchOperations {
}

impl Clone for MemoryStore {
    /// A copy of the store with the same contents.
    fn clone(&self) -> (r: Self)
        ensures
            self.wf() ==> r.wf() && r@ == self@,
    {
        let mut entries: Vec<Entry> = Vec::new();
        let mut i: usize = 0;
        while i < self.entries.len()
            invariant
                0 <= i <= self.entries.len(),
                entries.len() == i,
                forall|j: int| 0 <= j < i ==> #[trigger] entry_pos(entries@[j]) == entry_pos(self.entries@[j])
                    && entries@[j].2@ == self.entries@[j].2@,
            decreases self.entries.len() - i,
        {
            let e = &self.entries[i];
            entries.push((e.0, vstd::slice::slice_to_vec(e.1.as_slice()), vstd::slice::slice_to_vec(e.2.as_slice())));
            i = i + 1;
        }
        let r = MemoryStore { entries };
        proof {
            let s = self.entries@;
            let t = r.entries@;
            assert forall|q: (Column, Seq<u8>)| #![auto] entries_view(t).contains_key(q) <==> entries_view(s).contains_key(q) by {
                if entries_view(s).contains_key(q) {
                    let j = choose|k: int| 0 <= k < s.len() && entry_pos(s[k]) == q;
                    assert(entry_pos(t[j]) == q);
                }
                if entries_view(t).contains_key(q) {
                    let j = choose|k: int| 0 <= k < t.len() && entry_pos(t[k]) == q;
                    assert(entry_pos(s[j]) == q);
                }
            }
            if self.wf() {
                assert forall|a: int, b: int| 0 <= a < b < t.len() implies #[trigger] pos_lt(entry_pos(t[a]), entry_pos(t[b])) by {
                    assert(entry_pos(t[a]) == entry_pos(s[a]));
                    assert(entry_pos(t[b]) == entry_pos(s[b]));
                }
                assert forall|q: (Column, Seq<u8>)| #![auto] entries_view(t).contains_key(q) implies entries_view(t)[q] == entries_view(s)[q] by {
                    let j = choose|k: int| 0 <= k < t.len() && entry_pos(t[k]) == q;
                    lemma_view_at(t, j);
                    lemma_view_at(s, j);
                }
                assert(entries_view(t) =~= entries_view(s));
            }
        }
        r
    }
}

impl KeyValueStore for MemoryStore {
    open spec fn contents(&self) -> Map<(Column, Seq<u8>), Seq<u8>> {
        self@
    }

    open spec fn inv(&self) -> bool {
        self.wf()
    }

    open spec fn infallible(&self) -> bool {
        true
    }

    fn get(&self, key: &[u8], column: Column) -> (r: Result<Option<Vec<u8>>, Error>) {
        Ok(self.get_value(key, column))
    }

    fn put(&mut self, key: &[u8], column: Column, value: Vec<u8>) -> (r: Result<Option<Vec<u8>>, Error>) {
        Ok(self.put_value(key, column, value))
    }

    fn delete(&mut self, key: &[u8], column: Column) -> (r: Result<Option<Vec<u8>>, Error>) {
        Ok(self.delete_value(key, column))
    }

    fn contains_key(&self, key: &[u8], column: Column) -> (r: Result<bool, Error>) {
        Ok(self.contains(key, column))
    }

    fn iter_all(
        &self,
        column: Column,
        prefix: Option<Vec<u8>>,
        start: Option<Vec<u8>>,
        direction: IterDirection,
    ) -> (r: Result<Vec<(Vec<u8>, Vec<u8>)>, Error>) {
        Ok(self.iter_entries(column, &prefix, &start, direction))
    }
}

impl BatchOperations for MemoryStore {
}

impl TransactableStorage for MemoryStore {
}

} // verus!
