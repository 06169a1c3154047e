//! Rows, columns and versioned values, and the immutable sorted disk tables
//! that hold them.

use vstd::multiset::Multiset;
use vstd::prelude::*;

use crate::codec::{
    append_bytes, bytes_code, concat, copy_range, enc_header, enc_record, get_header, get_record, lemma_concat_push,
    lemma_prefix_len, put_record,
};
use crate::query::{put_text, text, text_of};
use crate::keys::{
    compare_keys, index_of, key_lt, key_views, keyed_map, keys_sorted, lemma_index_of, lemma_key_lt_irreflexive,
    lemma_key_lt_transitive, lemma_keyed_map_insert, search_keys, KeyOrder,
};

verus! {

/// One version of a column: a value tagged with the writer's timestamp.
pub type EntryView = (u64, Seq<u8>);

/// Errors of the table layer.
#[derive(Clone, Copy, Debug, PartialEq, Eq, Structural)]
pub enum TError {
    IoError,
    NotFound,
    AlreadyExists,
}

/// A timestamped value.
#[derive(Debug)]
pub struct DEntry {
    pub timestamp: u64,
    pub value: Vec<u8>,
}

impl View for DEntry {
    type V = EntryView;

    open spec fn view(&self) -> EntryView {
        (self.timestamp, self.value@)
    }
}

/// Copies a byte vector.
pub fn copy_bytes(v: &Vec<u8>) -> (r: Vec<u8>)
    ensures
        r@ == v@,
{
    let r = v.clone();
    assert(r@ =~= v@);
    r
}

impl DEntry {
    pub fn new(timestamp: u64, value: Vec<u8>) -> (r: DEntry)
        ensures
            r@ == (timestamp, value@),
    {
        DEntry { timestamp, value }
    }

    pub fn get_timestamp(&self) -> (r: u64)
        ensures
            r == self.timestamp,
    {
        self.timestamp
    }

    pub fn get_value(&self) -> (r: &Vec<u8>)
        ensures
            r@ == self.value@,
    {
        &self.value
    }

    /// A copy of this entry.
    pub fn duplicate(&self) -> (r: DEntry)
        ensures
            r@ == self@,
    {
        DEntry { timestamp: self.timestamp, value: copy_bytes(&self.value) }
    }
}


/// The version that a read at time `t` sees in a column: the entry with the
/// greatest timestamp not above `t`; among equal timestamps, the one at the
/// highest position.
pub open spec fn pick(c: Seq<EntryView>, t: u64) -> Option<EntryView>
    decreases c.len(),
{
    if c.len() == 0 {
        None
    } else {
        let rest = pick(c.drop_last(), t);
        let e = c.last();
        if e.0 <= t && (rest is None || rest->Some_0.0 <= e.0) {
            Some(e)
        } else {
            rest
        }
    }
}

/// What `pick` sees: an entry of the column, at or before `t`, with no later
/// timestamp at or before `t` in the column; and nothing only where every
/// entry is after `t`.
pub proof fn lemma_pick_is_newest(c: Seq<EntryView>, t: u64)
    ensures
        match pick(c, t) {
            Some(e) => {
                &&& c.contains(e)
                &&& e.0 <= t
                &&& forall|j: int| 0 <= j < c.len() && c[j].0 <= t ==> c[j].0 <= e.0
            },
            None => forall|j: int| 0 <= j < c.len() ==> c[j].0 > t,
        },
    decreases c.len(),
{
    if c.len() > 0 {
        lemma_pick_is_newest(c.drop_last(), t);
        let rest = pick(c.drop_last(), t);
        assert forall|j: int| 0 <= j < c.len() - 1 implies c[j] == c.drop_last()[j] by {}
        if let Some(e) = rest {
            let k = choose|k: int| 0 <= k < c.drop_last().len() && c.drop_last()[k] == e;
            assert(c[k] == e);
        }
        assert(c[c.len() - 1] == c.last());
    }
}

/// A column: the version history of one named value.
#[derive(Debug)]
pub struct DColumn {
    pub entries: Vec<DEntry>,
}

impl View for DColumn {
    type V = Seq<EntryView>;

    open spec fn view(&self) -> Seq<EntryView> {
        self.entries@.map_values(|e: DEntry| e@)
    }
}

impl DColumn {
    pub fn new() -> (r: DColumn)
        ensures
            r@ == Seq::<EntryView>::empty(),
    {
        let r = DColumn { entries: Vec::new() };
        assert(r@ =~= Seq::<EntryView>::empty());
        r
    }

    /// A column holding one entry.
    pub fn single(e: DEntry) -> (r: DColumn)
        ensures
            r@ == seq![e@],
    {
        let mut entries: Vec<DEntry> = Vec::new();
        entries.push(e);
        let r = DColumn { entries };
        assert(r@ =~= seq![e@]);
        r
    }

    /// A copy of this column.
    pub fn duplicate(&self) -> (r: DColumn)
        ensures
            r@ == self@,
    {
        let mut entries: Vec<DEntry> = Vec::new();
        let mut i: usize = 0;
        while i < self.entries.len()
            invariant
                i <= self.entries@.len(),
                entries@.map_values(|e: DEntry| e@) =~= self@.take(i as int),
            decreases self.entries@.len() - i,
        {
            entries.push(self.entries[i].duplicate());
            assert(self@.take(i + 1) =~= self@.take(i as int).push(self@[i as int]));
            i = i + 1;
        }
        assert(self@.take(i as int) =~= self@);
        DColumn { entries }
    }

    /// The newest entry of the column.
    pub fn get_latest_value(&self) -> (r: Result<DEntry, TError>)
        ensures
            match r {
                Ok(e) => pick(self@, u64::MAX) == Some(e@),
                Err(err) => err == TError::NotFound && pick(self@, u64::MAX) is None,
            },
    {
        self.get_value(u64::MAX)
    }

    /// The entry that a read at time `timestamp` sees (see `pick`).
    pub fn get_value(&self, timestamp: u64) -> (r: Result<DEntry, TError>)
        ensures
            match r {
                Ok(e) => pick(self@, timestamp) == Some(e@),
                Err(err) => err == TError::NotFound && pick(self@, timestamp) is None,
            },
    {
        let mut best: Option<usize> = None;
        let mut i: usize = 0;
        while i < self.entries.len()
            invariant
                i <= self.entries@.len(),
                match best {
                    Some(b) => b < i && pick(self@.take(i as int), timestamp) == Some(self@[b as int]),
                    None => pick(self@.take(i as int), timestamp) is None,
                },
            decreases self.entries@.len() - i,
        {
            let ghost prefix = self@.take(i + 1);
            assert(prefix.drop_last() =~= self@.take(i as int));
            assert(prefix.last() == self@[i as int]);
            let t = self.entries[i].timestamp;
            if t <= timestamp {
                match best {
                    None => {
                        best = Some(i);
                    },
                    Some(b) => {
                        if self.entries[b].timestamp <= t {
                            best = Some(i);
                        }
                    },
                }
            }
            i = i + 1;
        }
        assert(self@.take(i as int) =~= self@);
        match best {
            Some(b) => Ok(self.entries[b].duplicate()),
            None => Err(TError::NotFound),
        }
    }
}


/// A row: column names in strictly increasing order, and beside them, in the
/// same order, the columns.
#[derive(Debug)]
pub struct DRow {
    pub keys: Vec<String>,
    pub columns: Vec<DColumn>,
}

impl View for DRow {
    type V = Map<Seq<char>, Seq<EntryView>>;

    /// Each column name to its entries.
    open spec fn view(&self) -> Map<Seq<char>, Seq<EntryView>> {
        keyed_map(self.names(), self.column_views())
    }
}

impl DRow {
    /// The column names, in order.
    pub open spec fn names(&self) -> Seq<Seq<char>> {
        key_views(self.keys@)
    }

    /// The columns, in the order of their names.
    pub open spec fn column_views(&self) -> Seq<Seq<EntryView>> {
        self.columns@.map_values(|c: DColumn| c@)
    }

    /// Names sorted and unique, one column per name.
    pub open spec fn wf(&self) -> bool {
        &&& self.keys@.len() == self.columns@.len()
        &&& keys_sorted(self.names())
    }

    pub fn new() -> (r: DRow)
        ensures
            r.wf(),
            r.names() == Seq::<Seq<char>>::empty(),
            r@ == Map::<Seq<char>, Seq<EntryView>>::empty(),
    {
        let r = DRow { keys: Vec::new(), columns: Vec::new() };
        assert(r.names() =~= Seq::<Seq<char>>::empty());
        assert(r@ =~= Map::<Seq<char>, Seq<EntryView>>::empty());
        r
    }

    /// Merges rows of one key into one (see `merges_all`).
    pub fn from_vec(rows: &[DRow]) -> (r: DRow)
        requires
            forall|i: int| 0 <= i < rows@.len() ==> (#[trigger] rows@[i]).wf(),
        ensures
            r.wf(),
            merges_all(r@, rows@.map_values(|x: DRow| x@)),
            forall|k: Seq<char>, s: int| #[trigger] sole_holder(drow_views(rows@), k, s) ==> r@[k]
                == rows@[s]@[k],
            r@ == row_merge_all(drow_views(rows@)),
            forall|k: Seq<char>| #[trigger] r@.contains_key(k) ==> r@[k] == merge_all(holders(drow_views(rows@), k)),
            (forall|i: int, k: Seq<char>|
                0 <= i < rows@.len() && #[trigger] rows@[i]@.contains_key(k) ==> ts_descending(rows@[i]@[k]))
                ==> forall|k: Seq<char>| #[trigger] r@.contains_key(k) ==> ts_descending(r@[k]),
    {
        let mut acc = DRow::new();
        let ghost views = rows@.map_values(|x: DRow| x@);
        proof {
            assert forall|k: Seq<char>| #[trigger] acc@.contains_key(k) == in_any(views.take(0), k) by {}
            assert forall|k: Seq<char>| acc@.contains_key(k) implies (#[trigger] acc@[k]).to_multiset()
                == column_union(views.take(0), k) by {}
            assert(views.take(0) =~= Seq::<RowView>::empty());
            assert(acc@ =~= row_merge_all(views.take(0)));
        }
        let mut i: usize = 0;
        while i < rows.len()
            invariant
                i <= rows@.len(),
                views == rows@.map_values(|x: DRow| x@),
                forall|i: int| 0 <= i < rows@.len() ==> (#[trigger] rows@[i]).wf(),
                acc.wf(),
                merges_all(acc@, views.take(i as int)),
                forall|k: Seq<char>, s: int| #[trigger] sole_holder(views.take(i as int), k, s) ==> acc@[k] == views[s][k],
                acc@ == row_merge_all(views.take(i as int)),
            decreases rows@.len() - i,
        {
            let next = merge_rows(&acc, &rows[i]);
            proof {
                lemma_merges_all_step(acc@, rows@[i as int]@, next@, views, i as int);
                lemma_sole_step(acc@, rows@[i as int]@, next@, views, i as int);
                assert(views.take(i + 1).drop_last() =~= views.take(i as int));
                assert(views.take(i + 1).last() == rows@[i as int]@);
            }
            acc = next;
            i = i + 1;
        }
        assert(views.take(i as int) =~= views);
        assert(views == drow_views(rows@));
        assert forall|k: Seq<char>| #[trigger] acc@.contains_key(k) implies acc@[k] == merge_all(holders(drow_views(rows@), k)) by {
            lemma_row_merge_all_column(views, k);
        }
        proof {
            if forall|i: int, k: Seq<char>|
                0 <= i < rows@.len() && #[trigger] rows@[i]@.contains_key(k) ==> ts_descending(rows@[i]@[k]) {
                assert forall|k: Seq<char>| #[trigger] acc@.contains_key(k) implies ts_descending(acc@[k]) by {
                    assert forall|i: int| 0 <= i < views.len() && (#[trigger] views[i]).contains_key(k) implies ts_descending(
                        views[i][k],
                    ) by {
                        assert(views[i] == rows@[i]@);
                    }
                    lemma_holders_descending(views, k);
                    lemma_merge_all_descending(holders(views, k));
                }
            }
        }
        assert forall|k: Seq<char>, s: int| #[trigger] sole_holder(drow_views(rows@), k, s) implies acc@[k] == rows@[s]@[k] by {
            assert(views[s] == rows@[s]@);
        }
        acc
    }

    /// The column named `key`.
    pub fn get_column(&self, key: &str) -> (r: Result<&DColumn, TError>)
        requires
            self.wf(),
        ensures
            match r {
                Ok(c) => self@.contains_key(key@) && c@ == self@[key@],
                Err(e) => e == TError::NotFound && !self@.contains_key(key@),
            },
    {
        proof {
            lemma_index_of(self.names(), key@);
        }
        match search_keys(&self.keys, key) {
            Ok(i) => {
                assert(self.names()[i as int] == key@);
                Ok(&self.columns[i])
            },
            Err(i) => {
                proof {
                    if self.names().contains(key@) {
                        let j = choose|j: int| 0 <= j < self.names().len() && self.names()[j] == key@;
                        crate::keys::lemma_key_lt_irreflexive(key@);
                        assert(self.keys@[j]@ == key@);
                    }
                }
                Err(TError::NotFound)
            },
        }
    }

    /// The newest entry of the column named `key`.
    pub fn get_latest_value(&self, key: &str) -> (r: Result<DEntry, TError>)
        requires
            self.wf(),
        ensures
            match r {
                Ok(e) => self@.contains_key(key@) && pick(self@[key@], u64::MAX) == Some(e@),
                Err(err) => err == TError::NotFound && (!self@.contains_key(key@) || pick(
                    self@[key@],
                    u64::MAX,
                ) is None),
            },
    {
        self.get_value(key, u64::MAX)
    }

    /// The entry of the column named `key` that a read at `timestamp` sees.
    pub fn get_value(&self, key: &str, timestamp: u64) -> (r: Result<DEntry, TError>)
        requires
            self.wf(),
        ensures
            match r {
                Ok(e) => self@.contains_key(key@) && pick(self@[key@], timestamp) == Some(e@),
                Err(err) => err == TError::NotFound && (!self@.contains_key(key@) || pick(
                    self@[key@],
                    timestamp,
                ) is None),
            },
    {
        match self.get_column(key) {
            Ok(c) => c.get_value(timestamp),
            Err(e) => Err(e),
        }
    }
}

/// All the entries of the columns together.
pub open spec fn entries_of(cs: Seq<Seq<EntryView>>) -> Multiset<EntryView>
    decreases cs.len(),
{
    if cs.len() == 0 {
        Multiset::empty()
    } else {
        entries_of(cs.drop_last()).add(cs.last().to_multiset())
    }
}

/// Timestamps never increase along the column.
pub open spec fn ts_descending(c: Seq<EntryView>) -> bool {
    forall|i: int, j: int| 0 <= i < j < c.len() ==> c[i].0 >= c[j].0
}

/// Two columns merged: repeatedly the next entry of the one whose next entry
/// has the greater timestamp, of the second on a tie.
pub open spec fn merged(a: Seq<EntryView>, b: Seq<EntryView>) -> Seq<EntryView>
    decreases a.len() + b.len(),
{
    if a.len() == 0 {
        b
    } else if b.len() == 0 {
        a
    } else if a[0].0 > b[0].0 {
        seq![a[0]] + merged(a.drop_first(), b)
    } else {
        seq![b[0]] + merged(a, b.drop_first())
    }
}

/// Columns merged one after another into the first: `merged` of the merge
/// of all but the last, and the last.
pub open spec fn merge_all(cs: Seq<Seq<EntryView>>) -> Seq<EntryView>
    decreases cs.len(),
{
    if cs.len() == 0 {
        Seq::empty()
    } else {
        merged(merge_all(cs.drop_last()), cs.last())
    }
}

/// Merging columns in descending timestamp order gives one in that order.
pub proof fn lemma_merged_descending(a: Seq<EntryView>, b: Seq<EntryView>)
    requires
        ts_descending(a),
        ts_descending(b),
    ensures
        ts_descending(merged(a, b)),
        merged(a, b).len() == a.len() + b.len(),
        merged(a, b).len() > 0 ==> merged(a, b)[0] == (if a.len() > 0 && (b.len() == 0 || a[0].0 > b[0].0) {
            a[0]
        } else {
            b[0]
        }),
    decreases a.len() + b.len(),
{
    if a.len() > 0 && b.len() > 0 {
        let m = merged(a, b);
        if a[0].0 > b[0].0 {
            let a2 = a.drop_first();
            assert(ts_descending(a2)) by {
                assert forall|i: int, j: int| 0 <= i < j < a2.len() implies a2[i].0 >= a2[j].0 by {
                    assert(a2[i] == a[i + 1] && a2[j] == a[j + 1]);
                }
            }
            lemma_merged_descending(a2, b);
            let rest = merged(a2, b);
            assert(m == seq![a[0]] + rest);
            if rest.len() > 0 {
                if a2.len() > 0 {
                    assert(a2[0] == a[1]);
                }
                assert(a[0].0 >= rest[0].0);
            }
            assert forall|i: int, j: int| 0 <= i < j < m.len() implies m[i].0 >= m[j].0 by {
                if i == 0 {
                    assert(m[j] == rest[j - 1]);
                    assert(rest[0].0 >= rest[j - 1].0);
                } else {
                    assert(m[i] == rest[i - 1] && m[j] == rest[j - 1]);
                }
            }
        } else {
            let b2 = b.drop_first();
            assert(ts_descending(b2)) by {
                assert forall|i: int, j: int| 0 <= i < j < b2.len() implies b2[i].0 >= b2[j].0 by {
                    assert(b2[i] == b[i + 1] && b2[j] == b[j + 1]);
                }
            }
            lemma_merged_descending(a, b2);
            let rest = merged(a, b2);
            assert(m == seq![b[0]] + rest);
            if rest.len() > 0 {
                if b2.len() > 0 {
                    assert(b2[0] == b[1]);
                }
                assert(b[0].0 >= rest[0].0);
            }
            assert forall|i: int, j: int| 0 <= i < j < m.len() implies m[i].0 >= m[j].0 by {
                if i == 0 {
                    assert(m[j] == rest[j - 1]);
                    assert(rest[0].0 >= rest[j - 1].0);
                } else {
                    assert(m[i] == rest[i - 1] && m[j] == rest[j - 1]);
                }
            }
        }
    }
}

/// Merging columns in descending timestamp order, one after another, gives
/// one in that order.
pub proof fn lemma_merge_all_descending(cs: Seq<Seq<EntryView>>)
    requires
        forall|i: int| 0 <= i < cs.len() ==> ts_descending(#[trigger] cs[i]),
    ensures
        ts_descending(merge_all(cs)),
    decreases cs.len(),
{
    if cs.len() > 0 {
        assert forall|i: int| 0 <= i < cs.drop_last().len() implies ts_descending(#[trigger] cs.drop_last()[i]) by {
            assert(cs.drop_last()[i] == cs[i]);
        }
        lemma_merge_all_descending(cs.drop_last());
        assert(cs.last() == cs[cs.len() - 1]);
        lemma_merged_descending(merge_all(cs.drop_last()), cs.last());
    }
}

proof fn lemma_merged_take_a(a: Seq<EntryView>, b: Seq<EntryView>, i: int, j: int)
    requires
        0 <= i < a.len(),
        0 <= j <= b.len(),
        j == b.len() || a[i].0 > b[j].0,
    ensures
        merged(a.skip(i), b.skip(j)) == seq![a[i]] + merged(a.skip(i + 1), b.skip(j)),
{
    assert(a.skip(i).drop_first() =~= a.skip(i + 1));
    assert(a.skip(i)[0] == a[i]);
    if j == b.len() {
        assert(b.skip(j).len() == 0);
        assert(a.skip(i) =~= seq![a[i]] + a.skip(i + 1));
    } else {
        assert(b.skip(j)[0] == b[j]);
    }
}

proof fn lemma_merged_take_b(a: Seq<EntryView>, b: Seq<EntryView>, i: int, j: int)
    requires
        0 <= i <= a.len(),
        0 <= j < b.len(),
        i == a.len() || !(a[i].0 > b[j].0),
    ensures
        merged(a.skip(i), b.skip(j)) == seq![b[j]] + merged(a.skip(i), b.skip(j + 1)),
{
    assert(b.skip(j).drop_first() =~= b.skip(j + 1));
    assert(b.skip(j)[0] == b[j]);
    if i == a.len() {
        assert(a.skip(i).len() == 0);
        assert(b.skip(j) =~= seq![b[j]] + b.skip(j + 1));
    } else {
        assert(a.skip(i)[0] == a[i]);
    }
}

/// Merges two columns: repeatedly takes the next entry of the one whose next
/// entry has the greater timestamp (the first on a tie). On columns in
/// descending timestamp order the result is in descending order too.
pub fn merge_columns(a: &DColumn, b: &DColumn) -> (r: DColumn)
    ensures
        r@ == merged(a@, b@),
        r@.to_multiset() == a@.to_multiset().add(b@.to_multiset()),
        ts_descending(a@) && ts_descending(b@) ==> ts_descending(r@),
{
    broadcast use vstd::seq_lib::group_to_multiset_ensures;

    let mut out: Vec<DEntry> = Vec::new();
    let mut i: usize = 0;
    let mut j: usize = 0;
    assert(a@.take(0) =~= Seq::<EntryView>::empty());
    assert(b@.take(0) =~= Seq::<EntryView>::empty());
    assert(out@.map_values(|e: DEntry| e@) =~= Seq::<EntryView>::empty());
    assert(a@.skip(0) =~= a@);
    assert(b@.skip(0) =~= b@);
    assert(out@.map_values(|e: DEntry| e@) + merged(a@, b@) =~= merged(a@, b@));
    while i < a.entries.len() || j < b.entries.len()
        invariant
            i <= a@.len(),
            j <= b@.len(),
            out@.map_values(|e: DEntry| e@) + merged(a@.skip(i as int), b@.skip(j as int)) == merged(a@, b@),
            a@.len() == a.entries@.len(),
            b@.len() == b.entries@.len(),
            out@.map_values(|e: DEntry| e@).to_multiset() == a@.take(i as int).to_multiset().add(
                b@.take(j as int).to_multiset(),
            ),
            ts_descending(a@) && ts_descending(b@) ==> {
                &&& ts_descending(out@.map_values(|e: DEntry| e@))
                &&& out@.len() > 0 && i < a@.len() ==> out@.last()@.0 >= a@[i as int].0
                &&& out@.len() > 0 && j < b@.len() ==> out@.last()@.0 >= b@[j as int].0
            },
        decreases a@.len() - i + b@.len() - j,
    {
        let ghost prev = out@.map_values(|e: DEntry| e@);
        let from_a = j >= b.entries.len() || (i < a.entries.len() && a.entries[i].timestamp
            > b.entries[j].timestamp);
        if from_a {
            proof {
                lemma_merged_take_a(a@, b@, i as int, j as int);
                assert(prev.push(a@[i as int]) + merged(a@.skip(i + 1), b@.skip(j as int)) =~= prev + (seq![a@[i as int]]
                    + merged(a@.skip(i + 1), b@.skip(j as int))));
            }
            let e = a.entries[i].duplicate();
            out.push(e);
            assert(a@.take(i + 1) =~= a@.take(i as int).push(a@[i as int]));
            assert(out@.map_values(|e: DEntry| e@) =~= prev.push(a@[i as int]));
            proof {
                prev.to_multiset_ensures();
                a@.take(i as int).to_multiset_ensures();
            }
            assert(prev.push(a@[i as int]).to_multiset() =~= prev.to_multiset().insert(a@[i as int]));
            assert(a@.take(i as int).push(a@[i as int]).to_multiset() =~= a@.take(i as int).to_multiset().insert(
                a@[i as int],
            ));
            i = i + 1;
        } else {
            proof {
                lemma_merged_take_b(a@, b@, i as int, j as int);
                assert(prev.push(b@[j as int]) + merged(a@.skip(i as int), b@.skip(j + 1)) =~= prev + (seq![b@[j as int]]
                    + merged(a@.skip(i as int), b@.skip(j + 1))));
            }
            let e = b.entries[j].duplicate();
            out.push(e);
            assert(b@.take(j + 1) =~= b@.take(j as int).push(b@[j as int]));
            assert(out@.map_values(|e: DEntry| e@) =~= prev.push(b@[j as int]));
            proof {
                prev.to_multiset_ensures();
                b@.take(j as int).to_multiset_ensures();
            }
            assert(prev.push(b@[j as int]).to_multiset() =~= prev.to_multiset().insert(b@[j as int]));
            assert(b@.take(j as int).push(b@[j as int]).to_multiset() =~= b@.take(j as int).to_multiset().insert(
                b@[j as int],
            ));
            j = j + 1;
        }
        assert(out@.map_values(|e: DEntry| e@).to_multiset() =~= a@.take(i as int).to_multiset().add(
            b@.take(j as int).to_multiset(),
        ));
        proof {
            let v = out@.map_values(|e: DEntry| e@);
            if ts_descending(a@) && ts_descending(b@) {
                assert(v.drop_last() =~= prev);
                assert forall|x: int, y: int| 0 <= x < y < v.len() implies v[x].0 >= v[y].0 by {
                    if y == v.len() - 1 && x < v.len() - 1 {
                        assert(v[x] == prev[x]);
                        assert(prev.last() == out@[v.len() - 2]@);
                    } else if y < v.len() - 1 {
                        assert(v[x] == prev[x] && v[y] == prev[y]);
                    }
                }
                assert(out@.last()@ == v.last());
            }
        }
    }
    assert(a@.take(i as int) =~= a@);
    assert(b@.take(j as int) =~= b@);
    assert(a@.skip(i as int).len() == 0 && b@.skip(j as int).len() == 0);
    assert(out@.map_values(|e: DEntry| e@) + merged(a@.skip(i as int), b@.skip(j as int)) =~= out@.map_values(
        |e: DEntry| e@,
    ));
    DColumn { entries: out }
}

impl DColumn {
    /// Merges any number of columns into one that holds all their entries;
    /// on columns in descending timestamp order, in descending order.
    pub fn from_vec(cols: &[&DColumn]) -> (r: DColumn)
        ensures
            r@ == merge_all(cols@.map_values(|c: &DColumn| c@)),
            r@.to_multiset() == entries_of(cols@.map_values(|c: &DColumn| c@)),
            (forall|i: int| 0 <= i < cols@.len() ==> ts_descending(#[trigger] cols@[i]@)) ==> ts_descending(r@),
    {
        let mut acc = DColumn::new();
        let ghost views = cols@.map_values(|c: &DColumn| c@);
        let mut i: usize = 0;
        proof {
            broadcast use vstd::seq_lib::group_to_multiset_ensures;

            assert(views.take(0) =~= Seq::<Seq<EntryView>>::empty());
            assert(acc@.to_multiset() =~= Multiset::<EntryView>::empty());
            assert(acc@ =~= merge_all(views.take(0)));
        }
        while i < cols.len()
            invariant
                i <= cols@.len(),
                views == cols@.map_values(|c: &DColumn| c@),
                acc@ == merge_all(views.take(i as int)),
                acc@.to_multiset() == entries_of(views.take(i as int)),
                (forall|i: int| 0 <= i < cols@.len() ==> ts_descending(#[trigger] cols@[i]@)) ==> ts_descending(acc@),
            decreases cols@.len() - i,
        {
            acc = merge_columns(&acc, cols[i]);
            assert(views.take(i + 1).drop_last() =~= views.take(i as int));
            i = i + 1;
        }
        assert(views.take(i as int) =~= views);
        acc
    }
}

/// A row: each column name to its entries.
pub type RowView = Map<Seq<char>, Seq<EntryView>>;

/// The entries of column `k` of a row; none where the row lacks it.
pub open spec fn col_or_empty(r: RowView, k: Seq<char>) -> Seq<EntryView> {
    if r.contains_key(k) {
        r[k]
    } else {
        Seq::empty()
    }
}

/// `m` merges rows `a` and `b`: it has the columns of both, and each of its
/// columns holds exactly the entries of that column in `a` and in `b`.
pub open spec fn merges(m: RowView, a: RowView, b: RowView) -> bool {
    &&& forall|k: Seq<char>| #[trigger] m.contains_key(k) == (a.contains_key(k) || b.contains_key(k))
    &&& forall|k: Seq<char>|
        m.contains_key(k) ==> (#[trigger] m[k]).to_multiset() == col_or_empty(a, k).to_multiset().add(
            col_or_empty(b, k).to_multiset(),
        )
}

/// The state of a merge of two rows' columns after `i` columns of `a` and `j`
/// of `b` are done.
pub open spec fn merge_progress(out: DRow, a: DRow, b: DRow, i: int, j: int) -> bool {
    &&& out.wf()
    &&& 0 <= i <= a.names().len()
    &&& 0 <= j <= b.names().len()
    &&& forall|p: int, q: int|
        0 <= p < out.names().len() && i <= q < a.names().len() ==> key_lt(
            #[trigger] out.names()[p],
            #[trigger] a.names()[q],
        )
    &&& forall|p: int, q: int|
        0 <= p < out.names().len() && j <= q < b.names().len() ==> key_lt(
            #[trigger] out.names()[p],
            #[trigger] b.names()[q],
        )
    &&& forall|k: Seq<char>| #[trigger]
        out@.contains_key(k) == (a.names().take(i).contains(k) || b.names().take(j).contains(k))
    &&& forall|k: Seq<char>|
        out@.contains_key(k) ==> (#[trigger] out@[k]).to_multiset() == col_or_empty(a@, k).to_multiset().add(
            col_or_empty(b@, k).to_multiset(),
        )
    &&& forall|k: Seq<char>| #[trigger] out@.contains_key(k) && !b@.contains_key(k) ==> out@[k] == a@[k]
    &&& forall|k: Seq<char>| #[trigger] out@.contains_key(k) && !a@.contains_key(k) ==> out@[k] == b@[k]
    &&& forall|k: Seq<char>|
        #[trigger] out@.contains_key(k) && a@.contains_key(k) && b@.contains_key(k) ==> out@[k] == merged(
            a@[k],
            b@[k],
        )
}

/// A key above every name done so far, and below the rest of `r`'s names
/// from `i` on, is not a name of `r`.
proof fn lemma_absent(out: DRow, r: DRow, i: int, k: Seq<char>)
    requires
        out.wf(),
        r.wf(),
        0 <= i <= r.names().len(),
        forall|x: Seq<char>| r.names().take(i).contains(x) ==> #[trigger] out@.contains_key(x),
        forall|p: int| 0 <= p < out.names().len() ==> key_lt(#[trigger] out.names()[p], k),
        forall|q: int| i <= q < r.names().len() ==> key_lt(k, #[trigger] r.names()[q]),
    ensures
        !r@.contains_key(k),
{
    lemma_index_of(r.names(), k);
    if r@.contains_key(k) {
        let q = index_of(r.names(), k);
        lemma_key_lt_irreflexive(k);
        if q < i {
            assert(r.names().take(i)[q] == k);
            assert(out@.contains_key(k));
            lemma_index_of(out.names(), k);
            let p = index_of(out.names(), k);
            assert(out.names()[p] == k);
        }
    }
}

proof fn lemma_take_next(s: Seq<Seq<char>>, i: int, x: Seq<char>)
    requires
        0 <= i < s.len(),
    ensures
        s.take(i + 1).contains(x) == (s.take(i).contains(x) || x == s[i]),
{
    assert(s.take(i + 1) =~= s.take(i).push(s[i]));
    if s.take(i + 1).contains(x) && x != s[i] {
        let p = choose|p: int| 0 <= p < s.take(i + 1).len() && #[trigger] s.take(i + 1)[p] == x;
        assert(s.take(i)[p] == x);
    }
    if s.take(i).contains(x) {
        let p = choose|p: int| 0 <= p < s.take(i).len() && #[trigger] s.take(i)[p] == x;
        assert(s.take(i + 1)[p] == x);
    }
    if x == s[i] {
        assert(s.take(i + 1)[i] == x);
    }
}

/// One step of a merge of two rows keeps `merge_progress`.
proof fn lemma_merge_step(
    before: DRow,
    out: DRow,
    a: DRow,
    b: DRow,
    i: int,
    j: int,
    i2: int,
    j2: int,
    k: Seq<char>,
    c: Seq<EntryView>,
)
    requires
        merge_progress(before, a, b, i, j),
        out.wf(),
        out@ == before@.insert(k, c),
        out.names() == before.names().push(k),
        (i2 == i + 1 && i < a.names().len() && a.names()[i] == k) || (i2 == i && (i < a.names().len()
            ==> key_lt(k, a.names()[i]))),
        (j2 == j + 1 && j < b.names().len() && b.names()[j] == k) || (j2 == j && (j < b.names().len()
            ==> key_lt(k, b.names()[j]))),
        i2 == i + 1 || j2 == j + 1,
        keys_sorted(a.names()),
        keys_sorted(b.names()),
        forall|p: int| 0 <= p < before.names().len() ==> key_lt(#[trigger] before.names()[p], k),
        c.to_multiset() == col_or_empty(a@, k).to_multiset().add(col_or_empty(b@, k).to_multiset()),
        !b@.contains_key(k) ==> c == a@[k],
        !a@.contains_key(k) ==> c == b@[k],
        a@.contains_key(k) && b@.contains_key(k) ==> c == merged(a@[k], b@[k]),
    ensures
        merge_progress(out, a, b, i2, j2),
{
    assert forall|p: int, q: int|
        0 <= p < out.names().len() && i2 <= q < a.names().len() implies key_lt(
        #[trigger] out.names()[p],
        #[trigger] a.names()[q],
    ) by {
        if p < before.names().len() {
            assert(out.names()[p] == before.names()[p]);
        } else {
            if i2 == i + 1 {
            } else if q > i {
                lemma_key_lt_transitive(k, a.names()[i], a.names()[q]);
            }
        }
    }
    assert forall|p: int, q: int|
        0 <= p < out.names().len() && j2 <= q < b.names().len() implies key_lt(
        #[trigger] out.names()[p],
        #[trigger] b.names()[q],
    ) by {
        if p < before.names().len() {
            assert(out.names()[p] == before.names()[p]);
        } else {
            if j2 == j + 1 {
            } else if q > j {
                lemma_key_lt_transitive(k, b.names()[j], b.names()[q]);
            }
        }
    }
    assert forall|x: Seq<char>| #[trigger]
        out@.contains_key(x) == (a.names().take(i2).contains(x) || b.names().take(j2).contains(x)) by {
        if i2 == i + 1 {
            lemma_take_next(a.names(), i, x);
        }
        if j2 == j + 1 {
            lemma_take_next(b.names(), j, x);
        }
    }
}

/// Appending a name above all others to a row.
fn push_column(out: &mut DRow, key: String, col: DColumn)
    requires
        old(out).wf(),
        forall|p: int| 0 <= p < old(out).names().len() ==> key_lt(#[trigger] old(out).names()[p], key@),
    ensures
        final(out).wf(),
        final(out)@ == old(out)@.insert(key@, col@),
        final(out).names() == old(out).names().push(key@),
{
    proof {
        lemma_keyed_map_insert(old(out).names(), old(out).column_views(), old(out).names().len() as int, key@, col@);
        assert(old(out).names().insert(old(out).names().len() as int, key@) =~= old(out).names().push(key@));
        assert(old(out).column_views().insert(old(out).names().len() as int, col@) =~= old(out).column_views().push(col@));
    }
    let ghost kv = key@;
    let ghost cv = col@;
    out.keys.push(key);
    out.columns.push(col);
    assert(out.names() =~= old(out).names().push(kv));
    assert(out.column_views() =~= old(out).column_views().push(cv));
}

/// Some of the rows has column `k`.
pub open spec fn in_any(rows: Seq<RowView>, k: Seq<char>) -> bool {
    exists|i: int| 0 <= i < rows.len() && (#[trigger] rows[i]).contains_key(k)
}

/// All entries of column `k` over the rows.
pub open spec fn column_union(rows: Seq<RowView>, k: Seq<char>) -> Multiset<EntryView>
    decreases rows.len(),
{
    if rows.len() == 0 {
        Multiset::empty()
    } else {
        column_union(rows.drop_last(), k).add(col_or_empty(rows.last(), k).to_multiset())
    }
}

/// `m` merges all of `rows`: it has the columns of each, and each of its
/// columns holds exactly the entries of that column over all the rows.
pub open spec fn merges_all(m: RowView, rows: Seq<RowView>) -> bool {
    &&& forall|k: Seq<char>| #[trigger] m.contains_key(k) == in_any(rows, k)
    &&& forall|k: Seq<char>| m.contains_key(k) ==> (#[trigger] m[k]).to_multiset() == column_union(rows, k)
}

proof fn lemma_column_union_absent(rows: Seq<RowView>, k: Seq<char>)
    requires
        !in_any(rows, k),
    ensures
        column_union(rows, k) == Multiset::<EntryView>::empty(),
    decreases rows.len(),
{
    if rows.len() > 0 {
        assert(!in_any(rows.drop_last(), k)) by {
            if in_any(rows.drop_last(), k) {
                let i = choose|i: int| 0 <= i < rows.drop_last().len() && (#[trigger] rows.drop_last()[i]).contains_key(k);
                assert(rows[i] == rows.drop_last()[i]);
            }
        }
        lemma_column_union_absent(rows.drop_last(), k);
        assert(!rows.last().contains_key(k));
        assert(col_or_empty(rows.last(), k) =~= Seq::<EntryView>::empty());
        vstd::seq_lib::lemma_multiset_commutative(Seq::<EntryView>::empty(), Seq::<EntryView>::empty());
        assert(Seq::<EntryView>::empty() + Seq::<EntryView>::empty() =~= Seq::<EntryView>::empty());
        assert(column_union(rows, k) =~= Multiset::<EntryView>::empty());
    }
}

proof fn lemma_merges_all_step(acc: RowView, next: RowView, m: RowView, rows: Seq<RowView>, i: int)
    requires
        0 <= i < rows.len(),
        merges_all(acc, rows.take(i)),
        next == rows[i],
        merges(m, acc, next),
    ensures
        merges_all(m, rows.take(i + 1)),
{
    let t = rows.take(i + 1);
    assert(t.drop_last() =~= rows.take(i));
    assert(t.last() == next);
    assert forall|k: Seq<char>| #[trigger] m.contains_key(k) == in_any(t, k) by {
        if in_any(rows.take(i), k) {
            let p = choose|p: int| 0 <= p < rows.take(i).len() && (#[trigger] rows.take(i)[p]).contains_key(k);
            assert(t[p] == rows.take(i)[p]);
        }
        if in_any(t, k) {
            let p = choose|p: int| 0 <= p < t.len() && (#[trigger] t[p]).contains_key(k);
            if p < i {
                assert(rows.take(i)[p] == t[p]);
            }
        }
        if next.contains_key(k) {
            assert(t[i] == next);
        }
    }
    assert forall|k: Seq<char>| m.contains_key(k) implies (#[trigger] m[k]).to_multiset() == column_union(t, k) by {
        if !acc.contains_key(k) {
            lemma_column_union_absent(rows.take(i), k);
            assert(col_or_empty(acc, k) =~= Seq::<EntryView>::empty());
            vstd::seq_lib::lemma_multiset_commutative(Seq::<EntryView>::empty(), Seq::<EntryView>::empty());
            assert(Seq::<EntryView>::empty() + Seq::<EntryView>::empty() =~= Seq::<EntryView>::empty());
        }
    }
}

/// The views of rows.
pub open spec fn drow_views(rows: Seq<DRow>) -> Seq<RowView> {
    rows.map_values(|x: DRow| x@)
}

/// Two rows merged: the columns of both, each column in one row only as it
/// is, each column in both as `merged` of the two.
pub open spec fn row_merge(a: RowView, b: RowView) -> RowView {
    Map::new(
        |k: Seq<char>| a.contains_key(k) || b.contains_key(k),
        |k: Seq<char>|
            if a.contains_key(k) && b.contains_key(k) {
                merged(a[k], b[k])
            } else if a.contains_key(k) {
                a[k]
            } else {
                b[k]
            },
    )
}

/// Rows merged one after another into the first (see `row_merge`).
pub open spec fn row_merge_all(rows: Seq<RowView>) -> RowView
    decreases rows.len(),
{
    if rows.len() == 0 {
        Map::empty()
    } else {
        row_merge(row_merge_all(rows.drop_last()), rows.last())
    }
}

/// The columns `k` of the rows that have it, in row order.
pub open spec fn holders(rows: Seq<RowView>, k: Seq<char>) -> Seq<Seq<EntryView>>
    decreases rows.len(),
{
    if rows.len() == 0 {
        Seq::empty()
    } else if rows.last().contains_key(k) {
        holders(rows.drop_last(), k).push(rows.last()[k])
    } else {
        holders(rows.drop_last(), k)
    }
}

/// Column by column, merging rows one after another merges, in row order,
/// the columns of the rows that have it (see `DColumn::from_vec`).
pub proof fn lemma_row_merge_all_column(rows: Seq<RowView>, k: Seq<char>)
    ensures
        row_merge_all(rows).contains_key(k) == (holders(rows, k).len() > 0),
        row_merge_all(rows).contains_key(k) ==> row_merge_all(rows)[k] == merge_all(holders(rows, k)),
    decreases rows.len(),
{
    if rows.len() > 0 {
        lemma_row_merge_all_column(rows.drop_last(), k);
        let h = holders(rows.drop_last(), k);
        if rows.last().contains_key(k) {
            assert(h.push(rows.last()[k]).drop_last() =~= h);
            if h.len() == 0 {
                assert(merge_all(h) =~= Seq::<EntryView>::empty());
            }
        }
    }
}

proof fn lemma_holders_descending(rows: Seq<RowView>, k: Seq<char>)
    requires
        forall|i: int| 0 <= i < rows.len() && (#[trigger] rows[i]).contains_key(k) ==> ts_descending(rows[i][k]),
    ensures
        forall|j: int| 0 <= j < holders(rows, k).len() ==> ts_descending(#[trigger] holders(rows, k)[j]),
    decreases rows.len(),
{
    if rows.len() > 0 {
        assert forall|i: int| 0 <= i < rows.drop_last().len() && (#[trigger] rows.drop_last()[i]).contains_key(k) implies ts_descending(
            rows.drop_last()[i][k],
        ) by {
            assert(rows.drop_last()[i] == rows[i]);
        }
        lemma_holders_descending(rows.drop_last(), k);
        assert(rows.last() == rows[rows.len() - 1]);
        let h = holders(rows.drop_last(), k);
        if rows.last().contains_key(k) {
            assert forall|j: int| 0 <= j < holders(rows, k).len() implies ts_descending(#[trigger] holders(rows, k)[j]) by {
                if j < h.len() {
                    assert(holders(rows, k)[j] == h[j]);
                }
            }
        }
    }
}

/// Only row `s` of `rows` has column `k`.
pub open spec fn sole_holder(rows: Seq<RowView>, k: Seq<char>, s: int) -> bool {
    &&& 0 <= s < rows.len()
    &&& rows[s].contains_key(k)
    &&& forall|j: int| 0 <= j < rows.len() && j != s ==> !(#[trigger] rows[j]).contains_key(k)
}

proof fn lemma_sole_step(acc: RowView, next: RowView, m: RowView, rows: Seq<RowView>, i: int)
    requires
        0 <= i < rows.len(),
        next == rows[i],
        merges_all(acc, rows.take(i)),
        forall|k: Seq<char>, s: int| #[trigger] sole_holder(rows.take(i), k, s) ==> acc[k] == rows[s][k],
        forall|k: Seq<char>| #[trigger] acc.contains_key(k) && !next.contains_key(k) ==> m[k] == acc[k],
        forall|k: Seq<char>| #[trigger] next.contains_key(k) && !acc.contains_key(k) ==> m[k] == next[k],
    ensures
        forall|k: Seq<char>, s: int| #[trigger] sole_holder(rows.take(i + 1), k, s) ==> m[k] == rows[s][k],
{
    assert forall|k: Seq<char>, s: int| #[trigger] sole_holder(rows.take(i + 1), k, s) implies m[k] == rows[s][k] by {
        let t = rows.take(i + 1);
        if s < i {
            assert(t[i] == rows[i]);
            assert(!next.contains_key(k));
            assert(sole_holder(rows.take(i), k, s)) by {
                assert forall|j: int| 0 <= j < rows.take(i).len() && j != s implies !(#[trigger] rows.take(i)[j]).contains_key(k) by {
                    assert(rows.take(i)[j] == t[j]);
                }
                assert(rows.take(i)[s] == t[s]);
            }
            assert(rows.take(i)[s].contains_key(k));
            assert(in_any(rows.take(i), k));
            assert(t[s] == rows[s]);
            assert(acc.contains_key(k));
            assert(m[k] == acc[k]);
            assert(rows.take(i)[s] == rows[s]);
            assert(acc[k] == rows.take(i)[s][k]);
        } else {
            assert(s == i);
            assert(t[i] == rows[i]);
            assert(!in_any(rows.take(i), k)) by {
                if in_any(rows.take(i), k) {
                    let j = choose|j: int| 0 <= j < rows.take(i).len() && (#[trigger] rows.take(i)[j]).contains_key(k);
                    assert(rows.take(i)[j] == t[j]);
                }
            }
            assert(!acc.contains_key(k));
            assert(next.contains_key(k));
            assert(m[k] == next[k]);
        }
    }
}

/// Merges two rows (see `merges`).
pub fn merge_rows(a: &DRow, b: &DRow) -> (r: DRow)
    requires
        a.wf(),
        b.wf(),
    ensures
        r.wf(),
        merges(r@, a@, b@),
        forall|k: Seq<char>| #[trigger] a@.contains_key(k) && !b@.contains_key(k) ==> r@[k] == a@[k],
        forall|k: Seq<char>| #[trigger] b@.contains_key(k) && !a@.contains_key(k) ==> r@[k] == b@[k],
        r@ == row_merge(a@, b@),
{
    broadcast use vstd::seq_lib::group_to_multiset_ensures;

    let mut out = DRow::new();
    let mut i: usize = 0;
    let mut j: usize = 0;
    proof {
        assert(a.names().take(0) =~= Seq::<Seq<char>>::empty());
        assert(b.names().take(0) =~= Seq::<Seq<char>>::empty());
    }
    while i < a.keys.len() || j < b.keys.len()
        invariant
            a.wf(),
            b.wf(),
            merge_progress(out, *a, *b, i as int, j as int),
        decreases a.keys@.len() - i + b.keys@.len() - j,
    {
        let ghost before = out;
        let order = if i >= a.keys.len() {
            KeyOrder::Greater
        } else if j >= b.keys.len() {
            KeyOrder::Less
        } else {
            compare_keys(a.keys[i].as_str(), b.keys[j].as_str())
        };
        match order {
            KeyOrder::Less => {
                let ghost k = a.names()[i as int];
                proof {
                    lemma_index_of(a.names(), k);
                    assert forall|q: int| j <= q < b.names().len() implies key_lt(k, #[trigger] b.names()[q]) by {
                        if q > j {
                            lemma_key_lt_transitive(k, b.names()[j as int], b.names()[q]);
                        }
                    }
                    assert forall|x: Seq<char>| b.names().take(j as int).contains(x) implies #[trigger] out@.contains_key(x) by {}
                    assert forall|p: int| 0 <= p < out.names().len() implies key_lt(#[trigger] out.names()[p], k) by {}
                    lemma_absent(out, *b, j as int, k);
                }
                let c = a.columns[i].duplicate();
                let ghost cv = c@;
                push_column(&mut out, a.keys[i].clone(), c);
                proof {
                    let x = col_or_empty(a@, k);
                    assert(col_or_empty(b@, k) =~= Seq::<EntryView>::empty());
                    vstd::seq_lib::lemma_multiset_commutative(x, Seq::<EntryView>::empty());
                    assert(x + Seq::<EntryView>::empty() =~= x);
                    assert(cv == x);
                    lemma_merge_step(before, out, *a, *b, i as int, j as int, i + 1, j as int, k, cv);
                }
                i = i + 1;
            },
            KeyOrder::Greater => {
                let ghost k = b.names()[j as int];
                proof {
                    lemma_index_of(b.names(), k);
                    assert forall|q: int| i <= q < a.names().len() implies key_lt(k, #[trigger] a.names()[q]) by {
                        if q > i {
                            lemma_key_lt_transitive(k, a.names()[i as int], a.names()[q]);
                        }
                    }
                    assert forall|x: Seq<char>| a.names().take(i as int).contains(x) implies #[trigger] out@.contains_key(x) by {}
                    assert forall|p: int| 0 <= p < out.names().len() implies key_lt(#[trigger] out.names()[p], k) by {}
                    lemma_absent(out, *a, i as int, k);
                }
                let c = b.columns[j].duplicate();
                let ghost cv = c@;
                push_column(&mut out, b.keys[j].clone(), c);
                proof {
                    let x = col_or_empty(b@, k);
                    assert(col_or_empty(a@, k) =~= Seq::<EntryView>::empty());
                    vstd::seq_lib::lemma_multiset_commutative(Seq::<EntryView>::empty(), x);
                    assert(Seq::<EntryView>::empty() + x =~= x);
                    assert(cv == x);
                    lemma_merge_step(before, out, *a, *b, i as int, j as int, i as int, j + 1, k, cv);
                }
                j = j + 1;
            },
            KeyOrder::Equal => {
                let ghost k = a.names()[i as int];
                proof {
                    lemma_index_of(a.names(), k);
                    lemma_index_of(b.names(), k);
                    assert(b.names()[j as int] == k);
                    assert forall|p: int| 0 <= p < out.names().len() implies key_lt(#[trigger] out.names()[p], k) by {}
                }
                let merged = merge_columns(&a.columns[i], &b.columns[j]);
                let ghost cv = merged@;
                push_column(&mut out, a.keys[i].clone(), merged);
                proof {
                    lemma_merge_step(before, out, *a, *b, i as int, j as int, i + 1, j + 1, k, cv);
                }
                i = i + 1;
                j = j + 1;
            },
        }
    }
    proof {
        assert(a.names().take(i as int) =~= a.names());
        assert(b.names().take(j as int) =~= b.names());
        assert forall|k: Seq<char>| #[trigger] out@.contains_key(k) == (a@.contains_key(k) || b@.contains_key(k)) by {
            lemma_index_of(a.names(), k);
            lemma_index_of(b.names(), k);
        }
        assert forall|k: Seq<char>| #[trigger] a@.contains_key(k) && !b@.contains_key(k) implies out@[k] == a@[k] by {
            assert(out@.contains_key(k));
        }
        assert forall|k: Seq<char>| #[trigger] b@.contains_key(k) && !a@.contains_key(k) implies out@[k] == b@[k] by {
            assert(out@.contains_key(k));
        }
        assert forall|k: Seq<char>| #[trigger] a@.contains_key(k) && b@.contains_key(k) implies out@[k] == merged(a@[k], b@[k]) by {
            assert(out@.contains_key(k));
        }
        assert(out@ =~= row_merge(a@, b@));
    }
    out
}

/// What a read of column `col` at time `t` sees in a row.
pub open spec fn read_column(row: RowView, col: Seq<char>, t: u64) -> Option<EntryView> {
    if row.contains_key(col) {
        pick(row[col], t)
    } else {
        None
    }
}

/// The view of an optional entry.
pub open spec fn opt_view(o: Option<DEntry>) -> Option<EntryView> {
    match o {
        Some(e) => Some(e@),
        None => None,
    }
}

/// A row as a disk table stores it: its key, its column names, its columns.
pub type Record = (Seq<char>, Seq<Seq<char>>, Seq<Seq<EntryView>>);

/// Column names sorted, one column each.
pub open spec fn valid_record(r: Record) -> bool {
    r.1.len() == r.2.len() && keys_sorted(r.1)
}

/// The record of key `key` that `b` holds from `start` up to `end`, if any.
pub open spec fn record_at(b: Seq<u8>, start: int, end: int, key: Seq<char>) -> Option<Record> {
    if exists|r: Record|
        valid_record(r) && r.0 == key && b.subrange(start, end) == #[trigger] enc_record(r.0, r.1, r.2) {
        Some(
            choose|r: Record|
                valid_record(r) && r.0 == key && b.subrange(start, end) == #[trigger] enc_record(
                    r.0,
                    r.1,
                    r.2,
                ),
        )
    } else {
        None
    }
}

/// The index of a disk table: row keys in increasing order, and beside each
/// the offset of its row in the data.
#[derive(Debug)]
pub struct DTableHeader {
    pub keys: Vec<String>,
    pub offsets: Vec<u64>,
}

impl DTableHeader {
    pub open spec fn key_seq(&self) -> Seq<Seq<char>> {
        key_views(self.keys@)
    }

    pub open spec fn wf(&self) -> bool {
        &&& self.keys@.len() == self.offsets@.len()
        &&& keys_sorted(self.key_seq())
    }

    pub fn new() -> (r: DTableHeader)
        ensures
            r.wf(),
            r.keys@.len() == 0,
    {
        let r = DTableHeader { keys: Vec::new(), offsets: Vec::new() };
        assert(r.key_seq() =~= Seq::<Seq<char>>::empty());
        r
    }
}

/// Where a row lies in a disk table's data: its first byte, and its length,
/// or `None` where it runs to the end.
#[derive(Debug)]
pub struct DataRegion {
    pub start: u64,
    pub length: Option<u64>,
}

/// Offsets in order, none past `dlen`.
pub open spec fn offsets_fit(os: Seq<u64>, dlen: int) -> bool {
    &&& forall|i: int, j: int| 0 <= i <= j < os.len() ==> #[trigger] os[i] <= #[trigger] os[j]
    &&& forall|i: int| 0 <= i < os.len() ==> #[trigger] os[i] <= dlen
}

/// `h` is the header of a disk table whose data has `dlen` bytes: sorted
/// keys, one offset each, offsets in order within the data.
pub open spec fn header_fits(h: Seq<u8>, dlen: int) -> bool {
    exists|ks: Seq<Seq<char>>, os: Seq<u64>|
        ks.len() == os.len() && keys_sorted(ks) && h == #[trigger] enc_header(ks, os) && offsets_fit(os, dlen)
}

proof fn lemma_not_fits(h: Seq<u8>, ks: Seq<Seq<char>>, os: Seq<u64>, dlen: int)
    requires
        ks.len() == os.len(),
        h == enc_header(ks, os),
        h.len() <= u64::MAX,
        !offsets_fit(os, dlen),
    ensures
        !header_fits(h, dlen),
{
    if header_fits(h, dlen) {
        let (k2, o2) = choose|k2: Seq<Seq<char>>, o2: Seq<u64>|
            k2.len() == o2.len() && keys_sorted(k2) && h == #[trigger] enc_header(k2, o2) && offsets_fit(o2, dlen);
        crate::codec::lemma_header_injective(ks, os, k2, o2);
    }
}

/// An immutable table of rows sorted by key: the serialized rows one after
/// another, and a header that gives the key and offset of each. The data is
/// held as the bytes of its file.
#[derive(Debug)]
pub struct DTable {
    pub filename: String,
    pub lookup: DTableHeader,
    pub data: Vec<u8>,
}

impl DTable {
    /// Header well formed; offsets in order and within the data.
    pub open spec fn wf(&self) -> bool {
        &&& self.lookup.wf()
        &&& self.data@.len() <= usize::MAX
        &&& forall|i: int, j: int|
            0 <= i <= j < self.lookup.offsets@.len() ==> #[trigger] self.lookup.offsets@[i]
                <= #[trigger] self.lookup.offsets@[j]
        &&& forall|i: int|
            0 <= i < self.lookup.offsets@.len() ==> #[trigger] self.lookup.offsets@[i]
                <= self.data@.len()
    }

    /// Where the `i`th row ends: at the next row's offset, or at the end.
    pub open spec fn region_end(&self, i: int) -> int {
        if i + 1 < self.lookup.offsets@.len() {
            self.lookup.offsets@[i + 1] as int
        } else {
            self.data@.len() as int
        }
    }

    /// The record stored for the `i`th header entry, if its bytes hold one of
    /// that entry's key.
    pub open spec fn record(&self, i: int) -> Option<Record> {
        record_at(self.data@, self.lookup.offsets@[i] as int, self.region_end(i), self.lookup.key_seq()[i])
    }

    /// The row stored under `key`: `None` where the header lacks the key or
    /// its bytes do not hold a record of that key.
    pub open spec fn row_of(&self, key: Seq<char>) -> Option<RowView> {
        let i = index_of(self.lookup.key_seq(), key);
        if i < 0 {
            None
        } else {
            match self.record(i) {
                Some(r) => Some(keyed_map(r.1, r.2)),
                None => None,
            }
        }
    }

    /// The header names `key`, but its bytes do not hold its record.
    pub open spec fn corrupt(&self, key: Seq<char>) -> bool {
        index_of(self.lookup.key_seq(), key) >= 0 && self.row_of(key) is None
    }

    /// Every header entry's bytes hold a record of that entry's key.
    pub open spec fn consistent(&self) -> bool {
        forall|i: int|
            0 <= i < self.lookup.keys@.len() ==> #[trigger] self.record(i) is Some
    }

    /// A disk table from the bytes of its header file and of its data file.
    pub fn new(filename: String, header: &[u8], data: Vec<u8>) -> (r: Result<DTable, TError>)
        ensures
            match r {
                Ok(d) => d.wf() && d.filename@ == filename@ && d.data@ == data@ && header@
                    == enc_header(d.lookup.key_seq(), d.lookup.offsets@),
                Err(e) => e == TError::IoError,
            },
            (r is Ok) == header_fits(header@, data@.len() as int),
    {
        let hlen = header.len();
        assert(header@.len() == hlen);
        let dlen = data.len();
        assert(data@.len() == dlen);
        let (keys, offsets) = match get_header(header) {
            Some(h) => h,
            None => {
                return Err(TError::IoError);
            },
        };
        let ghost ks = key_views(keys@);
        let mut i: usize = 0;
        while i < offsets.len()
            invariant
                i <= offsets@.len(),
                header@ == enc_header(ks, offsets@),
                header@.len() <= u64::MAX,
                ks.len() == offsets@.len(),
                keys_sorted(ks),
                forall|a: int, b: int| 0 <= a <= b < i ==> #[trigger] offsets@[a] <= #[trigger] offsets@[b],
                forall|a: int| 0 <= a < i ==> #[trigger] offsets@[a] <= data@.len(),
            decreases offsets@.len() - i,
        {
            if offsets[i] as u128 > data.len() as u128 {
                proof {
                    lemma_not_fits(header@, ks, offsets@, data@.len() as int);
                }
                return Err(TError::IoError);
            }
            if i > 0 && offsets[i - 1] > offsets[i] {
                proof {
                    lemma_not_fits(header@, ks, offsets@, data@.len() as int);
                }
                return Err(TError::IoError);
            }
            i = i + 1;
        }
        assert(offsets_fit(offsets@, data@.len() as int));
        Ok(DTable { filename, lookup: DTableHeader { keys, offsets }, data })
    }

    /// A disk table from a header already in memory.
    pub fn from_dtableheader(filename: String, header: DTableHeader, data: Vec<u8>) -> (r: DTable)
        ensures
            r.filename@ == filename@,
            r.lookup == header,
            r.data@ == data@,
    {
        DTable { filename, lookup: header, data }
    }

    /// The bytes of the header file.
    pub fn header_bytes(&self) -> (r: Vec<u8>)
        requires
            self.lookup.wf(),
        ensures
            r@ == enc_header(self.lookup.key_seq(), self.lookup.offsets@),
    {
        let mut out: Vec<u8> = Vec::new();
        crate::codec::put_header(&mut out, &self.lookup.keys, &self.lookup.offsets);
        assert(out@ =~= enc_header(self.lookup.key_seq(), self.lookup.offsets@));
        out
    }

    /// The number of rows.
    pub fn len(&self) -> (r: usize)
        ensures
            r == self.lookup.keys@.len(),
    {
        self.lookup.keys.len()
    }

    /// The region of the `index`th row.
    pub fn get_offset_from_index(&self, index: usize) -> (r: DataRegion)
        requires
            self.wf(),
            index < self.lookup.keys@.len(),
        ensures
            r.start == self.lookup.offsets@[index as int],
            match r.length {
                Some(n) => index + 1 < self.lookup.offsets@.len() && n == self.region_end(index as int)
                    - r.start,
                None => index + 1 == self.lookup.offsets@.len(),
            },
    {
        let start = self.lookup.offsets[index];
        let count = self.lookup.offsets.len();
        let length = if index == count - 1 {
            None
        } else {
            Some(self.lookup.offsets[index + 1] - start)
        };
        DataRegion { start, length }
    }

    /// The region of the row with key `key`, by binary search of the header.
    pub fn get_row_offset(&self, key: &str) -> (r: Option<DataRegion>)
        requires
            self.wf(),
        ensures
            match r {
                Some(reg) => {
                    let i = index_of(self.lookup.key_seq(), key@);
                    &&& i >= 0
                    &&& reg.start == self.lookup.offsets@[i]
                    &&& match reg.length {
                        Some(n) => i + 1 < self.lookup.offsets@.len() && n == self.region_end(i) - reg.start,
                        None => i + 1 == self.lookup.offsets@.len(),
                    }
                },
                None => index_of(self.lookup.key_seq(), key@) < 0,
            },
    {
        proof {
            lemma_index_of(self.lookup.key_seq(), key@);
        }
        match search_keys(&self.lookup.keys, key) {
            Ok(i) => {
                assert(self.lookup.key_seq()[i as int] == key@);
                Some(self.get_offset_from_index(i))
            },
            Err(i) => {
                proof {
                    if index_of(self.lookup.key_seq(), key@) >= 0 {
                        let j = index_of(self.lookup.key_seq(), key@);
                        crate::keys::lemma_key_lt_irreflexive(key@);
                        assert(self.lookup.keys@[j]@ == key@);
                    }
                }
                None
            },
        }
    }

    /// Reads and decodes the row with key `key`.
    pub fn get_row(&self, key: &str) -> (r: Result<DRow, TError>)
        requires
            self.wf(),
        ensures
            match r {
                Ok(row) => row.wf() && self.row_of(key@) == Some(row@),
                Err(e) => (e == TError::NotFound && index_of(self.lookup.key_seq(), key@) < 0) || (e
                    == TError::IoError && self.corrupt(key@)),
            },
    {
        let region = match self.get_row_offset(key) {
            Some(reg) => reg,
            None => {
                return Err(TError::NotFound);
            },
        };
        let ghost i = index_of(self.lookup.key_seq(), key@);
        let dlen = self.data.len();
        assert(region.start <= dlen);
        assert(i + 1 < self.lookup.offsets@.len() ==> self.lookup.offsets@[i + 1] <= dlen);
        let start = region.start as usize;
        let end = match region.length {
            Some(n) => (region.start + n) as usize,
            None => self.data.len(),
        };
        assert(end == self.region_end(i));
        let ghost rec = record_at(self.data@, start as int, end as int, key@);
        proof {
            lemma_index_of(self.lookup.key_seq(), key@);
        }
        proof {
            if let Some(r) = rec {
                assert(self.data@.subrange(start as int, end as int) =~= self.data@.subrange(
                    start as int,
                    start + enc_record(r.0, r.1, r.2).len(),
                ));
            }
        }
        match get_record(self.data.as_slice(), start, Ghost(rec)) {
            Some((k, row, stop)) => {
                if stop == end {
                    match compare_keys(k.as_str(), key) {
                        KeyOrder::Equal => {
                            proof {
                                let w: Record = (k@, row.names(), row.column_views());
                                assert(valid_record(w));
                                assert(self.data@.subrange(start as int, end as int) == enc_record(w.0, w.1, w.2));
                            }
                            return Ok(row);
                        },
                        _ => {},
                    }
                }
                Err(TError::IoError)
            },
            None => Err(TError::IoError),
        }
    }

    /// For each of `cols`, the entry of row `row` that a read at `timestamp`
    /// sees; `None` where the row cannot be read.
    pub fn select(&self, row: &str, cols: &[&str], timestamp: u64) -> (r: Option<Vec<Option<DEntry>>>)
        requires
            self.wf(),
        ensures
            match r {
                Some(v) => self.row_of(row@) is Some && v@.len() == cols@.len() && forall|i: int|
                    0 <= i < cols@.len() ==> opt_view(#[trigger] v@[i]) == read_column(
                        self.row_of(row@)->Some_0,
                        cols@[i]@,
                        timestamp,
                    ),
                None => self.row_of(row@) is None,
            },
    {
        let drow = match self.get_row(row) {
            Ok(d) => d,
            Err(_) => {
                return None;
            },
        };
        Some(select_in_row(&drow, cols, timestamp))
    }

    /// The newest value of column `col` of row `row`.
    pub fn select_one(&self, row: &str, col: &str) -> (r: Option<Vec<u8>>)
        requires
            self.wf(),
        ensures
            match r {
                Some(v) => self.row_of(row@) is Some && (read_column(self.row_of(row@)->Some_0, col@, u64::MAX)
                    matches Some(e) && e.1 == v@),
                None => self.row_of(row@) is None || read_column(self.row_of(row@)->Some_0, col@, u64::MAX)
                    is None,
            },
    {
        let drow = match self.get_row(row) {
            Ok(d) => d,
            Err(_) => {
                return None;
            },
        };
        match drow.get_value(col, u64::MAX) {
            Ok(e) => Some(e.value),
            Err(_) => None,
        }
    }
}

/// A disk table whose data is the given chunks one after another, each
/// header offset the start of its chunk, is well formed, and each row's
/// region is its chunk.
pub proof fn lemma_chunked_table(d: &DTable, chunks: Seq<Seq<u8>>)
    requires
        d.lookup.wf(),
        chunks.len() == d.lookup.keys@.len(),
        d.data@ == concat(chunks, bytes_code()),
        d.data@.len() <= usize::MAX,
        forall|i: int|
            0 <= i < chunks.len() ==> #[trigger] d.lookup.offsets@[i] == concat(chunks.take(i), bytes_code()).len(),
    ensures
        d.wf(),
        forall|i: int|
            0 <= i < chunks.len() ==> d.data@.subrange(d.lookup.offsets@[i] as int, #[trigger] d.region_end(i))
                == chunks[i],
{
    let n = chunks.len();
    assert(chunks.take(n as int) =~= chunks);
    assert forall|i: int, j: int| 0 <= i <= j < d.lookup.offsets@.len() implies #[trigger] d.lookup.offsets@[i]
        <= #[trigger] d.lookup.offsets@[j] by {
        lemma_prefix_len(chunks, i, j);
    }
    assert forall|i: int| 0 <= i < d.lookup.offsets@.len() implies #[trigger] d.lookup.offsets@[i]
        <= d.data@.len() by {
        lemma_prefix_len(chunks, i, n as int);
    }
    assert forall|i: int| 0 <= i < chunks.len() implies d.data@.subrange(
        d.lookup.offsets@[i] as int,
        #[trigger] d.region_end(i),
    ) == chunks[i] by {
        lemma_prefix_len(chunks, i, i + 1);
        lemma_prefix_len(chunks, i, n as int);
        crate::codec::lemma_concat_push(chunks.take(i), chunks[i], bytes_code());
        assert(chunks.take(i + 1) =~= chunks.take(i).push(chunks[i]));
    }
}

/// The header of `t` names `k`.
pub open spec fn table_has(t: DTable, k: Seq<char>) -> bool {
    t.lookup.key_seq().contains(k)
}

/// The bytes that `t` holds for key `k`.
pub open spec fn region_of(t: DTable, k: Seq<char>) -> Seq<u8> {
    let i = index_of(t.lookup.key_seq(), k);
    t.data@.subrange(t.lookup.offsets@[i] as int, t.region_end(i))
}

/// What a merge of `a` and `b` stores for key `k`: the bytes of the one
/// table that has it, or, where both have it, a record of the merge of the
/// two rows.
pub open spec fn merged_chunk(c: Seq<u8>, k: Seq<char>, a: DTable, b: DTable) -> bool {
    if table_has(a, k) && table_has(b, k) {
        a.row_of(k) is Some && b.row_of(k) is Some && exists|r: Record|
            valid_record(r) && r.0 == k && c == #[trigger] enc_record(r.0, r.1, r.2) && merges(
                keyed_map(r.1, r.2),
                a.row_of(k)->Some_0,
                b.row_of(k)->Some_0,
            ) && keyed_map(r.1, r.2) == row_merge(a.row_of(k)->Some_0, b.row_of(k)->Some_0)
    } else if table_has(a, k) {
        c == region_of(a, k)
    } else {
        c == region_of(b, k)
    }
}

/// `d` merges disk tables `a` and `b`: it has the keys of both, and holds for
/// each what `merged_chunk` says.
pub open spec fn merges_tables(d: DTable, a: DTable, b: DTable) -> bool {
    &&& forall|k: Seq<char>| #[trigger] table_has(d, k) == (table_has(a, k) || table_has(b, k))
    &&& forall|i: int|
        0 <= i < d.lookup.keys@.len() ==> merged_chunk(
            d.data@.subrange(d.lookup.offsets@[i] as int, #[trigger] d.region_end(i)),
            d.lookup.key_seq()[i],
            a,
            b,
        )
}

/// The state of a merge of two sorted key lists after `i` keys of `xs` and
/// `j` of `ys` are done.
pub open spec fn union_progress(out: Seq<Seq<char>>, xs: Seq<Seq<char>>, ys: Seq<Seq<char>>, i: int, j: int) -> bool {
    &&& keys_sorted(out)
    &&& 0 <= i <= xs.len()
    &&& 0 <= j <= ys.len()
    &&& forall|p: int, q: int| 0 <= p < out.len() && i <= q < xs.len() ==> key_lt(#[trigger] out[p], #[trigger] xs[q])
    &&& forall|p: int, q: int| 0 <= p < out.len() && j <= q < ys.len() ==> key_lt(#[trigger] out[p], #[trigger] ys[q])
    &&& forall|x: Seq<char>| #[trigger] out.contains(x) == (xs.take(i).contains(x) || ys.take(j).contains(x))
}

proof fn lemma_union_step(
    out: Seq<Seq<char>>,
    xs: Seq<Seq<char>>,
    ys: Seq<Seq<char>>,
    i: int,
    j: int,
    i2: int,
    j2: int,
    k: Seq<char>,
)
    requires
        union_progress(out, xs, ys, i, j),
        keys_sorted(xs),
        keys_sorted(ys),
        (i2 == i + 1 && i < xs.len() && xs[i] == k) || (i2 == i && (i < xs.len() ==> key_lt(k, xs[i]))),
        (j2 == j + 1 && j < ys.len() && ys[j] == k) || (j2 == j && (j < ys.len() ==> key_lt(k, ys[j]))),
        i2 == i + 1 || j2 == j + 1,
    ensures
        union_progress(out.push(k), xs, ys, i2, j2),
        forall|p: int| 0 <= p < out.len() ==> key_lt(#[trigger] out[p], k),
{
    let o2 = out.push(k);
    assert forall|p: int| 0 <= p < out.len() implies key_lt(#[trigger] out[p], k) by {
        if i2 == i + 1 {
            assert(key_lt(out[p], xs[i]));
        } else {
            assert(key_lt(out[p], ys[j]));
        }
    }
    assert forall|p: int, q: int| 0 <= p < q < o2.len() implies key_lt(#[trigger] o2[p], #[trigger] o2[q]) by {
        if q < out.len() {
            assert(o2[p] == out[p] && o2[q] == out[q]);
        } else {
            assert(o2[p] == out[p]);
        }
    }
    assert forall|p: int, q: int| 0 <= p < o2.len() && i2 <= q < xs.len() implies key_lt(#[trigger] o2[p], #[trigger] xs[q]) by {
        if p < out.len() {
            assert(o2[p] == out[p]);
        } else if i2 == i && q > i {
            lemma_key_lt_transitive(k, xs[i], xs[q]);
        }
    }
    assert forall|p: int, q: int| 0 <= p < o2.len() && j2 <= q < ys.len() implies key_lt(#[trigger] o2[p], #[trigger] ys[q]) by {
        if p < out.len() {
            assert(o2[p] == out[p]);
        } else if j2 == j && q > j {
            lemma_key_lt_transitive(k, ys[j], ys[q]);
        }
    }
    assert forall|x: Seq<char>| #[trigger] o2.contains(x) == (xs.take(i2).contains(x) || ys.take(j2).contains(x)) by {
        if i2 == i + 1 {
            lemma_take_next(xs, i, x);
        }
        if j2 == j + 1 {
            lemma_take_next(ys, j, x);
        }
        if o2.contains(x) && x != k {
            let p = choose|p: int| 0 <= p < o2.len() && #[trigger] o2[p] == x;
            assert(out[p] == x);
        }
        if out.contains(x) {
            let p = choose|p: int| 0 <= p < out.len() && #[trigger] out[p] == x;
            assert(o2[p] == x);
        }
        assert(o2[out.len() as int] == k);
    }
}

/// A key above every key done so far, and below the rest of `ys` from `j`
/// on, is not in `ys`.
proof fn lemma_not_in(out: Seq<Seq<char>>, ys: Seq<Seq<char>>, j: int, k: Seq<char>)
    requires
        0 <= j <= ys.len(),
        forall|x: Seq<char>| ys.take(j).contains(x) ==> #[trigger] out.contains(x),
        forall|p: int| 0 <= p < out.len() ==> key_lt(#[trigger] out[p], k),
        forall|q: int| j <= q < ys.len() ==> key_lt(k, #[trigger] ys[q]),
    ensures
        !ys.contains(k),
{
    lemma_key_lt_irreflexive(k);
    if ys.contains(k) {
        let q = choose|q: int| 0 <= q < ys.len() && #[trigger] ys[q] == k;
        if q < j {
            assert(ys.take(j)[q] == k);
            assert(ys.take(j).contains(k));
            assert(out.contains(k));
            let p = choose|p: int| 0 <= p < out.len() && #[trigger] out[p] == k;
            assert(key_lt(out[p], k));
        } else {
            assert(key_lt(k, ys[q]));
        }
    }
}

/// The record of the merge of the rows that `a` and `b` hold under the
/// key `a.lookup.keys[i]`, which is `b.lookup.keys[j]` too.
fn merged_record(a: &DTable, b: &DTable, i: usize, j: usize) -> (r: Result<Vec<u8>, TError>)
    requires
        a.wf(),
        b.wf(),
        i < a.lookup.keys@.len(),
        j < b.lookup.keys@.len(),
        a.lookup.key_seq()[i as int] == b.lookup.key_seq()[j as int],
    ensures
        match r {
            Ok(v) => merged_chunk(v@, a.lookup.key_seq()[i as int], *a, *b),
            Err(e) => e == TError::IoError && (a.corrupt(a.lookup.key_seq()[i as int]) || b.corrupt(
                a.lookup.key_seq()[i as int],
            )),
        },
{
    let ghost k = a.lookup.key_seq()[i as int];
    proof {
        lemma_index_of(a.lookup.key_seq(), k);
        lemma_index_of(b.lookup.key_seq(), k);
        assert(table_has(*a, k) && table_has(*b, k));
    }
    let ra = match a.get_row(a.lookup.keys[i].as_str()) {
        Ok(r) => r,
        Err(_) => {
            return Err(TError::IoError);
        },
    };
    let rb = match b.get_row(a.lookup.keys[i].as_str()) {
        Ok(r) => r,
        Err(_) => {
            return Err(TError::IoError);
        },
    };
    let m = merge_rows(&ra, &rb);
    let mut out: Vec<u8> = Vec::new();
    put_record(&mut out, a.lookup.keys[i].as_str(), &m);
    proof {
        let w: Record = (k, m.names(), m.column_views());
        assert(valid_record(w));
        assert(keyed_map(w.1, w.2) == m@);
        assert(out@ =~= enc_record(w.0, w.1, w.2));
    }
    Ok(out)
}

/// The bytes that `t` holds for its `i`th key.
fn copied_region(t: &DTable, i: usize) -> (r: Vec<u8>)
    requires
        t.wf(),
        i < t.lookup.keys@.len(),
    ensures
        r@ == region_of(*t, t.lookup.key_seq()[i as int]),
{
    proof {
        lemma_index_of(t.lookup.key_seq(), t.lookup.key_seq()[i as int]);
    }
    let (start, end) = table_region(t, i);
    copy_range(t.data.as_slice(), start, end)
}

/// Merges two disk tables into one (see `merges_tables`): keys in one table
/// only keep their bytes; rows under a key in both are decoded, merged and
/// written anew. Fails with `IoError` where such a row cannot be read.
pub fn merge_tables(a: &DTable, b: &DTable, filename: String) -> (r: Result<DTable, TError>)
    requires
        a.wf(),
        b.wf(),
    ensures
        match r {
            Ok(d) => d.wf() && d.filename@ == filename@ && merges_tables(d, *a, *b) && d.data@.len()
                <= usize::MAX,
            Err(e) => e == TError::IoError && exists|k: Seq<char>|
                table_has(*a, k) && table_has(*b, k) && (a.corrupt(k) || b.corrupt(k)),
        },
{
    let ghost xs = a.lookup.key_seq();
    let ghost ys = b.lookup.key_seq();
    let mut data: Vec<u8> = Vec::new();
    let mut keys: Vec<String> = Vec::new();
    let mut offsets: Vec<u64> = Vec::new();
    let ghost mut chunks: Seq<Seq<u8>> = Seq::empty();
    let mut i: usize = 0;
    let mut j: usize = 0;
    let na = a.lookup.keys.len();
    let nb = b.lookup.keys.len();
    proof {
        assert(xs.take(0) =~= Seq::<Seq<char>>::empty());
        assert(ys.take(0) =~= Seq::<Seq<char>>::empty());
        assert(key_views(keys@) =~= Seq::<Seq<char>>::empty());
        assert(data@ =~= concat(chunks, bytes_code()));
    }
    while i < na || j < nb
        invariant
            a.wf(),
            b.wf(),
            xs == a.lookup.key_seq(),
            ys == b.lookup.key_seq(),
            na == xs.len(),
            nb == ys.len(),
            union_progress(key_views(keys@), xs, ys, i as int, j as int),
            keys@.len() == offsets@.len(),
            chunks.len() == keys@.len(),
            data@ == concat(chunks, bytes_code()),
            forall|p: int| 0 <= p < chunks.len() ==> #[trigger] offsets@[p] == concat(chunks.take(p), bytes_code()).len(),
            forall|p: int| 0 <= p < chunks.len() ==> merged_chunk(#[trigger] chunks[p], key_views(keys@)[p], *a, *b),
        decreases na - i + nb - j,
    {
        let ghost out = key_views(keys@);
        let ghost old_chunks = chunks;
        let ghost old_offsets = offsets@;
        let order = if i >= na {
            KeyOrder::Greater
        } else if j >= nb {
            KeyOrder::Less
        } else {
            compare_keys(a.lookup.keys[i].as_str(), b.lookup.keys[j].as_str())
        };
        let ghost k: Seq<char>;
        let (piece, key) = match order {
            KeyOrder::Less => {
                proof {
                    k = xs[i as int];
                    lemma_index_of(xs, k);
                    assert forall|q: int| j <= q < ys.len() implies key_lt(k, #[trigger] ys[q]) by {
                        if q > j {
                            lemma_key_lt_transitive(k, ys[j as int], ys[q]);
                        }
                    }
                    lemma_union_step(out, xs, ys, i as int, j as int, i + 1, j as int, k);
                    lemma_not_in(out, ys, j as int, k);
                }
                let piece = copied_region(a, i);
                let key = a.lookup.keys[i].clone();
                i = i + 1;
                (piece, key)
            },
            KeyOrder::Greater => {
                proof {
                    k = ys[j as int];
                    lemma_index_of(ys, k);
                    assert forall|q: int| i <= q < xs.len() implies key_lt(k, #[trigger] xs[q]) by {
                        if q > i {
                            lemma_key_lt_transitive(k, xs[i as int], xs[q]);
                        }
                    }
                    lemma_union_step(out, xs, ys, i as int, j as int, i as int, j + 1, k);
                    lemma_not_in(out, xs, i as int, k);
                }
                let piece = copied_region(b, j);
                let key = b.lookup.keys[j].clone();
                j = j + 1;
                (piece, key)
            },
            KeyOrder::Equal => {
                proof {
                    k = xs[i as int];
                    lemma_union_step(out, xs, ys, i as int, j as int, i + 1, j + 1, k);
                }
                let piece = match merged_record(a, b, i, j) {
                    Ok(v) => v,
                    Err(e) => {
                        proof {
                            assert(xs[i as int] == k);
                            assert(ys[j as int] == k);
                            assert(table_has(*a, k) && table_has(*b, k));
                        }
                        return Err(e);
                    },
                };
                let key = a.lookup.keys[i].clone();
                i = i + 1;
                j = j + 1;
                (piece, key)
            },
        };
        assert(key@ == k);
        assert(merged_chunk(piece@, k, *a, *b));
        let offset = data.len() as u64;
        append_bytes(&mut data, piece.as_slice());
        keys.push(key);
        offsets.push(offset);
        proof {
            chunks = old_chunks.push(piece@);
            lemma_concat_push(old_chunks, piece@, bytes_code());
            assert(key_views(keys@) =~= out.push(k));
            assert forall|p: int| 0 <= p < chunks.len() implies #[trigger] offsets@[p] == concat(
                chunks.take(p),
                bytes_code(),
            ).len() by {
                if p < old_chunks.len() {
                    assert(chunks.take(p) =~= old_chunks.take(p));
                    assert(offsets@[p] == old_offsets[p]);
                } else {
                    assert(chunks.take(p) =~= old_chunks);
                }
            }
            assert forall|p: int| 0 <= p < chunks.len() implies merged_chunk(
                #[trigger] chunks[p],
                key_views(keys@)[p],
                *a,
                *b,
            ) by {
                if p < old_chunks.len() {
                    assert(chunks[p] == old_chunks[p]);
                    assert(key_views(keys@)[p] == out[p]);
                }
            }
        }
    }
    let dlen = data.len();
    let d = DTable { filename, lookup: DTableHeader { keys, offsets }, data };
    proof {
        assert(d.data@.len() == dlen);
        assert(xs.take(i as int) =~= xs);
        assert(ys.take(j as int) =~= ys);
        lemma_chunked_table(&d, chunks);
        assert forall|k: Seq<char>| #[trigger] table_has(d, k) == (table_has(*a, k) || table_has(*b, k)) by {}
    }
    Ok(d)
}

/// The row that a table stores under its `i`th key, where its region is the
/// record `r`.
pub proof fn lemma_region_row(d: DTable, i: int, r: Record)
    requires
        d.wf(),
        0 <= i < d.lookup.keys@.len(),
        valid_record(r),
        r.0 == d.lookup.key_seq()[i],
        d.data@.subrange(d.lookup.offsets@[i] as int, d.region_end(i)) == enc_record(r.0, r.1, r.2),
    ensures
        d.row_of(r.0) == Some(keyed_map(r.1, r.2)),
{
    lemma_index_of(d.lookup.key_seq(), r.0);
    assert(d.lookup.key_seq().len() == d.lookup.keys@.len());
    assert(index_of(d.lookup.key_seq(), r.0) == i);
    let c = d.data@.subrange(d.lookup.offsets@[i] as int, d.region_end(i));
    assert(d.record(i) is Some);
    let q = d.record(i)->Some_0;
    assert(valid_record(q) && q.0 == r.0 && c == enc_record(q.0, q.1, q.2));
    crate::codec::lemma_record_injective(q.0, q.1, q.2, r.0, r.1, r.2);
}

/// The rows of a merge of two tables: under a key of one table only, that
/// table's row; under a key of both, a merge of their rows.
pub proof fn lemma_merged_rows(d: DTable, a: DTable, b: DTable, k: Seq<char>)
    requires
        d.wf(),
        a.wf(),
        b.wf(),
        merges_tables(d, a, b),
        table_has(d, k),
    ensures
        table_has(a, k) && table_has(b, k) ==> d.row_of(k) is Some && merges(
            d.row_of(k)->Some_0,
            a.row_of(k)->Some_0,
            b.row_of(k)->Some_0,
        ) && d.row_of(k) == Some(row_merge(a.row_of(k)->Some_0, b.row_of(k)->Some_0)),
        table_has(a, k) && !table_has(b, k) ==> d.row_of(k) == a.row_of(k),
        !table_has(a, k) && table_has(b, k) ==> d.row_of(k) == b.row_of(k),
{
    lemma_index_of(d.lookup.key_seq(), k);
    assert(d.lookup.key_seq().len() == d.lookup.keys@.len());
    let i = index_of(d.lookup.key_seq(), k);
    let c = d.data@.subrange(d.lookup.offsets@[i] as int, d.region_end(i));
    assert(merged_chunk(c, k, a, b));
    if table_has(a, k) && table_has(b, k) {
        let r = choose|r: Record|
            valid_record(r) && r.0 == k && c == #[trigger] enc_record(r.0, r.1, r.2) && merges(
                keyed_map(r.1, r.2),
                a.row_of(k)->Some_0,
                b.row_of(k)->Some_0,
            ) && keyed_map(r.1, r.2) == row_merge(a.row_of(k)->Some_0, b.row_of(k)->Some_0);
        lemma_region_row(d, i, r);
    } else {
        let t = if table_has(a, k) { a } else { b };
        lemma_index_of(t.lookup.key_seq(), k);
        let j = index_of(t.lookup.key_seq(), k);
        assert(c == t.data@.subrange(t.lookup.offsets@[j] as int, t.region_end(j)));
        assert(d.record(i) == t.record(j));
    }
}

/// A merge of two consistent disk tables is consistent.
pub proof fn lemma_merge_consistent(d: DTable, a: DTable, b: DTable)
    requires
        d.wf(),
        a.wf(),
        b.wf(),
        a.consistent(),
        b.consistent(),
        merges_tables(d, a, b),
    ensures
        d.consistent(),
{
    assert forall|p: int| 0 <= p < d.lookup.keys@.len() implies #[trigger] d.record(p) is Some by {
        let k = d.lookup.key_seq()[p];
        let c = d.data@.subrange(d.lookup.offsets@[p] as int, d.region_end(p));
        assert(merged_chunk(c, k, a, b));
        assert(d.lookup.key_seq().len() == d.lookup.keys@.len());
        assert(table_has(d, k));
        if table_has(a, k) && table_has(b, k) {
            let r = choose|r: Record|
                valid_record(r) && r.0 == k && c == #[trigger] enc_record(r.0, r.1, r.2) && merges(
                    keyed_map(r.1, r.2),
                    a.row_of(k)->Some_0,
                    b.row_of(k)->Some_0,
                );
            assert(valid_record(r) && r.0 == k && c == enc_record(r.0, r.1, r.2));
        } else if table_has(a, k) {
            lemma_region_record(a, k);
        } else {
            lemma_region_record(b, k);
        }
    }
}

/// In a consistent table, the bytes of a key it has hold a record of it.
proof fn lemma_region_record(t: DTable, k: Seq<char>)
    requires
        t.consistent(),
        table_has(t, k),
    ensures
        exists|r: Record| valid_record(r) && r.0 == k && region_of(t, k) == #[trigger] enc_record(r.0, r.1, r.2),
{
    lemma_index_of(t.lookup.key_seq(), k);
    let i = index_of(t.lookup.key_seq(), k);
    assert(t.lookup.key_seq().len() == t.lookup.keys@.len());
    assert(t.record(i) is Some);
    let r = t.record(i)->Some_0;
    assert(valid_record(r) && r.0 == k && region_of(t, k) == enc_record(r.0, r.1, r.2));
}

/// A consistent disk table has nothing corrupt.
pub proof fn lemma_consistent_not_corrupt(t: DTable, k: Seq<char>)
    requires
        t.consistent(),
    ensures
        !t.corrupt(k),
{
    lemma_index_of(t.lookup.key_seq(), k);
    let i = index_of(t.lookup.key_seq(), k);
    if i >= 0 {
        assert(t.record(i) is Some);
    }
}

/// A row, or the empty row where there is none.
pub open spec fn row_or_empty(o: Option<RowView>) -> RowView {
    match o {
        Some(r) => r,
        None => Map::empty(),
    }
}

/// The rows that the tables store under key `k`, the empty row for each
/// table that lacks it.
pub open spec fn rows_of(tables: Seq<DTable>, k: Seq<char>) -> Seq<RowView> {
    tables.map_values(|t: DTable| row_or_empty(t.row_of(k)))
}

proof fn lemma_merges_empty(m: RowView)
    ensures
        merges(m, m, Map::empty()),
        merges(m, Map::empty(), m),
{
    assert forall|k: Seq<char>| m.contains_key(k) implies (#[trigger] m[k]).to_multiset() == col_or_empty(m, k).to_multiset().add(
        col_or_empty(Map::<Seq<char>, Seq<EntryView>>::empty(), k).to_multiset(),
    ) && m[k].to_multiset() == col_or_empty(Map::<Seq<char>, Seq<EntryView>>::empty(), k).to_multiset().add(
        col_or_empty(m, k).to_multiset(),
    ) by {
        let x = m[k];
        assert(col_or_empty(Map::<Seq<char>, Seq<EntryView>>::empty(), k) =~= Seq::<EntryView>::empty());
        vstd::seq_lib::lemma_multiset_commutative(x, Seq::<EntryView>::empty());
        vstd::seq_lib::lemma_multiset_commutative(Seq::<EntryView>::empty(), x);
        assert(x + Seq::<EntryView>::empty() =~= x);
        assert(Seq::<EntryView>::empty() + x =~= x);
    }
}

/// Where no table has key `k`, the empty row merges their rows.
proof fn lemma_merges_all_none(tables: Seq<DTable>, k: Seq<char>)
    requires
        forall|i: int| 0 <= i < tables.len() ==> !table_has(#[trigger] tables[i], k),
    ensures
        merges_all(Map::empty(), rows_of(tables, k)),
{
    let rows = rows_of(tables, k);
    assert forall|i: int| 0 <= i < rows.len() implies #[trigger] rows[i] == Map::<Seq<char>, Seq<EntryView>>::empty() by {
        lemma_index_of(tables[i].lookup.key_seq(), k);
    }
    assert forall|c: Seq<char>| !in_any(rows, c) by {
        if in_any(rows, c) {
            let i = choose|i: int| 0 <= i < rows.len() && (#[trigger] rows[i]).contains_key(c);
        }
    }
}

/// Only table `s` of `tables` has key `k`.
pub open spec fn sole_table(tables: Seq<DTable>, k: Seq<char>, s: int) -> bool {
    &&& 0 <= s < tables.len()
    &&& table_has(tables[s], k)
    &&& forall|j: int| 0 <= j < tables.len() && j != s ==> !table_has(#[trigger] tables[j], k)
}

/// The bytes that a merge of two tables holds for one of its keys.
proof fn lemma_merged_region(d: DTable, a: DTable, b: DTable, k: Seq<char>)
    requires
        merges_tables(d, a, b),
        table_has(d, k),
    ensures
        merged_chunk(region_of(d, k), k, a, b),
{
    lemma_index_of(d.lookup.key_seq(), k);
    assert(d.lookup.key_seq().len() == d.lookup.keys@.len());
    let i = index_of(d.lookup.key_seq(), k);
    assert(d.lookup.key_seq()[i] == k);
}

proof fn lemma_sole_table_step(d: DTable, acc: DTable, t: DTable, tables: Seq<DTable>, i: int)
    requires
        0 <= i < tables.len(),
        t == tables[i],
        merges_tables(d, acc, t),
        forall|k: Seq<char>| #[trigger] table_has(acc, k) == any_has(tables.take(i), k),
        forall|k: Seq<char>, s: int| #[trigger] sole_table(tables.take(i), k, s) ==> region_of(acc, k) == region_of(
            tables[s],
            k,
        ),
    ensures
        forall|k: Seq<char>, s: int| #[trigger] sole_table(tables.take(i + 1), k, s) ==> region_of(d, k) == region_of(
            tables[s],
            k,
        ),
{
    assert forall|k: Seq<char>, s: int| #[trigger] sole_table(tables.take(i + 1), k, s) implies region_of(d, k)
        == region_of(tables[s], k) by {
        let tk = tables.take(i + 1);
        assert(tk[i] == tables[i]);
        assert(tk[s] == tables[s]);
        if s < i {
            assert(!table_has(t, k));
            assert(sole_table(tables.take(i), k, s)) by {
                assert forall|j: int| 0 <= j < tables.take(i).len() && j != s implies !table_has(
                    #[trigger] tables.take(i)[j],
                    k,
                ) by {
                    assert(tables.take(i)[j] == tk[j]);
                }
                assert(tables.take(i)[s] == tk[s]);
            }
            assert(any_has(tables.take(i), k)) by {
                assert(table_has(tables.take(i)[s], k));
            }
            assert(table_has(acc, k));
            assert(table_has(d, k));
            lemma_merged_region(d, acc, t, k);
            assert(tables.take(i)[s] == tables[s]);
        } else {
            assert(!any_has(tables.take(i), k)) by {
                if any_has(tables.take(i), k) {
                    let j = choose|j: int| 0 <= j < tables.take(i).len() && table_has(#[trigger] tables.take(i)[j], k);
                    assert(tables.take(i)[j] == tk[j]);
                }
            }
            assert(!table_has(acc, k));
            assert(table_has(d, k));
            lemma_merged_region(d, acc, t, k);
        }
    }
}

/// Some of the tables has key `k`.
pub open spec fn any_has(tables: Seq<DTable>, k: Seq<char>) -> bool {
    exists|i: int| 0 <= i < tables.len() && table_has(#[trigger] tables[i], k)
}

impl DTable {
    /// A disk table with no rows.
    pub fn empty(filename: String) -> (r: DTable)
        ensures
            r.wf(),
            r.consistent(),
            r.filename@ == filename@,
            r.lookup.keys@.len() == 0,
            r.data@.len() == 0,
    {
        DTable { filename, lookup: DTableHeader::new(), data: Vec::new() }
    }

    /// Merges any number of disk tables into one, named `filename`, that has
    /// the keys of them all (see `merge_tables`). It succeeds where every table
    /// is consistent, and the result is then consistent too.
    pub fn from_vec(filename: &str, tables: &[DTable]) -> (r: Result<DTable, TError>)
        requires
            forall|i: int| 0 <= i < tables@.len() ==> (#[trigger] tables@[i]).wf(),
        ensures
            match r {
                Ok(d) => d.wf() && d.filename@ == filename@ && (forall|k: Seq<char>|
                    #[trigger] table_has(d, k) == any_has(tables@, k)) && forall|k: Seq<char>, s: int|
                    #[trigger] sole_table(tables@, k, s) ==> region_of(d, k) == region_of(tables@[s], k),
                Err(e) => e == TError::IoError,
            },
            (forall|i: int| 0 <= i < tables@.len() ==> (#[trigger] tables@[i]).consistent()) ==> (r
                matches Ok(d) && d.consistent() && d.data@.len() <= usize::MAX && forall|k: Seq<char>|
                #[trigger] table_has(d, k) ==> d.row_of(k) is Some && merges_all(
                d.row_of(k)->Some_0,
                rows_of(tables@, k),
            ) && d.row_of(k) == Some(row_merge_all(rows_of(tables@, k)))),
    {
        let ghost all_ok = forall|i: int| 0 <= i < tables@.len() ==> (#[trigger] tables@[i]).consistent();
        let mut acc = DTable::empty(filename.to_string());
        let mut i: usize = 0;
        proof {
            assert forall|k: Seq<char>| #[trigger] table_has(acc, k) == any_has(tables@.take(0), k) by {}
        }
        while i < tables.len()
            invariant
                i <= tables@.len(),
                forall|i: int| 0 <= i < tables@.len() ==> (#[trigger] tables@[i]).wf(),
                all_ok == forall|i: int| 0 <= i < tables@.len() ==> (#[trigger] tables@[i]).consistent(),
                acc.wf(),
                acc.filename@ == filename@,
                all_ok ==> acc.consistent(),
                all_ok ==> acc.data@.len() <= usize::MAX,
                all_ok ==> forall|k: Seq<char>| #[trigger] table_has(acc, k) ==> acc.row_of(k) is Some
                    && merges_all(acc.row_of(k)->Some_0, rows_of(tables@, k).take(i as int)),
                all_ok ==> forall|k: Seq<char>| #[trigger] table_has(acc, k) ==> acc.row_of(k) == Some(
                    row_merge_all(rows_of(tables@, k).take(i as int)),
                ),
                forall|k: Seq<char>| #[trigger] table_has(acc, k) == any_has(tables@.take(i as int), k),
                forall|k: Seq<char>, s: int| #[trigger] sole_table(tables@.take(i as int), k, s) ==> region_of(acc, k)
                    == region_of(tables@[s], k),
            decreases tables@.len() - i,
        {
            let t = &tables[i];
            let merged = merge_tables(&acc, t, filename.to_string());
            match merged {
                Ok(d) => {
                    proof {
                        if all_ok {
                            lemma_merge_consistent(d, acc, *t);
                            lemma_fold_rows(d, acc, *t, tables@, i as int);
                            lemma_fold_rows_exact(d, acc, *t, tables@, i as int);
                        }
                        lemma_sole_table_step(d, acc, *t, tables@, i as int);
                        let tk = tables@.take(i + 1);
                        assert forall|k: Seq<char>| #[trigger] table_has(d, k) == any_has(tk, k) by {
                            if any_has(tables@.take(i as int), k) {
                                let q = choose|q: int| 0 <= q < i && table_has(#[trigger] tables@.take(i as int)[q], k);
                                assert(tk[q] == tables@.take(i as int)[q]);
                            }
                            if any_has(tk, k) {
                                let q = choose|q: int| 0 <= q < i + 1 && table_has(#[trigger] tk[q], k);
                                if q < i {
                                    assert(tables@.take(i as int)[q] == tk[q]);
                                }
                            }
                            if table_has(*t, k) {
                                assert(tk[i as int] == *t);
                            }
                        }
                    }
                    acc = d;
                },
                Err(e) => {
                    proof {
                        if all_ok {
                            let k = choose|k: Seq<char>|
                                table_has(acc, k) && table_has(*t, k) && (acc.corrupt(k) || t.corrupt(k));
                            lemma_consistent_not_corrupt(acc, k);
                            lemma_consistent_not_corrupt(*t, k);
                        }
                    }
                    return Err(e);
                },
            }
            i = i + 1;
        }
        assert(tables@.take(i as int) =~= tables@);
        proof {
            assert forall|k: Seq<char>| #[trigger] table_has(acc, k) implies rows_of(tables@, k).take(i as int)
                == rows_of(tables@, k) by {
                assert(rows_of(tables@, k).take(i as int) =~= rows_of(tables@, k));
            }
        }
        Ok(acc)
    }
}

proof fn lemma_row_merge_unit(x: RowView)
    ensures
        row_merge(x, Map::empty()) == x,
        row_merge(Map::empty(), x) == x,
{
    assert(row_merge(x, Map::empty()) =~= x);
    assert(row_merge(Map::empty(), x) =~= x);
}

proof fn lemma_row_merge_all_empty(rows: Seq<RowView>)
    requires
        forall|i: int| 0 <= i < rows.len() ==> #[trigger] rows[i] == Map::<Seq<char>, Seq<EntryView>>::empty(),
    ensures
        row_merge_all(rows) == Map::<Seq<char>, Seq<EntryView>>::empty(),
    decreases rows.len(),
{
    if rows.len() > 0 {
        lemma_row_merge_all_empty(rows.drop_last());
        assert(rows.last() == rows[rows.len() - 1]);
        lemma_row_merge_unit(Map::empty());
    }
}

/// One step of a fold of merges keeps, under every key, a merge of the rows
/// of the tables so far.
proof fn lemma_fold_rows(d: DTable, acc: DTable, t: DTable, tables: Seq<DTable>, i: int)
    requires
        0 <= i < tables.len(),
        t == tables[i],
        d.wf(),
        acc.wf(),
        t.wf(),
        acc.consistent(),
        t.consistent(),
        d.data@.len() <= usize::MAX,
        merges_tables(d, acc, t),
        forall|k: Seq<char>| #[trigger] table_has(acc, k) == any_has(tables.take(i), k),
        forall|k: Seq<char>| #[trigger] table_has(acc, k) ==> acc.row_of(k) is Some && merges_all(
            acc.row_of(k)->Some_0,
            rows_of(tables, k).take(i),
        ),
    ensures
        forall|k: Seq<char>| #[trigger] table_has(d, k) ==> d.row_of(k) is Some && merges_all(
            d.row_of(k)->Some_0,
            rows_of(tables, k).take(i + 1),
        ),
{
    assert forall|k: Seq<char>| #[trigger] table_has(d, k) implies d.row_of(k) is Some && merges_all(
        d.row_of(k)->Some_0,
        rows_of(tables, k).take(i + 1),
    ) by {
        lemma_merged_rows(d, acc, t, k);
        let rows = rows_of(tables, k);
        assert(rows[i] == row_or_empty(t.row_of(k)));
        lemma_consistent_not_corrupt(t, k);
        lemma_consistent_not_corrupt(acc, k);
        lemma_index_of(t.lookup.key_seq(), k);
        lemma_index_of(acc.lookup.key_seq(), k);
        let acc_row = if table_has(acc, k) { acc.row_of(k)->Some_0 } else { Map::empty() };
        if !table_has(acc, k) {
            assert forall|q: int| 0 <= q < tables.take(i).len() implies !table_has(#[trigger] tables.take(i)[q], k) by {
                if table_has(tables.take(i)[q], k) {
                    assert(any_has(tables.take(i), k));
                }
            }
            lemma_merges_all_none(tables.take(i), k);
            assert(rows_of(tables.take(i), k) =~= rows.take(i));
        }
        lemma_merges_empty(row_or_empty(t.row_of(k)));
        lemma_merges_empty(acc_row);
        lemma_merges_all_step(acc_row, rows[i], d.row_of(k)->Some_0, rows, i);
    }
}

proof fn lemma_fold_rows_exact(d: DTable, acc: DTable, t: DTable, tables: Seq<DTable>, i: int)
    requires
        0 <= i < tables.len(),
        t == tables[i],
        d.wf(),
        acc.wf(),
        t.wf(),
        acc.consistent(),
        t.consistent(),
        merges_tables(d, acc, t),
        forall|k: Seq<char>| #[trigger] table_has(acc, k) == any_has(tables.take(i), k),
        forall|k: Seq<char>| #[trigger] table_has(acc, k) ==> acc.row_of(k) == Some(
            row_merge_all(rows_of(tables, k).take(i)),
        ),
    ensures
        forall|k: Seq<char>| #[trigger] table_has(d, k) ==> d.row_of(k) == Some(
            row_merge_all(rows_of(tables, k).take(i + 1)),
        ),
{
    assert forall|k: Seq<char>| #[trigger] table_has(d, k) implies d.row_of(k) == Some(
        row_merge_all(rows_of(tables, k).take(i + 1)),
    ) by {
        lemma_merged_rows(d, acc, t, k);
        let rows = rows_of(tables, k);
        assert(rows[i] == row_or_empty(t.row_of(k)));
        lemma_consistent_not_corrupt(t, k);
        lemma_index_of(t.lookup.key_seq(), k);
        if !table_has(acc, k) {
            assert forall|q: int| 0 <= q < rows.take(i).len() implies #[trigger] rows.take(i)[q]
                == Map::<Seq<char>, Seq<EntryView>>::empty() by {
                assert(rows.take(i)[q] == row_or_empty(tables[q].row_of(k)));
                if table_has(tables[q], k) {
                    assert(tables.take(i)[q] == tables[q]);
                    assert(any_has(tables.take(i), k));
                }
                lemma_index_of(tables[q].lookup.key_seq(), k);
            }
            lemma_row_merge_all_empty(rows.take(i));
        }
        assert(rows.take(i + 1).drop_last() =~= rows.take(i));
        assert(rows.take(i + 1).last() == rows[i]);
        lemma_row_merge_unit(row_merge_all(rows.take(i)));
        lemma_row_merge_unit(rows[i]);
    }
}

/// The bytes of the `i`th row of `t`.
fn table_region(t: &DTable, i: usize) -> (r: (usize, usize))
    requires
        t.wf(),
        i < t.lookup.keys@.len(),
    ensures
        r.0 == t.lookup.offsets@[i as int],
        r.1 == t.region_end(i as int),
        r.0 <= r.1 <= t.data@.len(),
{
    let reg = t.get_offset_from_index(i);
    let dlen = t.data.len();
    assert(reg.start <= dlen);
    assert(i + 1 < t.lookup.offsets@.len() ==> t.lookup.offsets@[i + 1] <= dlen);
    let start = reg.start as usize;
    let end = match reg.length {
        Some(n) => (reg.start + n) as usize,
        None => dlen,
    };
    (start, end)
}

/// For each of `cols`, the entry that a read at `timestamp` sees in `row`.
pub fn select_in_row(row: &DRow, cols: &[&str], timestamp: u64) -> (r: Vec<Option<DEntry>>)
    requires
        row.wf(),
    ensures
        r@.len() == cols@.len(),
        forall|i: int|
            0 <= i < cols@.len() ==> opt_view(#[trigger] r@[i]) == read_column(row@, cols@[i]@, timestamp),
{
    let mut out: Vec<Option<DEntry>> = Vec::new();
    let mut i: usize = 0;
    while i < cols.len()
        invariant
            row.wf(),
            i <= cols@.len(),
            out@.len() == i,
            forall|j: int|
                0 <= j < i ==> opt_view(#[trigger] out@[j]) == read_column(row@, cols@[j]@, timestamp),
        decreases cols@.len() - i,
    {
        let v = match row.get_value(cols[i], timestamp) {
            Ok(e) => Some(e),
            Err(_) => None,
        };
        out.push(v);
        i = i + 1;
    }
    out
}

/// Header and data agree: in a consistent disk table the bytes under each
/// header entry hold a row stored under that entry's key, so `get_row` of the
/// key reads it.
pub proof fn lemma_consistent_rows_decode(t: DTable, i: int)
    requires
        t.wf(),
        t.consistent(),
        0 <= i < t.lookup.keys@.len(),
    ensures
        t.row_of(t.lookup.key_seq()[i]) is Some,
        !t.corrupt(t.lookup.key_seq()[i]),
        exists|r: Record|
            valid_record(r) && r.0 == t.lookup.key_seq()[i] && t.data@.subrange(
                t.lookup.offsets@[i] as int,
                t.region_end(i),
            ) == #[trigger] enc_record(r.0, r.1, r.2),
{
    let k = t.lookup.key_seq()[i];
    lemma_index_of(t.lookup.key_seq(), k);
    assert(index_of(t.lookup.key_seq(), k) == i);
    assert(t.record(i) is Some);
    let r = t.record(i)->Some_0;
    assert(valid_record(r) && r.0 == k);
}

/// The text of a decimal digit.
pub open spec fn digit_str(d: int) -> &'static str {
    if d == 0 {
        "0"
    } else if d == 1 {
        "1"
    } else if d == 2 {
        "2"
    } else if d == 3 {
        "3"
    } else if d == 4 {
        "4"
    } else if d == 5 {
        "5"
    } else if d == 6 {
        "6"
    } else if d == 7 {
        "7"
    } else if d == 8 {
        "8"
    } else {
        "9"
    }
}

pub fn digit(d: u8) -> (r: &'static str)
    requires
        d < 10,
    ensures
        r == digit_str(d as int),
{
    match d {
        0 => "0",
        1 => "1",
        2 => "2",
        3 => "3",
        4 => "4",
        5 => "5",
        6 => "6",
        7 => "7",
        8 => "8",
        _ => "9",
    }
}

/// A byte in decimal, without leading zeros.
pub open spec fn shown_byte(b: u8) -> Seq<u8> {
    if b < 10 {
        text(digit_str(b as int))
    } else if b < 100 {
        text(digit_str(b as int / 10)) + text(digit_str(b as int % 10))
    } else {
        text(digit_str(b as int / 100)) + text(digit_str(b as int / 10 % 10)) + text(digit_str(b as int % 10))
    }
}

/// The bytes in decimal, separated by `", "`.
pub open spec fn shown_byte_list(v: Seq<u8>) -> Seq<u8>
    decreases v.len(),
{
    if v.len() == 0 {
        Seq::empty()
    } else if v.len() == 1 {
        shown_byte(v[0])
    } else {
        shown_byte_list(v.drop_last()) + text(", ") + shown_byte(v.last())
    }
}

/// The newest value of a column as a list of bytes, `None` where it has no
/// entry.
pub open spec fn shown_latest(c: Seq<EntryView>) -> Seq<u8> {
    match pick(c, u64::MAX) {
        Some(e) => text("[") + shown_byte_list(e.1) + text("]"),
        None => text("None"),
    }
}

/// Each column as `name: value`, separated by `", "`.
pub open spec fn shown_columns(names: Seq<Seq<char>>, cols: Seq<Seq<EntryView>>) -> Seq<u8>
    decreases names.len(),
{
    if names.len() == 0 {
        Seq::empty()
    } else if names.len() == 1 {
        vstd::utf8::encode_utf8(names[0]) + text(": ") + shown_latest(cols[0])
    } else {
        shown_columns(names.drop_last(), cols.drop_last()) + text(", ") + vstd::utf8::encode_utf8(names.last())
            + text(": ") + shown_latest(cols.last())
    }
}

fn put_byte(out: &mut Vec<u8>, b: u8)
    requires
        vstd::utf8::valid_utf8(old(out)@),
    ensures
        final(out)@ == old(out)@ + shown_byte(b),
        vstd::utf8::valid_utf8(final(out)@),
{
    if b < 10 {
        put_text(out, digit(b));
    } else if b < 100 {
        put_text(out, digit(b / 10));
        put_text(out, digit(b % 10));
    } else {
        put_text(out, digit(b / 100));
        put_text(out, digit(b / 10 % 10));
        put_text(out, digit(b % 10));
    }
}

fn put_byte_list(out: &mut Vec<u8>, v: &Vec<u8>)
    requires
        vstd::utf8::valid_utf8(old(out)@),
    ensures
        final(out)@ == old(out)@ + shown_byte_list(v@),
        vstd::utf8::valid_utf8(final(out)@),
{
    let ghost before = out@;
    let mut j: usize = 0;
    assert(v@.take(0) =~= Seq::<u8>::empty());
    assert(out@ =~= before + shown_byte_list(v@.take(0)));
    while j < v.len()
        invariant
            j <= v@.len(),
            vstd::utf8::valid_utf8(out@),
            out@ == before + shown_byte_list(v@.take(j as int)),
        decreases v@.len() - j,
    {
        assert(v@.take(j + 1).drop_last() =~= v@.take(j as int));
        assert(v@.take(j + 1).last() == v@[j as int]);
        if j > 0 {
            put_text(out, ", ");
        }
        put_byte(out, v[j]);
        proof {
            if j == 0 {
                assert(v@.take(1)[0] == v@[0]);
            }
        }
        assert(out@ =~= before + shown_byte_list(v@.take(j + 1)));
        j = j + 1;
    }
    assert(v@.take(j as int) =~= v@);
}

fn put_latest(out: &mut Vec<u8>, c: &DColumn)
    requires
        vstd::utf8::valid_utf8(old(out)@),
    ensures
        final(out)@ == old(out)@ + shown_latest(c@),
        vstd::utf8::valid_utf8(final(out)@),
{
    match c.get_latest_value() {
        Ok(e) => {
            put_text(out, "[");
            put_byte_list(out, &e.value);
            put_text(out, "]");
        },
        Err(_) => {
            put_text(out, "None");
        },
    }
}

/// Appends a row as `head{ name: value, ... }` (see `shown_columns`).
pub fn show_row(out: &mut Vec<u8>, head: &str, row: &DRow)
    requires
        vstd::utf8::valid_utf8(old(out)@),
        row.wf(),
    ensures
        final(out)@ == old(out)@ + text(head) + text("{ ") + shown_columns(row.names(), row.column_views())
            + text(" }"),
        vstd::utf8::valid_utf8(final(out)@),
{
    put_text(out, head);
    put_text(out, "{ ");
    let ghost base = out@;
    let ghost ns = row.names();
    let ghost cs = row.column_views();
    let mut i: usize = 0;
    assert(out@ =~= base + shown_columns(ns.take(0), cs.take(0)));
    while i < row.keys.len()
        invariant
            row.wf(),
            ns == row.names(),
            cs == row.column_views(),
            i <= ns.len(),
            vstd::utf8::valid_utf8(out@),
            out@ == base + shown_columns(ns.take(i as int), cs.take(i as int)),
        decreases ns.len() - i,
    {
        assert(ns.take(i + 1).drop_last() =~= ns.take(i as int));
        assert(cs.take(i + 1).drop_last() =~= cs.take(i as int));
        assert(ns.take(i + 1).last() == ns[i as int]);
        assert(cs.take(i + 1).last() == cs[i as int]);
        if i > 0 {
            put_text(out, ", ");
        }
        put_text(out, row.keys[i].as_str());
        put_text(out, ": ");
        put_latest(out, &row.columns[i]);
        proof {
            if i == 0 {
                assert(ns.take(1)[0] == ns[0]);
                assert(cs.take(1)[0] == cs[0]);
            }
            assert(ns[i as int] == row.keys@[i as int]@);
            assert(cs[i as int] == row.columns@[i as int]@);
        }
        assert(out@ =~= base + shown_columns(ns.take(i + 1), cs.take(i + 1)));
        i = i + 1;
    }
    assert(ns.take(i as int) =~= ns);
    assert(cs.take(i as int) =~= cs);
    put_text(out, " }");
}

impl DRow {
    /// The row as `DRow: { name: [bytes], ... }`, each column by its newest
    /// value (see `show_row`).
    pub fn to_display_string(&self) -> (r: String)
        requires
            self.wf(),
        ensures
            vstd::utf8::encode_utf8(r@) == text("DRow: ") + text("{ ") + shown_columns(
                self.names(),
                self.column_views(),
            ) + text(" }"),
    {
        let mut out: Vec<u8> = Vec::new();
        assert(vstd::utf8::valid_utf8(out@)) by {
            assert(out@ =~= vstd::utf8::encode_utf8(Seq::<char>::empty()));
            vstd::utf8::encode_utf8_valid_utf8(Seq::<char>::empty());
        }
        show_row(&mut out, "DRow: ", self);
        text_of(out)
    }
}

} // verus!
