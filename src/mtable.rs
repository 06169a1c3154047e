//! The memtable: the mutable, key-sorted, in-memory table that buffers writes.

use vstd::prelude::*;

use crate::codec::{
    bytes_code, concat, enc_header, enc_record, lemma_concat_first, lemma_concat_push, lemma_concat_split, put_header,
    put_record, update_views,
};
use crate::dtable::{
    copy_bytes, lemma_chunked_table, opt_view, read_column, valid_record, DColumn, DEntry, DRow, DTable, DTableHeader, EntryView,
    Record, RowView, TError,
};
use crate::keys::{
    key_views, keyed_map, keys_sorted, lemma_keyed_map_insert, lemma_keyed_map_set, search_keys,
};
use crate::dtable::{show_row, shown_columns};
use crate::query::{sat_add, text, text_of, MUpdate};

verus! {

/// Where a new entry with timestamp `t` goes in a column: just after the last
/// entry whose timestamp is not above `t`, or first where there is none.
pub open spec fn insert_pos(c: Seq<EntryView>, t: u64) -> int
    decreases c.len(),
{
    if c.len() == 0 {
        0
    } else if c.last().0 <= t {
        c.len() as int
    } else {
        insert_pos(c.drop_last(), t)
    }
}

/// The column with `e` added at its place.
pub open spec fn insert_version(c: Seq<EntryView>, e: EntryView) -> Seq<EntryView> {
    c.insert(insert_pos(c, e.0), e)
}

/// Timestamps never decrease along the column.
pub open spec fn ts_sorted(c: Seq<EntryView>) -> bool {
    forall|i: int, j: int| 0 <= i < j < c.len() ==> c[i].0 <= c[j].0
}

/// A row after one update at time `t`: a new version of an existing column,
/// or a new column holding the single version.
pub open spec fn apply_one(row: RowView, u: (Seq<char>, Seq<u8>), t: u64) -> RowView {
    if row.contains_key(u.0) {
        row.insert(u.0, insert_version(row[u.0], (t, u.1)))
    } else {
        row.insert(u.0, seq![(t, u.1)])
    }
}

/// A row after the updates, in order, at time `t`.
pub open spec fn apply_updates(row: RowView, ups: Seq<(Seq<char>, Seq<u8>)>, t: u64) -> RowView
    decreases ups.len(),
{
    if ups.len() == 0 {
        row
    } else {
        apply_one(apply_updates(row, ups.drop_last(), t), ups.last(), t)
    }
}

/// A new row: one column per update, holding its value at time `t`; where a
/// column name repeats, the last update to it is kept.
pub open spec fn fresh_row(ups: Seq<(Seq<char>, Seq<u8>)>, t: u64) -> RowView
    decreases ups.len(),
{
    if ups.len() == 0 {
        Map::empty()
    } else {
        fresh_row(ups.drop_last(), t).insert(ups.last().0, seq![(t, ups.last().1)])
    }
}

/// The rows after an insert: unchanged where the row exists.
pub open spec fn mt_insert(
    m: Map<Seq<char>, RowView>,
    key: Seq<char>,
    ups: Seq<(Seq<char>, Seq<u8>)>,
    t: u64,
) -> Map<Seq<char>, RowView> {
    if m.contains_key(key) {
        m
    } else {
        m.insert(key, fresh_row(ups, t))
    }
}

/// The rows after an update: applied to an existing row, else an insert.
pub open spec fn mt_update(
    m: Map<Seq<char>, RowView>,
    key: Seq<char>,
    ups: Seq<(Seq<char>, Seq<u8>)>,
    t: u64,
) -> Map<Seq<char>, RowView> {
    if m.contains_key(key) {
        m.insert(key, apply_updates(m[key], ups, t))
    } else {
        m.insert(key, fresh_row(ups, t))
    }
}

/// The sizes of the updates added up, saturating at the largest `usize`.
pub open spec fn updates_size(ups: Seq<MUpdate>) -> int
    decreases ups.len(),
{
    if ups.len() == 0 {
        0
    } else {
        sat_add(updates_size(ups.drop_last()), ups.last().spec_size())
    }
}

proof fn lemma_insert_pos(c: Seq<EntryView>, t: u64)
    ensures
        0 <= insert_pos(c, t) <= c.len(),
        forall|j: int| insert_pos(c, t) <= j < c.len() ==> c[j].0 > t,
        insert_pos(c, t) > 0 ==> c[insert_pos(c, t) - 1].0 <= t,
    decreases c.len(),
{
    if c.len() > 0 && c.last().0 > t {
        lemma_insert_pos(c.drop_last(), t);
        assert forall|j: int| 0 <= j < c.len() - 1 implies c[j] == c.drop_last()[j] by {}
    }
}

/// Adding a version at its place keeps a column in timestamp order.
pub proof fn lemma_insert_version_sorted(c: Seq<EntryView>, e: EntryView)
    requires
        ts_sorted(c),
    ensures
        ts_sorted(insert_version(c, e)),
{
    lemma_insert_pos(c, e.0);
    let p = insert_pos(c, e.0);
    let d = insert_version(c, e);
    assert forall|i: int, j: int| 0 <= i < j < d.len() implies d[i].0 <= d[j].0 by {
        if i < p && j == p {
            assert(c[i].0 <= c[p - 1].0);
        } else if i < p && j > p {
            assert(d[j] == c[j - 1]);
        } else if i == p {
            assert(d[j] == c[j - 1]);
        } else if i > p {
            assert(d[i] == c[i - 1]);
            assert(d[j] == c[j - 1]);
        }
    }
}

/// The position at which an entry with timestamp `t` is added (see `insert_pos`).
fn insertion_index(c: &DColumn, t: u64) -> (r: usize)
    ensures
        r == insert_pos(c@, t),
{
    let mut i: usize = c.entries.len();
    assert(c@.take(i as int) =~= c@);
    while i > 0 && c.entries[i - 1].timestamp > t
        invariant
            i <= c@.len(),
            c@.len() == c.entries@.len(),
            insert_pos(c@, t) == insert_pos(c@.take(i as int), t),
        decreases i,
    {
        assert(c@.take(i as int).drop_last() =~= c@.take(i - 1));
        i = i - 1;
    }
    if i == 0 {
        assert(c@.take(0) =~= Seq::<EntryView>::empty());
    }
    i
}

/// A row of the memtable.
#[derive(Debug)]
pub struct MRow {
    pub columns: DRow,
}

impl View for MRow {
    type V = RowView;

    open spec fn view(&self) -> RowView {
        self.columns@
    }
}

proof fn lemma_views_insert(keys: Seq<String>, j: int, s: String)
    requires
        0 <= j <= keys.len(),
    ensures
        key_views(keys.insert(j, s)) == key_views(keys).insert(j, s@),
{
    assert(key_views(keys.insert(j, s)) =~= key_views(keys).insert(j, s@));
}

proof fn lemma_columns_insert(cols: Seq<DColumn>, j: int, c: DColumn)
    requires
        0 <= j <= cols.len(),
    ensures
        cols.insert(j, c).map_values(|c: DColumn| c@) == cols.map_values(|c: DColumn| c@).insert(j, c@),
{
    assert(cols.insert(j, c).map_values(|c: DColumn| c@) =~= cols.map_values(|c: DColumn| c@).insert(
        j,
        c@,
    ));
}

proof fn lemma_columns_set(cols: Seq<DColumn>, j: int, c: DColumn)
    requires
        0 <= j < cols.len(),
    ensures
        cols.update(j, c).map_values(|c: DColumn| c@) == cols.map_values(|c: DColumn| c@).update(j, c@),
{
    assert(cols.update(j, c).map_values(|c: DColumn| c@) =~= cols.map_values(|c: DColumn| c@).update(
        j,
        c@,
    ));
}

impl MRow {
    /// Well formed, and every column in timestamp order.
    pub open spec fn wf(&self) -> bool {
        &&& self.columns.wf()
        &&& forall|k: Seq<char>| #[trigger] self@.contains_key(k) ==> ts_sorted(self@[k])
    }

    /// Sets column `u.key` to the single value `u.value` at time `t`.
    fn put_column(&mut self, u: &MUpdate, t: u64)
        requires
            old(self).columns.wf(),
        ensures
            final(self).columns.wf(),
            final(self)@ == old(self)@.insert(u@.0, seq![(t, u@.1)]),
    {
        let col = DColumn::single(DEntry::new(t, copy_bytes(&u.value)));
        match search_keys(&self.columns.keys, u.key.as_str()) {
            Ok(j) => {
                proof {
                    lemma_keyed_map_set(
                        self.columns.names(),
                        self.columns.column_views(),
                        j as int,
                        col@,
                    );
                    lemma_columns_set(self.columns.columns@, j as int, col);
                }
                self.columns.columns.set(j, col);
            },
            Err(j) => {
                proof {
                    lemma_keyed_map_insert(
                        self.columns.names(),
                        self.columns.column_views(),
                        j as int,
                        u@.0,
                        col@,
                    );
                    lemma_views_insert(self.columns.keys@, j as int, u.key);
                    lemma_columns_insert(self.columns.columns@, j as int, col);
                }
                self.columns.keys.insert(j, u.key.clone());
                self.columns.columns.insert(j, col);
            },
        }
    }

    /// A new row holding the updates at time `t` (see `fresh_row`).
    pub fn from_updates(ups: &[MUpdate], t: u64) -> (r: MRow)
        ensures
            r.wf(),
            r@ == fresh_row(update_views(ups@), t),
    {
        let mut r = MRow { columns: DRow::new() };
        let ghost vs = update_views(ups@);
        let mut i: usize = 0;
        assert(vs.take(0) =~= Seq::<(Seq<char>, Seq<u8>)>::empty());
        while i < ups.len()
            invariant
                i <= ups@.len(),
                vs == update_views(ups@),
                r.columns.wf(),
                r@ == fresh_row(vs.take(i as int), t),
            decreases ups@.len() - i,
        {
            r.put_column(&ups[i], t);
            assert(vs.take(i + 1).drop_last() =~= vs.take(i as int));
            i = i + 1;
        }
        assert(vs.take(i as int) =~= vs);
        proof {
            lemma_fresh_row_sorted(vs, t);
        }
        r
    }

    /// The row as `MRow: { name: [bytes], ... }`, each column by its newest
    /// value (see `show_row`).
    pub fn to_display_string(&self) -> (r: String)
        requires
            self.wf(),
        ensures
            vstd::utf8::encode_utf8(r@) == text("MRow: ") + text("{ ") + shown_columns(
                self.columns.names(),
                self.columns.column_views(),
            ) + text(" }"),
    {
        let mut out: Vec<u8> = Vec::new();
        assert(vstd::utf8::valid_utf8(out@)) by {
            assert(out@ =~= vstd::utf8::encode_utf8(Seq::<char>::empty()));
            vstd::utf8::encode_utf8_valid_utf8(Seq::<char>::empty());
        }
        show_row(&mut out, "MRow: ", &self.columns);
        text_of(out)
    }

    /// Adds the updates at time `t` (see `apply_updates`).
    pub fn update(&mut self, ups: &[MUpdate], t: u64)
        requires
            old(self).wf(),
        ensures
            final(self).wf(),
            final(self)@ == apply_updates(old(self)@, update_views(ups@), t),
    {
        let ghost vs = update_views(ups@);
        let ghost start = self@;
        let mut i: usize = 0;
        assert(vs.take(0) =~= Seq::<(Seq<char>, Seq<u8>)>::empty());
        while i < ups.len()
            invariant
                i <= ups@.len(),
                vs == update_views(ups@),
                self.wf(),
                self@ == apply_updates(start, vs.take(i as int), t),
            decreases ups@.len() - i,
        {
            let u = &ups[i];
            assert(vs[i as int] == u@);
            let ghost before = self@;
            match search_keys(&self.columns.keys, u.key.as_str()) {
                Ok(j) => {
                    let pos = insertion_index(&self.columns.columns[j], t);
                    let mut col = self.columns.columns[j].duplicate();
                    let ghost old_col = col@;
                    proof {
                        lemma_insert_pos(old_col, t);
                    }
                    col.entries.insert(pos, DEntry::new(t, copy_bytes(&u.value)));
                    proof {
                        assert(col@ =~= old_col.insert(pos as int, (t, u@.1)));
                        assert(self.columns.names()[j as int] == u@.0);
                        crate::keys::lemma_index_of(self.columns.names(), u@.0);
                        assert(self@.contains_key(u@.0));
                        assert(self@[u@.0] == old_col);
                        lemma_insert_version_sorted(old_col, (t, u@.1));
                        lemma_keyed_map_set(
                            self.columns.names(),
                            self.columns.column_views(),
                            j as int,
                            col@,
                        );
                        lemma_columns_set(self.columns.columns@, j as int, col);
                    }
                    self.columns.columns.set(j, col);
                },
                Err(j) => {
                    proof {
                        crate::keys::lemma_index_of(self.columns.names(), u@.0);
                        if self@.contains_key(u@.0) {
                            let p = crate::keys::index_of(self.columns.names(), u@.0);
                            crate::keys::lemma_key_lt_irreflexive(u@.0);
                            assert(self.columns.keys@[p]@ == u@.0);
                        }
                    }
                    self.put_column(u, t);
                },
            }
            proof {
                assert(vs.take(i + 1).drop_last() =~= vs.take(i as int));
                assert(vs.take(i + 1).last() == u@);
                assert forall|k: Seq<char>| #[trigger] self@.contains_key(k) implies ts_sorted(self@[k]) by {
                    if k != u@.0 {
                        assert(before.contains_key(k));
                    }
                }
            }
            i = i + 1;
        }
        assert(vs.take(i as int) =~= vs);
    }
}

proof fn lemma_fresh_row_sorted(ups: Seq<(Seq<char>, Seq<u8>)>, t: u64)
    ensures
        forall|k: Seq<char>| #[trigger] fresh_row(ups, t).contains_key(k) ==> ts_sorted(
            fresh_row(ups, t)[k],
        ),
    decreases ups.len(),
{
    if ups.len() > 0 {
        lemma_fresh_row_sorted(ups.drop_last(), t);
        let one = seq![(t, ups.last().1)];
        assert(ts_sorted(one));
        let prev = fresh_row(ups.drop_last(), t);
        assert forall|k: Seq<char>| #[trigger] fresh_row(ups, t).contains_key(k) implies ts_sorted(
            fresh_row(ups, t)[k],
        ) by {
            if k != ups.last().0 {
                assert(prev.contains_key(k));
            }
        }
    }
}


/// The memtable: rows in increasing key order.
#[derive(Debug)]
pub struct MTable {
    pub keys: Vec<String>,
    pub rows: Vec<MRow>,
    /// The sizes of all updates written since it was created (see
    /// `MUpdate::size`), saturating at the largest `usize`.
    pub size: usize,
}

impl View for MTable {
    type V = Map<Seq<char>, RowView>;

    /// Each row key to its row.
    open spec fn view(&self) -> Map<Seq<char>, RowView> {
        keyed_map(self.key_seq(), self.row_views())
    }
}

/// The bytes that a disk table made of these rows holds for each row.
pub open spec fn row_records(keys: Seq<Seq<char>>, rows: Seq<MRow>) -> Seq<Seq<u8>> {
    Seq::new(
        rows.len(),
        |i: int| enc_record(keys[i], rows[i].columns.names(), rows[i].columns.column_views()),
    )
}

impl MTable {
    pub open spec fn key_seq(&self) -> Seq<Seq<char>> {
        key_views(self.keys@)
    }

    pub open spec fn row_views(&self) -> Seq<RowView> {
        self.rows@.map_values(|r: MRow| r@)
    }

    /// Keys sorted, one row each, every row well formed.
    pub open spec fn wf(&self) -> bool {
        &&& self.keys@.len() == self.rows@.len()
        &&& keys_sorted(self.key_seq())
        &&& forall|i: int| 0 <= i < self.rows@.len() ==> (#[trigger] self.rows@[i]).wf()
    }

    pub fn new() -> (r: MTable)
        ensures
            r.wf(),
            r@ == Map::<Seq<char>, RowView>::empty(),
            r.size == 0,
    {
        let r = MTable { keys: Vec::new(), rows: Vec::new(), size: 0 };
        assert(r.key_seq() =~= Seq::<Seq<char>>::empty());
        assert(r@ =~= Map::<Seq<char>, RowView>::empty());
        r
    }

    /// Adds the sizes of `ups` to the running size.
    fn grow(&mut self, ups: &[MUpdate])
        ensures
            final(self).size == sat_add(old(self).size as int, updates_size(ups@)),
            final(self).keys == old(self).keys,
            final(self).rows == old(self).rows,
    {
        let mut total: usize = 0;
        let mut i: usize = 0;
        while i < ups.len()
            invariant
                i <= ups@.len(),
                total == updates_size(ups@.take(i as int)),
            decreases ups@.len() - i,
        {
            assert(ups@.take(i + 1).drop_last() =~= ups@.take(i as int));
            total = total.saturating_add(ups[i].size());
            i = i + 1;
        }
        assert(ups@.take(i as int) =~= ups@);
        self.size = self.size.saturating_add(total);
    }

    /// Inserts a new row at time `timestamp`; fails with `AlreadyExists`,
    /// changing nothing, where the row exists.
    pub fn insert(&mut self, row: &str, updates: &[MUpdate], timestamp: u64) -> (r: Result<(), TError>)
        requires
            old(self).wf(),
        ensures
            final(self).wf(),
            final(self)@ == mt_insert(old(self)@, row@, update_views(updates@), timestamp),
            match r {
                Ok(()) => !old(self)@.contains_key(row@) && final(self).size == sat_add(
                    old(self).size as int,
                    updates_size(updates@),
                ),
                Err(e) => e == TError::AlreadyExists && old(self)@.contains_key(row@) && *final(self)
                    == *old(self),
            },
    {
        proof {
            crate::keys::lemma_index_of(self.key_seq(), row@);
        }
        match search_keys(&self.keys, row) {
            Ok(i) => {
                assert(self.key_seq()[i as int] == row@);
                Err(TError::AlreadyExists)
            },
            Err(j) => {
                proof {
                    if self@.contains_key(row@) {
                        let p = crate::keys::index_of(self.key_seq(), row@);
                        crate::keys::lemma_key_lt_irreflexive(row@);
                        assert(self.keys@[p]@ == row@);
                    }
                }
                let r = MRow::from_updates(updates, timestamp);
                let key = row.to_string();
                proof {
                    lemma_keyed_map_insert(self.key_seq(), self.row_views(), j as int, row@, r@);
                    lemma_views_insert(self.keys@, j as int, key);
                    assert(self.rows@.insert(j as int, r).map_values(|r: MRow| r@) =~= self.row_views().insert(
                        j as int,
                        r@,
                    ));
                }
                let ghost before = self.rows@;
                self.keys.insert(j, key);
                self.rows.insert(j, r);
                proof {
                    assert(self.key_seq() =~= key_views(old(self).keys@).insert(j as int, row@));
                    assert forall|i: int| 0 <= i < self.rows@.len() implies (#[trigger] self.rows@[i]).wf() by {
                        if i < j {
                            assert(self.rows@[i] == before[i]);
                        } else if i > j {
                            assert(self.rows@[i] == before[i - 1]);
                        }
                    }
                }
                self.grow(updates);
                Ok(())
            },
        }
    }

    /// Adds the updates at time `timestamp` to the row, creating it where it
    /// does not exist.
    pub fn update(&mut self, row: &str, updates: &[MUpdate], timestamp: u64) -> (r: Result<(), TError>)
        requires
            old(self).wf(),
        ensures
            r is Ok,
            final(self).wf(),
            final(self)@ == mt_update(old(self)@, row@, update_views(updates@), timestamp),
            final(self).size == sat_add(old(self).size as int, updates_size(updates@)),
    {
        proof {
            crate::keys::lemma_index_of(self.key_seq(), row@);
        }
        match search_keys(&self.keys, row) {
            Ok(i) => {
                assert(self.key_seq()[i as int] == row@);
                let ghost before = self.rows@;
                let mut r = self.rows.remove(i);
                assert(r == before[i as int]);
                let ghost old_row = r@;
                r.update(updates, timestamp);
                proof {
                    lemma_keyed_map_set(self.key_seq(), old(self).row_views(), i as int, r@);
                    assert(before.update(i as int, r).map_values(|r: MRow| r@) =~= old(self).row_views().update(
                        i as int,
                        r@,
                    ));
                    assert(before.update(i as int, r) =~= self.rows@.insert(i as int, r));
                }
                self.rows.insert(i, r);
                proof {
                    assert forall|k: int| 0 <= k < self.rows@.len() implies (#[trigger] self.rows@[k]).wf() by {
                        if k != i {
                            assert(self.rows@[k] == before[k]);
                        }
                    }
                }
                self.grow(updates);
                Ok(())
            },
            Err(_) => {
                proof {
                    if self@.contains_key(row@) {
                        let p = crate::keys::index_of(self.key_seq(), row@);
                        crate::keys::lemma_key_lt_irreflexive(row@);
                        assert(self.keys@[p]@ == row@);
                    }
                }
                let r = self.insert(row, updates, timestamp);
                Ok(())
            },
        }
    }

    /// The row with key `row`.
    pub fn get_row(&self, row: &str) -> (r: Option<&MRow>)
        requires
            self.wf(),
        ensures
            match r {
                Some(m) => self@.contains_key(row@) && m@ == self@[row@] && m.wf(),
                None => !self@.contains_key(row@),
            },
    {
        proof {
            crate::keys::lemma_index_of(self.key_seq(), row@);
        }
        match search_keys(&self.keys, row) {
            Ok(i) => {
                assert(self.key_seq()[i as int] == row@);
                Some(&self.rows[i])
            },
            Err(_) => {
                proof {
                    if self@.contains_key(row@) {
                        let p = crate::keys::index_of(self.key_seq(), row@);
                        crate::keys::lemma_key_lt_irreflexive(row@);
                        assert(self.keys@[p]@ == row@);
                    }
                }
                None
            },
        }
    }

    /// The newest entry of column `col` of row `row`.
    pub fn select_one(&self, row: &str, col: &str) -> (r: Option<DEntry>)
        requires
            self.wf(),
        ensures
            opt_view(r) == (if self@.contains_key(row@) {
                read_column(self@[row@], col@, u64::MAX)
            } else {
                None
            }),
    {
        match self.get_row(row) {
            Some(m) => match m.columns.get_value(col, u64::MAX) {
                Ok(e) => Some(e),
                Err(_) => None,
            },
            None => None,
        }
    }

    /// For each of `cols`, the entry of row `row` that a read at `timestamp`
    /// sees; `None` where the row does not exist.
    pub fn select(&self, row: &str, cols: &[&str], timestamp: u64) -> (r: Option<Vec<Option<DEntry>>>)
        requires
            self.wf(),
        ensures
            match r {
                Some(v) => self@.contains_key(row@) && v@.len() == cols@.len() && forall|i: int|
                    0 <= i < cols@.len() ==> opt_view(#[trigger] v@[i]) == read_column(
                        self@[row@],
                        cols@[i]@,
                        timestamp,
                    ),
                None => !self@.contains_key(row@),
            },
    {
        match self.get_row(row) {
            Some(m) => Some(crate::dtable::select_in_row(&m.columns, cols, timestamp)),
            None => None,
        }
    }

    /// Serializes the rows in key order to `data`, and a header with the key
    /// and offset of each row to `header`; returns that header. Offsets count
    /// from the first byte written to `data`.
    pub fn write_to_writer(&self, data: &mut Vec<u8>, header: &mut Vec<u8>) -> (r: DTableHeader)
        requires
            self.wf(),
        ensures
            r.wf(),
            r.key_seq() == self.key_seq(),
            forall|i: int|
                0 <= i < self.rows@.len() ==> #[trigger] r.offsets@[i] == concat(
                    row_records(self.key_seq(), self.rows@).take(i),
                    bytes_code(),
                ).len(),
            final(data)@ == old(data)@ + concat(row_records(self.key_seq(), self.rows@), bytes_code()),
            final(header)@ == old(header)@ + enc_header(r.key_seq(), r.offsets@),
    {
        let ghost recs = row_records(self.key_seq(), self.rows@);
        let ghost base = data@;
        let mut keys: Vec<String> = Vec::new();
        let mut offsets: Vec<u64> = Vec::new();
        let start = data.len();
        let mut i: usize = 0;
        assert(recs.take(0) =~= Seq::<Seq<u8>>::empty());
        while i < self.rows.len()
            invariant
                self.wf(),
                i <= self.rows@.len(),
                start == base.len(),
                recs == row_records(self.key_seq(), self.rows@),
                data@ == base + concat(recs.take(i as int), bytes_code()),
                keys@.len() == i,
                offsets@.len() == i,
                key_views(keys@) == self.key_seq().take(i as int),
                forall|j: int| 0 <= j < i ==> #[trigger] offsets@[j] == concat(recs.take(j), bytes_code()).len(),
            decreases self.rows@.len() - i,
        {
            let offset = (data.len() - start) as u64;
            assert(self.rows@[i as int].wf());
            put_record(data, self.keys[i].as_str(), &self.rows[i].columns);
            proof {
                assert(recs.take(i + 1) =~= recs.take(i as int).push(recs[i as int]));
                lemma_concat_push(recs.take(i as int), recs[i as int], bytes_code());
            }
            keys.push(self.keys[i].clone());
            offsets.push(offset);
            proof {
                assert(key_views(keys@) =~= self.key_seq().take(i + 1));
            }
            i = i + 1;
        }
        assert(recs.take(i as int) =~= recs);
        assert(key_views(keys@) =~= self.key_seq());
        let h = DTableHeader { keys, offsets };
        put_header(header, &h.keys, &h.offsets);
        h
    }
}


/// The header and data that `write_to_writer` produces from a memtable,
/// written from the start of an empty data buffer, form a well formed disk
/// table whose every header entry's bytes hold a record of that entry's key.
pub proof fn lemma_written_table_consistent(m: &MTable, d: &DTable)
    requires
        m.wf(),
        d.lookup.wf(),
        d.lookup.key_seq() == m.key_seq(),
        forall|i: int|
            0 <= i < m.rows@.len() ==> #[trigger] d.lookup.offsets@[i] == concat(
                row_records(m.key_seq(), m.rows@).take(i),
                bytes_code(),
            ).len(),
        d.data@ == concat(row_records(m.key_seq(), m.rows@), bytes_code()),
        d.data@.len() <= usize::MAX,
    ensures
        d.wf(),
        d.consistent(),
        forall|k: Seq<char>| #[trigger] m@.contains_key(k) ==> d.row_of(k) == Some(m@[k]),
{
    let recs = row_records(m.key_seq(), m.rows@);
    assert(d.lookup.key_seq().len() == d.lookup.keys@.len());
    assert(m.key_seq().len() == m.keys@.len());
    lemma_chunked_table(d, recs);
    assert forall|i: int| 0 <= i < d.lookup.keys@.len() implies #[trigger] d.record(i) is Some by {
        let row = m.rows@[i];
        assert(row.wf());
        let w: Record = (m.key_seq()[i], row.columns.names(), row.columns.column_views());
        assert(valid_record(w));
        assert(d.data@.subrange(d.lookup.offsets@[i] as int, d.region_end(i)) == enc_record(w.0, w.1, w.2));
    }
    assert forall|k: Seq<char>| #[trigger] m@.contains_key(k) implies d.row_of(k) == Some(m@[k]) by {
        crate::keys::lemma_index_of(m.key_seq(), k);
        let i = crate::keys::index_of(m.key_seq(), k);
        let row = m.rows@[i];
        assert(row.wf());
        let w: Record = (k, row.columns.names(), row.columns.column_views());
        assert(valid_record(w));
        assert(d.data@.subrange(d.lookup.offsets@[i] as int, d.region_end(i)) == enc_record(w.0, w.1, w.2));
        crate::dtable::lemma_region_row(*d, i, w);
        assert(m@[k] == row@);
    }
}

/// Every column of every memtable row is in timestamp order.
pub proof fn lemma_memtable_columns_sorted(m: &MTable, row: Seq<char>, col: Seq<char>)
    requires
        m.wf(),
        m@.contains_key(row),
        m@[row].contains_key(col),
    ensures
        ts_sorted(m@[row][col]),
{
    crate::keys::lemma_index_of(m.key_seq(), row);
    let i = crate::keys::index_of(m.key_seq(), row);
    assert(m.rows@[i].wf());
    assert(m@[row] == m.rows@[i]@);
}

} // verus!
