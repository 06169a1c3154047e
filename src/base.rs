//! The storage engine: writes go to the memtable and the commit log, reads
//! merge the memtable with every disk table by timestamp, and compactions
//! keep the memtable and the number of disk tables bounded.
//!
//! The engine holds the bytes of its files: the commit log as written since
//! the last minor compaction, and each disk table's header and data. Whoever
//! runs it copies them to and from disk.

use vstd::prelude::*;
use vstd::utf8::{encode_utf8, valid_utf8};

use crate::codec::{
    enc_header,
    concat, enc_commit, enc_frame, frame_commit, get_commit, get_u32, le32, lemma_le32_injective,
    update_views, CommitOp,
};
use crate::dtable::{
    col_or_empty, column_union, in_any, merges_all, row_or_empty,
    opt_view, read_column, select_in_row, DEntry, DTable, EntryView, RowView, TError,
};
use crate::keys::{compare_keys, lemma_index_of, KeyOrder};
use crate::mtable::{lemma_written_table_consistent, mt_insert, mt_update, updates_size, MTable};
use crate::dtable::{digit, digit_str};
use crate::query::{put_text, sat_add, text, text_of, MUpdate, Query, QueryResult};

verus! {

/// Errors of the engine.
#[derive(Debug)]
pub enum BaseError {
    CorruptedFiles,
    Problem { reason: String },
}

/// The rows after replaying the writes in order, each as an update (which
/// creates a missing row).
pub open spec fn replay(m: Map<Seq<char>, RowView>, ops: Seq<CommitOp>) -> Map<Seq<char>, RowView>
    decreases ops.len(),
{
    if ops.len() == 0 {
        m
    } else {
        let o = ops.last();
        mt_update(replay(m, ops.drop_last()), o.0, o.2, o.1)
    }
}

/// The framed commit log record of a write.
pub open spec fn frame_of(o: CommitOp) -> Seq<u8> {
    enc_frame(enc_commit(o.0, o.1, o.2))
}

pub open spec fn frame_code() -> spec_fn(CommitOp) -> Seq<u8> {
    |o: CommitOp| frame_of(o)
}

/// The record of the write fits the four-byte length of its frame.
pub open spec fn frameable(o: CommitOp) -> bool {
    enc_commit(o.0, o.1, o.2).len() <= u32::MAX
}

/// A commit log: the frames of the writes, one after another.
pub open spec fn log_of(ops: Seq<CommitOp>) -> Seq<u8> {
    concat(ops, frame_code())
}

pub open spec fn all_frameable(ops: Seq<CommitOp>) -> bool {
    forall|i: int| 0 <= i < ops.len() ==> frameable(#[trigger] ops[i])
}

/// The rows that a read of `row` sees, the memtable's first, then each disk
/// table's in order.
pub open spec fn sources(m: Map<Seq<char>, RowView>, dts: Seq<DTable>, row: Seq<char>) -> Seq<Option<RowView>> {
    seq![if m.contains_key(row) { Some(m[row]) } else { None }] + dts.map_values(|d: DTable| d.row_of(row))
}

/// What a read of column `col` at time `t` sees in each source.
pub open spec fn candidates(rows: Seq<Option<RowView>>, col: Seq<char>, t: u64) -> Seq<Option<EntryView>> {
    rows.map_values(
        |r: Option<RowView>|
            match r {
                Some(x) => read_column(x, col, t),
                None => None,
            },
    )
}

/// The candidate with the greatest timestamp; among equal timestamps, the
/// first.
pub open spec fn newest(cs: Seq<Option<EntryView>>) -> Option<EntryView>
    decreases cs.len(),
{
    if cs.len() == 0 {
        None
    } else {
        let rest = newest(cs.drop_last());
        match cs.last() {
            Some(e) => if rest is None || rest->Some_0.0 < e.0 {
                Some(e)
            } else {
                rest
            },
            None => rest,
        }
    }
}

/// The value of an optional entry.
pub open spec fn value_of(e: Option<EntryView>) -> Option<Seq<u8>> {
    match e {
        Some(x) => Some(x.1),
        None => None,
    }
}

/// The view of an optional byte vector.
pub open spec fn opt_bytes(v: Option<Vec<u8>>) -> Option<Seq<u8>> {
    match v {
        Some(x) => Some(x@),
        None => None,
    }
}

/// The engine after a write that made the memtable's rows `rows` and its size
/// `size`: where the size is over the limit, the rows went to a new disk
/// table (after a major compaction where one more table would be over the
/// table limit) and the memtable is empty; else nothing else changed.
pub open spec fn flushed(before: Base, after: Base, rows: Map<Seq<char>, RowView>, size: int) -> bool {
    &&& after.memtable_size_limit == before.memtable_size_limit
    &&& after.disktable_limit == before.disktable_limit
    &&& if size > before.memtable_size_limit {
        &&& after.memtable@ == Map::<Seq<char>, RowView>::empty()
        &&& after.memtable.size == 0
        &&& after.commit_log@.len() == 0
        &&& after.disktables@.len() == (if before.disktables@.len() + 1 > before.disktable_limit {
            2int
        } else {
            before.disktables@.len() + 1int
        })
        &&& after.disktables@.last().consistent()
        &&& after.disktable_index == before.disktable_index + flush_step(before)
        &&& flush_needs_merge(before) ==> merged_from(after.disktables@[0], before.disktables@)
        &&& !flush_needs_merge(before) ==> after.disktables@.drop_last() == before.disktables@
        &&& forall|k: Seq<char>| #[trigger] crate::dtable::table_has(after.disktables@.last(), k) == rows.contains_key(k)
        &&& forall|k: Seq<char>| #[trigger] rows.contains_key(k) ==> after.disktables@.last().row_of(k) == Some(rows[k])
    } else {
        &&& after.memtable@ == rows
        &&& after.memtable.size == size
        &&& after.disktables == before.disktables
        &&& after.disktable_index == before.disktable_index
    }
}

/// What a write that reached the memtable, whose rows became `rows` and size
/// `size`, returns: `Done` with the compactions the limits call for;
/// `PartialCommit` where its log record is too long for its frame, nothing
/// else changed; `InternalError` where a minor compaction was due and could
/// not run (see `flush_possible`), the write kept in the memtable and log.
pub open spec fn write_result(
    before: Base,
    after: Base,
    op: CommitOp,
    rows: Map<Seq<char>, RowView>,
    size: int,
    r: QueryResult,
) -> bool {
    match r {
        QueryResult::Done => frameable(op) && flushed(before, after, rows, size),
        QueryResult::PartialCommit => {
            &&& !frameable(op)
            &&& after.memtable@ == rows
            &&& after.memtable.size == size
            &&& after.disktables == before.disktables
            &&& after.disktable_index == before.disktable_index
            &&& after.commit_log@ == before.commit_log@
        },
        QueryResult::InternalError => {
            &&& frameable(op)
            &&& size > before.memtable_size_limit
            &&& !flush_possible(before)
            &&& after.memtable@ == rows
            &&& after.memtable.size == size
            &&& after.disktables == before.disktables
            &&& after.disktable_index == before.disktable_index
            &&& after.commit_log@ == before.commit_log@ + frame_of(op)
        },
        _ => false,
    }
}

/// What each source gave for a read: a value for each column, or nothing
/// where the source lacks the row.
pub open spec fn gathered(
    results: Seq<Option<Vec<Option<DEntry>>>>,
    rows: Seq<Option<RowView>>,
    cols: Seq<Seq<char>>,
    t: u64,
) -> bool {
    &&& results.len() == rows.len()
    &&& forall|s: int|
        0 <= s < results.len() ==> match #[trigger] results[s] {
            Some(v) => rows[s] is Some && v@.len() == cols.len() && forall|c: int|
                0 <= c < cols.len() ==> opt_view(#[trigger] v@[c]) == read_column(rows[s]->Some_0, cols[c], t),
            None => rows[s] is None,
        }
}

/// The value of column `c` that the newest source gives.
fn newest_value(
    results: &Vec<Option<Vec<Option<DEntry>>>>,
    c: usize,
    Ghost(rows): Ghost<Seq<Option<RowView>>>,
    Ghost(cols): Ghost<Seq<Seq<char>>>,
    t: u64,
) -> (r: Option<Vec<u8>>)
    requires
        gathered(results@, rows, cols, t),
        c < cols.len(),
    ensures
        opt_bytes(r) == value_of(newest(candidates(rows, cols[c as int], t))),
{
    let ghost cands = candidates(rows, cols[c as int], t);
    let mut best: Option<&DEntry> = None;
    let mut s: usize = 0;
    assert(cands.take(0) =~= Seq::<Option<EntryView>>::empty());
    while s < results.len()
        invariant
            gathered(results@, rows, cols, t),
            c < cols.len(),
            cands == candidates(rows, cols[c as int], t),
            s <= results@.len(),
            match best {
                Some(e) => newest(cands.take(s as int)) == Some(e@),
                None => newest(cands.take(s as int)) is None,
            },
        decreases results@.len() - s,
    {
        let ghost t2 = cands.take(s + 1);
        assert(t2.drop_last() =~= cands.take(s as int));
        assert(t2.last() == cands[s as int]);
        match &results[s] {
            Some(v) => {
                assert(opt_view(v@[c as int]) == cands[s as int]);
                match &v[c] {
                    Some(e) => {
                        let newer = match best {
                            None => true,
                            Some(b) => b.timestamp < e.timestamp,
                        };
                        if newer {
                            best = Some(e);
                        }
                    },
                    None => {},
                }
            },
            None => {
                assert(cands[s as int] is None);
            },
        }
        s = s + 1;
    }
    assert(cands.take(s as int) =~= cands);
    match best {
        Some(e) => Some(crate::dtable::copy_bytes(&e.value)),
        None => None,
    }
}

/// What a read of columns `names` of row `row` at time `t` returns (see
/// `Base::select`).
pub open spec fn select_result(b: Base, row: Seq<char>, names: Seq<Seq<char>>, t: u64, r: QueryResult) -> bool {
    let rows = sources(b.memtable@, b.disktables@, row);
    match r {
        QueryResult::InternalError => exists|i: int|
            0 <= i < b.disktables@.len() && (#[trigger] b.disktables@[i]).corrupt(row),
        QueryResult::RowNotFound => (forall|i: int|
            0 <= i < b.disktables@.len() ==> !(#[trigger] b.disktables@[i]).corrupt(row)) && forall|s: int|
            0 <= s < rows.len() ==> (#[trigger] rows[s]) is None,
        QueryResult::Data { columns } => {
            &&& forall|i: int| 0 <= i < b.disktables@.len() ==> !(#[trigger] b.disktables@[i]).corrupt(row)
            &&& exists|s: int| 0 <= s < rows.len() && (#[trigger] rows[s]) is Some
            &&& columns@.len() == names.len()
            &&& forall|c: int|
                0 <= c < names.len() ==> opt_bytes(#[trigger] columns@[c]) == value_of(
                    newest(candidates(rows, names[c], t)),
                )
        },
        _ => false,
    }
}

/// What an insert of `updates` to row `row` at time `t` does and returns (see
/// `Base::insert`).
pub open spec fn insert_result(before: Base, after: Base, row: Seq<char>, updates: Seq<MUpdate>, t: u64, r: QueryResult) -> bool {
    if before.memtable@.contains_key(row) {
        r is RowAlreadyExists && after == before
    } else {
        write_result(
            before,
            after,
            (row, t, update_views(updates)),
            mt_insert(before.memtable@, row, update_views(updates), t),
            sat_add(before.memtable.size as int, updates_size(updates)),
            r,
        )
    }
}

/// What an update of row `row` with `updates` at time `t` does and returns
/// (see `Base::update`).
pub open spec fn update_result(before: Base, after: Base, row: Seq<char>, updates: Seq<MUpdate>, t: u64, r: QueryResult) -> bool {
    write_result(
        before,
        after,
        (row, t, update_views(updates)),
        mt_update(before.memtable@, row, update_views(updates), t),
        sat_add(before.memtable.size as int, updates_size(updates)),
        r,
    )
}

/// `d` is the merge of the disk tables `dts`: it has the keys of them all,
/// and where they are consistent it is consistent and holds under each key
/// their rows merged in table order (see `row_merge_all`).
pub open spec fn merged_from(d: DTable, dts: Seq<DTable>) -> bool {
    &&& forall|k: Seq<char>| #[trigger] crate::dtable::table_has(d, k) == crate::dtable::any_has(dts, k)
    &&& (forall|i: int| 0 <= i < dts.len() ==> (#[trigger] dts[i]).consistent()) ==> {
        &&& d.consistent()
        &&& forall|k: Seq<char>| #[trigger] crate::dtable::table_has(d, k) ==> d.row_of(k) == Some(
            crate::dtable::row_merge_all(crate::dtable::rows_of(dts, k)),
        )
    }
}

/// A minor compaction must first run a major one: one more disk table
/// would be over the table limit.
pub open spec fn flush_needs_merge(b: Base) -> bool {
    b.disktables@.len() >= b.disktable_limit
}

/// How much a minor compaction advances the disk table number: one for the
/// new table, one more for a major compaction before it.
pub open spec fn flush_step(b: Base) -> int {
    if flush_needs_merge(b) {
        2
    } else {
        1
    }
}

/// A minor compaction is sure to succeed: the disk table numbers are not
/// used up, and where a major compaction runs first, every disk table is
/// consistent. (A major compaction over inconsistent tables may still
/// succeed, where no corrupt row needs merging.)
pub open spec fn flush_possible(b: Base) -> bool {
    &&& b.disktable_index + flush_step(b) <= u32::MAX
    &&& flush_needs_merge(b) ==> forall|i: int|
        0 <= i < b.disktables@.len() ==> (#[trigger] b.disktables@[i]).consistent()
}

/// What a minor compaction leaves: an empty memtable and commit log, and a
/// new consistent disk table with the keys of the old memtable.
pub open spec fn minor_compacted(before: Base, after: Base) -> bool {
    &&& after.memtable@ == Map::<Seq<char>, RowView>::empty()
    &&& after.memtable.size == 0
    &&& after.commit_log@.len() == 0
    &&& after.disktables@.len() >= 1
    &&& after.disktables@.last().consistent()
    &&& forall|k: Seq<char>| #[trigger] crate::dtable::table_has(after.disktables@.last(), k)
        == before.memtable@.contains_key(k)
    &&& forall|k: Seq<char>| #[trigger] before.memtable@.contains_key(k) ==> after.disktables@.last().row_of(k)
        == Some(before.memtable@[k])
}

/// No complete framed write starts at `pos` in `log`.
pub open spec fn no_frame_at(log: Seq<u8>, pos: int) -> bool {
    forall|o: CommitOp| frameable(o) ==> !crate::codec::at(log, pos, #[trigger] frame_of(o))
}

/// Reads the framed write at `pos`; returns it and the position after it.
/// Where `want` is a write framed there, that write is read.
fn read_frame(log: &[u8], pos: usize, Ghost(want): Ghost<Option<CommitOp>>) -> (r: Option<
    (String, u64, Vec<MUpdate>, usize),
>)
    requires
        pos < log@.len(),
    ensures
        r matches Some((k, t, us, end)) ==> frameable((k@, t, update_views(us@))) && crate::codec::at(
            log@,
            pos as int,
            frame_of((k@, t, update_views(us@))),
        ) && end == pos + frame_of((k@, t, update_views(us@))).len(),
        (want matches Some(o) && frameable(o) && crate::codec::at(log@, pos as int, frame_of(o))) ==> (r matches Some(
            (k, t, us, end),
        ) && (k@, t, update_views(us@)) == want->Some_0),
        r is None ==> no_frame_at(log@, pos as int),
{
    let ghost wanted = want matches Some(o) && frameable(o) && crate::codec::at(log@, pos as int, frame_of(o));
    let ghost w: CommitOp = if wanted {
        want->Some_0
    } else {
        choose|o: CommitOp| frameable(o) && crate::codec::at(log@, pos as int, #[trigger] frame_of(o))
    };
    let ghost any = frameable(w) && crate::codec::at(log@, pos as int, frame_of(w));
    proof {
        if !any {
            assert forall|o: CommitOp| frameable(o) implies !crate::codec::at(log@, pos as int, #[trigger] frame_of(o)) by {}
        } else {
            crate::codec::lemma_at_split(log@, pos as int, le32(enc_commit(w.0, w.1, w.2).len() as u32), enc_commit(w.0, w.1, w.2));
        }
    }
    let len = log.len();
    let n = match get_u32(log, pos) {
        Some(n) => n,
        None => {
            return None;
        },
    };
    let start = pos + 4;
    if (n as usize) > len - start {
        proof {
            if any {
                lemma_le32_injective(n, enc_commit(w.0, w.1, w.2).len() as u32);
            }
        }
        return None;
    }
    let end = start + n as usize;
    proof {
        if any {
            lemma_le32_injective(n, enc_commit(w.0, w.1, w.2).len() as u32);
            assert(log@.subrange(start as int, end as int) == enc_commit(w.0, w.1, w.2));
        }
    }
    let ghost guide: Option<CommitOp> = if any { Some(w) } else { None };
    let (key, t, ups) = match get_commit(log, start, end, Ghost(guide)) {
        Some(x) => x,
        None => {
            return None;
        },
    };
    let ghost op: CommitOp = (key@, t, update_views(ups@));
    proof {
        assert(enc_commit(op.0, op.1, op.2).len() == n);
        assert(frame_of(op) =~= le32(n) + enc_commit(op.0, op.1, op.2));
        crate::codec::lemma_at_join(log@, pos as int, le32(n), enc_commit(op.0, op.1, op.2));
    }
    Some((key, t, ups, end))
}

/// The engine.
pub struct Base {
    pub directory: String,
    /// The number in the name of the newest disk table.
    pub disktable_index: u32,
    pub memtable: MTable,
    pub disktables: Vec<DTable>,
    /// The bytes of the commit log.
    pub commit_log: Vec<u8>,
    pub memtable_size_limit: usize,
    pub disktable_limit: usize,
    /// The writes that the commit log holds, in order.
    pub logged: Ghost<Seq<CommitOp>>,
    /// Some write reached the memtable but not the commit log.
    pub lost: Ghost<bool>,
}

/// The path of the data file of disk table `index` in directory `dir`.
fn data_file_path(dir: &str, index: u32) -> (r: String)
    ensures
        encode_utf8(r@) == table_path(dir@, index),
{
    let mut out: Vec<u8> = Vec::new();
    assert(valid_utf8(out@)) by {
        assert(out@ =~= encode_utf8(Seq::<char>::empty()));
        vstd::utf8::encode_utf8_valid_utf8(Seq::<char>::empty());
    }
    put_text(&mut out, dir);
    put_text(&mut out, "/");
    put_decimal(&mut out, index);
    put_text(&mut out, ".dtable");
    assert(out@ =~= table_path(dir@, index));
    text_of(out)
}

/// Appends the decimal digits of `n`.
fn put_decimal(out: &mut Vec<u8>, n: u32)
    requires
        valid_utf8(old(out)@),
    ensures
        final(out)@ == old(out)@ + decimal_text(n as nat),
        valid_utf8(final(out)@),
    decreases n,
{
    if n >= 10 {
        put_decimal(out, n / 10);
    }
    put_text(out, digit((n % 10) as u8));
    proof {
        if n < 10 {
            assert(n % 10 == n);
        }
    }
    assert(out@ =~= old(out)@ + decimal_text(n as nat));
}

/// A decimal digit.
pub open spec fn is_digit(c: char) -> bool {
    '0' <= c && c <= '9'
}

/// The number that decimal digits write.
pub open spec fn decimal(d: Seq<char>) -> int
    decreases d.len(),
{
    if d.len() == 0 {
        0
    } else {
        decimal(d.drop_last()) * 10 + (d.last() as int - '0' as int)
    }
}

proof fn lemma_decimal_nonneg(d: Seq<char>)
    requires
        forall|i: int| 0 <= i < d.len() ==> is_digit(#[trigger] d[i]),
    ensures
        decimal(d) >= 0,
    decreases d.len(),
{
    if d.len() > 0 {
        assert forall|i: int| 0 <= i < d.drop_last().len() implies is_digit(#[trigger] d.drop_last()[i]) by {
            assert(d.drop_last()[i] == d[i]);
        }
        lemma_decimal_nonneg(d.drop_last());
        assert(is_digit(d[d.len() - 1]));
    }
}

/// `path` names a disk table data file numbered `digits`: it ends with `/`,
/// then `digits` (one decimal digit or more), then `.dtable`.
pub open spec fn names_table(path: Seq<char>, digits: Seq<char>) -> bool {
    &&& digits.len() > 0
    &&& forall|i: int| 0 <= i < digits.len() ==> is_digit(#[trigger] digits[i])
    &&& exists|pre: Seq<char>| path == pre + seq!['/'] + digits + ".dtable"@
}

/// A path names at most one table number.
pub proof fn lemma_names_table_unique(path: Seq<char>, d1: Seq<char>, d2: Seq<char>)
    requires
        names_table(path, d1),
        names_table(path, d2),
    ensures
        d1 == d2,
{
    let suffix = ".dtable"@;
    let pre1 = choose|pre: Seq<char>| path == pre + seq!['/'] + d1 + ".dtable"@;
    let pre2 = choose|pre: Seq<char>| path == pre + seq!['/'] + d2 + ".dtable"@;
    assert(suffix.len() == 7) by {
        reveal_strlit(".dtable");
    }
    let n = path.len() - 7;
    assert forall|i: int| 0 <= i < d1.len() implies path[n - d1.len() + i] == d1[i] by {
        assert(path[pre1.len() + 1 + i] == (pre1 + seq!['/'] + d1 + ".dtable"@)[pre1.len() + 1 + i]);
    }
    assert forall|i: int| 0 <= i < d2.len() implies path[n - d2.len() + i] == d2[i] by {
        assert(path[pre2.len() + 1 + i] == (pre2 + seq!['/'] + d2 + ".dtable"@)[pre2.len() + 1 + i]);
    }
    assert(path[n - d1.len() - 1] == '/') by {
        assert(path[pre1.len() as int] == (pre1 + seq!['/'] + d1 + ".dtable"@)[pre1.len() as int]);
    }
    assert(path[n - d2.len() - 1] == '/') by {
        assert(path[pre2.len() as int] == (pre2 + seq!['/'] + d2 + ".dtable"@)[pre2.len() as int]);
    }
    if d1.len() < d2.len() {
        let i = d2.len() - d1.len() - 1;
        assert(is_digit(d2[i]));
        assert(path[n - d2.len() + i] == d2[i]);
    } else if d2.len() < d1.len() {
        let i = d1.len() - d2.len() - 1;
        assert(is_digit(d1[i]));
        assert(path[n - d1.len() + i] == d1[i]);
    } else {
        assert(d1 =~= d2);
    }
}

/// A disk table given by its data file path, header bytes and data bytes
/// can be loaded (see `Base::load_dtable`).
pub open spec fn table_loadable(t: (String, Vec<u8>, Vec<u8>)) -> bool {
    numbered_path(t.0@) && crate::dtable::header_fits(t.1@, t.2@.len() as int)
}

/// The digits of the table number that a path names (see `names_table`).
pub open spec fn table_digits(path: Seq<char>) -> Seq<char> {
    choose|d: Seq<char>| names_table(path, d)
}

/// The table number that a path names.
pub open spec fn table_number(path: Seq<char>) -> int {
    decimal(table_digits(path))
}

pub open spec fn max_int(a: int, b: int) -> int {
    if a >= b {
        a
    } else {
        b
    }
}

/// The largest of `start` and the table numbers of the tables' paths.
pub open spec fn max_number(start: int, tables: Seq<(String, Vec<u8>, Vec<u8>)>) -> int
    decreases tables.len(),
{
    if tables.len() == 0 {
        start
    } else {
        max_int(max_number(start, tables.drop_last()), table_number(tables.last().0@))
    }
}

/// Disk table `d` is the one given by a data file path, header bytes and
/// data bytes.
pub open spec fn loaded_from(d: DTable, t: (String, Vec<u8>, Vec<u8>)) -> bool {
    &&& d.filename@ == t.0@
    &&& t.1@ == enc_header(d.lookup.key_seq(), d.lookup.offsets@)
    &&& d.data@ == t.2@
}

/// The table number that a path names fits a `u32`.
pub open spec fn numbered_path(path: Seq<char>) -> bool {
    exists|d: Seq<char>| names_table(path, d) && #[trigger] decimal(d) <= u32::MAX
}

/// Relies on the regex crate: `Regex::captures` of the pattern
/// `/([0-9]+)\.dtable$`, its first group. Digits hold no `/`, so at most one
/// `/` can start a match and the group is determined by the path.
#[verifier::external_body]
fn table_number_text(path: &str) -> (r: Option<String>)
    ensures
        match r {
            Some(d) => names_table(path@, d@),
            None => forall|d: Seq<char>| !#[trigger] names_table(path@, d),
        },
{
    let pattern = regex::Regex::new(r"/([0-9]+)\.dtable$").ok()?;
    let caps = pattern.captures(path)?;
    caps.get(1).map(|m| m.as_str().to_string())
}

proof fn lemma_decimal_grows(d: Seq<char>, i: int)
    requires
        0 <= i <= d.len(),
        forall|k: int| 0 <= k < d.len() ==> is_digit(#[trigger] d[k]),
    ensures
        decimal(d) >= decimal(d.take(i)),
    decreases d.len() - i,
{
    if i < d.len() {
        lemma_decimal_grows(d, i + 1);
        let t = d.take(i + 1);
        assert(t.drop_last() =~= d.take(i));
        assert(t.last() == d[i]);
        assert forall|k: int| 0 <= k < d.take(i).len() implies is_digit(#[trigger] d.take(i)[k]) by {
            assert(d.take(i)[k] == d[k]);
        }
        lemma_decimal_nonneg(d.take(i));
    } else {
        assert(d.take(i) =~= d);
    }
}

/// The number that decimal digits write, where it fits a `u32`.
fn parse_u32(s: &str) -> (r: Option<u32>)
    requires
        s@.len() > 0,
        forall|i: int| 0 <= i < s@.len() ==> is_digit(#[trigger] s@[i]),
    ensures
        r == (if decimal(s@) <= u32::MAX {
            Some(decimal(s@) as u32)
        } else {
            None::<u32>
        }),
{
    let b = s.as_bytes();
    proof {
        assert(vstd::utf8::is_ascii_chars(s@));
        vstd::utf8::is_ascii_chars_encode_utf8(s@);
        lemma_decimal_nonneg(s@);
    }
    let mut n: u32 = 0;
    let mut i: usize = 0;
    assert(s@.take(0) =~= Seq::<char>::empty());
    while i < b.len()
        invariant
            b@ == encode_utf8(s@),
            b@.len() == s@.len(),
            i <= b@.len(),
            forall|k: int| 0 <= k < s@.len() ==> is_digit(#[trigger] s@[k]),
            forall|k: int| 0 <= k < s@.len() ==> s@[k] as u8 == #[trigger] b@[k],
            n == decimal(s@.take(i as int)),
        decreases b@.len() - i,
    {
        let c = b[i];
        assert(is_digit(s@[i as int]));
        assert(c as int == s@[i as int] as int);
        let d = (c - 48) as u32;
        let ghost t = s@.take(i + 1);
        assert(t.drop_last() =~= s@.take(i as int));
        assert(t.last() == s@[i as int]);
        match n.checked_mul(10) {
            Some(m) => match m.checked_add(d) {
                Some(v) => {
                    n = v;
                },
                None => {
                    proof {
                        lemma_decimal_grows(s@, i + 1);
                    }
                    return None;
                },
            },
            None => {
                proof {
                    lemma_decimal_grows(s@, i + 1);
                    lemma_decimal_nonneg(s@.take(i as int));
                }
                return None;
            },
        }
        i = i + 1;
    }
    assert(s@.take(i as int) =~= s@);
    Some(n)
}

/// The decimal digits of `n` as text, without leading zeros.
pub open spec fn decimal_text(n: nat) -> Seq<u8>
    decreases n,
{
    if n < 10 {
        text(digit_str(n as int))
    } else {
        decimal_text(n / 10) + text(digit_str((n % 10) as int))
    }
}

/// The path of the data file of disk table `index` in directory `dir`, as
/// text: `<dir>/<index>.dtable`.
pub open spec fn table_path(dir: Seq<char>, index: u32) -> Seq<u8> {
    encode_utf8(dir) + text("/") + decimal_text(index as nat) + text(".dtable")
}

impl Base {
    /// The memtable and every disk table well formed.
    pub open spec fn parts_wf(&self) -> bool {
        &&& self.memtable.wf()
        &&& forall|i: int| 0 <= i < self.disktables@.len() ==> (#[trigger] self.disktables@[i]).wf()
    }

    /// The memtable and every disk table well formed; the commit log holds
    /// the frames of the logged writes, which rebuild the memtable unless a
    /// write was lost.
    pub open spec fn wf(&self) -> bool {
        &&& self.memtable.wf()
        &&& forall|i: int| 0 <= i < self.disktables@.len() ==> (#[trigger] self.disktables@[i]).wf()
        &&& all_frameable(self.logged@)
        &&& self.commit_log@ == log_of(self.logged@)
        &&& !self.lost@ ==> self.memtable@ == replay(Map::empty(), self.logged@)
    }

    /// An engine for `directory` with an empty memtable, no disk tables and
    /// an empty commit log.
    pub fn new(directory: &str, memtable_size_limit: usize, disktable_limit: usize) -> (r: Base)
        ensures
            r.wf(),
            r.directory@ == directory@,
            r.memtable@ == Map::<Seq<char>, RowView>::empty(),
            r.memtable.size == 0,
            r.disktables@.len() == 0,
            r.commit_log@.len() == 0,
            r.disktable_index == 0,
            r.memtable_size_limit == memtable_size_limit,
            r.disktable_limit == disktable_limit,
    {
        let r = Base {
            directory: directory.to_string(),
            disktable_index: 0,
            memtable: MTable::new(),
            disktables: Vec::new(),
            commit_log: Vec::new(),
            memtable_size_limit,
            disktable_limit,
            logged: Ghost(Seq::empty()),
            lost: Ghost(false),
        };
        assert(r.commit_log@ =~= log_of(Seq::<CommitOp>::empty()));
        r
    }

    /// Appends the framed record of a write to the commit log. Fails, with
    /// nothing changed, where the record is too long for its frame.
    pub fn commit(&mut self, row: &str, updates: &[MUpdate], timestamp: u64) -> (r: Result<(), BaseError>)
        requires
            all_frameable(old(self).logged@),
            old(self).commit_log@ == log_of(old(self).logged@),
        ensures
            final(self).memtable == old(self).memtable,
            final(self).disktables == old(self).disktables,
            final(self).disktable_index == old(self).disktable_index,
            final(self).memtable_size_limit == old(self).memtable_size_limit,
            final(self).disktable_limit == old(self).disktable_limit,
            final(self).lost == old(self).lost,
            all_frameable(final(self).logged@),
            final(self).commit_log@ == log_of(final(self).logged@),
            match r {
                Ok(()) => frameable((row@, timestamp, update_views(updates@))) && final(self).logged@
                    == old(self).logged@.push((row@, timestamp, update_views(updates@))),
                Err(e) => !frameable((row@, timestamp, update_views(updates@))) && e is CorruptedFiles
                    && final(self).logged@ == old(self).logged@,
            },
    {
        let ghost op: CommitOp = (row@, timestamp, update_views(updates@));
        match frame_commit(row, timestamp, updates) {
            Some(bytes) => {
                crate::codec::append_bytes(&mut self.commit_log, bytes.as_slice());
                proof {
                    crate::codec::lemma_concat_push(self.logged@, op, frame_code());
                    self.logged = Ghost(self.logged@.push(op));
                    assert forall|i: int| 0 <= i < self.logged@.len() implies frameable(#[trigger] self.logged@[i]) by {
                        if i < self.logged@.len() - 1 {
                            assert(self.logged@[i] == old(self).logged@[i]);
                        }
                    }
                }
                Ok(())
            },
            None => Err(BaseError::CorruptedFiles),
        }
    }

    /// Inserts a new row (see `MTable::insert`), then logs the write, then
    /// runs the compactions that the size limits call for. The row is
    /// checked against the memtable only: a row that is only in a disk table
    /// can be inserted again. Where the write cannot be logged the memtable
    /// keeps it and the result is `PartialCommit`; where a compaction fails,
    /// `InternalError`.
    pub fn insert(&mut self, row: &str, updates: Vec<MUpdate>, timestamp: u64) -> (r: QueryResult)
        requires
            old(self).wf(),
        ensures
            final(self).wf(),
            insert_result(*old(self), *final(self), row@, updates@, timestamp, r),
    {
        match self.memtable.insert(row, updates.as_slice(), timestamp) {
            Ok(()) => {},
            Err(_) => {
                return QueryResult::RowAlreadyExists;
            },
        }
        self.after_write(row, updates.as_slice(), timestamp)
    }

    /// Adds the updates to the row, creating it where it does not exist,
    /// then logs the write and runs the compactions that the size limits
    /// call for (results as for `insert`).
    pub fn update(&mut self, row: &str, updates: Vec<MUpdate>, timestamp: u64) -> (r: QueryResult)
        requires
            old(self).wf(),
        ensures
            final(self).wf(),
            update_result(*old(self), *final(self), row@, updates@, timestamp, r),
    {
        let _ = self.memtable.update(row, updates.as_slice(), timestamp);
        self.after_write(row, updates.as_slice(), timestamp)
    }

    /// Logs a write that the memtable took, then checks the size limits.
    fn after_write(&mut self, row: &str, updates: &[MUpdate], timestamp: u64) -> (r: QueryResult)
        requires
            old(self).memtable.wf(),
            forall|i: int| 0 <= i < old(self).disktables@.len() ==> (#[trigger] old(self).disktables@[i]).wf(),
            all_frameable(old(self).logged@),
            old(self).commit_log@ == log_of(old(self).logged@),
            !old(self).lost@ ==> old(self).memtable@ == mt_update(
                replay(Map::empty(), old(self).logged@),
                row@,
                update_views(updates@),
                timestamp,
            ),
        ensures
            final(self).wf(),
            write_result(
                *old(self),
                *final(self),
                (row@, timestamp, update_views(updates@)),
                old(self).memtable@,
                old(self).memtable.size as int,
                r,
            ),
    {
        match self.commit(row, updates, timestamp) {
            Ok(()) => {},
            Err(_) => {
                proof {
                    self.lost = Ghost(true);
                }
                return QueryResult::PartialCommit;
            },
        }
        proof {
            let o: CommitOp = (row@, timestamp, update_views(updates@));
            assert(self.logged@.drop_last() =~= old(self).logged@);
        }
        proof {
            crate::codec::lemma_concat_push(old(self).logged@, (row@, timestamp, update_views(updates@)), frame_code());
        }
        match self.check_size_limits() {
            Ok(()) => QueryResult::Done,
            Err(_) => QueryResult::InternalError,
        }
    }

    /// Runs a minor compaction where the memtable's size is over its limit.
    pub fn check_size_limits(&mut self) -> (r: Result<(), BaseError>)
        requires
            old(self).wf(),
        ensures
            final(self).wf(),
            r is Ok ==> flushed(
                *old(self),
                *final(self),
                old(self).memtable@,
                old(self).memtable.size as int,
            ),
            (old(self).memtable.size <= old(self).memtable_size_limit || flush_possible(*old(self))) ==> r is Ok,
            r is Err ==> *final(self) == *old(self) && old(self).memtable.size > old(self).memtable_size_limit
                && !flush_possible(*old(self)),
    {
        if self.memtable.size > self.memtable_size_limit {
            self.empty_memtable()
        } else {
            Ok(())
        }
    }

    /// Minor compaction: writes the memtable to a new disk table, after a
    /// major compaction where one more table would be over the table limit;
    /// then empties the memtable and the commit log.
    pub fn empty_memtable(&mut self) -> (r: Result<(), BaseError>)
        requires
            old(self).wf(),
        ensures
            final(self).wf(),
            final(self).memtable_size_limit == old(self).memtable_size_limit,
            final(self).disktable_limit == old(self).disktable_limit,
            r is Ok ==> minor_compacted(*old(self), *final(self)),
            flush_possible(*old(self)) ==> r is Ok,
            r is Err ==> *final(self) == *old(self) && (old(self).disktable_index + flush_step(*old(self)) > u32::MAX || (
            flush_needs_merge(*old(self)) && exists|i: int|
                0 <= i < old(self).disktables@.len() && !(#[trigger] old(self).disktables@[i]).consistent())),
            r is Ok ==> {
                &&& final(self).disktables@.len() == (if flush_needs_merge(*old(self)) {
                    2int
                } else {
                    old(self).disktables@.len() + 1int
                })
                &&& final(self).disktable_index == old(self).disktable_index + flush_step(*old(self))
                &&& !flush_needs_merge(*old(self)) ==> final(self).disktables@.drop_last() == old(self).disktables@
                &&& flush_needs_merge(*old(self)) ==> merged_from(final(self).disktables@[0], old(self).disktables@)
            },
    {
        let merge = self.disktables.len() >= self.disktable_limit;
        let step: u32 = if merge { 2 } else { 1 };
        if self.disktable_index > u32::MAX - step {
            return Err(BaseError::Problem { reason: "disk table numbers are used up".to_string() });
        }
        if merge {
            match self.merge_disktables() {
                Ok(()) => {},
                Err(e) => {
                    return Err(e);
                },
            }
        }
        self.write_memtable();
        Ok(())
    }

    /// Writes the memtable to a new disk table numbered one past the newest,
    /// then empties the memtable and the commit log.
    fn write_memtable(&mut self)
        requires
            old(self).wf(),
            old(self).disktable_index < u32::MAX,
        ensures
            final(self).wf(),
            minor_compacted(*old(self), *final(self)),
            final(self).memtable_size_limit == old(self).memtable_size_limit,
            final(self).disktable_limit == old(self).disktable_limit,
            final(self).disktable_index == old(self).disktable_index + 1,
            final(self).disktables@.drop_last() == old(self).disktables@,
            final(self).disktables@.len() == old(self).disktables@.len() + 1,
    {
        self.disktable_index = self.disktable_index + 1;
        let mut data: Vec<u8> = Vec::new();
        let mut header: Vec<u8> = Vec::new();
        let lookup = self.memtable.write_to_writer(&mut data, &mut header);
        let dlen = data.len();
        let path = data_file_path(self.directory.as_str(), self.disktable_index);
        let table = DTable::from_dtableheader(path, lookup, data);
        proof {
            assert(data@ =~= crate::codec::concat(
                crate::mtable::row_records(self.memtable.key_seq(), self.memtable.rows@),
                crate::codec::bytes_code(),
            ));
            assert(table.data@.len() == dlen);
            lemma_written_table_consistent(&self.memtable, &table);
            assert forall|k: Seq<char>| #[trigger] crate::dtable::table_has(table, k) == self.memtable@.contains_key(k) by {
                crate::keys::lemma_index_of(self.memtable.key_seq(), k);
            }
        }
        let ghost before_push = self.disktables@;
        self.disktables.push(table);
        assert(self.disktables@.drop_last() =~= before_push);
        self.memtable = MTable::new();
        self.commit_log = Vec::new();
        proof {
            self.logged = Ghost(Seq::empty());
            self.lost = Ghost(false);
            assert(self.commit_log@ =~= log_of(self.logged@));
            assert forall|i: int| 0 <= i < self.disktables@.len() implies (#[trigger] self.disktables@[i]).wf() by {
                if i < self.disktables@.len() - 1 {
                }
            }
        }
    }

    /// Reads columns `cols` of row `row` as of time `timestamp`: for each
    /// column the value of the entry with the greatest timestamp not above
    /// `timestamp` over the memtable and all disk tables (see `newest`).
    /// `RowNotFound` where no source has the row; `InternalError` where a
    /// disk table's bytes for the row do not hold it.
    pub fn select(&self, row: &str, cols: &[&str], timestamp: u64) -> (r: QueryResult)
        requires
            self.wf(),
        ensures
            select_result(*self, row@, cols@.map_values(|x: &str| x@), timestamp, r),
    {
        let ghost rows = sources(self.memtable@, self.disktables@, row@);
        let ghost names = cols@.map_values(|x: &str| x@);
        let mut results: Vec<Option<Vec<Option<DEntry>>>> = Vec::new();
        let mut found = false;
        let first = self.memtable.select(row, cols, timestamp);
        if first.is_some() {
            found = true;
        }
        results.push(first);
        proof {
            assert forall|s: int| 0 <= s < results@.len() implies match #[trigger] results@[s] {
                Some(v) => rows[s] is Some && v@.len() == names.len() && forall|c: int|
                    0 <= c < names.len() ==> opt_view(#[trigger] v@[c]) == read_column(rows[s]->Some_0, names[c], timestamp),
                None => rows[s] is None,
            } by {
                assert(s == 0);
                if let Some(v) = results@[0] {
                    assert forall|c: int| 0 <= c < names.len() implies opt_view(#[trigger] v@[c]) == read_column(
                        rows[0]->Some_0,
                        names[c],
                        timestamp,
                    ) by {
                        assert(names[c] == cols@[c]@);
                    }
                }
            }
        }
        let mut i: usize = 0;
        while i < self.disktables.len()
            invariant
                self.wf(),
                rows == sources(self.memtable@, self.disktables@, row@),
                names == cols@.map_values(|x: &str| x@),
                i <= self.disktables@.len(),
                results@.len() == i + 1,
                gathered(results@, rows.take(i + 1), names, timestamp),
                found == exists|s: int| 0 <= s < i + 1 && (#[trigger] rows[s]) is Some,
                forall|j: int| 0 <= j < i ==> !(#[trigger] self.disktables@[j]).corrupt(row@),
            decreases self.disktables@.len() - i,
        {
            let d = &self.disktables[i];
            assert(d.wf());
            assert(rows[i + 1] == d.row_of(row@));
            let got = match d.get_row(row) {
                Ok(r) => {
                    found = true;
                    Some(select_in_row(&r, cols, timestamp))
                },
                Err(TError::NotFound) => None,
                Err(_) => {
                    return QueryResult::InternalError;
                },
            };
            let ghost before = results@;
            results.push(got);
            proof {
                let rs = rows.take(i + 2);
                assert(rs.drop_last() =~= rows.take(i + 1));
                assert forall|s: int| 0 <= s < results@.len() implies match #[trigger] results@[s] {
                    Some(v) => rs[s] is Some && v@.len() == names.len() && forall|c: int|
                        0 <= c < names.len() ==> opt_view(#[trigger] v@[c]) == read_column(rs[s]->Some_0, names[c], timestamp),
                    None => rs[s] is None,
                } by {
                    if s < i + 1 {
                        assert(results@[s] == before[s]);
                        assert(rs[s] == rows.take(i + 1)[s]);
                    } else {
                        if let Some(v) = results@[s] {
                            assert forall|c: int| 0 <= c < names.len() implies opt_view(#[trigger] v@[c])
                                == read_column(rs[s]->Some_0, names[c], timestamp) by {
                                assert(names[c] == cols@[c]@);
                            }
                        }
                    }
                }
                if d.row_of(row@) is Some {
                    assert(rows[i + 1] is Some);
                }
            }
            i = i + 1;
        }
        assert(rows.take(i + 1) =~= rows);
        if !found {
            return QueryResult::RowNotFound;
        }
        let mut columns: Vec<Option<Vec<u8>>> = Vec::new();
        let mut c: usize = 0;
        while c < cols.len()
            invariant
                gathered(results@, rows, names, timestamp),
                names == cols@.map_values(|x: &str| x@),
                c <= cols@.len(),
                columns@.len() == c,
                forall|k: int|
                    0 <= k < c ==> opt_bytes(#[trigger] columns@[k]) == value_of(newest(candidates(rows, names[k], timestamp))),
            decreases cols@.len() - c,
        {
            columns.push(newest_value(&results, c, Ghost(rows), Ghost(names), timestamp));
            c = c + 1;
        }
        QueryResult::Data { columns }
    }

    /// Rebuilds the memtable from the bytes of a commit log: applies each
    /// framed write in order as an update, without logging it again. The
    /// commit log becomes `log`. Fails with `CorruptedFiles` where `log` is
    /// not a sequence of framed writes; every complete record before the
    /// first bytes that are not one is then applied.
    pub fn load_mtable(&mut self, log: &[u8]) -> (r: Result<(), BaseError>)
        requires
            old(self).parts_wf(),
        ensures
            final(self).parts_wf(),
            final(self).disktables == old(self).disktables,
            final(self).disktable_index == old(self).disktable_index,
            final(self).memtable_size_limit == old(self).memtable_size_limit,
            final(self).disktable_limit == old(self).disktable_limit,
            match r {
                Ok(()) => {
                    &&& final(self).wf()
                    &&& final(self).commit_log@ == log@
                    &&& final(self).memtable@ == replay(old(self).memtable@, final(self).logged@)
                    &&& old(self).memtable@ == Map::<Seq<char>, RowView>::empty() ==> !final(self).lost@
                },
                Err(e) => {
                    &&& e is CorruptedFiles
                    &&& !(exists|ops: Seq<CommitOp>| all_frameable(ops) && log@ == #[trigger] log_of(ops))
                    &&& final(self).commit_log == old(self).commit_log
                    &&& exists|ops: Seq<CommitOp>|
                        all_frameable(ops) && log_of(ops).len() < log@.len() && log@.take(
                            log_of(ops).len() as int,
                        ) == #[trigger] log_of(ops) && final(self).memtable@ == replay(old(self).memtable@, ops)
                            && no_frame_at(log@, log_of(ops).len() as int)
                },
            },
    {
        let ghost has = exists|ops: Seq<CommitOp>| all_frameable(ops) && log@ == #[trigger] log_of(ops);
        let ghost xs = choose|ops: Seq<CommitOp>| all_frameable(ops) && log@ == #[trigger] log_of(ops);
        let ghost start_rows = self.memtable@;
        let ghost mut done: Seq<CommitOp> = Seq::empty();
        let len = log.len();
        let mut pos: usize = 0;
        proof {
            crate::codec::lemma_at_empty(log@, 0);
            assert(done =~= xs.take(0));
            assert(log_of(done) =~= Seq::<u8>::empty());
            if has {
                assert(crate::codec::at(log@, 0, log_of(xs))) by {
                    assert(log@.subrange(0, log@.len() as int) =~= log@);
                }
            }
        }
        while pos < len
            invariant
                len == log@.len(),
                pos <= len,
                self.parts_wf(),
                self.disktables == old(self).disktables,
                self.disktable_index == old(self).disktable_index,
                self.memtable_size_limit == old(self).memtable_size_limit,
                self.disktable_limit == old(self).disktable_limit,
                self.commit_log == old(self).commit_log,
                start_rows == old(self).memtable@,
                all_frameable(done),
                crate::codec::at(log@, 0, log_of(done)),
                pos == log_of(done).len(),
                self.memtable@ == replay(start_rows, done),
                has == exists|ops: Seq<CommitOp>| all_frameable(ops) && log@ == #[trigger] log_of(ops),
                has ==> (all_frameable(xs) && log@ == log_of(xs) && done.len() <= xs.len() && done == xs.take(done.len() as int)),
            decreases len - pos,
        {
            let ghost k: int = done.len() as int;
            proof {
                if has {
                    if k == xs.len() {
                        assert(done =~= xs);
                    }
                    assert(crate::codec::at(log@, 0, log_of(xs))) by {
                        assert(log@.subrange(0, log@.len() as int) =~= log@);
                    }
                    crate::codec::lemma_list_next(log@, 0, xs, k as int, frame_code());
                    assert(done =~= xs.take(k as int));
                    assert(frameable(xs[k]));
                }
            }
            let ghost want: Option<CommitOp> = if has { Some(xs[k]) } else { None };
            let (key, t, ups, end) = match read_frame(log, pos, Ghost(want)) {
                Some(x) => x,
                None => {
                    proof {
                        assert(log@.take(log_of(done).len() as int) =~= log_of(done));
                    }
                    return Err(BaseError::CorruptedFiles);
                },
            };
            let ghost op: CommitOp = (key@, t, update_views(ups@));
            let _ = self.memtable.update(key.as_str(), ups.as_slice(), t);
            proof {
                crate::codec::lemma_list_push(log@, 0, done, op, frame_code());
                let d2 = done.push(op);
                assert(d2.drop_last() =~= done);
                assert forall|i: int| 0 <= i < d2.len() implies frameable(#[trigger] d2[i]) by {
                    if i < done.len() {
                        assert(d2[i] == done[i]);
                    }
                }
                if has {
                    assert(xs.take(k + 1) =~= xs.take(k).push(xs[k]));
                }
                done = d2;
            }
            pos = end;
        }
        proof {
            assert(log@.subrange(0, log_of(done).len() as int) =~= log@);
        }
        self.commit_log = crate::codec::copy_range(log, 0, len);
        proof {
            self.logged = Ghost(done);
            self.lost = Ghost(!(start_rows == Map::<Seq<char>, RowView>::empty()));
            assert(self.commit_log@ =~= log@);
        }
        Ok(())
    }

    /// Runs a query at time `timestamp` (see `select`, `insert`, `update`).
    pub fn query(&mut self, q: Query, timestamp: u64) -> (r: QueryResult)
        requires
            old(self).wf(),
        ensures
            final(self).wf(),
            match q {
                Query::Select { row, get } => *final(self) == *old(self) && select_result(
                    *old(self),
                    row@,
                    crate::query::string_views(get@),
                    timestamp,
                    r,
                ),
                Query::Insert { row, set } => insert_result(*old(self), *final(self), row@, set@, timestamp, r),
                Query::Update { row, set } => update_result(*old(self), *final(self), row@, set@, timestamp, r),
            },
    {
        match q {
            Query::Select { row, get } => {
                let mut names: Vec<&str> = Vec::new();
                let mut i: usize = 0;
                while i < get.len()
                    invariant
                        i <= get@.len(),
                        names@.map_values(|x: &str| x@) == crate::query::string_views(get@).take(i as int),
                    decreases get@.len() - i,
                {
                    let ghost prev = names@;
                    let x = get[i].as_str();
                    assert(x@ == get@[i as int]@);
                    names.push(x);
                    assert(names@ == prev.push(x));
                    assert(names@.map_values(|x: &str| x@) =~= prev.map_values(|x: &str| x@).push(x@));
                    assert(crate::query::string_views(get@).take(i + 1) =~= crate::query::string_views(get@).take(i as int).push(x@));
                    i = i + 1;
                }
                assert(crate::query::string_views(get@).take(i as int) =~= crate::query::string_views(get@));
                self.select(row.as_str(), names.as_slice(), timestamp)
            },
            Query::Insert { row, set } => self.insert(row.as_str(), set, timestamp),
            Query::Update { row, set } => self.update(row.as_str(), set, timestamp),
        }
    }

    /// Adds a disk table read from the files of `path`, named
    /// `<dir>/<N>.dtable`: the bytes of its header file and of its data file.
    /// The newest table number becomes `N` where `N` is greater. Fails with
    /// `CorruptedFiles`, changing nothing, where the path is not so named or
    /// the header cannot be read.
    pub fn load_dtable(&mut self, path: String, header: &[u8], data: Vec<u8>) -> (r: Result<(), BaseError>)
        requires
            old(self).wf(),
        ensures
            final(self).wf(),
            final(self).memtable == old(self).memtable,
            final(self).commit_log == old(self).commit_log,
            final(self).logged == old(self).logged,
            final(self).lost == old(self).lost,
            final(self).memtable_size_limit == old(self).memtable_size_limit,
            final(self).disktable_limit == old(self).disktable_limit,
            match r {
                Ok(()) => {
                    &&& final(self).disktables@.len() == old(self).disktables@.len() + 1
                    &&& final(self).disktables@.drop_last() == old(self).disktables@
                    &&& final(self).disktables@.last().filename@ == path@
                    &&& final(self).disktables@.last().data@ == data@
                    &&& header@ == enc_header(
                        final(self).disktables@.last().lookup.key_seq(),
                        final(self).disktables@.last().lookup.offsets@,
                    )
                    &&& table_number(path@) <= u32::MAX
                    &&& final(self).disktable_index == max_int(old(self).disktable_index as int, table_number(path@))
                },
                Err(e) => e is CorruptedFiles && final(self).disktables == old(self).disktables
                    && final(self).disktable_index == old(self).disktable_index,
            },
            (r is Ok) == (numbered_path(path@) && crate::dtable::header_fits(header@, data@.len() as int)),
    {
        let digits = match table_number_text(path.as_str()) {
            Some(d) => d,
            None => {
                proof {
                    assert forall|d: Seq<char>| !(names_table(path@, d) && #[trigger] decimal(d) <= u32::MAX) by {}
                }
                return Err(BaseError::CorruptedFiles);
            },
        };
        let text = digits.as_str();
        assert(text@.len() > 0 && forall|i: int| 0 <= i < text@.len() ==> is_digit(#[trigger] text@[i]));
        let parsed = parse_u32(text);
        assert(text@ == digits@);
        proof {
            lemma_decimal_nonneg(digits@);
        }
        assert(parsed == (if decimal(digits@) <= u32::MAX {
            Some(decimal(digits@) as u32)
        } else {
            None::<u32>
        }));
        let index = match parsed {
            Some(n) => n,
            None => {
                proof {
                    assert forall|d: Seq<char>| !(names_table(path@, d) && #[trigger] decimal(d) <= u32::MAX) by {
                        if names_table(path@, d) {
                            lemma_names_table_unique(path@, d, digits@);
                        }
                    }
                }
                return Err(BaseError::CorruptedFiles);
            },
        };
        let ghost dv = digits@;
        let ghost pv = path@;
        assert(names_table(pv, dv));
        assert(decimal(dv) <= u32::MAX && index == decimal(dv));
        let table = match DTable::new(path, header, data) {
            Ok(t) => t,
            Err(_) => {
                return Err(BaseError::CorruptedFiles);
            },
        };
        proof {
            if names_table(pv, table_digits(pv)) {
                lemma_names_table_unique(pv, dv, table_digits(pv));
            }
        }
        assert(table_number(pv) == index);
        if index > self.disktable_index {
            self.disktable_index = index;
        }
        let ghost before = self.disktables@;
        self.disktables.push(table);
        proof {
            assert(self.disktables@.drop_last() =~= before);
            assert forall|i: int| 0 <= i < self.disktables@.len() implies (#[trigger] self.disktables@[i]).wf() by {
                if i < before.len() {
                    assert(self.disktables@[i] == before[i]);
                }
            }
            assert(names_table(path@, dv) && decimal(dv) <= u32::MAX);
        }
        Ok(())
    }

    /// Loads the engine's state: replays the commit log `log` (see
    /// `load_mtable`), then adds each disk table given by its data file path,
    /// header bytes and data bytes (see `load_dtable`).
    pub fn load(&mut self, log: &[u8], tables: Vec<(String, Vec<u8>, Vec<u8>)>) -> (r: Result<(), BaseError>)
        requires
            old(self).wf(),
        ensures
            final(self).parts_wf(),
            r is Ok ==> {
                &&& final(self).wf()
                &&& final(self).commit_log@ == log@
                &&& final(self).memtable@ == replay(old(self).memtable@, final(self).logged@)
                &&& final(self).disktables@.len() == old(self).disktables@.len() + tables@.len()
                &&& final(self).disktables@.take(old(self).disktables@.len() as int) == old(self).disktables@
                &&& forall|i: int| 0 <= i < tables@.len() ==> loaded_from(
                    #[trigger] final(self).disktables@[old(self).disktables@.len() + i],
                    tables@[i],
                )
                &&& final(self).disktable_index == max_number(old(self).disktable_index as int, tables@)
            },
            r matches Err(e) ==> e is CorruptedFiles,
            (r is Ok) == ((exists|ops: Seq<CommitOp>| all_frameable(ops) && log@ == #[trigger] log_of(ops))
                && forall|i: int| 0 <= i < tables@.len() ==> table_loadable(#[trigger] tables@[i])),
    {
        match self.load_mtable(log) {
            Ok(()) => {},
            Err(e) => {
                return Err(e);
            },
        }
        assert(log@ == log_of(self.logged@));
        let ghost start = self.disktables@;
        let mut rest = tables;
        assert(rest@ =~= tables@.subrange(0, tables@.len() as int));
        assert(tables@.take(0) =~= Seq::<(String, Vec<u8>, Vec<u8>)>::empty());
        let mut loaded: usize = 0;
        let total = rest.len();
        assert(start.take(start.len() as int) =~= start);
        while loaded < total
            invariant
                self.wf(),
                self.commit_log@ == log@,
                self.memtable@ == replay(old(self).memtable@, self.logged@),
                start == old(self).disktables@,
                total == tables@.len(),
                loaded <= total,
                rest@.len() == total - loaded,
                self.disktables@.len() == start.len() + loaded,
                self.disktables@.take(start.len() as int) == start,
                rest@ == tables@.subrange(loaded as int, total as int),
                forall|i: int| 0 <= i < loaded ==> table_loadable(#[trigger] tables@[i]),
                forall|i: int| 0 <= i < loaded ==> loaded_from(#[trigger] self.disktables@[start.len() + i], tables@[i]),
                self.disktable_index == max_number(old(self).disktable_index as int, tables@.take(loaded as int)),
                exists|ops: Seq<CommitOp>| all_frameable(ops) && log@ == #[trigger] log_of(ops),
            decreases total - loaded,
        {
            let ghost item = rest@[0];
            assert(item == tables@[loaded as int]);
            let ghost rest_before = rest@;
            let (path, header, data) = rest.remove(0);
            assert(rest@ =~= tables@.subrange(loaded + 1, total as int)) by {
                assert(rest@ == rest_before.remove(0));
            }
            let ghost before = self.disktables@;
            match self.load_dtable(path, header.as_slice(), data) {
                Ok(()) => {},
                Err(e) => {
                    assert(!table_loadable(tables@[loaded as int]));
                    return Err(e);
                },
            }
            assert(self.disktables@.take(start.len() as int) =~= before.take(start.len() as int));
            proof {
                assert(tables@.take(loaded + 1).drop_last() =~= tables@.take(loaded as int));
                assert(tables@.take(loaded + 1).last() == tables@[loaded as int]);
                assert forall|j: int| 0 <= j < loaded + 1 implies loaded_from(#[trigger] self.disktables@[start.len() + j], tables@[j]) by {
                    if j < loaded {
                        assert(self.disktables@[start.len() + j] == before[start.len() + j]);
                    }
                }
            }
            loaded = loaded + 1;
        }
        assert(tables@.take(loaded as int) =~= tables@);
        Ok(())
    }

    /// Whether one of the disk tables has data file path `name`.
    pub open spec fn is_live(&self, name: Seq<char>) -> bool {
        exists|i: int| 0 <= i < self.disktables@.len() && (#[trigger] self.disktables@[i]).filename@ == name
    }

    /// Whether one of the disk tables has data file path `name`.
    pub fn has_table(&self, name: &str) -> (r: bool)
        ensures
            r == self.is_live(name@),
    {
        let mut i: usize = 0;
        while i < self.disktables.len()
            invariant
                i <= self.disktables@.len(),
                forall|j: int| 0 <= j < i ==> (#[trigger] self.disktables@[j]).filename@ != name@,
            decreases self.disktables@.len() - i,
        {
            match compare_keys(self.disktables[i].filename.as_str(), name) {
                KeyOrder::Equal => {
                    return true;
                },
                _ => {},
            }
            i = i + 1;
        }
        false
    }

    /// Of the data files written so far, those of disk tables that a major
    /// compaction replaced: the files that must go so that a restart does
    /// not load their rows twice.
    pub fn stale_tables(&self, written: &Vec<String>) -> (r: Vec<String>)
        ensures
            forall|x: Seq<char>|
                #[trigger] crate::query::string_views(r@).contains(x) <==> (crate::query::string_views(
                    written@,
                ).contains(x) && !self.is_live(x)),
    {
        let mut out: Vec<String> = Vec::new();
        let mut i: usize = 0;
        while i < written.len()
            invariant
                i <= written@.len(),
                forall|x: Seq<char>|
                    #[trigger] crate::query::string_views(out@).contains(x) <==> (crate::query::string_views(
                        written@,
                    ).take(i as int).contains(x) && !self.is_live(x)),
            decreases written@.len() - i,
        {
            let ghost prev = out@;
            let ghost w = crate::query::string_views(written@);
            assert(w.take(i + 1) =~= w.take(i as int).push(written@[i as int]@));
            if !self.has_table(written[i].as_str()) {
                let c = written[i].clone();
                out.push(c);
                assert(crate::query::string_views(out@) =~= crate::query::string_views(prev).push(written@[i as int]@));
            }
            proof {
                assert forall|x: Seq<char>|
                    #[trigger] crate::query::string_views(out@).contains(x) <==> (w.take(i + 1).contains(x)
                        && !self.is_live(x)) by {
                    lemma_push_contains(w.take(i as int), written@[i as int]@, x);
                    lemma_push_contains(crate::query::string_views(prev), written@[i as int]@, x);
                }
            }
            i = i + 1;
        }
        assert(crate::query::string_views(written@).take(i as int) =~= crate::query::string_views(written@));
        out
    }

    /// Major compaction: merges all disk tables into one new one.
    pub fn merge_disktables(&mut self) -> (r: Result<(), BaseError>)
        requires
            old(self).wf(),
        ensures
            final(self).wf(),
            final(self).memtable == old(self).memtable,
            final(self).commit_log == old(self).commit_log,
            final(self).memtable_size_limit == old(self).memtable_size_limit,
            final(self).disktable_limit == old(self).disktable_limit,
            final(self).disktable_index >= old(self).disktable_index,
            match r {
                Ok(()) => {
                    &&& final(self).disktables@.len() == 1
                    &&& final(self).disktable_index == old(self).disktable_index + 1
                    &&& forall|k: Seq<char>| #[trigger] crate::dtable::table_has(final(self).disktables@[0], k)
                        == crate::dtable::any_has(old(self).disktables@, k)
                    &&& (forall|i: int| 0 <= i < old(self).disktables@.len() ==> (#[trigger] old(self).disktables@[i]).consistent())
                        ==> final(self).disktables@[0].consistent() && forall|k: Seq<char>|
                        #[trigger] crate::dtable::table_has(final(self).disktables@[0], k) ==> final(self).disktables@[0].row_of(k) is Some
                            && merges_all(final(self).disktables@[0].row_of(k)->Some_0, crate::dtable::rows_of(old(self).disktables@, k))
                            && final(self).disktables@[0].row_of(k) == Some(crate::dtable::row_merge_all(crate::dtable::rows_of(old(self).disktables@, k)))
                },
                Err(e) => *final(self) == *old(self) && if old(self).disktable_index == u32::MAX {
                    e is Problem
                } else {
                    e is CorruptedFiles && exists|i: int|
                        0 <= i < old(self).disktables@.len() && !(#[trigger] old(self).disktables@[i]).consistent()
                },
            },
            (old(self).disktable_index < u32::MAX && forall|i: int|
                0 <= i < old(self).disktables@.len() ==> (#[trigger] old(self).disktables@[i]).consistent()) ==> r is Ok,
    {
        if self.disktable_index == u32::MAX {
            return Err(BaseError::Problem { reason: "disk table numbers are used up".to_string() });
        }
        let index = self.disktable_index + 1;
        let path = data_file_path(self.directory.as_str(), index);
        match DTable::from_vec(path.as_str(), self.disktables.as_slice()) {
            Ok(d) => {
                self.disktable_index = index;
                let mut tables: Vec<DTable> = Vec::new();
                tables.push(d);
                self.disktables = tables;
                Ok(())
            },
            Err(_) => Err(BaseError::CorruptedFiles),
        }
    }
}

} // verus!

verus! {

proof fn lemma_first_frame(x: CommitOp, y: CommitOp, rx: Seq<u8>, ry: Seq<u8>)
    requires
        frameable(x),
        frameable(y),
        frame_of(x) + rx == frame_of(y) + ry,
    ensures
        x == y,
        rx == ry,
{
    let px = enc_commit(x.0, x.1, x.2);
    let py = enc_commit(y.0, y.1, y.2);
    let s = frame_of(x) + rx;
    let t = frame_of(y) + ry;
    assert(s.subrange(0, 4) =~= le32(px.len() as u32));
    assert(t.subrange(0, 4) =~= le32(py.len() as u32));
    lemma_le32_injective(px.len() as u32, py.len() as u32);
    assert(s.subrange(4, 4 + px.len() as int) =~= px);
    assert(t.subrange(4, 4 + py.len() as int) =~= py);
    crate::codec::lemma_commit_injective(x, y);
    assert(rx =~= s.subrange(4 + px.len() as int, s.len() as int));
    assert(ry =~= t.subrange(4 + py.len() as int, t.len() as int));
}

proof fn lemma_push_contains(s: Seq<Seq<char>>, a: Seq<char>, x: Seq<char>)
    ensures
        s.push(a).contains(x) == (s.contains(x) || x == a),
{
    if s.push(a).contains(x) && x != a {
        let p = choose|p: int| 0 <= p < s.push(a).len() && s.push(a)[p] == x;
        assert(s[p] == x);
    }
    if s.contains(x) {
        let p = choose|p: int| 0 <= p < s.len() && s[p] == x;
        assert(s.push(a)[p] == x);
    }
    if x == a {
        assert(s.push(a)[s.len() as int] == x);
    }
}

/// A commit log determines the writes it holds.
#[verifier::rlimit(40)]
pub proof fn lemma_log_injective(xs: Seq<CommitOp>, ys: Seq<CommitOp>)
    requires
        all_frameable(xs),
        all_frameable(ys),
        log_of(xs) == log_of(ys),
    ensures
        xs == ys,
    decreases xs.len(),
{
    if xs.len() == 0 && ys.len() == 0 {
        assert(xs =~= ys);
    } else if xs.len() == 0 || ys.len() == 0 {
        let zs = if xs.len() == 0 { ys } else { xs };
        crate::codec::lemma_concat_first(zs, 0, frame_code());
        assert(zs.skip(0) =~= zs);
        assert(log_of(zs).len() >= 4);
        assert(log_of(Seq::<CommitOp>::empty()).len() == 0);
    } else {
        crate::codec::lemma_concat_first(xs, 0, frame_code());
        crate::codec::lemma_concat_first(ys, 0, frame_code());
        assert(xs.skip(0) =~= xs);
        assert(ys.skip(0) =~= ys);
        let x = xs[0];
        let y = ys[0];
        assert(frameable(x) && frameable(y));
        lemma_first_frame(x, y, log_of(xs.skip(1)), log_of(ys.skip(1)));
        assert forall|i: int| 0 <= i < xs.skip(1).len() implies frameable(#[trigger] xs.skip(1)[i]) by {
            assert(xs.skip(1)[i] == xs[i + 1]);
        }
        assert forall|i: int| 0 <= i < ys.skip(1).len() implies frameable(#[trigger] ys.skip(1)[i]) by {
            assert(ys.skip(1)[i] == ys[i + 1]);
        }
        lemma_log_injective(xs.skip(1), ys.skip(1));
        assert(xs =~= seq![x] + xs.skip(1));
        assert(ys =~= seq![y] + ys.skip(1));
    }
}

/// Recovery: an engine that has replayed the commit log of another, in
/// which no write went unlogged, holds the same memtable rows, so every read
/// sees the same values given the same disk tables. (`load_mtable` on such a
/// log succeeds, and from an empty memtable it leaves nothing unlogged.)
pub proof fn lemma_recovery(before: Base, after: Base)
    requires
        before.wf(),
        !before.lost@,
        after.wf(),
        !after.lost@,
        after.commit_log@ == before.commit_log@,
    ensures
        after.memtable@ == before.memtable@,
{
    lemma_log_injective(after.logged@, before.logged@);
}

/// Minor compaction run twice with no write between: the second disk table
/// is empty.
pub proof fn lemma_second_flush_is_empty(before: Base, after: Base)
    requires
        minor_compacted(before, after),
        before.memtable@ == Map::<Seq<char>, RowView>::empty(),
    ensures
        after.disktables@.last().lookup.keys@.len() == 0,
{
    let d = after.disktables@.last();
    if d.lookup.keys@.len() > 0 {
        assert(d.lookup.key_seq()[0] == d.lookup.keys@[0]@);
        assert(crate::dtable::table_has(d, d.lookup.key_seq()[0]));
    }
}

/// Every disk table's header keys are strictly increasing.
pub proof fn lemma_headers_sorted(b: Base, i: int, p: int, q: int)
    requires
        b.wf(),
        0 <= i < b.disktables@.len(),
        0 <= p < q < b.disktables@[i].lookup.keys@.len(),
    ensures
        crate::keys::key_lt(b.disktables@[i].lookup.keys@[p]@, b.disktables@[i].lookup.keys@[q]@),
{
    let d = b.disktables@[i];
    assert(d.wf());
    assert(d.lookup.key_seq()[p] == d.lookup.keys@[p]@);
    assert(d.lookup.key_seq()[q] == d.lookup.keys@[q]@);
}

/// Versioned reads: what a read of column `col` at time `t` returns over the
/// sources is an entry of one of them, not after `t`, with no entry of any
/// source not after `t` later than it; it returns nothing only where every
/// entry of the column in every source is after `t`.
pub proof fn lemma_read_is_newest(rows: Seq<Option<RowView>>, col: Seq<char>, t: u64)
    ensures
        match newest(candidates(rows, col, t)) {
            Some(e) => {
                &&& e.0 <= t
                &&& exists|s: int|
                    0 <= s < rows.len() && rows[s] is Some && rows[s]->Some_0.contains_key(col) && (
                    #[trigger] rows[s])->Some_0[col].contains(e)
                &&& forall|s: int, j: int|
                    0 <= s < rows.len() && rows[s] is Some && rows[s]->Some_0.contains_key(col) && 0 <= j
                        < rows[s]->Some_0[col].len() && (#[trigger] rows[s]->Some_0[col][j]).0 <= t ==> rows[s]->Some_0[col][j].0
                        <= e.0
            },
            None => forall|s: int, j: int|
                0 <= s < rows.len() && rows[s] is Some && rows[s]->Some_0.contains_key(col) && 0 <= j
                    < rows[s]->Some_0[col].len() ==> (#[trigger] rows[s]->Some_0[col][j]).0 > t,
        },
    decreases rows.len(),
{
    if rows.len() > 0 {
        let init = rows.drop_last();
        lemma_read_is_newest(init, col, t);
        let cs = candidates(rows, col, t);
        assert(cs.drop_last() =~= candidates(init, col, t));
        let n = rows.len() - 1;
        let last = rows[n];
        assert(cs.last() == cs[n]);
        assert(cs[n] == match last {
            Some(x) => read_column(x, col, t),
            None => None,
        });
        assert forall|s: int| 0 <= s < init.len() implies rows[s] == #[trigger] init[s] by {}
        let rest = newest(candidates(init, col, t));
        let has_last = last is Some && last->Some_0.contains_key(col);
        if has_last {
            crate::dtable::lemma_pick_is_newest(last->Some_0[col], t);
        }
        match newest(cs) {
            Some(e) => {
                if cs[n] is Some && (rest is None || rest->Some_0.0 < cs[n]->Some_0.0) {
                    assert(e == cs[n]->Some_0);
                    assert(has_last);
                    assert(rows[n] is Some && rows[n]->Some_0.contains_key(col) && rows[n]->Some_0[col].contains(e));
                    assert forall|s: int, j: int|
                        0 <= s < rows.len() && rows[s] is Some && rows[s]->Some_0.contains_key(col) && 0 <= j
                            < rows[s]->Some_0[col].len() && (#[trigger] rows[s]->Some_0[col][j]).0 <= t implies rows[s]->Some_0[col][j].0
                            <= e.0 by {
                        if s < n {
                            assert(init[s] == rows[s]);
                            assert(init[s]->Some_0[col][j] == rows[s]->Some_0[col][j]);
                        }
                    }
                } else {
                    assert(rest == Some(e));
                    let w = choose|s: int|
                        0 <= s < init.len() && init[s] is Some && init[s]->Some_0.contains_key(col) && (
                        #[trigger] init[s])->Some_0[col].contains(e);
                    assert(rows[w] == init[w]);
                    assert forall|s: int, j: int|
                        0 <= s < rows.len() && rows[s] is Some && rows[s]->Some_0.contains_key(col) && 0 <= j
                            < rows[s]->Some_0[col].len() && (#[trigger] rows[s]->Some_0[col][j]).0 <= t implies rows[s]->Some_0[col][j].0
                            <= e.0 by {
                        if s < n {
                            assert(init[s] == rows[s]);
                            assert(init[s]->Some_0[col][j] == rows[s]->Some_0[col][j]);
                        }
                    }
                }
            },
            None => {
                assert(rest is None);
                assert(cs[n] is None);
                assert forall|s: int, j: int|
                    0 <= s < rows.len() && rows[s] is Some && rows[s]->Some_0.contains_key(col) && 0 <= j
                        < rows[s]->Some_0[col].len() implies (#[trigger] rows[s]->Some_0[col][j]).0 > t by {
                    if s < n {
                        assert(init[s] == rows[s]);
                        assert(init[s]->Some_0[col][j] == rows[s]->Some_0[col][j]);
                    }
                }
            },
        }
    }
}

} // verus!

verus! {

/// The newer of a candidate and the newest of the rest; the first on a tie.
pub open spec fn newer_first(x: Option<EntryView>, y: Option<EntryView>) -> Option<EntryView> {
    match y {
        Some(e) => if x is None || x->Some_0.0 < e.0 {
            y
        } else {
            x
        },
        None => x,
    }
}

proof fn lemma_newest_cons(x: Option<EntryView>, ys: Seq<Option<EntryView>>)
    ensures
        newest(seq![x] + ys) == newer_first(x, newest(ys)),
    decreases ys.len(),
{
    assert(newest(Seq::<Option<EntryView>>::empty()) is None);
    if ys.len() == 0 {
        assert(seq![x] + ys =~= seq![x]);
        assert(seq![x].drop_last() =~= Seq::<Option<EntryView>>::empty());
        assert(seq![x].last() == x);
        assert(newest(seq![x]) == newer_first(x, None));
    } else {
        lemma_newest_cons(x, ys.drop_last());
        assert((seq![x] + ys).drop_last() =~= seq![x] + ys.drop_last());
        assert((seq![x] + ys).last() == ys.last());
        let l = ys.last();
        let n1 = newest(ys.drop_last());
        assert(newest(ys) == match l {
            Some(e) => if n1 is None || n1->Some_0.0 < e.0 {
                Some(e)
            } else {
                n1
            },
            None => n1,
        });
    }
}

/// Within one column, over the rows, equal timestamps mean equal entries.
pub open spec fn versions_distinct(rows: Seq<Option<RowView>>, col: Seq<char>) -> bool {
    forall|s1: int, s2: int, j1: int, j2: int|
        0 <= s1 < rows.len() && 0 <= s2 < rows.len() && rows[s1] is Some && rows[s2] is Some
            && rows[s1]->Some_0.contains_key(col) && rows[s2]->Some_0.contains_key(col) && 0 <= j1
            < rows[s1]->Some_0[col].len() && 0 <= j2 < rows[s2]->Some_0[col].len() && (#[trigger] rows[s1]->Some_0[col][j1]).0
            == (#[trigger] rows[s2]->Some_0[col][j2]).0 ==> rows[s1]->Some_0[col][j1] == rows[s2]->Some_0[col][j2]
}

proof fn lemma_union_members(rows: Seq<RowView>, col: Seq<char>, e: EntryView)
    ensures
        (column_union(rows, col).count(e) > 0) == (exists|s: int|
            0 <= s < rows.len() && (#[trigger] col_or_empty(rows[s], col)).contains(e)),
    decreases rows.len(),
{
    broadcast use vstd::seq_lib::group_to_multiset_ensures;

    if rows.len() > 0 {
        let init = rows.drop_last();
        lemma_union_members(init, col, e);
        let n = rows.len() - 1;
        assert(rows[n] == rows.last());
        if exists|s: int| 0 <= s < init.len() && (#[trigger] col_or_empty(init[s], col)).contains(e) {
            let s = choose|s: int| 0 <= s < init.len() && (#[trigger] col_or_empty(init[s], col)).contains(e);
            assert(init[s] == rows[s]);
        }
        if exists|s: int| 0 <= s < rows.len() && (#[trigger] col_or_empty(rows[s], col)).contains(e) {
            let s = choose|s: int| 0 <= s < rows.len() && (#[trigger] col_or_empty(rows[s], col)).contains(e);
            if s < n {
                assert(init[s] == rows[s]);
            }
        }
    }
}

/// The newest candidate over rows merged into one is what a read of the
/// merged row sees, where equal timestamps mean equal entries.
proof fn lemma_newest_of_merged(rows: Seq<Option<RowView>>, m: RowView, col: Seq<char>, t: u64)
    requires
        merges_all(m, rows.map_values(|r: Option<RowView>| row_or_empty(r))),
        versions_distinct(rows, col),
    ensures
        newest(candidates(rows, col, t)) == read_column(m, col, t),
{
    let flat = rows.map_values(|r: Option<RowView>| row_or_empty(r));
    lemma_read_is_newest(rows, col, t);
    let n = newest(candidates(rows, col, t));
    let p = read_column(m, col, t);
    // an entry of the merged column comes from some row, and back
    assert forall|e: EntryView| m.contains_key(col) implies (#[trigger] m[col].contains(e)) == (exists|s: int|
        0 <= s < rows.len() && rows[s] is Some && rows[s]->Some_0.contains_key(col) && rows[s]->Some_0[col].contains(e)) by {
        vstd::seq_lib::to_multiset_contains(m[col], e);
        lemma_union_members(flat, col, e);
        if exists|s: int| 0 <= s < flat.len() && (#[trigger] col_or_empty(flat[s], col)).contains(e) {
            let s = choose|s: int| 0 <= s < flat.len() && (#[trigger] col_or_empty(flat[s], col)).contains(e);
            assert(flat[s] == row_or_empty(rows[s]));
        }
        if exists|s: int|
            0 <= s < rows.len() && rows[s] is Some && rows[s]->Some_0.contains_key(col) && rows[s]->Some_0[col].contains(e) {
            let s = choose|s: int|
                0 <= s < rows.len() && rows[s] is Some && rows[s]->Some_0.contains_key(col) && rows[s]->Some_0[col].contains(e);
            assert(flat[s] == rows[s]->Some_0);
            assert(col_or_empty(flat[s], col).contains(e));
        }
    }
    assert(m.contains_key(col) == in_any(flat, col));
    if m.contains_key(col) {
        crate::dtable::lemma_pick_is_newest(m[col], t);
    }
    match n {
        Some(e) => {
            let s = choose|s: int|
                0 <= s < rows.len() && rows[s] is Some && rows[s]->Some_0.contains_key(col) && (#[trigger] rows[s])->Some_0[col].contains(e);
            assert(flat[s] == rows[s]->Some_0);
            assert(in_any(flat, col));
            assert(m[col].contains(e));
            let je = choose|j: int| 0 <= j < m[col].len() && m[col][j] == e;
            assert(p is Some);
            let q = p->Some_0;
            assert(m[col].contains(q));
            let s2 = choose|s: int|
                0 <= s < rows.len() && rows[s] is Some && rows[s]->Some_0.contains_key(col) && rows[s]->Some_0[col].contains(q);
            let j2 = choose|j: int| 0 <= j < rows[s2]->Some_0[col].len() && rows[s2]->Some_0[col][j] == q;
            let j1 = choose|j: int| 0 <= j < rows[s]->Some_0[col].len() && rows[s]->Some_0[col][j] == e;
            assert(rows[s2]->Some_0[col][j2].0 <= e.0);
            assert(e.0 <= q.0);
            assert(rows[s]->Some_0[col][j1] == rows[s2]->Some_0[col][j2]);
        },
        None => {
            if let Some(q) = p {
                assert(m[col].contains(q));
                let s2 = choose|s: int|
                    0 <= s < rows.len() && rows[s] is Some && rows[s]->Some_0.contains_key(col) && rows[s]->Some_0[col].contains(q);
                let j2 = choose|j: int| 0 <= j < rows[s2]->Some_0[col].len() && rows[s2]->Some_0[col][j] == q;
                assert(rows[s2]->Some_0[col][j2].0 > t);
            }
        },
    }
}

/// Major compaction keeps what reads see: with the disk tables replaced by
/// their merge, a read of any row, column and time returns what it returned
/// before: the same newest entry, the same row presence, and no corruption.
/// This holds where the disk tables are consistent and, within the column
/// read, equal timestamps in the tables mean equal entries. Without that
/// condition it can fail: the merge takes on each step the input whose next
/// entry has the greater timestamp, which orders equal timestamps as a read
/// does only for columns in descending order, and flushed memtable columns
/// are ascending. Table one holding `[(5, a)]` and table two `[(3, x), (5, b)]`
/// read `a` before the merge and `b` after it.
pub proof fn lemma_major_compaction_keeps_reads(
    m: Map<Seq<char>, RowView>,
    dts: Seq<DTable>,
    d: DTable,
    row: Seq<char>,
    col: Seq<char>,
    t: u64,
)
    requires
        forall|i: int| 0 <= i < dts.len() ==> (#[trigger] dts[i]).wf() && dts[i].consistent(),
        d.wf(),
        forall|k: Seq<char>| #[trigger] crate::dtable::table_has(d, k) == crate::dtable::any_has(dts, k),
        forall|k: Seq<char>| #[trigger] crate::dtable::table_has(d, k) ==> d.row_of(k) is Some && merges_all(
            d.row_of(k)->Some_0,
            crate::dtable::rows_of(dts, k),
        ),
        versions_distinct(dts.map_values(|x: DTable| x.row_of(row)), col),
    ensures
        newest(candidates(sources(m, seq![d], row), col, t)) == newest(candidates(sources(m, dts, row), col, t)),
        (exists|s: int| 0 <= s < dts.len() + 1 && (#[trigger] sources(m, dts, row)[s]) is Some) == (exists|s: int|
            0 <= s < 2 && (#[trigger] sources(m, seq![d], row)[s]) is Some),
        forall|i: int| 0 <= i < dts.len() ==> !(#[trigger] dts[i]).corrupt(row),
        !d.corrupt(row),
{
    let rs = dts.map_values(|x: DTable| x.row_of(row));
    let ds = seq![d].map_values(|x: DTable| x.row_of(row));
    lemma_sources_split(m, dts, row, col, t);
    lemma_sources_split(m, seq![d], row, col, t);
    assert forall|i: int| 0 <= i < dts.len() implies !(#[trigger] dts[i]).corrupt(row) by {
        crate::dtable::lemma_consistent_not_corrupt(dts[i], row);
    }
    lemma_index_of(d.lookup.key_seq(), row);
    assert(rs.map_values(|r: Option<RowView>| row_or_empty(r)) =~= crate::dtable::rows_of(dts, row));
    if crate::dtable::table_has(d, row) {
        lemma_merged_present(m, dts, d, row, col, t);
    } else {
        lemma_merged_absent(m, dts, d, row, col, t);
    }
}

/// A read over the memtable's row then the tables' rows: the memtable's
/// candidate against the newest of the tables'.
proof fn lemma_sources_split(m: Map<Seq<char>, RowView>, dts: Seq<DTable>, row: Seq<char>, col: Seq<char>, t: u64)
    ensures
        newest(candidates(sources(m, dts, row), col, t)) == newer_first(
            if m.contains_key(row) {
                read_column(m[row], col, t)
            } else {
                None
            },
            newest(candidates(dts.map_values(|x: DTable| x.row_of(row)), col, t)),
        ),
{
    let rs = dts.map_values(|x: DTable| x.row_of(row));
    let first: Option<RowView> = if m.contains_key(row) { Some(m[row]) } else { None };
    let c0 = match first {
        Some(x) => read_column(x, col, t),
        None => None,
    };
    assert(sources(m, dts, row) == seq![first] + rs);
    assert(candidates(seq![first] + rs, col, t) =~= seq![c0] + candidates(rs, col, t));
    lemma_newest_cons(c0, candidates(rs, col, t));
}

proof fn lemma_merged_present(
    m: Map<Seq<char>, RowView>,
    dts: Seq<DTable>,
    d: DTable,
    row: Seq<char>,
    col: Seq<char>,
    t: u64,
)
    requires
        forall|i: int| 0 <= i < dts.len() ==> (#[trigger] dts[i]).wf() && dts[i].consistent(),
        crate::dtable::table_has(d, row),
        crate::dtable::table_has(d, row) == crate::dtable::any_has(dts, row),
        d.row_of(row) is Some,
        merges_all(d.row_of(row)->Some_0, crate::dtable::rows_of(dts, row)),
        versions_distinct(dts.map_values(|x: DTable| x.row_of(row)), col),
    ensures
        newest(candidates(dts.map_values(|x: DTable| x.row_of(row)), col, t)) == newest(
            candidates(seq![d].map_values(|x: DTable| x.row_of(row)), col, t),
        ),
        exists|s: int| 0 <= s < dts.len() + 1 && (#[trigger] sources(m, dts, row)[s]) is Some,
        sources(m, seq![d], row)[1] is Some,
{
    let rs = dts.map_values(|x: DTable| x.row_of(row));
    let ds = seq![d].map_values(|x: DTable| x.row_of(row));
    let mr = d.row_of(row)->Some_0;
    assert(rs.map_values(|r: Option<RowView>| row_or_empty(r)) =~= crate::dtable::rows_of(dts, row));
    lemma_newest_of_merged(rs, mr, col, t);
    assert(ds =~= seq![Some(mr)]);
    assert(candidates(ds, col, t) =~= seq![read_column(mr, col, t)]);
    assert(seq![read_column(mr, col, t)].drop_last() =~= Seq::<Option<EntryView>>::empty());
    assert(newest(Seq::<Option<EntryView>>::empty()) is None);
    let w = choose|i: int| 0 <= i < dts.len() && crate::dtable::table_has(#[trigger] dts[i], row);
    crate::dtable::lemma_consistent_not_corrupt(dts[w], row);
    lemma_index_of(dts[w].lookup.key_seq(), row);
    assert(rs[w] is Some);
    assert(sources(m, dts, row)[w + 1] is Some);
    assert(sources(m, seq![d], row)[1] == ds[0]);
}

proof fn lemma_merged_absent(
    m: Map<Seq<char>, RowView>,
    dts: Seq<DTable>,
    d: DTable,
    row: Seq<char>,
    col: Seq<char>,
    t: u64,
)
    requires
        forall|i: int| 0 <= i < dts.len() ==> (#[trigger] dts[i]).wf() && dts[i].consistent(),
        !crate::dtable::table_has(d, row),
        crate::dtable::table_has(d, row) == crate::dtable::any_has(dts, row),
    ensures
        newest(candidates(dts.map_values(|x: DTable| x.row_of(row)), col, t)) == newest(
            candidates(seq![d].map_values(|x: DTable| x.row_of(row)), col, t),
        ),
        (exists|s: int| 0 <= s < dts.len() + 1 && (#[trigger] sources(m, dts, row)[s]) is Some) == (exists|s: int|
            0 <= s < 2 && (#[trigger] sources(m, seq![d], row)[s]) is Some),
{
    let rs = dts.map_values(|x: DTable| x.row_of(row));
    let ds = seq![d].map_values(|x: DTable| x.row_of(row));
    lemma_index_of(d.lookup.key_seq(), row);
    assert(d.row_of(row) is None);
    assert forall|i: int| 0 <= i < rs.len() implies #[trigger] rs[i] is None by {
        assert(!crate::dtable::table_has(dts[i], row));
        lemma_index_of(dts[i].lookup.key_seq(), row);
    }
    let cr = candidates(rs, col, t);
    assert forall|i: int| 0 <= i < cr.len() implies (#[trigger] cr[i]) is None by {
        assert(rs[i] is None);
    }
    lemma_newest_all_none(cr);
    let cd = candidates(ds, col, t);
    assert(ds[0] is None);
    assert forall|i: int| 0 <= i < cd.len() implies (#[trigger] cd[i]) is None by {}
    lemma_newest_all_none(cd);
    if exists|s: int| 0 <= s < dts.len() + 1 && (#[trigger] sources(m, dts, row)[s]) is Some {
        let s = choose|s: int| 0 <= s < dts.len() + 1 && (#[trigger] sources(m, dts, row)[s]) is Some;
        if s > 0 {
            assert(sources(m, dts, row)[s] == rs[s - 1]);
        }
        assert(sources(m, seq![d], row)[0] is Some);
    }
    if exists|s: int| 0 <= s < 2 && (#[trigger] sources(m, seq![d], row)[s]) is Some {
        let s = choose|s: int| 0 <= s < 2 && (#[trigger] sources(m, seq![d], row)[s]) is Some;
        if s == 1 {
            assert(sources(m, seq![d], row)[1] == ds[0]);
        }
        assert(sources(m, dts, row)[0] is Some);
    }
}

proof fn lemma_newest_all_none(cs: Seq<Option<EntryView>>)
    requires
        forall|i: int| 0 <= i < cs.len() ==> (#[trigger] cs[i]) is None,
    ensures
        newest(cs) is None,
    decreases cs.len(),
{
    if cs.len() > 0 {
        assert(cs.last() == cs[cs.len() - 1]);
        lemma_newest_all_none(cs.drop_last());
    }
}

} // verus!

verus! {

/// A read of no columns: `Data` with no values where the memtable or a disk
/// table has the row, `RowNotFound` where none has it, `InternalError`
/// where a disk table's bytes for the row do not hold it.
pub proof fn lemma_select_no_columns(b: Base, row: Seq<char>, t: u64, r: QueryResult)
    requires
        b.wf(),
        select_result(b, row, Seq::empty(), t, r),
    ensures
        (exists|i: int| 0 <= i < b.disktables@.len() && (#[trigger] b.disktables@[i]).corrupt(row)) ==> r
            is InternalError,
        (forall|i: int| 0 <= i < b.disktables@.len() ==> !(#[trigger] b.disktables@[i]).corrupt(row)) ==> (
        r is RowNotFound <==> !(b.memtable@.contains_key(row) || exists|i: int|
            0 <= i < b.disktables@.len() && crate::dtable::table_has(#[trigger] b.disktables@[i], row))),
        match r {
            QueryResult::Data { columns } => columns@.len() == 0,
            _ => true,
        },
{
    let rows = sources(b.memtable@, b.disktables@, row);
    if forall|i: int| 0 <= i < b.disktables@.len() ==> !(#[trigger] b.disktables@[i]).corrupt(row) {
        assert forall|i: int| 0 <= i < b.disktables@.len() implies (rows[i + 1] is Some) == crate::dtable::table_has(
            #[trigger] b.disktables@[i],
            row,
        ) by {
            assert(rows[i + 1] == b.disktables@[i].row_of(row));
            lemma_index_of(b.disktables@[i].lookup.key_seq(), row);
            assert(!b.disktables@[i].corrupt(row));
        }
        if exists|i: int| 0 <= i < b.disktables@.len() && crate::dtable::table_has(#[trigger] b.disktables@[i], row) {
            let i = choose|i: int| 0 <= i < b.disktables@.len() && crate::dtable::table_has(#[trigger] b.disktables@[i], row);
            assert(rows[i + 1] is Some);
        }
        if b.memtable@.contains_key(row) {
            assert(rows[0] is Some);
        }
        if exists|s: int| 0 <= s < rows.len() && (#[trigger] rows[s]) is Some {
            let s = choose|s: int| 0 <= s < rows.len() && (#[trigger] rows[s]) is Some;
            if s > 0 {
                assert(rows[(s - 1) + 1] is Some);
            }
        }
    }
}

/// Flushing an empty memtable without a major compaction changes no read:
/// the new disk table is empty.
pub proof fn lemma_empty_flush_keeps_reads(before: Base, after: Base, row: Seq<char>, col: Seq<char>, t: u64)
    requires
        minor_compacted(before, after),
        before.memtable@ == Map::<Seq<char>, RowView>::empty(),
        after.disktables@.drop_last() == before.disktables@,
    ensures
        newest(candidates(sources(after.memtable@, after.disktables@, row), col, t)) == newest(
            candidates(sources(before.memtable@, before.disktables@, row), col, t),
        ),
        sources(after.memtable@, after.disktables@, row) == sources(before.memtable@, before.disktables@, row).push(None),
        forall|i: int| 0 <= i < after.disktables@.len() ==> (#[trigger] after.disktables@[i]).corrupt(row) == (
        i < before.disktables@.len() && before.disktables@[i].corrupt(row)),
{
    let d = after.disktables@.last();
    lemma_second_flush_is_empty(before, after);
    lemma_index_of(d.lookup.key_seq(), row);
    assert(d.lookup.key_seq().len() == 0);
    assert(d.row_of(row) is None);
    let sa = sources(after.memtable@, after.disktables@, row);
    let sb = sources(before.memtable@, before.disktables@, row);
    assert(after.disktables@ =~= before.disktables@.push(d));
    assert(sa =~= sb.push(None));
    let ca = candidates(sa, col, t);
    assert(ca.drop_last() =~= candidates(sb, col, t));
    assert(ca.last() is None);
    assert forall|i: int| 0 <= i < after.disktables@.len() implies (#[trigger] after.disktables@[i]).corrupt(row) == (
    i < before.disktables@.len() && before.disktables@[i].corrupt(row)) by {
        if i == before.disktables@.len() {
            assert(after.disktables@[i] == d);
        } else {
            assert(after.disktables@[i] == before.disktables@[i]);
        }
    }
}

} // verus!
