//! The byte layout of rows, disk table headers and commit log records.
//!
//! Integers are little-endian; every length and count is a `u64`, so that any
//! value held in memory has an encoding. A byte string is its length followed
//! by its bytes; a key is the byte string of its UTF-8 encoding.

use vstd::prelude::*;
use vstd::utf8::{decode_utf8, encode_utf8, valid_utf8};

use byteorder::{ByteOrder, LittleEndian};

use crate::dtable::{DColumn, DEntry, DRow, EntryView};
use crate::keys::{compare_keys, key_views, keys_sorted, KeyOrder};
use crate::query::MUpdate;

verus! {

/// The four bytes of `n`, least significant first.
pub open spec fn le32(n: u32) -> Seq<u8> {
    seq![n as u8, (n >> 8u32) as u8, (n >> 16u32) as u8, (n >> 24u32) as u8]
}

/// The eight bytes of `n`, least significant first.
pub open spec fn le64(n: u64) -> Seq<u8> {
    seq![
        n as u8,
        (n >> 8u64) as u8,
        (n >> 16u64) as u8,
        (n >> 24u64) as u8,
        (n >> 32u64) as u8,
        (n >> 40u64) as u8,
        (n >> 48u64) as u8,
        (n >> 56u64) as u8,
    ]
}

pub proof fn lemma_le32_injective(a: u32, b: u32)
    requires
        le32(a) == le32(b),
    ensures
        a == b,
{
    assert(le32(a)[0] == le32(b)[0] && le32(a)[1] == le32(b)[1]);
    assert(le32(a)[2] == le32(b)[2] && le32(a)[3] == le32(b)[3]);
    assert(a as u8 == b as u8 && (a >> 8u32) as u8 == (b >> 8u32) as u8 && (a >> 16u32) as u8 == (
    b >> 16u32) as u8 && (a >> 24u32) as u8 == (b >> 24u32) as u8 ==> a == b) by (bit_vector);
}

pub proof fn lemma_le64_injective(a: u64, b: u64)
    requires
        le64(a) == le64(b),
    ensures
        a == b,
{
    assert(le64(a)[0] == le64(b)[0] && le64(a)[1] == le64(b)[1]);
    assert(le64(a)[2] == le64(b)[2] && le64(a)[3] == le64(b)[3]);
    assert(le64(a)[4] == le64(b)[4] && le64(a)[5] == le64(b)[5]);
    assert(le64(a)[6] == le64(b)[6] && le64(a)[7] == le64(b)[7]);
    assert(a as u8 == b as u8 && (a >> 8u64) as u8 == (b >> 8u64) as u8 && (a >> 16u64) as u8 == (
    b >> 16u64) as u8 && (a >> 24u64) as u8 == (b >> 24u64) as u8 && (a >> 32u64) as u8 == (b
        >> 32u64) as u8 && (a >> 40u64) as u8 == (b >> 40u64) as u8 && (a >> 48u64) as u8 == (b
        >> 48u64) as u8 && (a >> 56u64) as u8 == (b >> 56u64) as u8 ==> a == b) by (bit_vector);
}

/// Relies on byteorder's `LittleEndian::write_u32`: fills the four bytes of
/// `n`, least significant first.
#[verifier::external_body]
fn le_bytes_u32(n: u32) -> (r: Vec<u8>)
    ensures
        r@ == le32(n),
{
    let mut buf = vec![0u8; 4];
    LittleEndian::write_u32(&mut buf, n);
    buf
}

/// Relies on byteorder's `LittleEndian::write_u64`: fills the eight bytes of
/// `n`, least significant first.
#[verifier::external_body]
fn le_bytes_u64(n: u64) -> (r: Vec<u8>)
    ensures
        r@ == le64(n),
{
    let mut buf = vec![0u8; 8];
    LittleEndian::write_u64(&mut buf, n);
    buf
}

/// Relies on byteorder's `LittleEndian::read_u32`: the number whose four
/// little-endian bytes start at `pos`.
#[verifier::external_body]
fn le_read_u32(b: &[u8], pos: usize) -> (r: u32)
    requires
        pos + 4 <= b@.len(),
    ensures
        le32(r) == b@.subrange(pos as int, pos + 4),
{
    LittleEndian::read_u32(&b[pos..])
}

/// Relies on byteorder's `LittleEndian::read_u64`: the number whose eight
/// little-endian bytes start at `pos`.
#[verifier::external_body]
fn le_read_u64(b: &[u8], pos: usize) -> (r: u64)
    requires
        pos + 8 <= b@.len(),
    ensures
        le64(r) == b@.subrange(pos as int, pos + 8),
{
    LittleEndian::read_u64(&b[pos..])
}

/// Relies on `String::from_utf8`: it succeeds exactly on valid UTF-8, and the
/// string it returns holds the bytes it was given.
#[verifier::external_body]
pub(crate) fn string_from_utf8(b: Vec<u8>) -> (r: Option<String>)
    ensures
        r is Some <==> valid_utf8(b@),
        r matches Some(s) ==> encode_utf8(s@) == b@,
{
    String::from_utf8(b).ok()
}

/// The bytes of `f(x)` for each `x` of `s`, one after another.
pub open spec fn concat<A>(s: Seq<A>, f: spec_fn(A) -> Seq<u8>) -> Seq<u8>
    decreases s.len(),
{
    if s.len() == 0 {
        Seq::empty()
    } else {
        concat(s.drop_last(), f) + f(s.last())
    }
}

pub proof fn lemma_concat_push<A>(s: Seq<A>, a: A, f: spec_fn(A) -> Seq<u8>)
    ensures
        concat(s.push(a), f) == concat(s, f) + f(a),
{
    assert(s.push(a).drop_last() =~= s);
}

pub proof fn lemma_concat_split<A>(s: Seq<A>, i: int, f: spec_fn(A) -> Seq<u8>)
    requires
        0 <= i <= s.len(),
    ensures
        concat(s, f) == concat(s.take(i), f) + concat(s.skip(i), f),
    decreases s.len(),
{
    if i == s.len() {
        assert(s.take(i) =~= s);
        assert(s.skip(i) =~= Seq::<A>::empty());
        assert(concat(s, f) + Seq::<u8>::empty() =~= concat(s, f));
    } else {
        lemma_concat_split(s.drop_last(), i, f);
        assert(s.drop_last().take(i) =~= s.take(i));
        assert(s.skip(i).drop_last() =~= s.drop_last().skip(i));
        assert(s.skip(i).last() == s.last());
        assert(concat(s.take(i), f) + (concat(s.drop_last().skip(i), f) + f(s.last())) =~= (concat(
            s.take(i),
            f,
        ) + concat(s.drop_last().skip(i), f)) + f(s.last()));
    }
}

/// `concat` of a non-empty sequence begins with its first element.
pub proof fn lemma_concat_first<A>(s: Seq<A>, i: int, f: spec_fn(A) -> Seq<u8>)
    requires
        0 <= i < s.len(),
    ensures
        concat(s.skip(i), f) == f(s[i]) + concat(s.skip(i + 1), f),
{
    let t = s.skip(i);
    lemma_concat_split(t, 1, f);
    assert(t.take(1) =~= seq![s[i]]);
    let one = seq![s[i]];
    assert(one.drop_last() =~= Seq::<A>::empty());
    assert(concat(one.drop_last(), f) == Seq::<u8>::empty());
    assert(one.last() == s[i]);
    assert(concat(one, f) == concat(one.drop_last(), f) + f(s[i]));
    assert(Seq::<u8>::empty() + f(s[i]) =~= f(s[i]));
    assert(t.skip(1) =~= s.skip(i + 1));
}

pub open spec fn bytes_code() -> spec_fn(Seq<u8>) -> Seq<u8> {
    |b: Seq<u8>| b
}

pub proof fn lemma_prefix_len(recs: Seq<Seq<u8>>, i: int, j: int)
    requires
        0 <= i <= j <= recs.len(),
    ensures
        concat(recs.take(i), bytes_code()).len() <= concat(recs.take(j), bytes_code()).len(),
        i < j ==> concat(recs.take(j), bytes_code()).len() >= concat(recs.take(i), bytes_code()).len()
            + recs[i].len(),
        i < j ==> concat(recs.take(j), bytes_code()).subrange(
            concat(recs.take(i), bytes_code()).len() as int,
            (concat(recs.take(i), bytes_code()).len() + recs[i].len()) as int,
        ) == recs[i],
{
    let t = recs.take(j);
    lemma_concat_split(t, i, bytes_code());
    assert(t.take(i) =~= recs.take(i));
    if i < j {
        lemma_concat_first(t, i, bytes_code());
        let a = concat(recs.take(i), bytes_code());
        let c = concat(t.skip(i + 1), bytes_code());
        assert(concat(t, bytes_code()) =~= a + (recs[i] + c));
        assert((a + (recs[i] + c)).subrange(a.len() as int, (a.len() + recs[i].len()) as int) =~= recs[i]);
    }
}

/// `p` stands in `b` from `pos` on.
pub open spec fn at(b: Seq<u8>, pos: int, p: Seq<u8>) -> bool {
    &&& 0 <= pos
    &&& pos + p.len() <= b.len()
    &&& b.subrange(pos, pos + p.len()) == p
}

pub proof fn lemma_at_split(b: Seq<u8>, pos: int, p: Seq<u8>, q: Seq<u8>)
    requires
        at(b, pos, p + q),
    ensures
        at(b, pos, p),
        at(b, pos + p.len(), q),
{
    let whole = b.subrange(pos, pos + (p + q).len());
    assert(whole == p + q);
    assert(b.subrange(pos, pos + p.len()) =~= whole.subrange(0, p.len() as int));
    assert((p + q).subrange(0, p.len() as int) =~= p);
    assert(b.subrange(pos + p.len(), pos + p.len() + q.len()) =~= whole.subrange(
        p.len() as int,
        whole.len() as int,
    ));
    assert((p + q).subrange(p.len() as int, (p + q).len() as int) =~= q);
}

/// A byte string: its length, then its bytes.
pub open spec fn enc_bytes(b: Seq<u8>) -> Seq<u8> {
    le64(b.len() as u64) + b
}

/// A key: the byte string of its UTF-8 encoding.
pub open spec fn enc_key(k: Seq<char>) -> Seq<u8> {
    enc_bytes(encode_utf8(k))
}

/// Appends `src` to `out`.
pub fn append_bytes(out: &mut Vec<u8>, src: &[u8])
    ensures
        final(out)@ == old(out)@ + src@,
{
    let mut i: usize = 0;
    while i < src.len()
        invariant
            i <= src@.len(),
            out@ == old(out)@ + src@.take(i as int),
        decreases src@.len() - i,
    {
        out.push(src[i]);
        assert(src@.take(i + 1) =~= src@.take(i as int).push(src@[i as int]));
        i = i + 1;
    }
    assert(src@.take(i as int) =~= src@);
}

pub fn put_u32(out: &mut Vec<u8>, n: u32)
    ensures
        final(out)@ == old(out)@ + le32(n),
{
    let b = le_bytes_u32(n);
    append_bytes(out, b.as_slice());
}

pub fn put_u64(out: &mut Vec<u8>, n: u64)
    ensures
        final(out)@ == old(out)@ + le64(n),
{
    let b = le_bytes_u64(n);
    append_bytes(out, b.as_slice());
}

pub fn put_bytes(out: &mut Vec<u8>, b: &[u8])
    ensures
        final(out)@ == old(out)@ + enc_bytes(b@),
{
    put_u64(out, b.len() as u64);
    append_bytes(out, b);
    assert(old(out)@ + le64(b@.len() as u64) + b@ =~= old(out)@ + enc_bytes(b@));
}

pub fn put_key(out: &mut Vec<u8>, k: &str)
    ensures
        final(out)@ == old(out)@ + enc_key(k@),
{
    put_bytes(out, k.as_bytes());
}

pub fn get_u32(b: &[u8], pos: usize) -> (r: Option<u32>)
    ensures
        r is Some <==> pos + 4 <= b@.len(),
        r matches Some(n) ==> at(b@, pos as int, le32(n)),
        forall|n: u32| #[trigger] at(b@, pos as int, le32(n)) ==> r == Some(n),
{
    if pos <= b.len() && b.len() - pos >= 4 {
        let n = le_read_u32(b, pos);
        proof {
            assert forall|m: u32| #[trigger] at(b@, pos as int, le32(m)) implies Some(n) == Some(m) by {
                lemma_le32_injective(n, m);
            }
        }
        Some(n)
    } else {
        None
    }
}

pub fn get_u64(b: &[u8], pos: usize) -> (r: Option<u64>)
    ensures
        r is Some <==> pos + 8 <= b@.len(),
        r matches Some(n) ==> at(b@, pos as int, le64(n)),
        forall|n: u64| #[trigger] at(b@, pos as int, le64(n)) ==> r == Some(n),
{
    if pos <= b.len() && b.len() - pos >= 8 {
        let n = le_read_u64(b, pos);
        proof {
            assert forall|m: u64| #[trigger] at(b@, pos as int, le64(m)) implies Some(n) == Some(m) by {
                lemma_le64_injective(n, m);
            }
        }
        Some(n)
    } else {
        None
    }
}

/// The bytes of `b` from `start` up to `end`.
pub fn copy_range(b: &[u8], start: usize, end: usize) -> (r: Vec<u8>)
    requires
        start <= end <= b@.len(),
    ensures
        r@ == b@.subrange(start as int, end as int),
{
    let mut out: Vec<u8> = Vec::new();
    let mut i: usize = start;
    while i < end
        invariant
            start <= i <= end <= b@.len(),
            out@ == b@.subrange(start as int, i as int),
        decreases end - i,
    {
        out.push(b[i]);
        assert(b@.subrange(start as int, i + 1) =~= b@.subrange(start as int, i as int).push(
            b@[i as int],
        ));
        i = i + 1;
    }
    out
}

/// Reads a byte string at `pos`; returns it and the position after it.
pub fn get_bytes(b: &[u8], pos: usize) -> (r: Option<(Vec<u8>, usize)>)
    ensures
        r matches Some((v, end)) ==> pos <= end <= b@.len() && end == pos + enc_bytes(v@).len()
            && at(b@, pos as int, enc_bytes(v@)),
        forall|x: Seq<u8>| #[trigger] at(b@, pos as int, enc_bytes(x)) ==> (r matches Some((v, end))
            && v@ == x),
{
    match get_u64(b, pos) {
        None => {
            proof {
                assert forall|x: Seq<u8>| !#[trigger] at(b@, pos as int, enc_bytes(x)) by {}
            }
            None
        },
        Some(n) => {
            assert(pos + 8 <= b.len());
            let start = pos + 8;
            if (n as u128) <= ((b.len() - start) as u128) {
                let end = start + n as usize;
                let v = copy_range(b, start, end);
                proof {
                    assert(b@.subrange(pos as int, end as int) =~= b@.subrange(pos as int, start as int)
                        + v@);
                    assert forall|x: Seq<u8>| #[trigger] at(b@, pos as int, enc_bytes(x)) implies v@
                        == x by {
                        lemma_at_split(b@, pos as int, le64(x.len() as u64), x);
                        assert(n == x.len() as u64);
                        assert(b@.subrange(start as int, start + x.len()) == x);
                    }
                }
                Some((v, end))
            } else {
                proof {
                    assert forall|x: Seq<u8>| !#[trigger] at(b@, pos as int, enc_bytes(x)) by {
                        if at(b@, pos as int, enc_bytes(x)) {
                            lemma_at_split(b@, pos as int, le64(x.len() as u64), x);
                        }
                    }
                }
                None
            }
        },
    }
}

/// Reads a key at `pos`; returns it and the position after it.
pub fn get_key(b: &[u8], pos: usize) -> (r: Option<(String, usize)>)
    ensures
        r matches Some((s, end)) ==> pos <= end <= b@.len() && end == pos + enc_key(s@).len() && at(
            b@,
            pos as int,
            enc_key(s@),
        ),
        forall|x: Seq<char>| #[trigger] at(b@, pos as int, enc_key(x)) ==> (r matches Some((s, end))
            && s@ == x),
{
    match get_bytes(b, pos) {
        None => {
            proof {
                assert forall|x: Seq<char>| !#[trigger] at(b@, pos as int, enc_key(x)) by {
                    if at(b@, pos as int, enc_key(x)) {
                        assert(at(b@, pos as int, enc_bytes(encode_utf8(x))));
                    }
                }
            }
            None
        },
        Some((v, end)) => {
            let ghost bytes = v@;
            match string_from_utf8(v) {
                Some(s) => {
                    proof {
                        assert forall|x: Seq<char>| #[trigger] at(b@, pos as int, enc_key(x)) implies s@
                            == x by {
                            assert(at(b@, pos as int, enc_bytes(encode_utf8(x))));
                            vstd::utf8::encode_utf8_decode_utf8(x);
                            vstd::utf8::encode_utf8_decode_utf8(s@);
                        }
                    }
                    Some((s, end))
                },
                None => {
                    proof {
                        assert forall|x: Seq<char>| !#[trigger] at(b@, pos as int, enc_key(x)) by {
                            if at(b@, pos as int, enc_key(x)) {
                                assert(at(b@, pos as int, enc_bytes(encode_utf8(x))));
                                vstd::utf8::encode_utf8_valid_utf8(x);
                            }
                        }
                    }
                    None
                },
            }
        },
    }
}


pub proof fn lemma_at_join(b: Seq<u8>, pos: int, p: Seq<u8>, q: Seq<u8>)
    requires
        at(b, pos, p),
        at(b, pos + p.len(), q),
    ensures
        at(b, pos, p + q),
{
    assert(b.subrange(pos, pos + (p + q).len()) =~= b.subrange(pos, pos + p.len()) + b.subrange(
        pos + p.len(),
        pos + p.len() + q.len(),
    ));
}

proof fn lemma_concat_len<A>(s: Seq<A>, f: spec_fn(A) -> Seq<u8>)
    requires
        forall|a: A| #[trigger] f(a).len() >= 1,
    ensures
        concat(s, f).len() >= s.len(),
    decreases s.len(),
{
    if s.len() > 0 {
        lemma_concat_len(s.drop_last(), f);
        assert(f(s.last()).len() >= 1);
    }
}

/// Decoding the `i`th item of a list whose first `i` items are already read.
pub proof fn lemma_list_next<A>(b: Seq<u8>, start: int, x: Seq<A>, i: int, f: spec_fn(A) -> Seq<u8>)
    requires
        at(b, start, concat(x, f)),
        0 <= i < x.len(),
    ensures
        at(b, start + concat(x.take(i), f).len(), f(x[i])),
{
    lemma_concat_split(x, i, f);
    lemma_concat_first(x, i, f);
    lemma_at_split(b, start, concat(x.take(i), f), concat(x.skip(i), f));
    lemma_at_split(b, start + concat(x.take(i), f).len(), f(x[i]), concat(x.skip(i + 1), f));
}

/// Extending the read part of a list by one item.
pub proof fn lemma_list_push<A>(b: Seq<u8>, start: int, xs: Seq<A>, a: A, f: spec_fn(A) -> Seq<u8>)
    requires
        at(b, start, concat(xs, f)),
        at(b, start + concat(xs, f).len(), f(a)),
    ensures
        at(b, start, concat(xs.push(a), f)),
        concat(xs.push(a), f).len() == concat(xs, f).len() + f(a).len(),
{
    lemma_concat_push(xs, a, f);
    lemma_at_join(b, start, concat(xs, f), f(a));
}

pub proof fn lemma_at_empty(b: Seq<u8>, pos: int)
    requires
        0 <= pos <= b.len(),
    ensures
        at(b, pos, Seq::<u8>::empty()),
{
    assert(b.subrange(pos, pos) =~= Seq::<u8>::empty());
}

/// An entry: its timestamp, then its value as a byte string.
pub open spec fn enc_entry(e: EntryView) -> Seq<u8> {
    le64(e.0) + enc_bytes(e.1)
}

pub open spec fn entry_code() -> spec_fn(EntryView) -> Seq<u8> {
    |e: EntryView| enc_entry(e)
}

/// A column: the number of its entries, then each entry.
pub open spec fn enc_column(c: Seq<EntryView>) -> Seq<u8> {
    le64(c.len() as u64) + concat(c, entry_code())
}

pub open spec fn key_code() -> spec_fn(Seq<char>) -> Seq<u8> {
    |k: Seq<char>| enc_key(k)
}

pub open spec fn column_code() -> spec_fn(Seq<EntryView>) -> Seq<u8> {
    |c: Seq<EntryView>| enc_column(c)
}

/// A row: the number of its columns, then all column names, then all
/// columns in the same order.
pub open spec fn enc_row(names: Seq<Seq<char>>, cols: Seq<Seq<EntryView>>) -> Seq<u8> {
    le64(names.len() as u64) + concat(names, key_code()) + concat(cols, column_code())
}

/// A row as a disk table stores it: the row's key, then the row.
pub open spec fn enc_record(key: Seq<char>, names: Seq<Seq<char>>, cols: Seq<Seq<EntryView>>) -> Seq<u8> {
    enc_key(key) + enc_row(names, cols)
}

pub fn put_entry(out: &mut Vec<u8>, e: &DEntry)
    ensures
        final(out)@ == old(out)@ + enc_entry(e@),
{
    put_u64(out, e.timestamp);
    put_bytes(out, e.value.as_slice());
    assert(old(out)@ + le64(e.timestamp) + enc_bytes(e.value@) =~= old(out)@ + enc_entry(e@));
}

pub fn put_column(out: &mut Vec<u8>, c: &DColumn)
    ensures
        final(out)@ == old(out)@ + enc_column(c@),
{
    put_u64(out, c.entries.len() as u64);
    let ghost base = out@;
    let mut i: usize = 0;
    while i < c.entries.len()
        invariant
            i <= c@.len(),
            c@.len() == c.entries@.len(),
            out@ == base + concat(c@.take(i as int), entry_code()),
        decreases c@.len() - i,
    {
        put_entry(out, &c.entries[i]);
        proof {
            assert(c@.take(i + 1) =~= c@.take(i as int).push(c@[i as int]));
            lemma_concat_push(c@.take(i as int), c@[i as int], entry_code());
        }
        i = i + 1;
    }
    assert(c@.take(i as int) =~= c@);
    assert(base + concat(c@, entry_code()) =~= old(out)@ + enc_column(c@));
}

pub fn put_row(out: &mut Vec<u8>, r: &DRow)
    requires
        r.wf(),
    ensures
        final(out)@ == old(out)@ + enc_row(r.names(), r.column_views()),
{
    put_u64(out, r.keys.len() as u64);
    let ghost base = out@;
    let mut i: usize = 0;
    while i < r.keys.len()
        invariant
            i <= r.keys@.len(),
            out@ == base + concat(r.names().take(i as int), key_code()),
        decreases r.keys@.len() - i,
    {
        put_key(out, r.keys[i].as_str());
        proof {
            assert(r.names().take(i + 1) =~= r.names().take(i as int).push(r.names()[i as int]));
            lemma_concat_push(r.names().take(i as int), r.names()[i as int], key_code());
        }
        i = i + 1;
    }
    assert(r.names().take(i as int) =~= r.names());
    let ghost mid = out@;
    let mut j: usize = 0;
    while j < r.columns.len()
        invariant
            j <= r.columns@.len(),
            out@ == mid + concat(r.column_views().take(j as int), column_code()),
        decreases r.columns@.len() - j,
    {
        put_column(out, &r.columns[j]);
        proof {
            assert(r.column_views().take(j + 1) =~= r.column_views().take(j as int).push(
                r.column_views()[j as int],
            ));
            lemma_concat_push(r.column_views().take(j as int), r.column_views()[j as int], column_code());
        }
        j = j + 1;
    }
    assert(r.column_views().take(j as int) =~= r.column_views());
    assert(r.names().len() == r.keys@.len());
    assert(mid + concat(r.column_views(), column_code()) =~= old(out)@ + enc_row(
        r.names(),
        r.column_views(),
    ));
}

pub fn put_record(out: &mut Vec<u8>, key: &str, r: &DRow)
    requires
        r.wf(),
    ensures
        final(out)@ == old(out)@ + enc_record(key@, r.names(), r.column_views()),
{
    put_key(out, key);
    put_row(out, r);
    assert(old(out)@ + enc_key(key@) + enc_row(r.names(), r.column_views()) =~= old(out)@
        + enc_record(key@, r.names(), r.column_views()));
}

pub fn get_entry(b: &[u8], pos: usize) -> (r: Option<(DEntry, usize)>)
    ensures
        r matches Some((e, end)) ==> end == pos + enc_entry(e@).len() && at(b@, pos as int, enc_entry(e@)),
        forall|x: EntryView| #[trigger] at(b@, pos as int, enc_entry(x)) ==> (r matches Some((e, end))
            && e@ == x),
{
    let t = match get_u64(b, pos) {
        Some(t) => t,
        None => {
            proof {
                assert forall|x: EntryView| !#[trigger] at(b@, pos as int, enc_entry(x)) by {
                    if at(b@, pos as int, enc_entry(x)) {
                        lemma_at_split(b@, pos as int, le64(x.0), enc_bytes(x.1));
                    }
                }
            }
            return None;
        },
    };
    assert(pos + 8 <= b.len());
    match get_bytes(b, pos + 8) {
        Some((v, end)) => {
            proof {
                lemma_at_join(b@, pos as int, le64(t), enc_bytes(v@));
                assert forall|x: EntryView| #[trigger] at(b@, pos as int, enc_entry(x)) implies (t, v@)
                    == x by {
                    lemma_at_split(b@, pos as int, le64(x.0), enc_bytes(x.1));
                }
            }
            Some((DEntry { timestamp: t, value: v }, end))
        },
        None => {
            proof {
                assert forall|x: EntryView| !#[trigger] at(b@, pos as int, enc_entry(x)) by {
                    if at(b@, pos as int, enc_entry(x)) {
                        lemma_at_split(b@, pos as int, le64(x.0), enc_bytes(x.1));
                    }
                }
            }
            None
        },
    }
}

pub fn get_column(b: &[u8], pos: usize, Ghost(exp): Ghost<Option<Seq<EntryView>>>) -> (r: Option<
    (DColumn, usize),
>)
    ensures
        r matches Some((c, end)) ==> end == pos + enc_column(c@).len() && at(b@, pos as int, enc_column(c@)),
        match exp {
            Some(x) => at(b@, pos as int, enc_column(x)) ==> (r matches Some((c, end)) && c@ == x),
            None => true,
        },
{
    let n = match get_u64(b, pos) {
        Some(n) => n,
        None => {
            proof {
                if let Some(x) = exp {
                    if at(b@, pos as int, enc_column(x)) {
                        lemma_at_split(b@, pos as int, le64(x.len() as u64), concat(x, entry_code()));
                    }
                }
            }
            return None;
        },
    };
    assert(pos + 8 <= b.len());
    let start = pos + 8;
    let mut cur = start;
    let blen = b.len();
    assert(b@.len() == blen);
    let mut entries: Vec<DEntry> = Vec::new();
    let mut i: u64 = 0;
    proof {
        lemma_at_empty(b@, start as int);
        if let Some(x) = exp {
            if at(b@, pos as int, enc_column(x)) {
                lemma_at_split(b@, pos as int, le64(x.len() as u64), concat(x, entry_code()));
                assert forall|a: EntryView| #[trigger] entry_code()(a).len() >= 1 by {}
                lemma_concat_len(x, entry_code());
                assert(b@.len() <= usize::MAX);
                lemma_le64_injective(n, x.len() as u64);
                assert(x.take(0) =~= Seq::<EntryView>::empty());
            }
        }
        assert(entries@.map_values(|e: DEntry| e@) =~= Seq::<EntryView>::empty());
    }
    while i < n
        invariant
            start == pos + 8,
            start <= cur <= b@.len(),
            i <= n,
            at(b@, pos as int, le64(n)),
            entries@.len() == i,
            at(b@, start as int, concat(entries@.map_values(|e: DEntry| e@), entry_code())),
            cur == start + concat(entries@.map_values(|e: DEntry| e@), entry_code()).len(),
            match exp {
                Some(x) => at(b@, pos as int, enc_column(x)) ==> (x.len() == n && entries@.map_values(
                    |e: DEntry| e@,
                ) == x.take(i as int) && at(b@, start as int, concat(x, entry_code()))),
                None => true,
            },
        decreases n - i,
    {
        let ghost xs = entries@.map_values(|e: DEntry| e@);
        proof {
            if let Some(x) = exp {
                if at(b@, pos as int, enc_column(x)) {
                    lemma_list_next(b@, start as int, x, i as int, entry_code());
                }
            }
        }
        match get_entry(b, cur) {
            Some((e, next)) => {
                proof {
                    lemma_list_push(b@, start as int, xs, e@, entry_code());
                    if let Some(x) = exp {
                        if at(b@, pos as int, enc_column(x)) {
                            assert(x.take(i + 1) =~= x.take(i as int).push(x[i as int]));
                        }
                    }
                }
                entries.push(e);
                assert(entries@.map_values(|e: DEntry| e@) =~= xs.push(e@));
                cur = next;
                i = i + 1;
            },
            None => {
                return None;
            },
        }
    }
    let c = DColumn { entries };
    proof {
        lemma_at_join(b@, pos as int, le64(n), concat(c@, entry_code()));
        assert(c@.len() == n);
        if let Some(x) = exp {
            if at(b@, pos as int, enc_column(x)) {
                assert(x.take(i as int) =~= x);
            }
        }
    }
    Some((c, cur))
}


/// The row that a decoding is expected to find: names sorted, one column each.
pub open spec fn row_expected(
    exp: Option<(Seq<Seq<char>>, Seq<Seq<EntryView>>)>,
    b: Seq<u8>,
    pos: int,
) -> bool {
    match exp {
        Some((ns, cs)) => ns.len() == cs.len() && keys_sorted(ns) && at(b, pos, enc_row(ns, cs)),
        None => false,
    }
}

fn get_names(b: &[u8], start: usize, n: u64, Ghost(exp): Ghost<Option<Seq<Seq<char>>>>) -> (r: Option<
    (Vec<String>, usize),
>)
    requires
        start <= b@.len(),
    ensures
        r matches Some((keys, end)) ==> keys@.len() == n && keys_sorted(key_views(keys@)) && end
            == start + concat(key_views(keys@), key_code()).len() && at(
            b@,
            start as int,
            concat(key_views(keys@), key_code()),
        ),
        (exp matches Some(ns) && ns.len() == n && keys_sorted(ns) && at(
            b@,
            start as int,
            concat(ns, key_code()),
        )) ==> (r matches Some((keys, end)) && key_views(keys@) == exp->Some_0),
{
    let ghost ok = (exp matches Some(ns) && ns.len() == n && keys_sorted(ns) && at(
        b@,
        start as int,
        concat(ns, key_code()),
    ));
    let ghost ns = exp->Some_0;
    let mut cur = start;
    let mut keys: Vec<String> = Vec::new();
    let mut i: u64 = 0;
    proof {
        lemma_at_empty(b@, start as int);
        assert(ns.take(0) =~= Seq::<Seq<char>>::empty());
        assert(key_views(keys@) =~= Seq::<Seq<char>>::empty());
    }
    while i < n
        invariant
            start <= cur <= b@.len(),
            i <= n,
            keys@.len() == i,
            ns == exp->Some_0,
            ok == (exp matches Some(ns) && ns.len() == n && keys_sorted(ns) && at(
                b@,
                start as int,
                concat(ns, key_code()),
            )),
            keys_sorted(key_views(keys@)),
            at(b@, start as int, concat(key_views(keys@), key_code())),
            cur == start + concat(key_views(keys@), key_code()).len(),
            ok ==> (ns.len() == n && keys_sorted(ns) && key_views(keys@) == ns.take(i as int) && at(
                b@,
                start as int,
                concat(ns, key_code()),
            )),
        decreases n - i,
    {
        let ghost ks = key_views(keys@);
        proof {
            if ok {
                lemma_list_next(b@, start as int, ns, i as int, key_code());
            }
        }
        match get_key(b, cur) {
            Some((k, next)) => {
                if keys.len() > 0 {
                    let last = keys.len() - 1;
                    match compare_keys(keys[last].as_str(), k.as_str()) {
                        KeyOrder::Less => {
                            assert(ks[last as int] == keys@[last as int]@);
                            assert(crate::keys::key_lt(ks[i - 1], k@));
                        },
                        _ => {
                            proof {
                                if ok {
                                    assert(ks[last as int] == ns[last as int]);
                                    assert(k@ == ns[i as int]);
                                }
                            }
                            return None;
                        },
                    }
                }
                proof {
                    lemma_list_push(b@, start as int, ks, k@, key_code());
                    if ok {
                        assert(ns.take(i + 1) =~= ns.take(i as int).push(ns[i as int]));
                    }
                }
                let ghost kv = k@;
                keys.push(k);
                proof {
                    assert(key_views(keys@) =~= ks.push(kv));
                    assert forall|x: int, y: int|
                        0 <= x < y < key_views(keys@).len() implies crate::keys::key_lt(
                        #[trigger] key_views(keys@)[x],
                        #[trigger] key_views(keys@)[y],
                    ) by {
                        if y == i && x < i - 1 {
                            assert(key_views(keys@)[x] == ks[x]);
                            crate::keys::lemma_key_lt_transitive(ks[x], ks[i - 1], kv);
                        } else if y < i {
                            assert(key_views(keys@)[x] == ks[x]);
                            assert(key_views(keys@)[y] == ks[y]);
                        }
                    }
                }
                cur = next;
                i = i + 1;
            },
            None => {
                return None;
            },
        }
    }
    proof {
        if ok {
            assert(ns.take(i as int) =~= ns);
        }
    }
    Some((keys, cur))
}

fn get_columns(b: &[u8], start: usize, n: u64, Ghost(exp): Ghost<Option<Seq<Seq<EntryView>>>>) -> (r:
    Option<(Vec<DColumn>, usize)>)
    requires
        start <= b@.len(),
    ensures
        r matches Some((cols, end)) ==> cols@.len() == n && end == start + concat(
            cols@.map_values(|c: DColumn| c@),
            column_code(),
        ).len() && at(b@, start as int, concat(cols@.map_values(|c: DColumn| c@), column_code())),
        (exp matches Some(cs) && cs.len() == n && at(b@, start as int, concat(cs, column_code())))
            ==> (r matches Some((cols, end)) && cols@.map_values(|c: DColumn| c@) == exp->Some_0),
{
    let ghost ok = (exp matches Some(cs) && cs.len() == n && at(
        b@,
        start as int,
        concat(cs, column_code()),
    ));
    let ghost cs = exp->Some_0;
    let mut cur = start;
    let mut columns: Vec<DColumn> = Vec::new();
    let mut j: u64 = 0;
    proof {
        lemma_at_empty(b@, start as int);
        assert(cs.take(0) =~= Seq::<Seq<EntryView>>::empty());
        assert(columns@.map_values(|c: DColumn| c@) =~= Seq::<Seq<EntryView>>::empty());
    }
    while j < n
        invariant
            start <= cur <= b@.len(),
            j <= n,
            columns@.len() == j,
            cs == exp->Some_0,
            ok == (exp matches Some(cs) && cs.len() == n && at(
                b@,
                start as int,
                concat(cs, column_code()),
            )),
            at(b@, start as int, concat(columns@.map_values(|c: DColumn| c@), column_code())),
            cur == start + concat(columns@.map_values(|c: DColumn| c@), column_code()).len(),
            ok ==> (cs.len() == n && columns@.map_values(|c: DColumn| c@) == cs.take(j as int) && at(
                b@,
                start as int,
                concat(cs, column_code()),
            )),
        decreases n - j,
    {
        let ghost vs = columns@.map_values(|c: DColumn| c@);
        proof {
            if ok {
                lemma_list_next(b@, start as int, cs, j as int, column_code());
            }
        }
        let ghost want: Option<Seq<EntryView>> = if ok {
            Some(cs[j as int])
        } else {
            None
        };
        match get_column(b, cur, Ghost(want)) {
            Some((c, next)) => {
                proof {
                    lemma_list_push(b@, start as int, vs, c@, column_code());
                    if ok {
                        assert(cs.take(j + 1) =~= cs.take(j as int).push(cs[j as int]));
                    }
                }
                let ghost cv = c@;
                columns.push(c);
                assert(columns@.map_values(|c: DColumn| c@) =~= vs.push(cv));
                cur = next;
                j = j + 1;
            },
            None => {
                return None;
            },
        }
    }
    proof {
        if ok {
            assert(cs.take(j as int) =~= cs);
        }
    }
    Some((columns, cur))
}

pub fn get_row(
    b: &[u8],
    pos: usize,
    Ghost(exp): Ghost<Option<(Seq<Seq<char>>, Seq<Seq<EntryView>>)>>,
) -> (r: Option<(DRow, usize)>)
    ensures
        r matches Some((row, end)) ==> row.wf() && end == pos + enc_row(
            row.names(),
            row.column_views(),
        ).len() && at(b@, pos as int, enc_row(row.names(), row.column_views())),
        row_expected(exp, b@, pos as int) ==> (r matches Some((row, end)) && row.names()
            == exp->Some_0.0 && row.column_views() == exp->Some_0.1),
{
    let ghost ok = row_expected(exp, b@, pos as int);
    let ghost ns = exp->Some_0.0;
    let ghost cs = exp->Some_0.1;
    let blen = b.len();
    assert(b@.len() == blen);
    proof {
        if ok {
            assert(enc_row(ns, cs) =~= le64(ns.len() as u64) + (concat(ns, key_code()) + concat(
                cs,
                column_code(),
            )));
            lemma_at_split(
                b@,
                pos as int,
                le64(ns.len() as u64),
                concat(ns, key_code()) + concat(cs, column_code()),
            );
        }
    }
    let n = match get_u64(b, pos) {
        Some(n) => n,
        None => {
            return None;
        },
    };
    assert(pos + 8 <= b.len());
    let start = pos + 8;
    proof {
        if ok {
            lemma_at_split(b@, start as int, concat(ns, key_code()), concat(cs, column_code()));
            assert forall|a: Seq<char>| #[trigger] key_code()(a).len() >= 1 by {}
            lemma_concat_len(ns, key_code());
            lemma_le64_injective(n, ns.len() as u64);
        }
    }
    let ghost want_names = if ok { Some(ns) } else { None };
    let (keys, mid) = match get_names(b, start, n, Ghost(want_names)) {
        Some(x) => x,
        None => {
            return None;
        },
    };
    let ghost want_cols = if ok { Some(cs) } else { None };
    let (columns, end) = match get_columns(b, mid, n, Ghost(want_cols)) {
        Some(x) => x,
        None => {
            return None;
        },
    };
    let row = DRow { keys, columns };
    proof {
        assert(row.names() == key_views(row.keys@));
        assert(row.column_views() == row.columns@.map_values(|c: DColumn| c@));
        lemma_at_join(b@, start as int, concat(row.names(), key_code()), concat(row.column_views(), column_code()));
        lemma_at_join(
            b@,
            pos as int,
            le64(n),
            concat(row.names(), key_code()) + concat(row.column_views(), column_code()),
        );
        assert(enc_row(row.names(), row.column_views()) =~= le64(n) + (concat(row.names(), key_code())
            + concat(row.column_views(), column_code())));
    }
    Some((row, end))
}

pub fn get_record(
    b: &[u8],
    pos: usize,
    Ghost(exp): Ghost<Option<(Seq<char>, Seq<Seq<char>>, Seq<Seq<EntryView>>)>>,
) -> (r: Option<(String, DRow, usize)>)
    ensures
        r matches Some((k, row, end)) ==> row.wf() && end == pos + enc_record(
            k@,
            row.names(),
            row.column_views(),
        ).len() && at(b@, pos as int, enc_record(k@, row.names(), row.column_views())),
        (exp matches Some((ek, ns, cs)) && ns.len() == cs.len() && keys_sorted(ns) && at(
            b@,
            pos as int,
            enc_record(ek, ns, cs),
        )) ==> (r matches Some((k, row, end)) && k@ == exp->Some_0.0 && row.names()
            == exp->Some_0.1 && row.column_views() == exp->Some_0.2),
{
    let ghost ok = (exp matches Some((ek, ns, cs)) && ns.len() == cs.len() && keys_sorted(ns) && at(
        b@,
        pos as int,
        enc_record(ek, ns, cs),
    ));
    let ghost ek = exp->Some_0.0;
    let ghost ns = exp->Some_0.1;
    let ghost cs = exp->Some_0.2;
    proof {
        if ok {
            lemma_at_split(b@, pos as int, enc_key(ek), enc_row(ns, cs));
        }
    }
    match get_key(b, pos) {
        Some((k, next)) => {
            let ghost want = if ok {
                Some((ns, cs))
            } else {
                None
            };
            match get_row(b, next, Ghost(want)) {
                Some((row, end)) => {
                    proof {
                        lemma_at_join(b@, pos as int, enc_key(k@), enc_row(row.names(), row.column_views()));
                    }
                    Some((k, row, end))
                },
                None => None,
            }
        },
        None => None,
    }
}


pub open spec fn offset_code() -> spec_fn(u64) -> Seq<u8> {
    |o: u64| le64(o)
}

/// A disk table header: the number of rows, then all row keys, then the
/// offset of each row in the same order.
pub open spec fn enc_header(keys: Seq<Seq<char>>, offsets: Seq<u64>) -> Seq<u8> {
    le64(keys.len() as u64) + concat(keys, key_code()) + concat(offsets, offset_code())
}

pub fn put_header(out: &mut Vec<u8>, keys: &Vec<String>, offsets: &Vec<u64>)
    requires
        keys@.len() == offsets@.len(),
    ensures
        final(out)@ == old(out)@ + enc_header(key_views(keys@), offsets@),
{
    put_u64(out, keys.len() as u64);
    let ghost base = out@;
    let mut i: usize = 0;
    while i < keys.len()
        invariant
            i <= keys@.len(),
            out@ == base + concat(key_views(keys@).take(i as int), key_code()),
        decreases keys@.len() - i,
    {
        put_key(out, keys[i].as_str());
        proof {
            assert(key_views(keys@).take(i + 1) =~= key_views(keys@).take(i as int).push(
                key_views(keys@)[i as int],
            ));
            lemma_concat_push(key_views(keys@).take(i as int), key_views(keys@)[i as int], key_code());
        }
        i = i + 1;
    }
    assert(key_views(keys@).take(i as int) =~= key_views(keys@));
    let ghost mid = out@;
    let mut j: usize = 0;
    while j < offsets.len()
        invariant
            j <= offsets@.len(),
            out@ == mid + concat(offsets@.take(j as int), offset_code()),
        decreases offsets@.len() - j,
    {
        put_u64(out, offsets[j]);
        proof {
            assert(offsets@.take(j + 1) =~= offsets@.take(j as int).push(offsets@[j as int]));
            lemma_concat_push(offsets@.take(j as int), offsets@[j as int], offset_code());
        }
        j = j + 1;
    }
    assert(offsets@.take(j as int) =~= offsets@);
    assert(mid + concat(offsets@, offset_code()) =~= old(out)@ + enc_header(key_views(keys@), offsets@));
}

fn get_offsets(b: &[u8], start: usize, n: u64, Ghost(exp): Ghost<Option<Seq<u64>>>) -> (r: Option<
    (Vec<u64>, usize),
>)
    requires
        start <= b@.len(),
    ensures
        r matches Some((os, end)) ==> os@.len() == n && end == start + concat(os@, offset_code()).len()
            && at(b@, start as int, concat(os@, offset_code())),
        (exp matches Some(xs) && xs.len() == n && at(b@, start as int, concat(xs, offset_code())))
            ==> (r matches Some((os, end)) && os@ == exp->Some_0),
{
    let ghost ok = (exp matches Some(xs) && xs.len() == n && at(
        b@,
        start as int,
        concat(xs, offset_code()),
    ));
    let ghost xs = exp->Some_0;
    let mut cur = start;
    let mut os: Vec<u64> = Vec::new();
    let mut j: u64 = 0;
    proof {
        lemma_at_empty(b@, start as int);
        assert(xs.take(0) =~= Seq::<u64>::empty());
        assert(os@ =~= Seq::<u64>::empty());
    }
    while j < n
        invariant
            start <= cur <= b@.len(),
            j <= n,
            os@.len() == j,
            xs == exp->Some_0,
            ok == (exp matches Some(xs) && xs.len() == n && at(
                b@,
                start as int,
                concat(xs, offset_code()),
            )),
            at(b@, start as int, concat(os@, offset_code())),
            cur == start + concat(os@, offset_code()).len(),
            ok ==> os@ == xs.take(j as int),
        decreases n - j,
    {
        proof {
            if ok {
                lemma_list_next(b@, start as int, xs, j as int, offset_code());
            }
        }
        match get_u64(b, cur) {
            Some(o) => {
                proof {
                    lemma_list_push(b@, start as int, os@, o, offset_code());
                    if ok {
                        assert(xs.take(j + 1) =~= xs.take(j as int).push(xs[j as int]));
                    }
                }
                os.push(o);
                assert(b@.len() == b.len());
                cur = cur + 8;
                j = j + 1;
            },
            None => {
                return None;
            },
        }
    }
    proof {
        if ok {
            assert(xs.take(j as int) =~= xs);
        }
    }
    Some((os, cur))
}

/// Reads a header that fills `b` exactly.
pub fn get_header(b: &[u8]) -> (r: Option<(Vec<String>, Vec<u64>)>)
    ensures
        r matches Some((keys, offsets)) ==> keys@.len() == offsets@.len() && keys_sorted(
            key_views(keys@),
        ) && b@ == enc_header(key_views(keys@), offsets@),
        (exists|ks: Seq<Seq<char>>, os: Seq<u64>|
            ks.len() == os.len() && keys_sorted(ks) && b@ == #[trigger] enc_header(ks, os)) ==> r is Some,
{
    let ghost ok = exists|ks: Seq<Seq<char>>, os: Seq<u64>|
        ks.len() == os.len() && keys_sorted(ks) && b@ == #[trigger] enc_header(ks, os);
    let ghost ks: Seq<Seq<char>> = Seq::empty();
    let ghost os: Seq<u64> = Seq::empty();
    let blen = b.len();
    assert(b@.len() == blen);
    proof {
        if ok {
            let (k0, o0) = choose|ks: Seq<Seq<char>>, os: Seq<u64>|
                ks.len() == os.len() && keys_sorted(ks) && b@ == #[trigger] enc_header(ks, os);
            ks = k0;
            os = o0;
            assert(b@.subrange(0, b@.len() as int) =~= b@);
            assert(enc_header(ks, os) =~= le64(ks.len() as u64) + (concat(ks, key_code()) + concat(
                os,
                offset_code(),
            )));
            lemma_at_split(b@, 0, le64(ks.len() as u64), concat(ks, key_code()) + concat(os, offset_code()));
            lemma_at_split(b@, 8, concat(ks, key_code()), concat(os, offset_code()));
            assert forall|a: Seq<char>| #[trigger] key_code()(a).len() >= 1 by {}
            lemma_concat_len(ks, key_code());
        }
    }
    let n = match get_u64(b, 0) {
        Some(n) => n,
        None => {
            return None;
        },
    };
    proof {
        if ok {
            lemma_le64_injective(n, ks.len() as u64);
        }
    }
    let ghost want_keys = if ok { Some(ks) } else { None };
    let (keys, mid) = match get_names(b, 8, n, Ghost(want_keys)) {
        Some(x) => x,
        None => {
            return None;
        },
    };
    let ghost want_offsets = if ok { Some(os) } else { None };
    let (offsets, end) = match get_offsets(b, mid, n, Ghost(want_offsets)) {
        Some(x) => x,
        None => {
            return None;
        },
    };
    if end != b.len() {
        return None;
    }
    proof {
        lemma_at_join(b@, 8, concat(key_views(keys@), key_code()), concat(offsets@, offset_code()));
        lemma_at_join(b@, 0, le64(n), concat(key_views(keys@), key_code()) + concat(offsets@, offset_code()));
        assert(enc_header(key_views(keys@), offsets@) =~= le64(n) + (concat(key_views(keys@), key_code())
            + concat(offsets@, offset_code())));
        assert(b@.subrange(0, b@.len() as int) =~= b@);
    }
    Some((keys, offsets))
}

/// One column assignment in a commit log record: the column name, then the
/// value as a byte string.
pub open spec fn enc_update(u: (Seq<char>, Seq<u8>)) -> Seq<u8> {
    enc_key(u.0) + enc_bytes(u.1)
}

pub open spec fn update_code() -> spec_fn((Seq<char>, Seq<u8>)) -> Seq<u8> {
    |u: (Seq<char>, Seq<u8>)| enc_update(u)
}

/// The views of a list of updates.
pub open spec fn update_views(ups: Seq<MUpdate>) -> Seq<(Seq<char>, Seq<u8>)> {
    ups.map_values(|u: MUpdate| u@)
}

/// The payload of a commit log record: row key, timestamp, the number of
/// updates, then each update.
pub open spec fn enc_commit(key: Seq<char>, timestamp: u64, ups: Seq<(Seq<char>, Seq<u8>)>) -> Seq<u8> {
    enc_key(key) + le64(timestamp) + le64(ups.len() as u64) + concat(ups, update_code())
}

/// A framed commit log record: the payload's length as four bytes, then the
/// payload.
pub open spec fn enc_frame(payload: Seq<u8>) -> Seq<u8> {
    le32(payload.len() as u32) + payload
}

pub fn put_commit(out: &mut Vec<u8>, key: &str, timestamp: u64, ups: &[MUpdate])
    ensures
        final(out)@ == old(out)@ + enc_commit(key@, timestamp, update_views(ups@)),
{
    put_key(out, key);
    put_u64(out, timestamp);
    put_u64(out, ups.len() as u64);
    let ghost base = out@;
    let ghost vs = update_views(ups@);
    let mut i: usize = 0;
    while i < ups.len()
        invariant
            i <= ups@.len(),
            vs == update_views(ups@),
            out@ == base + concat(vs.take(i as int), update_code()),
        decreases ups@.len() - i,
    {
        put_key(out, ups[i].key.as_str());
        put_bytes(out, ups[i].value.as_slice());
        proof {
            assert(vs.take(i + 1) =~= vs.take(i as int).push(vs[i as int]));
            lemma_concat_push(vs.take(i as int), vs[i as int], update_code());
        }
        i = i + 1;
    }
    assert(vs.take(i as int) =~= vs);
    assert(base + concat(vs, update_code()) =~= old(out)@ + enc_commit(key@, timestamp, vs));
}

/// The framed commit log record of a write, or `None` where its payload is
/// too long for the four-byte length.
pub fn frame_commit(key: &str, timestamp: u64, ups: &[MUpdate]) -> (r: Option<Vec<u8>>)
    ensures
        match r {
            Some(v) => enc_commit(key@, timestamp, update_views(ups@)).len() <= u32::MAX && v@
                == enc_frame(enc_commit(key@, timestamp, update_views(ups@))),
            None => enc_commit(key@, timestamp, update_views(ups@)).len() > u32::MAX,
        },
{
    let mut payload: Vec<u8> = Vec::new();
    put_commit(&mut payload, key, timestamp, ups);
    assert(payload@ =~= enc_commit(key@, timestamp, update_views(ups@)));
    if payload.len() > 4294967295 {
        return None;
    }
    let mut out: Vec<u8> = Vec::new();
    put_u32(&mut out, payload.len() as u32);
    append_bytes(&mut out, payload.as_slice());
    assert(out@ =~= enc_frame(payload@));
    Some(out)
}

fn get_update(b: &[u8], pos: usize) -> (r: Option<(MUpdate, usize)>)
    ensures
        r matches Some((u, end)) ==> end == pos + enc_update(u@).len() && at(b@, pos as int, enc_update(u@)),
        forall|x: (Seq<char>, Seq<u8>)| #[trigger] at(b@, pos as int, enc_update(x)) ==> (r matches Some(
            (u, end),
        ) && u@ == x),
{
    match get_key(b, pos) {
        Some((k, next)) => {
            proof {
                assert forall|x: (Seq<char>, Seq<u8>)| #[trigger] at(b@, pos as int, enc_update(x)) implies k@
                    == x.0 && at(b@, next as int, enc_bytes(x.1)) by {
                    lemma_at_split(b@, pos as int, enc_key(x.0), enc_bytes(x.1));
                }
            }
            match get_bytes(b, next) {
                Some((v, end)) => {
                    proof {
                        lemma_at_join(b@, pos as int, enc_key(k@), enc_bytes(v@));
                    }
                    Some((MUpdate { key: k, value: v }, end))
                },
                None => None,
            }
        },
        None => {
            proof {
                assert forall|x: (Seq<char>, Seq<u8>)| !#[trigger] at(b@, pos as int, enc_update(x)) by {
                    if at(b@, pos as int, enc_update(x)) {
                        lemma_at_split(b@, pos as int, enc_key(x.0), enc_bytes(x.1));
                    }
                }
            }
            None
        },
    }
}

fn get_updates(b: &[u8], start: usize, n: u64, Ghost(exp): Ghost<Option<Seq<(Seq<char>, Seq<u8>)>>>) -> (r:
    Option<(Vec<MUpdate>, usize)>)
    requires
        start <= b@.len(),
    ensures
        r matches Some((us, end)) ==> us@.len() == n && end == start + concat(
            update_views(us@),
            update_code(),
        ).len() && at(b@, start as int, concat(update_views(us@), update_code())),
        (exp matches Some(xs) && xs.len() == n && at(b@, start as int, concat(xs, update_code())))
            ==> (r matches Some((us, end)) && update_views(us@) == exp->Some_0),
{
    let ghost ok = (exp matches Some(xs) && xs.len() == n && at(
        b@,
        start as int,
        concat(xs, update_code()),
    ));
    let ghost xs = exp->Some_0;
    let mut cur = start;
    let mut us: Vec<MUpdate> = Vec::new();
    let mut j: u64 = 0;
    proof {
        lemma_at_empty(b@, start as int);
        assert(xs.take(0) =~= Seq::<(Seq<char>, Seq<u8>)>::empty());
        assert(update_views(us@) =~= Seq::<(Seq<char>, Seq<u8>)>::empty());
    }
    while j < n
        invariant
            start <= cur <= b@.len(),
            j <= n,
            us@.len() == j,
            xs == exp->Some_0,
            ok == (exp matches Some(xs) && xs.len() == n && at(
                b@,
                start as int,
                concat(xs, update_code()),
            )),
            at(b@, start as int, concat(update_views(us@), update_code())),
            cur == start + concat(update_views(us@), update_code()).len(),
            ok ==> update_views(us@) == xs.take(j as int),
        decreases n - j,
    {
        let ghost vs = update_views(us@);
        proof {
            if ok {
                lemma_list_next(b@, start as int, xs, j as int, update_code());
            }
        }
        match get_update(b, cur) {
            Some((u, next)) => {
                proof {
                    lemma_list_push(b@, start as int, vs, u@, update_code());
                    if ok {
                        assert(xs.take(j + 1) =~= xs.take(j as int).push(xs[j as int]));
                    }
                }
                let ghost uv = u@;
                us.push(u);
                assert(update_views(us@) =~= vs.push(uv));
                cur = next;
                j = j + 1;
            },
            None => {
                return None;
            },
        }
    }
    proof {
        if ok {
            assert(xs.take(j as int) =~= xs);
        }
    }
    Some((us, cur))
}

/// A write as its commit log record holds it: row key, timestamp, updates.
pub type CommitOp = (Seq<char>, u64, Seq<(Seq<char>, Seq<u8>)>);

/// A byte string's encoding is a prefix that determines it.
pub proof fn lemma_bytes_prefix(x: Seq<u8>, y: Seq<u8>, xr: Seq<u8>, yr: Seq<u8>)
    requires
        enc_bytes(x) + xr == enc_bytes(y) + yr,
        (enc_bytes(x) + xr).len() <= u64::MAX,
    ensures
        x == y,
        xr == yr,
{
    let s = enc_bytes(x) + xr;
    let t = enc_bytes(y) + yr;
    assert(s.subrange(0, 8) =~= le64(x.len() as u64));
    assert(t.subrange(0, 8) =~= le64(y.len() as u64));
    lemma_le64_injective(x.len() as u64, y.len() as u64);
    assert(s.subrange(8, 8 + x.len() as int) =~= x);
    assert(t.subrange(8, 8 + y.len() as int) =~= y);
    assert(xr =~= s.subrange(8 + x.len() as int, s.len() as int));
    assert(yr =~= t.subrange(8 + y.len() as int, t.len() as int));
}

/// A key's encoding is a prefix that determines it.
pub proof fn lemma_key_prefix(a: Seq<char>, b: Seq<char>, xr: Seq<u8>, yr: Seq<u8>)
    requires
        enc_key(a) + xr == enc_key(b) + yr,
        (enc_key(a) + xr).len() <= u64::MAX,
    ensures
        a == b,
        xr == yr,
{
    lemma_bytes_prefix(encode_utf8(a), encode_utf8(b), xr, yr);
    vstd::utf8::encode_utf8_decode_utf8(a);
    vstd::utf8::encode_utf8_decode_utf8(b);
}

proof fn lemma_update_prefix(u: (Seq<char>, Seq<u8>), v: (Seq<char>, Seq<u8>), xr: Seq<u8>, yr: Seq<u8>)
    requires
        enc_update(u) + xr == enc_update(v) + yr,
        (enc_update(u) + xr).len() <= u64::MAX,
    ensures
        u == v,
        xr == yr,
{
    assert(enc_update(u) + xr =~= enc_key(u.0) + (enc_bytes(u.1) + xr));
    assert(enc_update(v) + yr =~= enc_key(v.0) + (enc_bytes(v.1) + yr));
    lemma_key_prefix(u.0, v.0, enc_bytes(u.1) + xr, enc_bytes(v.1) + yr);
    lemma_bytes_prefix(u.1, v.1, xr, yr);
}

proof fn lemma_updates_prefix(
    xs: Seq<(Seq<char>, Seq<u8>)>,
    ys: Seq<(Seq<char>, Seq<u8>)>,
    xr: Seq<u8>,
    yr: Seq<u8>,
)
    requires
        xs.len() == ys.len(),
        concat(xs, update_code()) + xr == concat(ys, update_code()) + yr,
        (concat(xs, update_code()) + xr).len() <= u64::MAX,
    ensures
        xs == ys,
        xr == yr,
    decreases xs.len(),
{
    if xs.len() == 0 {
        assert(xs =~= ys);
        assert(concat(xs, update_code()) + xr =~= xr);
        assert(concat(ys, update_code()) + yr =~= yr);
    } else {
        lemma_concat_first(xs, 0, update_code());
        lemma_concat_first(ys, 0, update_code());
        assert(xs.skip(0) =~= xs);
        assert(ys.skip(0) =~= ys);
        let rx = concat(xs.skip(1), update_code()) + xr;
        let ry = concat(ys.skip(1), update_code()) + yr;
        assert(concat(xs, update_code()) + xr =~= enc_update(xs[0]) + rx);
        assert(concat(ys, update_code()) + yr =~= enc_update(ys[0]) + ry);
        lemma_update_prefix(xs[0], ys[0], rx, ry);
        lemma_updates_prefix(xs.skip(1), ys.skip(1), xr, yr);
        assert(xs =~= seq![xs[0]] + xs.skip(1));
        assert(ys =~= seq![ys[0]] + ys.skip(1));
    }
}

/// Encodings by `f` are prefixes that determine what they encode.
pub open spec fn prefix_free<A>(f: spec_fn(A) -> Seq<u8>) -> bool {
    forall|a: A, b: A, xr: Seq<u8>, yr: Seq<u8>|
        #![trigger f(a) + xr, f(b) + yr]
        f(a) + xr == f(b) + yr && (f(a) + xr).len() <= u64::MAX ==> a == b && xr == yr
}

/// Lists of equal length encoded item by item are prefixes that determine
/// the list.
pub proof fn lemma_list_prefix<A>(xs: Seq<A>, ys: Seq<A>, xr: Seq<u8>, yr: Seq<u8>, f: spec_fn(A) -> Seq<u8>)
    requires
        prefix_free(f),
        xs.len() == ys.len(),
        concat(xs, f) + xr == concat(ys, f) + yr,
        (concat(xs, f) + xr).len() <= u64::MAX,
    ensures
        xs == ys,
        xr == yr,
    decreases xs.len(),
{
    if xs.len() == 0 {
        assert(xs =~= ys);
        assert(concat(xs, f) + xr =~= xr);
        assert(concat(ys, f) + yr =~= yr);
    } else {
        lemma_concat_first(xs, 0, f);
        lemma_concat_first(ys, 0, f);
        assert(xs.skip(0) =~= xs);
        assert(ys.skip(0) =~= ys);
        let rx = concat(xs.skip(1), f) + xr;
        let ry = concat(ys.skip(1), f) + yr;
        assert(concat(xs, f) + xr =~= f(xs[0]) + rx);
        assert(concat(ys, f) + yr =~= f(ys[0]) + ry);
        assert(f(xs[0]) + rx == f(ys[0]) + ry);
        assert(xs[0] == ys[0] && rx == ry);
        lemma_list_prefix(xs.skip(1), ys.skip(1), xr, yr, f);
        assert(xs =~= seq![xs[0]] + xs.skip(1));
        assert(ys =~= seq![ys[0]] + ys.skip(1));
    }
}

pub proof fn lemma_key_code_prefix_free()
    ensures
        prefix_free(key_code()),
{
    assert forall|a: Seq<char>, b: Seq<char>, xr: Seq<u8>, yr: Seq<u8>|
        #![trigger key_code()(a) + xr, key_code()(b) + yr]
        key_code()(a) + xr == key_code()(b) + yr && (key_code()(a) + xr).len() <= u64::MAX implies a == b
            && xr == yr by {
        lemma_key_prefix(a, b, xr, yr);
    }
}

pub proof fn lemma_entry_code_prefix_free()
    ensures
        prefix_free(entry_code()),
{
    assert forall|a: EntryView, b: EntryView, xr: Seq<u8>, yr: Seq<u8>|
        #![trigger entry_code()(a) + xr, entry_code()(b) + yr]
        entry_code()(a) + xr == entry_code()(b) + yr && (entry_code()(a) + xr).len() <= u64::MAX implies a
            == b && xr == yr by {
        let s = enc_entry(a) + xr;
        let t = enc_entry(b) + yr;
        assert(s.subrange(0, 8) =~= le64(a.0));
        assert(t.subrange(0, 8) =~= le64(b.0));
        lemma_le64_injective(a.0, b.0);
        assert(s =~= le64(a.0) + (enc_bytes(a.1) + xr));
        assert(t =~= le64(b.0) + (enc_bytes(b.1) + yr));
        assert(enc_bytes(a.1) + xr =~= s.subrange(8, s.len() as int));
        assert(enc_bytes(b.1) + yr =~= t.subrange(8, t.len() as int));
        lemma_bytes_prefix(a.1, b.1, xr, yr);
    }
}

pub proof fn lemma_column_code_prefix_free()
    ensures
        prefix_free(column_code()),
{
    lemma_entry_code_prefix_free();
    assert forall|a: Seq<EntryView>, b: Seq<EntryView>, xr: Seq<u8>, yr: Seq<u8>|
        #![trigger column_code()(a) + xr, column_code()(b) + yr]
        column_code()(a) + xr == column_code()(b) + yr && (column_code()(a) + xr).len() <= u64::MAX implies a
            == b && xr == yr by {
        let s = enc_column(a) + xr;
        let t = enc_column(b) + yr;
        assert(s.subrange(0, 8) =~= le64(a.len() as u64));
        assert(t.subrange(0, 8) =~= le64(b.len() as u64));
        assert forall|e: EntryView| #[trigger] entry_code()(e).len() >= 1 by {}
        lemma_concat_len(a, entry_code());
        lemma_concat_len(b, entry_code());
        lemma_le64_injective(a.len() as u64, b.len() as u64);
        assert(concat(a, entry_code()) + xr =~= s.subrange(8, s.len() as int));
        assert(concat(b, entry_code()) + yr =~= t.subrange(8, t.len() as int));
        lemma_list_prefix(a, b, xr, yr, entry_code());
    }
}

/// A disk table record of bounded length determines its key, names and
/// columns.
pub proof fn lemma_record_injective(
    k1: Seq<char>,
    n1: Seq<Seq<char>>,
    c1: Seq<Seq<EntryView>>,
    k2: Seq<char>,
    n2: Seq<Seq<char>>,
    c2: Seq<Seq<EntryView>>,
)
    requires
        n1.len() == c1.len(),
        n2.len() == c2.len(),
        enc_record(k1, n1, c1) == enc_record(k2, n2, c2),
        enc_record(k1, n1, c1).len() <= u64::MAX,
    ensures
        k1 == k2,
        n1 == n2,
        c1 == c2,
{
    lemma_key_code_prefix_free();
    lemma_column_code_prefix_free();
    let r1 = enc_row(n1, c1);
    let r2 = enc_row(n2, c2);
    lemma_key_prefix(k1, k2, r1, r2);
    assert(r1.subrange(0, 8) =~= le64(n1.len() as u64));
    assert(r2.subrange(0, 8) =~= le64(n2.len() as u64));
    assert forall|a: Seq<char>| #[trigger] key_code()(a).len() >= 1 by {}
    lemma_concat_len(n1, key_code());
    lemma_concat_len(n2, key_code());
    lemma_le64_injective(n1.len() as u64, n2.len() as u64);
    let t1 = concat(c1, column_code());
    let t2 = concat(c2, column_code());
    assert(concat(n1, key_code()) + t1 =~= r1.subrange(8, r1.len() as int));
    assert(concat(n2, key_code()) + t2 =~= r2.subrange(8, r2.len() as int));
    lemma_list_prefix(n1, n2, t1, t2, key_code());
    assert(t1 + Seq::<u8>::empty() =~= t1);
    assert(t2 + Seq::<u8>::empty() =~= t2);
    lemma_list_prefix(c1, c2, Seq::empty(), Seq::empty(), column_code());
}

pub proof fn lemma_offset_code_prefix_free()
    ensures
        prefix_free(offset_code()),
{
    assert forall|a: u64, b: u64, xr: Seq<u8>, yr: Seq<u8>|
        #![trigger offset_code()(a) + xr, offset_code()(b) + yr]
        offset_code()(a) + xr == offset_code()(b) + yr && (offset_code()(a) + xr).len() <= u64::MAX implies a
            == b && xr == yr by {
        let s = le64(a) + xr;
        let t = le64(b) + yr;
        assert(s.subrange(0, 8) =~= le64(a));
        assert(t.subrange(0, 8) =~= le64(b));
        lemma_le64_injective(a, b);
        assert(xr =~= s.subrange(8, s.len() as int));
        assert(yr =~= t.subrange(8, t.len() as int));
    }
}

/// A header of bounded length determines its keys and offsets.
pub proof fn lemma_header_injective(k1: Seq<Seq<char>>, o1: Seq<u64>, k2: Seq<Seq<char>>, o2: Seq<u64>)
    requires
        k1.len() == o1.len(),
        k2.len() == o2.len(),
        enc_header(k1, o1) == enc_header(k2, o2),
        enc_header(k1, o1).len() <= u64::MAX,
    ensures
        k1 == k2,
        o1 == o2,
{
    lemma_key_code_prefix_free();
    lemma_offset_code_prefix_free();
    let h1 = enc_header(k1, o1);
    let h2 = enc_header(k2, o2);
    assert(h1.subrange(0, 8) =~= le64(k1.len() as u64));
    assert(h2.subrange(0, 8) =~= le64(k2.len() as u64));
    assert forall|a: Seq<char>| #[trigger] key_code()(a).len() >= 1 by {}
    lemma_concat_len(k1, key_code());
    lemma_concat_len(k2, key_code());
    lemma_le64_injective(k1.len() as u64, k2.len() as u64);
    let t1 = concat(o1, offset_code());
    let t2 = concat(o2, offset_code());
    assert(concat(k1, key_code()) + t1 =~= h1.subrange(8, h1.len() as int));
    assert(concat(k2, key_code()) + t2 =~= h2.subrange(8, h2.len() as int));
    lemma_list_prefix(k1, k2, t1, t2, key_code());
    assert(t1 + Seq::<u8>::empty() =~= t1);
    assert(t2 + Seq::<u8>::empty() =~= t2);
    lemma_list_prefix(o1, o2, Seq::empty(), Seq::empty(), offset_code());
}

/// A commit log record payload determines its write.
pub proof fn lemma_commit_injective(a: CommitOp, b: CommitOp)
    requires
        enc_commit(a.0, a.1, a.2) == enc_commit(b.0, b.1, b.2),
        enc_commit(a.0, a.1, a.2).len() <= u64::MAX,
    ensures
        a == b,
{
    let ra = le64(a.1) + le64(a.2.len() as u64) + concat(a.2, update_code());
    let rb = le64(b.1) + le64(b.2.len() as u64) + concat(b.2, update_code());
    assert(enc_commit(a.0, a.1, a.2) =~= enc_key(a.0) + ra);
    assert(enc_commit(b.0, b.1, b.2) =~= enc_key(b.0) + rb);
    lemma_key_prefix(a.0, b.0, ra, rb);
    assert(ra.subrange(0, 8) =~= le64(a.1));
    assert(rb.subrange(0, 8) =~= le64(b.1));
    lemma_le64_injective(a.1, b.1);
    assert(ra.subrange(8, 16) =~= le64(a.2.len() as u64));
    assert(rb.subrange(8, 16) =~= le64(b.2.len() as u64));
    assert forall|u: (Seq<char>, Seq<u8>)| #[trigger] update_code()(u).len() >= 1 by {}
    lemma_concat_len(a.2, update_code());
    lemma_concat_len(b.2, update_code());
    lemma_le64_injective(a.2.len() as u64, b.2.len() as u64);
    assert(concat(a.2, update_code()) =~= ra.subrange(16, ra.len() as int));
    assert(concat(b.2, update_code()) =~= rb.subrange(16, rb.len() as int));
    assert(concat(a.2, update_code()) + Seq::<u8>::empty() =~= concat(a.2, update_code()));
    assert(concat(b.2, update_code()) + Seq::<u8>::empty() =~= concat(b.2, update_code()));
    lemma_updates_prefix(a.2, b.2, Seq::empty(), Seq::empty());
}

/// Reads a commit log record payload that fills `b` from `pos` up to `end`.
/// Where `exp` is a write whose record those bytes are, that write is read.
#[verifier::rlimit(60)]
pub fn get_commit(b: &[u8], pos: usize, end: usize, Ghost(exp): Ghost<Option<CommitOp>>) -> (r: Option<
    (String, u64, Vec<MUpdate>),
>)
    requires
        pos <= end <= b@.len(),
    ensures
        r matches Some((k, t, us)) ==> b@.subrange(pos as int, end as int) == enc_commit(
            k@,
            t,
            update_views(us@),
        ),
        (exp matches Some(x) && b@.subrange(pos as int, end as int) == enc_commit(x.0, x.1, x.2)) ==> (
        r matches Some((k, t, us)) && k@ == exp->Some_0.0 && t == exp->Some_0.1 && update_views(us@)
            == exp->Some_0.2),
{
    let ghost ok = (exp matches Some(x) && b@.subrange(pos as int, end as int) == enc_commit(x.0, x.1, x.2));
    let ghost ek: Seq<char> = exp->Some_0.0;
    let ghost et: u64 = exp->Some_0.1;
    let ghost eus: Seq<(Seq<char>, Seq<u8>)> = exp->Some_0.2;
    let blen = b.len();
    assert(b@.len() == blen);
    proof {
        if ok {
            let key_part = enc_key(ek);
            let time_part = le64(et);
            let count_part = le64(eus.len() as u64);
            let list_part = concat(eus, update_code());
            assert(enc_commit(ek, et, eus) =~= key_part + (time_part + (count_part + list_part)));
            lemma_at_split(b@, pos as int, key_part, time_part + (count_part + list_part));
            lemma_at_split(b@, pos + key_part.len(), time_part, count_part + list_part);
            lemma_at_split(b@, pos + key_part.len() + 8, count_part, list_part);
            assert forall|a: (Seq<char>, Seq<u8>)| #[trigger] update_code()(a).len() >= 1 by {}
            lemma_concat_len(eus, update_code());
        }
    }
    let (k, p) = match get_key(b, pos) {
        Some(x) => x,
        None => {
            return None;
        },
    };
    let t = match get_u64(b, p) {
        Some(t) => t,
        None => {
            return None;
        },
    };
    let n = match get_u64(b, p + 8) {
        Some(n) => n,
        None => {
            return None;
        },
    };
    proof {
        if ok {
            lemma_le64_injective(n, eus.len() as u64);
        }
    }
    let ghost want = if ok { Some(eus) } else { None };
    let (us, stop) = match get_updates(b, p + 16, n, Ghost(want)) {
        Some(x) => x,
        None => {
            return None;
        },
    };
    if stop != end {
        return None;
    }
    proof {
        let list_part = concat(update_views(us@), update_code());
        lemma_at_join(b@, p + 8, le64(n), list_part);
        lemma_at_join(b@, p as int, le64(t), le64(n) + list_part);
        lemma_at_join(b@, pos as int, enc_key(k@), le64(t) + (le64(n) + list_part));
        assert(enc_commit(k@, t, update_views(us@)) =~= enc_key(k@) + (le64(t) + (le64(n) + list_part)));
    }
    Some((k, t, us))
}

} // verus!
