//! Queries, their results, and the updates they carry.

use vstd::prelude::*;
use vstd::utf8::{encode_utf8, valid_utf8};

use crate::codec::{append_bytes, string_from_utf8};

verus! {

/// One column assignment of a write: the column name and its new value.
#[derive(Debug)]
pub struct MUpdate {
    pub value: Vec<u8>,
    pub key: String,
}

/// Adds two sizes, stopping at the largest `usize`.
pub open spec fn sat_add(a: int, b: int) -> int {
    if a + b > usize::MAX {
        usize::MAX as int
    } else {
        a + b
    }
}

impl View for MUpdate {
    type V = (Seq<char>, Seq<u8>);

    open spec fn view(&self) -> (Seq<char>, Seq<u8>) {
        (self.key@, self.value@)
    }
}

impl MUpdate {
    pub fn new(key: &str, value: Vec<u8>) -> (r: MUpdate)
        ensures
            r@ == (key@, value@),
    {
        MUpdate { key: key.to_string(), value }
    }

    /// The bytes of the column name plus the bytes of the value.
    pub open spec fn spec_size(&self) -> int {
        sat_add(self.value@.len() as int, vstd::utf8::encode_utf8(self.key@).len() as int)
    }

    /// The size of the update: the length of its value plus the length of its
    /// column name in bytes (saturating at the largest `usize`).
    pub fn size(&self) -> (r: usize)
        ensures
            r == self.spec_size(),
    {
        self.value.len().saturating_add(self.key.as_str().as_bytes().len())
    }

    /// A copy of this update.
    pub fn duplicate(&self) -> (r: MUpdate)
        ensures
            r@ == self@,
    {
        MUpdate { key: self.key.clone(), value: crate::dtable::copy_bytes(&self.value) }
    }
}


/// A query that cannot be read or written.
#[derive(Clone, Copy, Debug, PartialEq, Eq, Structural)]
pub enum QError {
    ParseError,
}

/// A query whose values are text.
#[derive(Debug)]
pub enum QueryString {
    Select { row: String, get: Vec<String> },
    Update { row: String, set: Vec<(String, String)> },
    Insert { row: String, set: Vec<(String, String)> },
}

/// A query: read some columns of a row, or write column values to a row.
#[derive(Debug)]
pub enum Query {
    Select { row: String, get: Vec<String> },
    Update { row: String, set: Vec<MUpdate> },
    Insert { row: String, set: Vec<MUpdate> },
}

/// The outcome of a query.
#[derive(Debug)]
pub enum QueryResult {
    NotImplemented,
    RowNotFound,
    RowAlreadyExists,
    InternalError,
    Done,
    PartialCommit,
    NetworkError,
    Data { columns: Vec<Option<Vec<u8>>> },
}

/// The views of a list of strings.
pub open spec fn string_views(v: Seq<String>) -> Seq<Seq<char>> {
    v.map_values(|s: String| s@)
}

/// The views of a list of updates.
pub open spec fn mupdate_views(v: Seq<MUpdate>) -> Seq<(Seq<char>, Seq<u8>)> {
    v.map_values(|u: MUpdate| u@)
}

/// Copies a list of strings.
fn copy_strings(v: &Vec<String>) -> (r: Vec<String>)
    ensures
        string_views(r@) == string_views(v@),
{
    let mut out: Vec<String> = Vec::new();
    let mut i: usize = 0;
    while i < v.len()
        invariant
            i <= v@.len(),
            string_views(out@) == string_views(v@).take(i as int),
        decreases v@.len() - i,
    {
        let ghost prev = out@;
        let c = v[i].clone();
        assert(c@ == v@[i as int]@);
        out.push(c);
        assert(out@ =~= prev.push(c));
        assert(string_views(out@) =~= string_views(prev).push(c@));
        assert(string_views(v@).take(i + 1) =~= string_views(v@).take(i as int).push(v@[i as int]@));
        i = i + 1;
    }
    assert(string_views(v@).take(i as int) =~= string_views(v@));
    out
}

/// Text assignments as byte assignments: each value's UTF-8 bytes.
pub open spec fn text_to_updates(set: Seq<(String, String)>) -> Seq<(Seq<char>, Seq<u8>)> {
    set.map_values(|p: (String, String)| (p.0@, encode_utf8(p.1@)))
}

/// Byte assignments as text assignments, for values that are UTF-8.
pub open spec fn updates_to_text(set: Seq<MUpdate>) -> Seq<(Seq<char>, Seq<char>)> {
    set.map_values(|u: MUpdate| (u.key@, vstd::utf8::decode_utf8(u.value@)))
}

pub open spec fn pair_views(set: Seq<(String, String)>) -> Seq<(Seq<char>, Seq<char>)> {
    set.map_values(|p: (String, String)| (p.0@, p.1@))
}

fn text_updates(set: Vec<(String, String)>) -> (r: Vec<MUpdate>)
    ensures
        mupdate_views(r@) == text_to_updates(set@),
{
    let mut out: Vec<MUpdate> = Vec::new();
    let mut i: usize = 0;
    while i < set.len()
        invariant
            i <= set@.len(),
            mupdate_views(out@) == text_to_updates(set@).take(i as int),
        decreases set@.len() - i,
    {
        let value = crate::codec::copy_range(set[i].1.as_str().as_bytes(), 0, set[i].1.as_str().as_bytes().len());
        let ghost prev = out@;
        let c = MUpdate { key: set[i].0.clone(), value };
        assert(c@ == (set@[i as int].0@, encode_utf8(set@[i as int].1@)));
        out.push(c);
        assert(out@ =~= prev.push(c));
        assert(mupdate_views(out@) =~= mupdate_views(prev).push(c@));
        assert(text_to_updates(set@).take(i + 1) =~= text_to_updates(set@).take(i as int).push(c@));
        i = i + 1;
    }
    assert(text_to_updates(set@).take(i as int) =~= text_to_updates(set@));
    out
}

impl QueryString {
    /// The query with each text value as its UTF-8 bytes.
    pub fn into_query(self) -> (r: Query)
        ensures
            match (self, r) {
                (QueryString::Select { row: a, get: g }, Query::Select { row: b, get: h }) => a@ == b@
                    && string_views(g@) == string_views(h@),
                (QueryString::Update { row: a, set: s }, Query::Update { row: b, set: t }) => a@ == b@
                    && mupdate_views(t@) == text_to_updates(s@),
                (QueryString::Insert { row: a, set: s }, Query::Insert { row: b, set: t }) => a@ == b@
                    && mupdate_views(t@) == text_to_updates(s@),
                _ => false,
            },
    {
        match self {
            QueryString::Select { row, get } => Query::Select { row, get },
            QueryString::Update { row, set } => Query::Update { row, set: text_updates(set) },
            QueryString::Insert { row, set } => Query::Insert { row, set: text_updates(set) },
        }
    }
}

/// Every value is valid UTF-8.
pub open spec fn all_text(set: Seq<MUpdate>) -> bool {
    forall|i: int| 0 <= i < set.len() ==> valid_utf8((#[trigger] set[i]).value@)
}

/// Whether a byte string is valid UTF-8.
pub fn is_text(b: &Vec<u8>) -> (r: bool)
    ensures
        r == valid_utf8(b@),
{
    string_from_utf8(crate::dtable::copy_bytes(b)).is_some()
}

fn updates_text(set: &Vec<MUpdate>) -> (r: Vec<(String, String)>)
    requires
        all_text(set@),
    ensures
        pair_views(r@) == updates_to_text(set@),
{
    let mut out: Vec<(String, String)> = Vec::new();
    let mut i: usize = 0;
    while i < set.len()
        invariant
            all_text(set@),
            i <= set@.len(),
            pair_views(out@) == updates_to_text(set@).take(i as int),
        decreases set@.len() - i,
    {
        assert(valid_utf8(set@[i as int].value@));
        let text = match string_from_utf8(crate::dtable::copy_bytes(&set[i].value)) {
            Some(t) => t,
            None => String::new(),
        };
        proof {
            vstd::utf8::encode_utf8_decode_utf8(text@);
        }
        let ghost prev = out@;
        let c = (set[i].key.clone(), text);
        assert((c.0@, c.1@) == (set@[i as int].key@, vstd::utf8::decode_utf8(set@[i as int].value@)));
        out.push(c);
        assert(out@ =~= prev.push(c));
        assert(pair_views(out@) =~= pair_views(prev).push((c.0@, c.1@)));
        assert(updates_to_text(set@).take(i + 1) =~= updates_to_text(set@).take(i as int).push((c.0@, c.1@)));
        i = i + 1;
    }
    assert(updates_to_text(set@).take(i as int) =~= updates_to_text(set@));
    out
}

fn all_values_text(set: &Vec<MUpdate>) -> (r: bool)
    ensures
        r == all_text(set@),
{
    let mut i: usize = 0;
    while i < set.len()
        invariant
            i <= set@.len(),
            forall|j: int| 0 <= j < i ==> valid_utf8((#[trigger] set@[j]).value@),
        decreases set@.len() - i,
    {
        if !is_text(&set[i].value) {
            return false;
        }
        i = i + 1;
    }
    true
}

impl Query {
    pub fn new_select(row: &str, get: &[&str]) -> (r: Query)
        ensures
            r matches Query::Select { row: a, get: g } && a@ == row@ && string_views(g@) == get@.map_values(
                |s: &str| s@,
            ),
    {
        let mut names: Vec<String> = Vec::new();
        let mut i: usize = 0;
        while i < get.len()
            invariant
                i <= get@.len(),
                string_views(names@) == get@.map_values(|s: &str| s@).take(i as int),
            decreases get@.len() - i,
        {
            let ghost prev = names@;
            let c = get[i].to_string();
            assert(c@ == get@[i as int]@);
            names.push(c);
            assert(names@ =~= prev.push(c));
            assert(string_views(names@) =~= string_views(prev).push(c@));
            assert(get@.map_values(|s: &str| s@).take(i + 1) =~= get@.map_values(|s: &str| s@).take(i as int).push(c@));
            i = i + 1;
        }
        assert(get@.map_values(|s: &str| s@).take(i as int) =~= get@.map_values(|s: &str| s@));
        Query::Select { row: row.to_string(), get: names }
    }

    pub fn new_update(row: &str, set: Vec<MUpdate>) -> (r: Query)
        ensures
            r matches Query::Update { row: a, set: s } && a@ == row@ && mupdate_views(s@) == mupdate_views(
                set@,
            ),
    {
        Query::Update { row: row.to_string(), set }
    }

    pub fn new_insert(row: &str, set: Vec<MUpdate>) -> (r: Query)
        ensures
            r matches Query::Insert { row: a, set: s } && a@ == row@ && mupdate_views(s@) == mupdate_views(
                set@,
            ),
    {
        Query::Insert { row: row.to_string(), set }
    }

    /// Whether every value that the query writes is text.
    pub open spec fn is_text(&self) -> bool {
        match self {
            Query::Select { .. } => true,
            Query::Update { set, .. } => all_text(set@),
            Query::Insert { set, .. } => all_text(set@),
        }
    }

    /// The query with its values as text.
    pub fn as_query_string(&self) -> (r: QueryString)
        requires
            self.is_text(),
        ensures
            match (*self, r) {
                (Query::Select { row: a, get: g }, QueryString::Select { row: b, get: h }) => a@ == b@
                    && string_views(g@) == string_views(h@),
                (Query::Update { row: a, set: s }, QueryString::Update { row: b, set: t }) => a@ == b@
                    && pair_views(t@) == updates_to_text(s@),
                (Query::Insert { row: a, set: s }, QueryString::Insert { row: b, set: t }) => a@ == b@
                    && pair_views(t@) == updates_to_text(s@),
                _ => false,
            },
    {
        match self {
            Query::Select { row, get } => QueryString::Select { row: row.clone(), get: copy_strings(get) },
            Query::Update { row, set } => QueryString::Update { row: row.clone(), set: updates_text(set) },
            Query::Insert { row, set } => QueryString::Insert { row: row.clone(), set: updates_text(set) },
        }
    }
}


/// The lower-case hexadecimal digit of `d`.
pub open spec fn hex_digit(d: int) -> char {
    seq!['0', '1', '2', '3', '4', '5', '6', '7', '8', '9', 'a', 'b', 'c', 'd', 'e', 'f'][d]
}

/// A character as a JSON string writes it: quote and backslash after a
/// backslash, the named control characters as `\b \f \n \r \t`, the other
/// control characters as `\u00XX`, everything else as it is.
pub open spec fn json_escape(c: char) -> Seq<char> {
    if c == '"' {
        seq!['\\', '"']
    } else if c == '\\' {
        seq!['\\', '\\']
    } else if c == '\u{8}' {
        seq!['\\', 'b']
    } else if c == '\u{c}' {
        seq!['\\', 'f']
    } else if c == '\n' {
        seq!['\\', 'n']
    } else if c == '\r' {
        seq!['\\', 'r']
    } else if c == '\t' {
        seq!['\\', 't']
    } else if (c as u32) < 32 {
        seq!['\\', 'u', '0', '0', hex_digit((c as u32) as int / 16), hex_digit((c as u32) as int % 16)]
    } else {
        seq![c]
    }
}

/// The characters of `s`, each as a JSON string writes it.
pub open spec fn json_body(s: Seq<char>) -> Seq<char>
    decreases s.len(),
{
    if s.len() == 0 {
        Seq::empty()
    } else {
        json_body(s.drop_last()) + json_escape(s.last())
    }
}

/// The JSON string literal of `s`.
pub open spec fn json_quoted(s: Seq<char>) -> Seq<char> {
    seq!['"'] + json_body(s) + seq!['"']
}

/// Relies on `serde_json::to_string` on a `str`: it writes the string as a
/// JSON string literal, and on a `str` it does not fail.
#[verifier::external_body]
fn json_quote(s: &str) -> (r: Option<String>)
    ensures
        r is Some,
        r matches Some(t) ==> t@ == json_quoted(s@),
{
    serde_json::to_string(s).ok()
}

/// The UTF-8 bytes of a text.
pub open spec fn text(s: &str) -> Seq<u8> {
    encode_utf8(s@)
}

/// The UTF-8 bytes of the JSON string literal of `s`.
pub open spec fn quoted(s: Seq<char>) -> Seq<u8> {
    encode_utf8(json_quoted(s))
}

/// JSON string literals separated by commas.
pub open spec fn json_names(names: Seq<Seq<char>>) -> Seq<u8>
    decreases names.len(),
{
    if names.len() == 0 {
        Seq::empty()
    } else if names.len() == 1 {
        quoted(names[0])
    } else {
        json_names(names.drop_last()) + text(",") + quoted(names.last())
    }
}

/// JSON object members `"name":"value"` separated by commas.
pub open spec fn json_pairs(pairs: Seq<(Seq<char>, Seq<char>)>) -> Seq<u8>
    decreases pairs.len(),
{
    if pairs.len() == 0 {
        Seq::empty()
    } else if pairs.len() == 1 {
        quoted(pairs[0].0) + text(":") + quoted(pairs[0].1)
    } else {
        json_pairs(pairs.drop_last()) + text(",") + quoted(pairs.last().0) + text(":") + quoted(
            pairs.last().1,
        )
    }
}

/// The JSON text of a select: `{"select":{"row":R,"get":[C,...]}}`.
pub open spec fn select_json(row: Seq<char>, get: Seq<Seq<char>>) -> Seq<u8> {
    text("{\"select\":{\"row\":") + quoted(row) + text(",\"get\":[") + json_names(get) + text("]}}")
}

/// The JSON text of a write, after its opening `{"update":` or `{"insert":`:
/// `{"row":R,"set":{C:V,...}}}`.
pub open spec fn write_json(head: Seq<u8>, row: Seq<char>, set: Seq<(Seq<char>, Seq<char>)>) -> Seq<u8> {
    head + text("{\"row\":") + quoted(row) + text(",\"set\":{") + json_pairs(set) + text("}}}")
}

pub(crate) fn put_text(out: &mut Vec<u8>, s: &str)
    requires
        valid_utf8(old(out)@),
    ensures
        final(out)@ == old(out)@ + text(s),
        valid_utf8(final(out)@),
{
    proof {
        vstd::utf8::encode_utf8_valid_utf8(s@);
        vstd::utf8::valid_utf8_concat(old(out)@, encode_utf8(s@));
    }
    append_bytes(out, s.as_bytes());
}

fn put_quoted(out: &mut Vec<u8>, s: &str) -> (r: bool)
    requires
        valid_utf8(old(out)@),
    ensures
        r,
        r ==> final(out)@ == old(out)@ + quoted(s@),
        valid_utf8(final(out)@),
{
    match json_quote(s) {
        Some(t) => {
            put_text(out, t.as_str());
            true
        },
        None => false,
    }
}

fn put_names(out: &mut Vec<u8>, names: &Vec<String>) -> (r: bool)
    requires
        valid_utf8(old(out)@),
    ensures
        r,
        r ==> final(out)@ == old(out)@ + json_names(string_views(names@)),
        valid_utf8(final(out)@),
{
    let ghost base = out@;
    let ghost ns = string_views(names@);
    let mut i: usize = 0;
    assert(ns.take(0) =~= Seq::<Seq<char>>::empty());
    assert(out@ =~= base + json_names(ns.take(0)));
    while i < names.len()
        invariant
            i <= names@.len(),
            ns == string_views(names@),
            valid_utf8(out@),
            out@ == base + json_names(ns.take(i as int)),
        decreases names@.len() - i,
    {
        let ghost t = ns.take(i + 1);
        assert(t.drop_last() =~= ns.take(i as int));
        assert(t.last() == names@[i as int]@);
        if i > 0 {
            put_text(out, ",");
        }
        if !put_quoted(out, names[i].as_str()) {
            return false;
        }
        proof {
            if i == 0 {
                assert(t[0] == names@[0]@);
                assert(out@ =~= base + json_names(t));
            } else {
                assert(out@ =~= base + json_names(t));
            }
        }
        i = i + 1;
    }
    assert(ns.take(i as int) =~= ns);
    true
}

fn put_pairs(out: &mut Vec<u8>, set: &Vec<(String, String)>) -> (r: bool)
    requires
        valid_utf8(old(out)@),
    ensures
        r,
        r ==> final(out)@ == old(out)@ + json_pairs(pair_views(set@)),
        valid_utf8(final(out)@),
{
    let ghost base = out@;
    let ghost ps = pair_views(set@);
    let mut i: usize = 0;
    assert(ps.take(0) =~= Seq::<(Seq<char>, Seq<char>)>::empty());
    assert(out@ =~= base + json_pairs(ps.take(0)));
    while i < set.len()
        invariant
            i <= set@.len(),
            ps == pair_views(set@),
            valid_utf8(out@),
            out@ == base + json_pairs(ps.take(i as int)),
        decreases set@.len() - i,
    {
        let ghost t = ps.take(i + 1);
        assert(t.drop_last() =~= ps.take(i as int));
        assert(t.last() == (set@[i as int].0@, set@[i as int].1@));
        if i > 0 {
            put_text(out, ",");
        }
        if !put_quoted(out, set[i].0.as_str()) {
            return false;
        }
        put_text(out, ":");
        if !put_quoted(out, set[i].1.as_str()) {
            return false;
        }
        proof {
            if i == 0 {
                assert(t[0] == (set@[0].0@, set@[0].1@));
            }
            assert(out@ =~= base + json_pairs(t));
        }
        i = i + 1;
    }
    assert(ps.take(i as int) =~= ps);
    true
}

/// The text of UTF-8 bytes that are valid.
pub(crate) fn text_of(b: Vec<u8>) -> (r: String)
    requires
        valid_utf8(b@),
    ensures
        encode_utf8(r@) == b@,
{
    match string_from_utf8(b) {
        Some(s) => s,
        None => String::new(),
    }
}

impl QueryString {
    /// The query as JSON text.
    pub fn to_json(&self) -> (r: Result<String, QError>)
        ensures
            match r {
                Ok(s) => encode_utf8(s@) == match *self {
                    QueryString::Select { row, get } => select_json(row@, string_views(get@)),
                    QueryString::Update { row, set } => write_json(text("{\"update\":"), row@, pair_views(set@)),
                    QueryString::Insert { row, set } => write_json(text("{\"insert\":"), row@, pair_views(set@)),
                },
                Err(e) => e == QError::ParseError,
            },
            r is Ok,
    {
        let mut out: Vec<u8> = Vec::new();
        assert(valid_utf8(out@)) by {
            assert(out@ =~= encode_utf8(Seq::<char>::empty()));
            vstd::utf8::encode_utf8_valid_utf8(Seq::<char>::empty());
        }
        let ghost empty = out@;
        match self {
            QueryString::Select { row, get } => {
                put_text(&mut out, "{\"select\":{\"row\":");
                if !put_quoted(&mut out, row.as_str()) {
                    return Err(QError::ParseError);
                }
                put_text(&mut out, ",\"get\":[");
                if !put_names(&mut out, get) {
                    return Err(QError::ParseError);
                }
                put_text(&mut out, "]}}");
                assert(out@ =~= select_json(row@, string_views(get@)));
            },
            QueryString::Update { row, set } => {
                put_text(&mut out, "{\"update\":");
                put_text(&mut out, "{\"row\":");
                if !put_quoted(&mut out, row.as_str()) {
                    return Err(QError::ParseError);
                }
                put_text(&mut out, ",\"set\":{");
                if !put_pairs(&mut out, set) {
                    return Err(QError::ParseError);
                }
                put_text(&mut out, "}}}");
                assert(out@ =~= write_json(text("{\"update\":"), row@, pair_views(set@)));
            },
            QueryString::Insert { row, set } => {
                put_text(&mut out, "{\"insert\":");
                put_text(&mut out, "{\"row\":");
                if !put_quoted(&mut out, row.as_str()) {
                    return Err(QError::ParseError);
                }
                put_text(&mut out, ",\"set\":{");
                if !put_pairs(&mut out, set) {
                    return Err(QError::ParseError);
                }
                put_text(&mut out, "}}}");
                assert(out@ =~= write_json(text("{\"insert\":"), row@, pair_views(set@)));
            },
        }
        Ok(text_of(out))
    }
}

impl Query {
    /// The query as JSON text, values written as text. Fails exactly where a
    /// value is not valid UTF-8.
    pub fn as_json(&self) -> (r: Result<String, QError>)
        ensures
            match r {
                Ok(s) => self.is_text() && encode_utf8(s@) == match *self {
                    Query::Select { row, get } => select_json(row@, string_views(get@)),
                    Query::Update { row, set } => write_json(text("{\"update\":"), row@, updates_to_text(set@)),
                    Query::Insert { row, set } => write_json(text("{\"insert\":"), row@, updates_to_text(set@)),
                },
                Err(e) => e == QError::ParseError,
            },
            (r is Ok) == self.is_text(),
    {
        let text_ok = match self {
            Query::Select { .. } => true,
            Query::Update { set, .. } => all_values_text(set),
            Query::Insert { set, .. } => all_values_text(set),
        };
        if !text_ok {
            return Err(QError::ParseError);
        }
        self.as_query_string().to_json()
    }
}

/// One column of a `Data` result as shown: its value in quotes where it is
/// text, `"Err"` where it is not, and `None` where there is no value.
pub open spec fn shown_value(c: Option<Vec<u8>>) -> Seq<u8> {
    match c {
        Some(x) => text("\"") + (if valid_utf8(x@) {
            x@
        } else {
            text("Err")
        }) + text("\""),
        None => text("None"),
    }
}

/// The shown columns separated by `", "`.
pub open spec fn shown_values(cs: Seq<Option<Vec<u8>>>) -> Seq<u8>
    decreases cs.len(),
{
    if cs.len() == 0 {
        Seq::empty()
    } else if cs.len() == 1 {
        shown_value(cs[0])
    } else {
        shown_values(cs.drop_last()) + text(", ") + shown_value(cs.last())
    }
}

/// How a result reads to a person.
pub open spec fn shown_result(q: QueryResult) -> Seq<u8> {
    match q {
        QueryResult::Done => text("OK."),
        QueryResult::RowNotFound => text("Row not found."),
        QueryResult::RowAlreadyExists => text("Row already exists."),
        QueryResult::InternalError => text("Internal error."),
        QueryResult::NotImplemented => text("Not implemented."),
        QueryResult::NetworkError => text("Network error."),
        QueryResult::PartialCommit => text("Partial commit (!)"),
        QueryResult::Data { columns } => text("Data: [") + shown_values(columns@) + text("]"),
    }
}

fn put_value(out: &mut Vec<u8>, c: &Option<Vec<u8>>)
    requires
        valid_utf8(old(out)@),
    ensures
        final(out)@ == old(out)@ + shown_value(*c),
        valid_utf8(final(out)@),
{
    match c {
        Some(x) => {
            put_text(out, "\"");
            if is_text(x) {
                proof {
                    vstd::utf8::valid_utf8_concat(out@, x@);
                }
                append_bytes(out, x.as_slice());
            } else {
                put_text(out, "Err");
            }
            put_text(out, "\"");
        },
        None => {
            put_text(out, "None");
        },
    }
}

impl QueryResult {
    /// The result as a person reads it (see `shown_result`).
    pub fn to_display_string(&self) -> (r: String)
        ensures
            encode_utf8(r@) == shown_result(*self),
    {
        let mut out: Vec<u8> = Vec::new();
        assert(valid_utf8(out@)) by {
            assert(out@ =~= encode_utf8(Seq::<char>::empty()));
            vstd::utf8::encode_utf8_valid_utf8(Seq::<char>::empty());
        }
        match self {
            QueryResult::Done => put_text(&mut out, "OK."),
            QueryResult::RowNotFound => put_text(&mut out, "Row not found."),
            QueryResult::RowAlreadyExists => put_text(&mut out, "Row already exists."),
            QueryResult::InternalError => put_text(&mut out, "Internal error."),
            QueryResult::NotImplemented => put_text(&mut out, "Not implemented."),
            QueryResult::NetworkError => put_text(&mut out, "Network error."),
            QueryResult::PartialCommit => put_text(&mut out, "Partial commit (!)"),
            QueryResult::Data { columns } => {
                put_text(&mut out, "Data: [");
                let ghost base = out@;
                let ghost cs = columns@;
                let mut i: usize = 0;
                assert(cs.take(0) =~= Seq::<Option<Vec<u8>>>::empty());
                assert(out@ =~= base + shown_values(cs.take(0)));
                while i < columns.len()
                    invariant
                        i <= cs.len(),
                        cs == columns@,
                        valid_utf8(out@),
                        out@ == base + shown_values(cs.take(i as int)),
                    decreases cs.len() - i,
                {
                    let ghost t = cs.take(i + 1);
                    assert(t.drop_last() =~= cs.take(i as int));
                    assert(t.last() == cs[i as int]);
                    if i > 0 {
                        put_text(&mut out, ", ");
                    }
                    put_value(&mut out, &columns[i]);
                    proof {
                        if i == 0 {
                            assert(t[0] == cs[0]);
                        }
                        assert(out@ =~= base + shown_values(t));
                    }
                    i = i + 1;
                }
                assert(cs.take(i as int) =~= cs);
                put_text(&mut out, "]");
            },
        }
        assert(out@ =~= shown_result(*self));
        text_of(out)
    }
}

} // verus!
