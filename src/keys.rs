//! The order on row keys and column names: lexicographic by UTF-8 byte value.

use vstd::prelude::*;

verus! {

/// Strict lexicographic order on byte strings.
pub open spec fn bytes_lt(a: Seq<u8>, b: Seq<u8>) -> bool
    decreases a.len(),
{
    if a.len() == 0 {
        b.len() > 0
    } else if b.len() == 0 {
        false
    } else if a[0] != b[0] {
        a[0] < b[0]
    } else {
        bytes_lt(a.drop_first(), b.drop_first())
    }
}

/// Strict order on keys: compares their UTF-8 encodings byte by byte.
pub open spec fn key_lt(a: Seq<char>, b: Seq<char>) -> bool {
    bytes_lt(vstd::utf8::encode_utf8(a), vstd::utf8::encode_utf8(b))
}

/// A sequence of keys in strictly increasing order.
pub open spec fn keys_sorted(s: Seq<Seq<char>>) -> bool {
    forall|i: int, j: int| 0 <= i < j < s.len() ==> key_lt(#[trigger] s[i], #[trigger] s[j])
}

pub proof fn lemma_bytes_lt_irreflexive(a: Seq<u8>)
    ensures
        !bytes_lt(a, a),
    decreases a.len(),
{
    if a.len() > 0 {
        lemma_bytes_lt_irreflexive(a.drop_first());
    }
}

pub proof fn lemma_bytes_lt_transitive(a: Seq<u8>, b: Seq<u8>, c: Seq<u8>)
    requires
        bytes_lt(a, b),
        bytes_lt(b, c),
    ensures
        bytes_lt(a, c),
    decreases a.len(),
{
    if a.len() > 0 && b.len() > 0 && c.len() > 0 && a[0] == b[0] && b[0] == c[0] {
        lemma_bytes_lt_transitive(a.drop_first(), b.drop_first(), c.drop_first());
    }
}

proof fn lemma_bytes_lt_skip(a: Seq<u8>, b: Seq<u8>, i: int)
    requires
        0 <= i <= a.len(),
        i <= b.len(),
        a.take(i) == b.take(i),
    ensures
        bytes_lt(a, b) == bytes_lt(a.skip(i), b.skip(i)),
    decreases i,
{
    if i == 0 {
        assert(a.skip(0) =~= a);
        assert(b.skip(0) =~= b);
    } else {
        assert(a[0] == a.take(i)[0]);
        assert(b[0] == b.take(i)[0]);
        assert(a.drop_first().take(i - 1) =~= a.take(i).drop_first());
        assert(b.drop_first().take(i - 1) =~= b.take(i).drop_first());
        lemma_bytes_lt_skip(a.drop_first(), b.drop_first(), i - 1);
        assert(a.drop_first().skip(i - 1) =~= a.skip(i));
        assert(b.drop_first().skip(i - 1) =~= b.skip(i));
    }
}

pub proof fn lemma_key_lt_irreflexive(a: Seq<char>)
    ensures
        !key_lt(a, a),
{
    lemma_bytes_lt_irreflexive(vstd::utf8::encode_utf8(a));
}

pub proof fn lemma_key_lt_transitive(a: Seq<char>, b: Seq<char>, c: Seq<char>)
    requires
        key_lt(a, b),
        key_lt(b, c),
    ensures
        key_lt(a, c),
{
    lemma_bytes_lt_transitive(
        vstd::utf8::encode_utf8(a),
        vstd::utf8::encode_utf8(b),
        vstd::utf8::encode_utf8(c),
    );
}

/// The outcome of comparing two keys.
#[derive(Clone, Copy, Debug, PartialEq, Eq, Structural)]
pub enum KeyOrder {
    Less,
    Equal,
    Greater,
}

proof fn lemma_compare_facts(a: Seq<char>, b: Seq<char>)
    ensures
        !(key_lt(a, b) && key_lt(b, a)),
        !key_lt(a, a),
        !key_lt(b, b),
        (a == b) == (vstd::utf8::encode_utf8(a) == vstd::utf8::encode_utf8(b)),
{
    lemma_key_lt_irreflexive(a);
    lemma_key_lt_irreflexive(b);
    vstd::utf8::encode_utf8_decode_utf8(a);
    vstd::utf8::encode_utf8_decode_utf8(b);
    if key_lt(a, b) && key_lt(b, a) {
        lemma_key_lt_transitive(a, b, a);
    }
}

/// Compares two keys in the order `key_lt`.
pub fn compare_keys(a: &str, b: &str) -> (r: KeyOrder)
    ensures
        (r == KeyOrder::Less) == key_lt(a@, b@),
        (r == KeyOrder::Equal) == (a@ == b@),
        (r == KeyOrder::Greater) == key_lt(b@, a@),
{
    let x = a.as_bytes();
    let y = b.as_bytes();
    let ghost xs = vstd::utf8::encode_utf8(a@);
    let ghost ys = vstd::utf8::encode_utf8(b@);
    proof {
        lemma_compare_facts(a@, b@);
    }
    let mut i: usize = 0;
    while i < x.len() && i < y.len()
        invariant
            x@ == xs,
            y@ == ys,
            xs == vstd::utf8::encode_utf8(a@),
            ys == vstd::utf8::encode_utf8(b@),
            0 <= i <= x.len(),
            i <= y.len(),
            xs.take(i as int) == ys.take(i as int),
        decreases x.len() - i,
    {
        if x[i] != y[i] {
            proof {
                lemma_bytes_lt_skip(xs, ys, i as int);
                assert(xs.skip(i as int)[0] == xs[i as int]);
                assert(ys.skip(i as int)[0] == ys[i as int]);
                assert(xs.skip(i as int).len() > 0 && ys.skip(i as int).len() > 0);
                assert(xs != ys);
                lemma_bytes_lt_skip(ys, xs, i as int);
                lemma_compare_facts(a@, b@);
            }
            if x[i] < y[i] {
                return KeyOrder::Less;
            } else {
                return KeyOrder::Greater;
            }
        }
        assert(xs.take(i + 1) =~= xs.take(i as int).push(xs[i as int]));
        assert(ys.take(i + 1) =~= ys.take(i as int).push(ys[i as int]));
        i = i + 1;
    }
    proof {
        lemma_bytes_lt_skip(xs, ys, i as int);
        lemma_bytes_lt_skip(ys, xs, i as int);
    }
    if x.len() < y.len() {
        KeyOrder::Less
    } else if y.len() < x.len() {
        KeyOrder::Greater
    } else {
        assert(xs =~= xs.take(i as int));
        assert(ys =~= ys.take(i as int));
        KeyOrder::Equal
    }
}

/// The keys that a vector of strings holds.
pub open spec fn key_views(keys: Seq<String>) -> Seq<Seq<char>> {
    keys.map_values(|k: String| k@)
}

/// The last position of `k` in `names`, or -1 where it does not occur.
pub open spec fn index_of(names: Seq<Seq<char>>, k: Seq<char>) -> int
    decreases names.len(),
{
    if names.len() == 0 {
        -1
    } else if names.last() == k {
        names.len() - 1
    } else {
        index_of(names.drop_last(), k)
    }
}

pub proof fn lemma_index_of(names: Seq<Seq<char>>, k: Seq<char>)
    ensures
        -1 <= index_of(names, k) < names.len(),
        index_of(names, k) >= 0 ==> names[index_of(names, k)] == k,
        index_of(names, k) == -1 <==> !names.contains(k),
        keys_sorted(names) ==> forall|i: int|
            0 <= i < names.len() && names[i] == k ==> index_of(names, k) == i,
    decreases names.len(),
{
    if names.len() > 0 {
        lemma_index_of(names.drop_last(), k);
        assert forall|i: int| 0 <= i < names.len() - 1 implies names[i] == names.drop_last()[i] by {}
        if keys_sorted(names) {
            assert(keys_sorted(names.drop_last()));
            assert forall|i: int| 0 <= i < names.len() && names[i] == k implies index_of(names, k) == i by {
                if i < names.len() - 1 && names.last() == k {
                    lemma_key_lt_irreflexive(k);
                }
            }
        }
        if !names.drop_last().contains(k) && names.last() != k {
            assert forall|i: int| 0 <= i < names.len() implies names[i] != k by {
                if i < names.len() - 1 {
                    assert(names[i] == names.drop_last()[i]);
                }
            }
        }
    }
}

/// The map from each of `names` to the value at its position.
pub open spec fn keyed_map<V>(names: Seq<Seq<char>>, vals: Seq<V>) -> Map<Seq<char>, V> {
    Map::new(|k: Seq<char>| index_of(names, k) >= 0, |k: Seq<char>| vals[index_of(names, k)])
}

/// Replacing the value at position `j` replaces the value of `names[j]`.
pub proof fn lemma_keyed_map_set<V>(names: Seq<Seq<char>>, vals: Seq<V>, j: int, v: V)
    requires
        keys_sorted(names),
        names.len() == vals.len(),
        0 <= j < names.len(),
    ensures
        keyed_map(names, vals.update(j, v)) == keyed_map(names, vals).insert(names[j], v),
{
    lemma_index_of(names, names[j]);
    let vs = vals.update(j, v);
    assert forall|x: Seq<char>| #[trigger] keyed_map(names, vs).contains_key(x) == keyed_map(
        names,
        vals,
    ).insert(names[j], v).contains_key(x) && (keyed_map(names, vs).contains_key(x) ==> keyed_map(
        names,
        vs,
    )[x] == keyed_map(names, vals).insert(names[j], v)[x]) by {
        lemma_index_of(names, x);
    }
    assert(keyed_map(names, vals.update(j, v)) =~= keyed_map(names, vals).insert(names[j], v));
}

/// Inserting a new key at its place in sorted `names`, with its value at the
/// same place, keeps the keys sorted and adds the key to the map.
pub proof fn lemma_keyed_map_insert<V>(names: Seq<Seq<char>>, vals: Seq<V>, j: int, k: Seq<char>, v: V)
    requires
        keys_sorted(names),
        names.len() == vals.len(),
        0 <= j <= names.len(),
        forall|i: int| 0 <= i < j ==> key_lt(#[trigger] names[i], k),
        forall|i: int| j <= i < names.len() ==> key_lt(k, #[trigger] names[i]),
    ensures
        keys_sorted(names.insert(j, k)),
        keyed_map(names.insert(j, k), vals.insert(j, v)) == keyed_map(names, vals).insert(k, v),
{
    let ns = names.insert(j, k);
    let vs = vals.insert(j, v);
    assert forall|a: int, b: int| 0 <= a < b < ns.len() implies key_lt(#[trigger] ns[a], #[trigger] ns[b]) by {
        if a < j && b == j {
        } else if a < j && b > j {
            assert(ns[b] == names[b - 1]);
        } else if a == j {
            assert(ns[b] == names[b - 1]);
        } else if a > j {
            assert(ns[a] == names[a - 1]);
            assert(ns[b] == names[b - 1]);
        }
    }
    assert forall|x: Seq<char>| #[trigger] keyed_map(ns, vs).contains_key(x) == keyed_map(
        names,
        vals,
    ).insert(k, v).contains_key(x) && (keyed_map(ns, vs).contains_key(x) ==> keyed_map(ns, vs)[x]
        == keyed_map(names, vals).insert(k, v)[x]) by {
        lemma_index_of(ns, x);
        lemma_index_of(names, x);
        if x == k {
            assert(ns[j] == k);
        } else {
            let p = index_of(names, x);
            if p >= 0 {
                if p < j {
                    assert(ns[p] == x);
                    assert(vs[p] == vals[p]);
                } else {
                    assert(ns[p + 1] == x);
                    assert(vs[p + 1] == vals[p]);
                }
            } else {
                let q = index_of(ns, x);
                if q >= 0 {
                    if q < j {
                        assert(names[q] == x);
                    } else if q > j {
                        assert(names[q - 1] == x);
                    }
                }
            }
        }
    }
    assert(keyed_map(ns, vs) =~= keyed_map(names, vals).insert(k, v));
}

/// Looks `key` up in strictly sorted `keys` by binary search: `Ok` with its
/// index where present, else `Err` with the index where it would be inserted.
pub fn search_keys(keys: &Vec<String>, key: &str) -> (r: Result<usize, usize>)
    requires
        keys_sorted(key_views(keys@)),
    ensures
        match r {
            Ok(i) => i < keys@.len() && keys@[i as int]@ == key@,
            Err(i) => {
                &&& i <= keys@.len()
                &&& forall|j: int| 0 <= j < i ==> key_lt(#[trigger] keys@[j]@, key@)
                &&& forall|j: int| i <= j < keys@.len() ==> key_lt(key@, #[trigger] keys@[j]@)
            },
        },
{
    let mut lo: usize = 0;
    let mut hi: usize = keys.len();
    while lo < hi
        invariant
            keys_sorted(key_views(keys@)),
            0 <= lo <= hi <= keys@.len(),
            forall|j: int| 0 <= j < lo ==> key_lt(#[trigger] keys@[j]@, key@),
            forall|j: int| hi <= j < keys@.len() ==> key_lt(key@, #[trigger] keys@[j]@),
        decreases hi - lo,
    {
        let mid = lo + (hi - lo) / 2;
        let c = compare_keys(keys[mid].as_str(), key);
        match c {
            KeyOrder::Equal => {
                return Ok(mid);
            },
            KeyOrder::Less => {
                assert forall|j: int| 0 <= j < mid + 1 implies key_lt(#[trigger] keys@[j]@, key@) by {
                    if j < mid {
                        assert(key_views(keys@)[j] == keys@[j]@);
                        assert(key_views(keys@)[mid as int] == keys@[mid as int]@);
                        lemma_key_lt_transitive(keys@[j]@, keys@[mid as int]@, key@);
                    }
                }
                lo = mid + 1;
            },
            KeyOrder::Greater => {
                assert forall|j: int| mid <= j < keys@.len() implies key_lt(key@, #[trigger] keys@[j]@) by {
                    if j > mid {
                        assert(key_views(keys@)[j] == keys@[j]@);
                        assert(key_views(keys@)[mid as int] == keys@[mid as int]@);
                        lemma_key_lt_transitive(key@, keys@[mid as int]@, keys@[j]@);
                    }
                }
                hi = mid;
            },
        }
    }
    Err(lo)
}

} // verus!
