//! Rendering result documents as CSV text.

use vstd::prelude::*;
use vstd::utf8::{encode_utf8, encode_utf8_decode_utf8};
use crate::json::{JsonObject, JsonValue};
use crate::text::same_text;

verus! {

/// The characters of each string of `v`.
pub open spec fn texts(v: Seq<String>) -> Seq<Seq<char>> {
    Seq::new(v.len(), |i: int| v[i]@)
}

/// The parts one after the other, with `sep` between neighbours.
pub open spec fn joined(parts: Seq<Seq<char>>, sep: char) -> Seq<char>
    decreases parts.len(),
{
    if parts.len() == 0 {
        Seq::empty()
    } else if parts.len() == 1 {
        parts[0]
    } else {
        joined(parts.drop_last(), sep).push(sep) + parts.last()
    }
}

/// Appends the strings of `parts` to `out`, with `sep` between neighbours.
pub fn push_joined(out: &mut String, parts: &Vec<String>, sep: char)
    ensures
        final(out)@ == old(out)@ + joined(texts(parts@), sep),
{
    let mut i: usize = 0;
    proof {
        assert(texts(parts@).take(0) =~= Seq::empty());
        assert(out@ =~= old(out)@ + joined(texts(parts@).take(0), sep));
    }
    while i < parts.len()
        invariant
            i <= parts@.len(),
            out@ == old(out)@ + joined(texts(parts@).take(i as int), sep),
        decreases parts@.len() - i,
    {
        proof {
            let k = i as int;
            assert(texts(parts@).take(k + 1).drop_last() =~= texts(parts@).take(k));
            assert(texts(parts@).take(k + 1).last() == parts@[k]@);
        }
        if i > 0 {
            out.push(sep);
        }
        out.append(parts[i].as_str());
        proof {
            let k = i as int;
            let upto = texts(parts@).take(k + 1);
            if k == 0 {
                assert(upto[0] == parts@[0]@);
                assert(out@ =~= old(out)@ + joined(upto, sep));
            } else {
                assert(out@ =~= old(out)@ + joined(upto, sep));
            }
        }
        i += 1;
    }
    proof {
        assert(texts(parts@).take(parts@.len() as int) =~= texts(parts@));
    }
}

/// Whether a field has to be quoted: it holds a comma, a double quote or a
/// line feed.
pub open spec fn needs_quotes(field: Seq<char>) -> bool {
    field.contains(',') || field.contains('"') || field.contains('\n')
}

/// `field` with every double quote written twice.
pub open spec fn quotes_doubled(field: Seq<char>) -> Seq<char>
    decreases field.len(),
{
    if field.len() == 0 {
        field
    } else if field.last() == '"' {
        quotes_doubled(field.drop_last()).push('"').push('"')
    } else {
        quotes_doubled(field.drop_last()).push(field.last())
    }
}

/// `field` as a CSV row holds it: unchanged where it needs no quotes, else
/// between double quotes and with its own double quotes doubled.
pub open spec fn escaped(field: Seq<char>) -> Seq<char> {
    if needs_quotes(field) {
        seq!['"'] + quotes_doubled(field) + seq!['"']
    } else {
        field
    }
}

pub fn escape_csv_field(field: &str) -> (r: String)
    ensures
        r@ == escaped(field@),
{
    let mut needed = false;
    for c in it: field.chars()
        invariant
            it.seq() == field@,
            needed == needs_quotes(field@.take(it.index() as int)),
    {
        proof {
            let k = it.index() as int;
            let before = field@.take(k);
            let upto = field@.take(k + 1);
            assert(upto.drop_last() =~= before);
            assert(upto.last() == c);
            assert forall|x: char| upto.contains(x) == (before.contains(x) || c == x) by {
                if before.contains(x) {
                    let j = choose|j: int| 0 <= j < before.len() && before[j] == x;
                    assert(upto[j] == x);
                }
                if c == x {
                    assert(upto[k] == x);
                }
                if upto.contains(x) {
                    let j = choose|j: int| 0 <= j < upto.len() && upto[j] == x;
                    if j < k {
                        assert(before[j] == x);
                    }
                }
            }
        }
        if c == ',' || c == '"' || c == '\n' {
            needed = true;
        }
    }
    proof {
        assert(field@.take(field@.len() as int) =~= field@);
    }
    if !needed {
        return field.to_owned();
    }
    let mut out = String::new();
    out.push('"');
    for c in it: field.chars()
        invariant
            it.seq() == field@,
            out@ == seq!['"'] + quotes_doubled(field@.take(it.index() as int)),
    {
        proof {
            let k = it.index() as int;
            assert(field@.take(k + 1).drop_last() =~= field@.take(k));
            assert(field@.take(k + 1).last() == c);
        }
        if c == '"' {
            out.push('"');
            out.push('"');
        } else {
            out.push(c);
        }
        proof {
            let k = it.index() as int;
            assert(out@ =~= seq!['"'] + quotes_doubled(field@.take(k + 1)));
        }
    }
    out.push('"');
    proof {
        assert(field@.take(field@.len() as int) =~= field@);
        assert(out@ =~= escaped(field@));
    }
    out
}

/// The text of each of the first `n` values of `items`.
pub open spec fn cell_texts(items: Seq<JsonValue>, n: nat) -> Seq<Seq<char>>
    decreases items, n,
{
    if n == 0 || n > items.len() {
        Seq::empty()
    } else {
        cell_texts(items, (n - 1) as nat).push(cell_text(items[n - 1]))
    }
}

/// The text that stands for `value` in a CSV cell, before escaping:
/// nothing for null, the words `true` and `false`, a number as JSON writes
/// it, a string as it is, an array as its elements' texts between square
/// brackets with semicolons between them, and an object as its compact
/// JSON text.
pub open spec fn cell_text(value: JsonValue) -> Seq<char>
    decreases value, 0nat,
{
    match value {
        JsonValue::Null => Seq::empty(),
        JsonValue::Bool(b) => if b {
            "true"@
        } else {
            "false"@
        },
        JsonValue::Number(n) => n@,
        JsonValue::Text(s) => s@,
        JsonValue::Array(items) => seq!['['] + joined(cell_texts(items@, items@.len()), ';')
            + seq![']'],
        JsonValue::Object(o) => o.compact@,
    }
}

pub fn format_value_for_csv(value: &JsonValue) -> (r: String)
    ensures
        r@ == cell_text(*value),
    decreases value,
{
    match value {
        JsonValue::Null => String::new(),
        JsonValue::Bool(b) => if *b {
            "true".to_owned()
        } else {
            "false".to_owned()
        },
        JsonValue::Number(n) => n.clone(),
        JsonValue::Text(s) => s.clone(),
        JsonValue::Array(items) => {
            let mut cells: Vec<String> = Vec::new();
            let mut i: usize = 0;
            proof {
                assert(texts(cells@) =~= cell_texts(items@, 0));
                assert(decreases_to!(value => items@));
            }
            while i < items.len()
                invariant
                    i <= items@.len(),
                    decreases_to!(value => items@),
                    texts(cells@) == cell_texts(items@, i as nat),
                decreases items@.len() - i,
            {
                proof {
                    assert(decreases_to!(items@ => items@[i as int]));
                }
                let cell = format_value_for_csv(&items[i]);
                cells.push(cell);
                proof {
                    assert(texts(cells@) =~= cell_texts(items@, (i + 1) as nat));
                }
                i += 1;
            }
            let mut out = String::new();
            out.push('[');
            push_joined(&mut out, &cells, ';');
            out.push(']');
            proof {
                assert(out@ =~= cell_text(*value));
            }
            out
        },
        JsonValue::Object(o) => o.compact.clone(),
    }
}

/// Whether `a` comes before `b` when both are compared byte by byte, a
/// proper prefix coming before what extends it.
pub open spec fn bytes_less(a: Seq<u8>, b: Seq<u8>) -> bool
    decreases a.len(),
{
    if b.len() == 0 {
        false
    } else if a.len() == 0 {
        true
    } else if a[0] != b[0] {
        a[0] < b[0]
    } else {
        bytes_less(a.skip(1), b.skip(1))
    }
}

/// The order of strings: that of their UTF-8 encodings, byte by byte.
pub open spec fn text_less(a: Seq<char>, b: Seq<char>) -> bool {
    bytes_less(encode_utf8(a), encode_utf8(b))
}

/// Nothing comes before itself.
pub proof fn lemma_bytes_less_irreflexive(a: Seq<u8>)
    ensures
        !bytes_less(a, a),
    decreases a.len(),
{
    if a.len() > 0 {
        lemma_bytes_less_irreflexive(a.skip(1));
    }
}

/// Of two different byte strings, one comes before the other.
pub proof fn lemma_bytes_less_total(a: Seq<u8>, b: Seq<u8>)
    ensures
        a == b || bytes_less(a, b) || bytes_less(b, a),
        !(bytes_less(a, b) && bytes_less(b, a)),
    decreases a.len(),
{
    if a.len() == 0 || b.len() == 0 {
        if a.len() == 0 && b.len() == 0 {
            assert(a =~= b);
        }
    } else if a[0] == b[0] {
        lemma_bytes_less_total(a.skip(1), b.skip(1));
        if a.skip(1) == b.skip(1) {
            assert(a =~= seq![a[0]] + a.skip(1));
            assert(b =~= seq![b[0]] + b.skip(1));
        }
    }
}

/// What comes before something that comes before a third comes before
/// the third.
pub proof fn lemma_bytes_less_transitive(a: Seq<u8>, b: Seq<u8>, c: Seq<u8>)
    requires
        bytes_less(a, b),
        bytes_less(b, c),
    ensures
        bytes_less(a, c),
    decreases a.len(),
{
    if a.len() > 0 && a[0] == b[0] && b[0] == c[0] {
        lemma_bytes_less_transitive(a.skip(1), b.skip(1), c.skip(1));
    }
}

/// Whether `a` comes before `b` in the order of strings.
pub fn less_text(a: &str, b: &str) -> (r: bool)
    ensures
        r == text_less(a@, b@),
{
    let x = a.as_bytes();
    let y = b.as_bytes();
    let mut i: usize = 0;
    proof {
        assert(x@.skip(0) =~= x@);
        assert(y@.skip(0) =~= y@);
    }
    while i < x.len() && i < y.len()
        invariant
            i <= x@.len(),
            i <= y@.len(),
            x@ == encode_utf8(a@),
            y@ == encode_utf8(b@),
            bytes_less(x@, y@) == bytes_less(x@.skip(i as int), y@.skip(i as int)),
        decreases x@.len() - i,
    {
        if x[i] != y[i] {
            return x[i] < y[i];
        }
        proof {
            assert(x@.skip(i as int).skip(1) =~= x@.skip(i + 1));
            assert(y@.skip(i as int).skip(1) =~= y@.skip(i + 1));
        }
        i += 1;
    }
    i < y.len()
}

/// The ascending, duplicate-free list `sorted` with `path` taken in: at
/// its place in the order, unless the list holds it already.
pub open spec fn merged(sorted: Seq<Seq<char>>, path: Seq<char>) -> Seq<Seq<char>>
    decreases sorted.len(),
{
    if sorted.len() == 0 {
        seq![path]
    } else if sorted.last() == path {
        sorted
    } else if text_less(path, sorted.last()) {
        merged(sorted.drop_last(), path).push(sorted.last())
    } else {
        sorted.push(path)
    }
}

/// Whether each string of `keys` comes before the one after it.
pub open spec fn ascending(keys: Seq<Seq<char>>) -> bool {
    forall|i: int, j: int| 0 <= i < j < keys.len() ==> text_less(keys[i], keys[j])
}

/// Where `merged` puts a path: at index `k`, when all strings from `k` on
/// come after it and the string before `k`, if any, does not; and nowhere
/// when that string is the path itself.
pub proof fn lemma_merged_at(sorted: Seq<Seq<char>>, path: Seq<char>, k: int)
    requires
        0 <= k <= sorted.len(),
        forall|j: int| k <= j < sorted.len() ==> text_less(path, sorted[j]),
        k > 0 ==> !text_less(path, sorted[k - 1]),
    ensures
        merged(sorted, path) == if k > 0 && sorted[k - 1] == path {
            sorted
        } else {
            sorted.insert(k, path)
        },
    decreases sorted.len(),
{
    if sorted.len() == 0 {
        assert(merged(sorted, path) =~= sorted.insert(k, path));
    } else if k == sorted.len() {
        if sorted.last() != path {
            assert(merged(sorted, path) =~= sorted.insert(k, path));
        }
    } else {
        lemma_bytes_less_irreflexive(encode_utf8(path));
        assert(text_less(path, sorted.last()));
        lemma_merged_at(sorted.drop_last(), path, k);
        if k > 0 && sorted[k - 1] == path {
            assert(sorted.drop_last().push(sorted.last()) =~= sorted);
        } else {
            assert(sorted.drop_last().insert(k, path).push(sorted.last()) =~= sorted.insert(
                k,
                path,
            ));
        }
    }
}

/// Taking a path into an ascending list leaves the list ascending, and
/// holding what it held before and the path.
pub proof fn lemma_merged(sorted: Seq<Seq<char>>, path: Seq<char>)
    requires
        ascending(sorted),
    ensures
        ascending(merged(sorted, path)),
        forall|p: Seq<char>| #[trigger]
            merged(sorted, path).contains(p) <==> sorted.contains(p) || p == path,
    decreases sorted.len(),
{
    let out = merged(sorted, path);
    if sorted.len() == 0 {
        assert(out[0] == path);
        assert forall|p: Seq<char>| #[trigger] out.contains(p) <==> sorted.contains(p) || p == path by {
            if out.contains(p) {
                let j = choose|j: int| 0 <= j < out.len() && out[j] == p;
            }
        }
    } else if sorted.last() == path {
        assert(sorted.contains(path)) by {
            assert(sorted[sorted.len() - 1] == path);
        }
    } else if text_less(path, sorted.last()) {
        let front = sorted.drop_last();
        let last = sorted.last();
        assert(ascending(front)) by {
            assert forall|i: int, j: int| 0 <= i < j < front.len() implies text_less(
                front[i],
                front[j],
            ) by {
                assert(front[i] == sorted[i] && front[j] == sorted[j]);
            }
        }
        lemma_merged(front, path);
        let inner = merged(front, path);
        assert(out == inner.push(last));
        assert forall|i: int, j: int| 0 <= i < j < out.len() implies text_less(out[i], out[j]) by {
            if j < inner.len() {
                assert(out[i] == inner[i] && out[j] == inner[j]);
            } else {
                assert(out[i] == inner[i]);
                assert(inner.contains(inner[i]));
                if inner[i] != path {
                    assert(front.contains(inner[i]));
                    let w = choose|w: int| 0 <= w < front.len() && front[w] == inner[i];
                    assert(sorted[w] == inner[i]);
                    assert(text_less(sorted[w], sorted[sorted.len() - 1]));
                }
            }
        }
        assert forall|p: Seq<char>| #[trigger] out.contains(p) <==> sorted.contains(p) || p == path by {
            if out.contains(p) {
                let j = choose|j: int| 0 <= j < out.len() && out[j] == p;
                if j < inner.len() {
                    assert(out[j] == inner[j]);
                    assert(inner.contains(p));
                    if p != path {
                        assert(front.contains(p));
                        let w = choose|w: int| 0 <= w < front.len() && front[w] == p;
                        assert(sorted[w] == p);
                    }
                } else {
                    assert(sorted[sorted.len() - 1] == p);
                }
            }
            if sorted.contains(p) {
                let w = choose|w: int| 0 <= w < sorted.len() && sorted[w] == p;
                if w < front.len() {
                    assert(front[w] == p);
                    assert(front.contains(p));
                    assert(inner.contains(p));
                    let j = choose|j: int| 0 <= j < inner.len() && inner[j] == p;
                    assert(out[j] == p);
                } else {
                    assert(out[out.len() - 1] == p);
                }
            }
            if p == path {
                assert(inner.contains(path));
                let j = choose|j: int| 0 <= j < inner.len() && inner[j] == path;
                assert(out[j] == p);
            }
        }
    } else {
        assert(out == sorted.push(path));
        lemma_bytes_less_total(encode_utf8(path), encode_utf8(sorted.last()));
        encode_utf8_decode_utf8(path);
        encode_utf8_decode_utf8(sorted.last());
        assert(text_less(sorted.last(), path));
        assert forall|i: int, j: int| 0 <= i < j < out.len() implies text_less(out[i], out[j]) by {
            if j < sorted.len() {
                assert(out[i] == sorted[i] && out[j] == sorted[j]);
            } else {
                assert(out[i] == sorted[i]);
                if i < sorted.len() - 1 {
                    assert(text_less(sorted[i], sorted[sorted.len() - 1]));
                    lemma_bytes_less_transitive(
                        encode_utf8(sorted[i]),
                        encode_utf8(sorted.last()),
                        encode_utf8(path),
                    );
                }
            }
        }
        assert forall|p: Seq<char>| #[trigger] out.contains(p) <==> sorted.contains(p) || p == path by {
            if out.contains(p) {
                let j = choose|j: int| 0 <= j < out.len() && out[j] == p;
                if j < sorted.len() {
                    assert(sorted[j] == p);
                }
            }
            if sorted.contains(p) {
                let w = choose|w: int| 0 <= w < sorted.len() && sorted[w] == p;
                assert(out[w] == p);
            }
            if p == path {
                assert(out[out.len() - 1] == p);
            }
        }
    }
}

/// Takes `path` into the ascending list `keys`.
pub fn merge_key(keys: &mut Vec<String>, path: String)
    ensures
        texts(final(keys)@) == merged(texts(old(keys)@), path@),
{
    let ghost sorted = texts(keys@);
    let mut k: usize = keys.len();
    while k > 0 && less_text(path.as_str(), keys[k - 1].as_str())
        invariant
            k <= keys@.len(),
            sorted == texts(keys@),
            forall|j: int| k <= j < sorted.len() ==> text_less(path@, sorted[j]),
        decreases k,
    {
        k -= 1;
    }
    proof {
        lemma_merged_at(sorted, path@, k as int);
    }
    if k > 0 && same_text(keys[k - 1].as_str(), path.as_str()) {
    } else {
        keys.insert(k, path);
        proof {
            assert(texts(keys@) =~= sorted.insert(k as int, path@));
        }
    }
}

/// The name of a field inside the object reached by `prefix`: the field's
/// own name at the top, else the prefix, a dot, and the name.
pub open spec fn path_of(prefix: Seq<char>, key: Seq<char>) -> Seq<char> {
    if prefix.len() == 0 {
        key
    } else {
        prefix.push('.') + key
    }
}

/// `acc` once the paths of the leaves under the first `n` fields of `o`
/// were taken in. A leaf is a field whose value is not an object; its path
/// is made of the names on the way to it, joined by dots.
pub open spec fn gathered(o: JsonObject, prefix: Seq<char>, acc: Seq<Seq<char>>, n: nat) -> Seq<
    Seq<char>,
>
    decreases o, n,
{
    if n == 0 || n > o.size() {
        acc
    } else {
        let before = gathered(o, prefix, acc, (n - 1) as nat);
        let path = path_of(prefix, o.keys@[n - 1]@);
        match o.values@[n - 1] {
            JsonValue::Object(inner) => gathered(inner, path, before, inner.size()),
            _ => merged(before, path),
        }
    }
}

/// The column names a document gives rise to: the paths of its leaves, in
/// ascending order and each once. Anything but an object has none.
pub open spec fn key_paths(value: JsonValue) -> Seq<Seq<char>> {
    match value {
        JsonValue::Object(o) => gathered(o, Seq::empty(), Seq::empty(), o.size()),
        _ => Seq::empty(),
    }
}

/// Whether `p` is the path of a leaf under one of the first `n` fields of
/// `o`, where `prefix` is the path that leads to `o`.
pub open spec fn leaf_path_in(o: JsonObject, prefix: Seq<char>, n: nat, p: Seq<char>) -> bool
    decreases o, n,
{
    if n == 0 || n > o.size() {
        false
    } else {
        let path = path_of(prefix, o.keys@[n - 1]@);
        leaf_path_in(o, prefix, (n - 1) as nat, p) || match o.values@[n - 1] {
            JsonValue::Object(inner) => leaf_path_in(inner, path, inner.size(), p),
            _ => p == path,
        }
    }
}

/// Whether `p` is the path of a leaf of the document `value`.
pub open spec fn is_leaf_path(value: JsonValue, p: Seq<char>) -> bool {
    match value {
        JsonValue::Object(o) => leaf_path_in(o, Seq::empty(), o.size(), p),
        _ => false,
    }
}

/// Gathering keeps an ascending list ascending, and adds to it the paths
/// of the leaves it passes and nothing else.
pub proof fn lemma_gathered(o: JsonObject, prefix: Seq<char>, acc: Seq<Seq<char>>, n: nat)
    requires
        ascending(acc),
    ensures
        ascending(gathered(o, prefix, acc, n)),
        forall|p: Seq<char>| #[trigger]
            gathered(o, prefix, acc, n).contains(p) <==> acc.contains(p) || leaf_path_in(
                o,
                prefix,
                n,
                p,
            ),
    decreases o, n,
{
    if n == 0 || n > o.size() {
    } else {
        lemma_gathered(o, prefix, acc, (n - 1) as nat);
        let before = gathered(o, prefix, acc, (n - 1) as nat);
        let path = path_of(prefix, o.keys@[n - 1]@);
        match o.values@[n - 1] {
            JsonValue::Object(inner) => {
                lemma_gathered(inner, path, before, inner.size());
                assert forall|p: Seq<char>| #[trigger]
                    gathered(o, prefix, acc, n).contains(p) <==> acc.contains(p) || leaf_path_in(
                        o,
                        prefix,
                        n,
                        p,
                    ) by {
                    assert(gathered(inner, path, before, inner.size()).contains(p)
                        <==> before.contains(p) || leaf_path_in(inner, path, inner.size(), p));
                }
            },
            _ => {
                lemma_merged(before, path);
                assert forall|p: Seq<char>| #[trigger]
                    gathered(o, prefix, acc, n).contains(p) <==> acc.contains(p) || leaf_path_in(
                        o,
                        prefix,
                        n,
                        p,
                    ) by {
                    assert(merged(before, path).contains(p) <==> before.contains(p) || p == path);
                }
            },
        }
    }
}

/// The column names of a document are the paths of its leaves, in
/// ascending order, so that none occurs twice.
pub proof fn lemma_key_paths(value: JsonValue)
    ensures
        ascending(key_paths(value)),
        forall|p: Seq<char>| #[trigger] key_paths(value).contains(p) <==> is_leaf_path(value, p),
{
    match value {
        JsonValue::Object(o) => {
            lemma_gathered(o, Seq::empty(), Seq::empty(), o.size());
            assert forall|p: Seq<char>| #[trigger]
                key_paths(value).contains(p) <==> is_leaf_path(value, p) by {
                assert(!Seq::<Seq<char>>::empty().contains(p));
            }
        },
        _ => {
            assert forall|p: Seq<char>| #[trigger]
                key_paths(value).contains(p) <==> is_leaf_path(value, p) by {
                assert(!Seq::<Seq<char>>::empty().contains(p));
            }
        },
    }
}

/// Takes the paths of the leaves of `map` into the ascending list `keys`.
pub fn extract_keys_recursive(map: &JsonObject, keys: &mut Vec<String>, prefix: String)
    ensures
        texts(final(keys)@) == gathered(*map, prefix@, texts(old(keys)@), map.size()),
    decreases map,
{
    let n = map.len();
    let mut i: usize = 0;
    while i < n
        invariant
            n == map.size(),
            i <= n,
            texts(keys@) == gathered(*map, prefix@, texts(old(keys)@), i as nat),
        decreases n - i,
    {
        let key = &map.keys[i];
        let full_key = if prefix.as_str().is_empty() {
            key.clone()
        } else {
            let mut p = prefix.clone();
            p.push('.');
            p.append(key.as_str());
            p
        };
        assert(full_key@ == path_of(prefix@, key@));
        match &map.values[i] {
            JsonValue::Object(inner) => {
                proof {
                    assert(decreases_to!(map => map.values@));
                    assert(decreases_to!(map.values@ => map.values@[i as int]));
                    assert(decreases_to!(map.values@[i as int] => inner));
                }
                extract_keys_recursive(inner, keys, full_key);
            },
            _ => {
                merge_key(keys, full_key);
            },
        }
        i += 1;
    }
}

/// The column names that `value` gives rise to.
pub fn extract_keys(value: &JsonValue) -> (keys: Vec<String>)
    ensures
        texts(keys@) == key_paths(*value),
{
    let mut keys: Vec<String> = Vec::new();
    proof {
        assert(texts(keys@) =~= Seq::empty());
    }
    match value {
        JsonValue::Object(map) => {
            extract_keys_recursive(map, &mut keys, String::new());
        },
        _ => {},
    }
    keys
}

/// What the cell of `doc` in column `header` shows, before escaping: the
/// text of the document's field of that name, or nothing.
pub open spec fn cell_of(doc: JsonValue, header: Seq<char>) -> Seq<char> {
    match doc.field(header) {
        Some(v) => cell_text(v),
        None => Seq::empty(),
    }
}

/// The first `n` cells of the row of `doc`, escaped.
pub open spec fn row_cells(doc: JsonValue, headers: Seq<Seq<char>>, n: nat) -> Seq<Seq<char>> {
    Seq::new(n, |i: int| escaped(cell_of(doc, headers[i])))
}

/// The rows of `docs`, each ended by a line feed.
pub open spec fn rows_text(docs: Seq<JsonValue>, headers: Seq<Seq<char>>) -> Seq<char>
    decreases docs.len(),
{
    if docs.len() == 0 {
        Seq::empty()
    } else {
        rows_text(docs.drop_last(), headers) + joined(
            row_cells(docs.last(), headers, headers.len()),
            ',',
        ).push('\n')
    }
}

/// The columns of an export: those asked for, or else the column names of
/// the first document.
pub open spec fn columns(docs: Seq<JsonValue>, headers: Option<Seq<Seq<char>>>) -> Seq<Seq<char>> {
    match headers {
        Some(h) => h,
        None => key_paths(docs[0]),
    }
}

/// The CSV text of `docs`: nothing for no documents, else the line of
/// column names, written as they are, and one line per document.
pub open spec fn csv_text(docs: Seq<JsonValue>, headers: Option<Seq<Seq<char>>>) -> Seq<char> {
    if docs.len() == 0 {
        Seq::empty()
    } else {
        joined(columns(docs, headers), ',').push('\n') + rows_text(docs, columns(docs, headers))
    }
}

/// Renders `documents` as CSV.
pub fn to_csv(documents: &Vec<JsonValue>, headers: Option<Vec<String>>) -> (r: Result<
    String,
    String,
>)
    ensures
        r is Ok,
        r->Ok_0@ == csv_text(
            documents@,
            match headers {
                Some(h) => Some(texts(h@)),
                None => None,
            },
        ),
{
    if documents.len() == 0 {
        return Ok(String::new());
    }
    let header_list = match headers {
        Some(h) => h,
        None => extract_keys(&documents[0]),
    };
    let ghost cols = texts(header_list@);
    let mut csv = String::new();
    push_joined(&mut csv, &header_list, ',');
    csv.push('\n');
    let ghost head = csv@;
    let mut d: usize = 0;
    proof {
        assert(documents@.take(0) =~= Seq::empty());
        assert(csv@ =~= head + rows_text(documents@.take(0), cols));
    }
    while d < documents.len()
        invariant
            d <= documents@.len(),
            cols == texts(header_list@),
            csv@ == head + rows_text(documents@.take(d as int), cols),
        decreases documents@.len() - d,
    {
        let doc = &documents[d];
        let mut row: Vec<String> = Vec::new();
        let mut c: usize = 0;
        proof {
            assert(texts(row@) =~= row_cells(*doc, cols, 0));
        }
        while c < header_list.len()
            invariant
                c <= header_list@.len(),
                cols == texts(header_list@),
                texts(row@) == row_cells(*doc, cols, c as nat),
            decreases header_list@.len() - c,
        {
            let value = match doc.get(header_list[c].as_str()) {
                Some(v) => format_value_for_csv(v),
                None => String::new(),
            };
            let ghost cells = texts(row@);
            row.push(escape_csv_field(value.as_str()));
            proof {
                assert(cols[c as int] == header_list@[c as int]@);
                assert(value@ == cell_of(*doc, cols[c as int]));
                assert(texts(row@) =~= cells.push(escaped(value@)));
                assert(texts(row@) =~= row_cells(*doc, cols, (c + 1) as nat));
            }
            c += 1;
        }
        let ghost line_start = csv@;
        push_joined(&mut csv, &row, ',');
        csv.push('\n');
        proof {
            let k = d as int;
            assert(documents@.take(k + 1).drop_last() =~= documents@.take(k));
            assert(documents@.take(k + 1).last() == *doc);
            assert(csv@ =~= head + rows_text(documents@.take(k + 1), cols));
        }
        d += 1;
    }
    proof {
        assert(documents@.take(documents@.len() as int) =~= documents@);
    }
    Ok(csv)
}

/// How an export is rendered.
pub enum ExportPlan {
    /// As CSV, with the given columns or those of the first document.
    Csv { headers: Option<Vec<String>> },
    /// As a JSON array, indented or compact.
    Json { pretty: bool },
}

#[derive(Clone, Copy, Debug, PartialEq, Eq, Structural)]
pub enum ExportError {
    /// The format is neither `csv` nor `json`.
    UnsupportedFormat,
}

impl ExportError {
    /// The failure in words.
    pub fn message(&self) -> (m: &'static str)
        ensures
            m@ == "Unsupported export format. Use 'csv' or 'json'"@,
    {
        "Unsupported export format. Use 'csv' or 'json'"
    }
}

/// The strings among `items`, in order.
pub open spec fn strings_of(items: Seq<JsonValue>) -> Seq<Seq<char>>
    decreases items.len(),
{
    if items.len() == 0 {
        Seq::empty()
    } else {
        match items.last() {
            JsonValue::Text(s) => strings_of(items.drop_last()).push(s@),
            _ => strings_of(items.drop_last()),
        }
    }
}

/// The columns that the options of a CSV export ask for: the strings of
/// their array `headers`, if they have one.
pub open spec fn wanted_headers(options: Option<JsonValue>) -> Option<Seq<Seq<char>>> {
    match options {
        Some(o) => match o.field("headers"@) {
            Some(JsonValue::Array(items)) => Some(strings_of(items@)),
            _ => None,
        },
        None => None,
    }
}

/// Whether the options of a JSON export ask for indented text: their
/// boolean `pretty`, and no where they have none.
pub open spec fn wanted_pretty(options: Option<JsonValue>) -> bool {
    match options {
        Some(o) => match o.field("pretty"@) {
            Some(JsonValue::Bool(b)) => b,
            _ => false,
        },
        None => false,
    }
}

/// Reads from `format` and `options` how an export is to be rendered.
/// Only the formats `csv` and `json` are known.
pub fn export_results(format: &str, options: Option<&JsonValue>) -> (r: Result<
    ExportPlan,
    ExportError,
>)
    ensures
        match r {
            Ok(ExportPlan::Csv { headers }) => {
                &&& format@ == "csv"@
                &&& match headers {
                    Some(h) => wanted_headers(
                        match options {
                            Some(o) => Some(*o),
                            None => None,
                        },
                    ) == Some(texts(h@)),
                    None => wanted_headers(
                        match options {
                            Some(o) => Some(*o),
                            None => None,
                        },
                    ).is_none(),
                }
            },
            Ok(ExportPlan::Json { pretty }) => {
                &&& format@ == "json"@
                &&& pretty == wanted_pretty(
                    match options {
                        Some(o) => Some(*o),
                        None => None,
                    },
                )
            },
            Err(_) => format@ != "csv"@ && format@ != "json"@,
        },
{
    proof {
        reveal_strlit("csv");
        reveal_strlit("json");
    }
    if same_text(format, "csv") {
        let found = match options {
            Some(o) => o.get("headers"),
            None => None,
        };
        let headers = match found {
            Some(JsonValue::Array(items)) => {
                let mut out: Vec<String> = Vec::new();
                let mut i: usize = 0;
                proof {
                    assert(items@.take(0) =~= Seq::empty());
                    assert(texts(out@) =~= strings_of(items@.take(0)));
                }
                while i < items.len()
                    invariant
                        i <= items@.len(),
                        texts(out@) == strings_of(items@.take(i as int)),
                    decreases items@.len() - i,
                {
                    proof {
                        let k = i as int;
                        assert(items@.take(k + 1).drop_last() =~= items@.take(k));
                        assert(items@.take(k + 1).last() == items@[k]);
                    }
                    match &items[i] {
                        JsonValue::Text(s) => {
                            let ghost before = texts(out@);
                            out.push(s.clone());
                            proof {
                                assert(texts(out@) =~= before.push(s@));
                            }
                        },
                        _ => {},
                    }
                    i += 1;
                }
                proof {
                    assert(items@.take(items@.len() as int) =~= items@);
                }
                Some(out)
            },
            _ => None,
        };
        Ok(ExportPlan::Csv { headers })
    } else if same_text(format, "json") {
        let found = match options {
            Some(o) => o.get("pretty"),
            None => None,
        };
        let pretty = match found {
            Some(JsonValue::Bool(b)) => *b,
            _ => false,
        };
        Ok(ExportPlan::Json { pretty })
    } else {
        Err(ExportError::UnsupportedFormat)
    }
}

} // verus!
