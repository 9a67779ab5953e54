use vstd::prelude::*;
use crate::digits::min_chars;
use crate::text::dec_string;
use vstd::string::StringExecFns;

verus! {

/// The shape of a JSON value, as the summarizer reads it: leaves carry
/// their text (a number by its rendered form, which the logic never reads),
/// and containers carry their children.
pub enum JsonShape {
    Null,
    Bool(bool),
    Num(String),
    Str(String),
    Arr(Vec<JsonShape>),
    Obj(Vec<(String, JsonShape)>),
}

/// A leaf value: null, boolean, number or string.
pub open spec fn is_simple_spec(v: &JsonShape) -> bool {
    match v {
        JsonShape::Null => true,
        JsonShape::Bool(_) => true,
        JsonShape::Num(_) => true,
        JsonShape::Str(_) => true,
        JsonShape::Arr(_) => false,
        JsonShape::Obj(_) => false,
    }
}

/// Exec mirror of `is_simple_spec`.
pub fn is_simple_type(v: &JsonShape) -> (r: bool)
    ensures
        r == is_simple_spec(v),
{
    match v {
        JsonShape::Null => true,
        JsonShape::Bool(_) => true,
        JsonShape::Num(_) => true,
        JsonShape::Str(_) => true,
        JsonShape::Arr(_) => false,
        JsonShape::Obj(_) => false,
    }
}

/// Lexicographic order on strings, by code point, shorter prefix first.
pub open spec fn lex_le(a: Seq<char>, b: Seq<char>) -> bool
    decreases a.len(),
{
    if a.len() == 0 {
        true
    } else if b.len() == 0 {
        false
    } else if a[0] == b[0] {
        lex_le(a.drop_first(), b.drop_first())
    } else {
        (a[0] as int) < (b[0] as int)
    }
}

/// A key inserted into a key list, before the first key it precedes or
/// equals.
pub open spec fn insert_key(k: Seq<char>, ks: Seq<Seq<char>>) -> Seq<Seq<char>>
    decreases ks.len(),
{
    if ks.len() == 0 {
        seq![k]
    } else if lex_le(k, ks[0]) {
        seq![k] + ks
    } else {
        seq![ks[0]] + insert_key(k, ks.drop_first())
    }
}

/// The key list sorted lexicographically, by insertion.
pub open spec fn sort_keys(ks: Seq<Seq<char>>) -> Seq<Seq<char>>
    decreases ks.len(),
{
    if ks.len() == 0 {
        Seq::empty()
    } else {
        insert_key(ks[0], sort_keys(ks.drop_first()))
    }
}

/// The character sequences of a string list.
pub open spec fn views_of(v: Seq<String>) -> Seq<Seq<char>> {
    Seq::new(v.len(), |i: int| v[i]@)
}

/// The keys of a field list, in held order.
pub open spec fn keys_of(fields: Seq<(String, JsonShape)>) -> Seq<Seq<char>> {
    Seq::new(fields.len(), |i: int| fields[i].0@)
}

/// A key list joined by commas.
pub open spec fn joined_keys(ks: Seq<Seq<char>>) -> Seq<char>
    decreases ks.len(),
{
    if ks.len() == 0 {
        Seq::empty()
    } else if ks.len() == 1 {
        ks[0]
    } else {
        joined_keys(ks.drop_last()) + ","@ + ks.last()
    }
}

/// The index of the first element that is not null, from `i` on; -1 when
/// every element from `i` on is null.
pub open spec fn first_non_null_from(items: Seq<JsonShape>, i: int) -> int
    decreases items.len() - i when 0 <= i <= items.len()
{
    if i >= items.len() {
        -1
    } else if !(items[i] matches JsonShape::Null) {
        i
    } else {
        first_non_null_from(items, i + 1)
    }
}

/// The marker string that summarizes an array.
pub open spec fn arr_marker(items: Seq<JsonShape>) -> Seq<char> {
    if items.len() == 0 {
        "[*EM*]"@
    } else {
        let j = first_non_null_from(items, 0);
        if j == -1 {
            "[*LI:"@ + min_chars(items.len(), 10) + "*]"@
        } else {
            match items[j] {
                JsonShape::Obj(fields) => "[*CO:"@ + min_chars(items.len(), 10) + ":"@
                    + joined_keys(sort_keys(keys_of(fields@))) + "*]"@,
                JsonShape::Arr(_) => "[*CO:"@ + min_chars(items.len(), 10) + "*]"@,
                _ => "[*LI:"@ + min_chars(items.len(), 10) + "*]"@,
            }
        }
    }
}

/// The marker string that summarizes an object.
pub open spec fn obj_marker(fields: Seq<(String, JsonShape)>) -> Seq<char> {
    if fields.len() == 0 {
        "[*EM*]"@
    } else {
        "[*RE:"@ + joined_keys(sort_keys(keys_of(fields))) + "*]"@
    }
}

/// What `simplify_value` returns for each input shape: leaves stand, and
/// containers become their marker string.
pub open spec fn simplify_rel(v: &JsonShape, r: &JsonShape) -> bool {
    match v {
        JsonShape::Null => r matches JsonShape::Null,
        JsonShape::Bool(b) => r matches JsonShape::Bool(b2) && b2 == b,
        JsonShape::Num(s) => r matches JsonShape::Num(s2) && s2@ == s@,
        JsonShape::Str(s) => r matches JsonShape::Str(s2) && s2@ == s@,
        JsonShape::Arr(items) => r matches JsonShape::Str(m) && m@ == arr_marker(items@),
        JsonShape::Obj(fields) => r matches JsonShape::Str(m) && m@ == obj_marker(fields@),
    }
}

/// Exec lexicographic comparison of two strings.
fn str_lex_le(a: &str, b: &str) -> (r: bool)
    ensures
        r == lex_le(a@, b@),
{
    let na = a.unicode_len();
    let nb = b.unicode_len();
    let mut i: usize = 0;
    proof {
        assert(a@.skip(0) =~= a@);
        assert(b@.skip(0) =~= b@);
    }
    while i < na && i < nb
        invariant
            i <= na,
            i <= nb,
            na == a@.len(),
            nb == b@.len(),
            lex_le(a@, b@) == lex_le(a@.skip(i as int), b@.skip(i as int)),
        decreases na - i,
    {
        let ca = a.get_char(i);
        let cb = b.get_char(i);
        let ghost sa = a@.skip(i as int);
        let ghost sb = b@.skip(i as int);
        proof {
            assert(sa.len() > 0 && sb.len() > 0);
            assert(sa[0] == a@[i as int] && sb[0] == b@[i as int]);
        }
        if ca != cb {
            proof {
                assert(lex_le(sa, sb) == ((ca as int) < (cb as int)));
            }
            return ca < cb;
        }
        proof {
            assert(sa.drop_first() =~= a@.skip(i as int + 1));
            assert(sb.drop_first() =~= b@.skip(i as int + 1));
            assert(lex_le(sa, sb) == lex_le(a@.skip(i as int + 1), b@.skip(i as int + 1)));
        }
        i = i + 1;
    }
    proof {
        let sa = a@.skip(i as int);
        let sb = b@.skip(i as int);
        if i == na {
            assert(sa.len() == 0);
            assert(lex_le(sa, sb));
        } else {
            assert(i == nb && i < na);
            assert(sb.len() == 0 && sa.len() > 0);
            assert(!lex_le(sa, sb));
        }
    }
    na <= nb
}

/// Inserting at the first position whose key the new key precedes or
/// equals is what `insert_key` does.
proof fn lemma_insert_key_at(k: Seq<char>, ks: Seq<Seq<char>>, j: int)
    requires
        0 <= j <= ks.len(),
        forall|t: int| 0 <= t < j ==> !lex_le(k, #[trigger] ks[t]),
        j < ks.len() ==> lex_le(k, ks[j]),
    ensures
        insert_key(k, ks) == ks.subrange(0, j) + seq![k] + ks.subrange(j, ks.len() as int),
    decreases j,
{
    if j == 0 {
        if ks.len() == 0 {
            assert(insert_key(k, ks) =~= ks.subrange(0, 0) + seq![k] + ks.subrange(0, 0));
        } else {
            assert(lex_le(k, ks[0]));
            assert(insert_key(k, ks) =~= ks.subrange(0, 0) + seq![k] + ks.subrange(
                0,
                ks.len() as int,
            ));
        }
    } else {
        assert(!lex_le(k, ks[0]));
        let rest = ks.drop_first();
        assert(forall|t: int| 0 <= t < j - 1 ==> !lex_le(k, #[trigger] rest[t]));
        assert(j - 1 < rest.len() ==> lex_le(k, rest[j - 1]));
        lemma_insert_key_at(k, rest, j - 1);
        assert(insert_key(k, ks) == seq![ks[0]] + (rest.subrange(0, j - 1) + seq![k]
            + rest.subrange(j - 1, rest.len() as int)));
        assert(seq![ks[0]] + (rest.subrange(0, j - 1) + seq![k] + rest.subrange(
            j - 1,
            rest.len() as int,
        )) =~= ks.subrange(0, j) + seq![k] + ks.subrange(j, ks.len() as int));
    }
}

/// Insert a key into a sorted key vector, keeping `insert_key`'s order.
fn insert_sorted(keys: &mut Vec<String>, k: String)
    ensures
        views_of(final(keys)@) == insert_key(k@, views_of(old(keys)@)),
{
    let ghost orig = keys@;
    let n = keys.len();
    let mut j: usize = 0;
    while j < n
        invariant
            j <= n,
            n == keys@.len(),
            keys@ == orig,
            forall|t: int| 0 <= t < j ==> !lex_le(k@, (#[trigger] keys@[t])@),
        ensures
            j <= n,
            n == keys@.len(),
            keys@ == orig,
            forall|t: int| 0 <= t < j ==> !lex_le(k@, (#[trigger] keys@[t])@),
            j < n ==> lex_le(k@, keys@[j as int]@),
        decreases n - j,
    {
        if str_lex_le(k.as_str(), keys[j].as_str()) {
            break;
        }
        j = j + 1;
    }
    let ghost kv = k@;
    keys.insert(j, k);
    proof {
        let vs = views_of(orig);
        assert(vs.len() == n);
        assert forall|t: int| 0 <= t < j implies !lex_le(kv, #[trigger] vs[t]) by {
            assert(vs[t] == orig[t]@);
        }
        assert((j as int) < vs.len() ==> lex_le(kv, vs[j as int]));
        lemma_insert_key_at(kv, vs, j as int);
        assert(views_of(keys@) =~= vs.subrange(0, j as int) + seq![kv] + vs.subrange(
            j as int,
            vs.len() as int,
        ));
    }
}

/// Copy a string's characters.
fn clone_string(s: &String) -> (r: String)
    ensures
        r@ == s@,
{
    s.as_str().to_owned()
}

/// Sort a key vector lexicographically, as `sort_keys` orders it.
fn sort_strings(keys: &Vec<String>) -> (r: Vec<String>)
    ensures
        views_of(r@) == sort_keys(views_of(keys@)),
{
    let n = keys.len();
    let mut out: Vec<String> = Vec::new();
    let mut i: usize = n;
    proof {
        assert(views_of(keys@).skip(n as int) =~= Seq::<Seq<char>>::empty());
        assert(views_of(out@) =~= Seq::<Seq<char>>::empty());
    }
    while i > 0
        invariant
            i <= n,
            n == keys@.len(),
            views_of(out@) == sort_keys(views_of(keys@).skip(i as int)),
        decreases i,
    {
        i = i - 1;
        let k = clone_string(&keys[i]);
        let ghost before = views_of(out@);
        insert_sorted(&mut out, k);
        proof {
            let vs = views_of(keys@);
            let tail = vs.skip(i as int);
            assert(tail.len() > 0);
            assert(tail[0] == vs[i as int]);
            assert(vs[i as int] == keys@[i as int]@);
            assert(tail.drop_first() =~= vs.skip(i as int + 1));
            assert(sort_keys(tail) == insert_key(tail[0], sort_keys(tail.drop_first())));
        }
    }
    proof {
        assert(views_of(keys@).skip(0) =~= views_of(keys@));
    }
    out
}

/// The keys of a field list, copied out in held order.
fn field_keys(fields: &Vec<(String, JsonShape)>) -> (r: Vec<String>)
    ensures
        views_of(r@) == keys_of(fields@),
{
    let n = fields.len();
    let mut out: Vec<String> = Vec::new();
    let mut i: usize = 0;
    while i < n
        invariant
            i <= n,
            n == fields@.len(),
            out@.len() == i,
            forall|j: int| 0 <= j < i ==> (#[trigger] out@[j])@ == fields@[j].0@,
        decreases n - i,
    {
        let k = clone_string(&fields[i].0);
        out.push(k);
        i = i + 1;
    }
    proof {
        assert(views_of(out@) =~= keys_of(fields@));
    }
    out
}

/// Join a field list's keys, sorted lexicographically, with commas.
fn join_sorted_keys(fields: &Vec<(String, JsonShape)>) -> (r: String)
    ensures
        r@ == joined_keys(sort_keys(keys_of(fields@))),
{
    let keys = field_keys(fields);
    let sorted = sort_strings(&keys);
    let n = sorted.len();
    let mut m = String::new();
    let mut i: usize = 0;
    let ghost vs = views_of(sorted@);
    proof {
        assert(joined_keys(vs.subrange(0, 0)) =~= Seq::<char>::empty());
    }
    while i < n
        invariant
            i <= n,
            n == sorted@.len(),
            vs == views_of(sorted@),
            m@ == joined_keys(vs.subrange(0, i as int)),
        decreases n - i,
    {
        if i > 0 {
            m.append(",");
        }
        m.append(sorted[i].as_str());
        proof {
            let pre = vs.subrange(0, i as int);
            let cur = vs.subrange(0, i as int + 1);
            assert(cur.drop_last() =~= pre);
            assert(cur.last() == vs[i as int]);
            assert(vs[i as int] == sorted@[i as int]@);
            if i == 0 {
                assert(cur.len() == 1);
                assert(cur[0] == vs[0]);
                assert(m@ =~= joined_keys(cur));
            } else {
                assert(m@ =~= joined_keys(cur));
            }
        }
        i = i + 1;
    }
    proof {
        assert(vs.subrange(0, n as int) =~= vs);
    }
    m
}

/// Summarize one JSON shape: leaves pass through, an array or object is
/// replaced by a compact marker naming its emptiness, length, or sorted
/// keys.
pub fn simplify_value(value: &JsonShape) -> (r: JsonShape)
    ensures
        simplify_rel(value, &r),
{
    match value {
        JsonShape::Null => JsonShape::Null,
        JsonShape::Bool(b) => JsonShape::Bool(*b),
        JsonShape::Num(s) => JsonShape::Num(clone_string(s)),
        JsonShape::Str(s) => JsonShape::Str(clone_string(s)),
        JsonShape::Arr(items) => {
            let n = items.len();
            if n == 0 {
                return JsonShape::Str("[*EM*]".to_owned());
            }
            let mut j: usize = 0;
            let mut found: bool = false;
            while j < n && !found
                invariant
                    j <= n,
                    n == items@.len(),
                    !found ==> first_non_null_from(items@, 0) == first_non_null_from(
                        items@,
                        j as int,
                    ),
                    found ==> first_non_null_from(items@, 0) == j as int && j < n && !(items@[
                        j as int] matches JsonShape::Null),
                decreases n - j, if found { 0int } else { 1int },
            {
                let is_null = match &items[j] {
                    JsonShape::Null => true,
                    _ => false,
                };
                if !is_null {
                    found = true;
                } else {
                    j = j + 1;
                }
            }
            let ghost fj = first_non_null_from(items@, 0);
            if !found {
                proof {
                    assert(fj == -1);
                }
                let mut m = "[*LI:".to_owned();
                let d = dec_string(n as u64);
                m.append(d.as_str());
                m.append("*]");
                proof {
                    assert(m@ =~= arr_marker(items@));
                }
                return JsonShape::Str(m);
            }
            proof {
                assert(fj == j as int);
            }
            match &items[j] {
                JsonShape::Obj(fields) => {
                    let mut m = "[*CO:".to_owned();
                    let d = dec_string(n as u64);
                    m.append(d.as_str());
                    m.append(":");
                    let ks = join_sorted_keys(fields);
                    m.append(ks.as_str());
                    m.append("*]");
                    proof {
                        assert(m@ =~= arr_marker(items@));
                    }
                    JsonShape::Str(m)
                },
                JsonShape::Arr(_) => {
                    let mut m = "[*CO:".to_owned();
                    let d = dec_string(n as u64);
                    m.append(d.as_str());
                    m.append("*]");
                    proof {
                        assert(m@ =~= arr_marker(items@));
                    }
                    JsonShape::Str(m)
                },
                _ => {
                    let mut m = "[*LI:".to_owned();
                    let d = dec_string(n as u64);
                    m.append(d.as_str());
                    m.append("*]");
                    proof {
                        assert(m@ =~= arr_marker(items@));
                    }
                    JsonShape::Str(m)
                },
            }
        },
        JsonShape::Obj(fields) => {
            let n = fields.len();
            if n == 0 {
                return JsonShape::Str("[*EM*]".to_owned());
            }
            let mut m = "[*RE:".to_owned();
            let ks = join_sorted_keys(fields);
            m.append(ks.as_str());
            m.append("*]");
            proof {
                assert(m@ =~= obj_marker(fields@));
            }
            JsonShape::Str(m)
        },
    }
}

} // verus!
