//! JSON document model shared by both wire codecs.
//!
//! The protocol carries JSON trees whose leaves are null, booleans,
//! 64-bit signed integers and Unicode strings; object fields keep their
//! order. `JVal` is the mathematical shape of such a tree, `JsonValue`
//! the executable one; `jval_of` relates the two.

use vstd::prelude::*;
use vstd::utf8::{decode_utf8, encode_utf8, is_ascii_chars, valid_utf8};

verus! {

/// Greatest nesting depth either codec accepts or produces.
pub const MAX_DEPTH: u32 = 64;

/// Greatest number of string bytes, array items or object fields in
/// one node (the binary format stores these lengths in 32 bits).
pub const MAX_LEN: u64 = 0xffff_ffff;

/// Mathematical shape of a document tree.
pub enum JVal {
    Null,
    Bool(bool),
    Int(int),
    Str(Seq<char>),
    Arr(Seq<JVal>),
    Obj(Seq<(Seq<char>, JVal)>),
}

/// Executable document tree.
#[derive(Debug, PartialEq)]
pub enum JsonValue {
    Null,
    Bool(bool),
    Int(i64),
    Str(String),
    Arr(Vec<JsonValue>),
    Obj(Vec<(String, JsonValue)>),
}

pub open spec fn jval_of(v: JsonValue) -> JVal
    decreases v,
{
    match v {
        JsonValue::Null => JVal::Null,
        JsonValue::Bool(b) => JVal::Bool(b),
        JsonValue::Int(i) => JVal::Int(i as int),
        JsonValue::Str(s) => JVal::Str(s@),
        JsonValue::Arr(a) => JVal::Arr(jvals_of(a@)),
        JsonValue::Obj(m) => JVal::Obj(jmembers_of(m@)),
    }
}

pub open spec fn jvals_of(s: Seq<JsonValue>) -> Seq<JVal>
    decreases s,
{
    if s.len() == 0 {
        Seq::empty()
    } else {
        seq![jval_of(s[0])] + jvals_of(s.drop_first())
    }
}

pub open spec fn jmembers_of(s: Seq<(String, JsonValue)>) -> Seq<(Seq<char>, JVal)>
    decreases s,
{
    if s.len() == 0 {
        Seq::empty()
    } else {
        seq![(s[0].0@, jval_of(s[0].1))] + jmembers_of(s.drop_first())
    }
}

impl View for JsonValue {
    type V = JVal;

    open spec fn view(&self) -> JVal {
        jval_of(*self)
    }
}

pub proof fn lemma_jvals_of(s: Seq<JsonValue>)
    ensures
        jvals_of(s).len() == s.len(),
        forall|i: int| 0 <= i < s.len() ==> jvals_of(s)[i] == jval_of(#[trigger] s[i]),
    decreases s,
{
    if s.len() > 0 {
        lemma_jvals_of(s.drop_first());
        assert forall|i: int| 0 <= i < s.len() implies jvals_of(s)[i] == jval_of(
            #[trigger] s[i],
        ) by {
            if i > 0 {
                assert(s.drop_first()[i - 1] == s[i]);
                assert(jvals_of(s)[i] == jvals_of(s.drop_first())[i - 1]);
            }
        }
    }
}

pub proof fn lemma_jmembers_of(s: Seq<(String, JsonValue)>)
    ensures
        jmembers_of(s).len() == s.len(),
        forall|i: int|
            0 <= i < s.len() ==> jmembers_of(s)[i] == ((#[trigger] s[i]).0@, jval_of(s[i].1)),
    decreases s,
{
    if s.len() > 0 {
        lemma_jmembers_of(s.drop_first());
        assert forall|i: int| 0 <= i < s.len() implies jmembers_of(s)[i] == ((
        #[trigger] s[i]).0@, jval_of(s[i].1)) by {
            if i > 0 {
                assert(s.drop_first()[i - 1] == s[i]);
                assert(jmembers_of(s)[i] == jmembers_of(s.drop_first())[i - 1]);
            }
        }
    }
}

// ---------- nesting depth ----------

pub open spec fn jdepth(x: JVal) -> nat
    decreases x,
{
    match x {
        JVal::Arr(l) => 1 + jdepth_items(l),
        JVal::Obj(m) => 1 + jdepth_members(m),
        _ => 1,
    }
}

pub open spec fn jdepth_items(l: Seq<JVal>) -> nat
    decreases l,
{
    if l.len() == 0 {
        0
    } else if jdepth(l[0]) >= jdepth_items(l.drop_first()) {
        jdepth(l[0])
    } else {
        jdepth_items(l.drop_first())
    }
}

pub open spec fn jdepth_members(m: Seq<(Seq<char>, JVal)>) -> nat
    decreases m,
{
    if m.len() == 0 {
        0
    } else if jdepth(m[0].1) >= jdepth_members(m.drop_first()) {
        jdepth(m[0].1)
    } else {
        jdepth_members(m.drop_first())
    }
}

// ---------- well-formedness ----------

/// What both codecs can represent: integers within `i64`, strings
/// whose UTF-8 form fits 32 bits, and 32-bit collection lengths.
pub open spec fn jval_wf(x: JVal) -> bool
    decreases x,
{
    match x {
        JVal::Null => true,
        JVal::Bool(_) => true,
        JVal::Int(i) => i64::MIN <= i <= i64::MAX,
        JVal::Str(s) => encode_utf8(s).len() <= MAX_LEN,
        JVal::Arr(l) => l.len() <= MAX_LEN && jval_wf_items(l),
        JVal::Obj(m) => m.len() <= MAX_LEN && jval_wf_members(m),
    }
}

pub open spec fn jval_wf_items(l: Seq<JVal>) -> bool
    decreases l,
{
    if l.len() == 0 {
        true
    } else {
        jval_wf(l[0]) && jval_wf_items(l.drop_first())
    }
}

pub open spec fn jval_wf_members(m: Seq<(Seq<char>, JVal)>) -> bool
    decreases m,
{
    if m.len() == 0 {
        true
    } else {
        encode_utf8(m[0].0).len() <= MAX_LEN && jval_wf(m[0].1) && jval_wf_members(
            m.drop_first(),
        )
    }
}

pub proof fn lemma_jval_wf_items_index(l: Seq<JVal>, i: int)
    requires
        jval_wf_items(l),
        0 <= i < l.len(),
    ensures
        jval_wf(l[i]),
        jdepth(l[i]) <= jdepth_items(l),
    decreases l,
{
    if i > 0 {
        lemma_jval_wf_items_index(l.drop_first(), i - 1);
    }
}

pub proof fn lemma_jval_wf_members_index(m: Seq<(Seq<char>, JVal)>, i: int)
    requires
        jval_wf_members(m),
        0 <= i < m.len(),
    ensures
        encode_utf8(m[i].0).len() <= MAX_LEN,
        jval_wf(m[i].1),
        jdepth(m[i].1) <= jdepth_members(m),
    decreases m,
{
    if i > 0 {
        lemma_jval_wf_members_index(m.drop_first(), i - 1);
    }
}

pub proof fn lemma_jvals_of_push(s: Seq<JsonValue>, v: JsonValue)
    ensures
        jvals_of(s.push(v)) == jvals_of(s).push(jval_of(v)),
    decreases s,
{
    if s.len() == 0 {
        assert(s.push(v)[0] == v);
        assert(s.push(v).drop_first() =~= Seq::<JsonValue>::empty());
        assert(jvals_of(Seq::<JsonValue>::empty()) == Seq::<JVal>::empty());
        assert(jvals_of(s.push(v)) == seq![jval_of(v)] + Seq::<JVal>::empty());
        assert(jvals_of(s) == Seq::<JVal>::empty());
        assert(jvals_of(s.push(v)) =~= jvals_of(s).push(jval_of(v)));
    } else {
        assert(s.push(v)[0] == s[0]);
        assert(s.push(v).drop_first() =~= s.drop_first().push(v));
        lemma_jvals_of_push(s.drop_first(), v);
        assert(jvals_of(s) == seq![jval_of(s[0])] + jvals_of(s.drop_first()));
        assert(jvals_of(s.push(v)) == seq![jval_of(s[0])] + jvals_of(s.drop_first().push(v)));
        assert(jvals_of(s.push(v)) =~= jvals_of(s).push(jval_of(v)));
    }
}

pub proof fn lemma_jmembers_of_push(s: Seq<(String, JsonValue)>, k: String, v: JsonValue)
    ensures
        jmembers_of(s.push((k, v))) == jmembers_of(s).push((k@, jval_of(v))),
    decreases s,
{
    if s.len() == 0 {
        assert(s.push((k, v))[0] == (k, v));
        assert(s.push((k, v)).drop_first() =~= Seq::<(String, JsonValue)>::empty());
        assert(jmembers_of(Seq::<(String, JsonValue)>::empty()) == Seq::<(Seq<char>, JVal)>::empty());
        assert(jmembers_of(s.push((k, v))) == seq![(k@, jval_of(v))] + Seq::<(Seq<char>, JVal)>::empty());
        assert(jmembers_of(s) == Seq::<(Seq<char>, JVal)>::empty());
        assert(jmembers_of(s.push((k, v))) =~= jmembers_of(s).push((k@, jval_of(v))));
    } else {
        assert(s.push((k, v))[0] == s[0]);
        assert(s.push((k, v)).drop_first() =~= s.drop_first().push((k, v)));
        lemma_jmembers_of_push(s.drop_first(), k, v);
        assert(jmembers_of(s) == seq![(s[0].0@, jval_of(s[0].1))] + jmembers_of(s.drop_first()));
        assert(jmembers_of(s.push((k, v))) == seq![(s[0].0@, jval_of(s[0].1))] + jmembers_of(
            s.drop_first().push((k, v)),
        ));
        assert(jmembers_of(s.push((k, v))) =~= jmembers_of(s).push((k@, jval_of(v))));
    }
}

pub proof fn lemma_wf_items_push(l: Seq<JVal>, x: JVal)
    requires
        jval_wf_items(l),
        jval_wf(x),
    ensures
        jval_wf_items(l.push(x)),
        jdepth_items(l.push(x)) == if jdepth(x) >= jdepth_items(l) {
            jdepth(x)
        } else {
            jdepth_items(l)
        },
    decreases l,
{
    if l.len() == 0 {
        assert(l.push(x)[0] == x);
        assert(l.push(x).drop_first() =~= Seq::<JVal>::empty());
        assert(jval_wf_items(Seq::<JVal>::empty()));
        assert(jdepth_items(Seq::<JVal>::empty()) == 0);
        assert(jval_wf_items(l.push(x)));
    } else {
        assert(l.push(x)[0] == l[0]);
        assert(l.push(x).drop_first() =~= l.drop_first().push(x));
        lemma_wf_items_push(l.drop_first(), x);
        assert(jval_wf_items(l.push(x)));
    }
}

pub proof fn lemma_wf_members_push(m: Seq<(Seq<char>, JVal)>, k: Seq<char>, x: JVal)
    requires
        jval_wf_members(m),
        jval_wf(x),
        encode_utf8(k).len() <= MAX_LEN,
    ensures
        jval_wf_members(m.push((k, x))),
        jdepth_members(m.push((k, x))) == if jdepth(x) >= jdepth_members(m) {
            jdepth(x)
        } else {
            jdepth_members(m)
        },
    decreases m,
{
    if m.len() == 0 {
        assert(m.push((k, x))[0] == (k, x));
        assert(m.push((k, x)).drop_first() =~= Seq::<(Seq<char>, JVal)>::empty());
        assert(jval_wf_members(Seq::<(Seq<char>, JVal)>::empty()));
        assert(jdepth_members(Seq::<(Seq<char>, JVal)>::empty()) == 0);
        assert(jval_wf_members(m.push((k, x))));
    } else {
        assert(m.push((k, x))[0] == m[0]);
        assert(m.push((k, x)).drop_first() =~= m.drop_first().push((k, x)));
        lemma_wf_members_push(m.drop_first(), k, x);
        assert(jval_wf_members(m.push((k, x))));
    }
}

/// Relies on String::from_utf8: it succeeds exactly on valid UTF-8
/// and returns the character sequence those bytes encode.
#[verifier::external_body]
pub(crate) fn string_from_utf8_checked(bytes: Vec<u8>) -> (r: Option<String>)
    ensures
        match r {
            Some(s) => valid_utf8(bytes@) && s@ == decode_utf8(bytes@),
            None => !valid_utf8(bytes@),
        },
{
    match String::from_utf8(bytes) {
        Ok(s) => Some(s),
        Err(_) => None,
    }
}

// ---------- object field lookup ----------

/// First value bound to key `k`, if any.
pub open spec fn obj_get(m: Seq<(Seq<char>, JVal)>, k: Seq<char>) -> Option<JVal>
    decreases m,
{
    if m.len() == 0 {
        None
    } else if m[0].0 == k {
        Some(m[0].1)
    } else {
        obj_get(m.drop_first(), k)
    }
}

/// Equality of two string slices, decided on their UTF-8 bytes.
#[verifier::loop_isolation(false)]
pub fn str_eq(a: &str, b: &str) -> (r: bool)
    ensures
        r == (a@ == b@),
{
    let ab = a.as_bytes();
    let bb = b.as_bytes();
    if ab.len() != bb.len() {
        proof {
            if a@ == b@ {
                assert(encode_utf8(a@) == encode_utf8(b@));
            }
        }
        return false;
    }
    let n = ab.len();
    let mut i: usize = 0;
    while i < n
        invariant
            n == ab@.len() == bb@.len(),
            i <= n,
            forall|j: int| 0 <= j < i ==> ab@[j] == bb@[j],
        decreases n - i,
    {
        if ab[i] != bb[i] {
            proof {
                if a@ == b@ {
                    assert(encode_utf8(a@) == encode_utf8(b@));
                    assert(ab@[i as int] == bb@[i as int]);
                }
            }
            return false;
        }
        i = i + 1;
    }
    proof {
        assert(ab@ =~= bb@);
        assert(encode_utf8(a@) == encode_utf8(b@));
        vstd::utf8::encode_utf8_decode_utf8(a@);
        vstd::utf8::encode_utf8_decode_utf8(b@);
        assert(a@ == decode_utf8(encode_utf8(a@)));
        assert(a@ == b@);
    }
    true
}

/// Looks up a field of an object value by name.
#[verifier::loop_isolation(false)]
pub fn jv_get<'a>(v: &'a JsonValue, key: &str) -> (r: Option<&'a JsonValue>)
    ensures
        match r {
            Some(x) => v@ matches JVal::Obj(m) && obj_get(m, key@) == Some(x@),
            None => !(v@ matches JVal::Obj(m) && obj_get(m, key@) is Some),
        },
{
    match v {
        JsonValue::Obj(fields) => {
            proof {
                lemma_jmembers_of(fields@);
            }
            let ghost mm = jmembers_of(fields@);
            proof {
                assert(mm.skip(0) =~= mm);
            }
            let mut i: usize = 0;
            while i < fields.len()
                invariant
                    i <= fields@.len(),
                    obj_get(mm, key@) == obj_get(mm.skip(i as int), key@),
                decreases fields@.len() - i,
            {
                proof {
                    assert(mm.skip(i as int)[0] == mm[i as int]);
                }
                if str_eq(fields[i].0.as_str(), key) {
                    return Some(&fields[i].1);
                }
                proof {
                    assert(mm.skip(i as int).drop_first() =~= mm.skip(i + 1 as int));
                }
                i = i + 1;
            }
            proof {
                assert(mm.skip(fields@.len() as int).len() == 0);
            }
            None
        },
        _ => None,
    }
}

// ---------- executable well-formedness check ----------

fn wf_depth(v: &JsonValue, d: u32) -> (r: bool)
    ensures
        r == (jval_wf(v@) && jdepth(v@) <= d),
    decreases *v, 0nat,
{
    if d == 0 {
        return false;
    }
    match v {
        JsonValue::Null => true,
        JsonValue::Bool(_) => true,
        JsonValue::Int(_) => true,
        JsonValue::Str(s) => {
            let bs = s.as_str().as_bytes_vec();
            (bs.len() as u64) <= MAX_LEN
        },
        JsonValue::Arr(a) => {
            proof {
                lemma_jvals_of(a@);
                assert(a@.skip(0) =~= a@);
                assert(jvals_of(a@).skip(0) =~= jvals_of(a@));
            }
            if (a.len() as u64) > MAX_LEN {
                false
            } else {
                wf_items_depth(a, 0, d - 1)
            }
        },
        JsonValue::Obj(m) => {
            proof {
                lemma_jmembers_of(m@);
                assert(m@.skip(0) =~= m@);
                assert(jmembers_of(m@).skip(0) =~= jmembers_of(m@));
            }
            if (m.len() as u64) > MAX_LEN {
                false
            } else {
                wf_members_depth(m, 0, d - 1)
            }
        },
    }
}

fn wf_items_depth(a: &Vec<JsonValue>, i: usize, d: u32) -> (r: bool)
    requires
        i <= a@.len(),
    ensures
        r == (jval_wf_items(jvals_of(a@).skip(i as int)) && jdepth_items(
            jvals_of(a@).skip(i as int),
        ) <= d),
    decreases a@.skip(i as int), 1nat,
{
    proof {
        lemma_jvals_of(a@);
    }
    let ghost ll = jvals_of(a@).skip(i as int);
    if i < a.len() {
        proof {
            assert(a@.skip(i as int)[0] == a@[i as int]);
            assert(ll[0] == jval_of(a@[i as int]));
            assert(ll.drop_first() =~= jvals_of(a@).skip(i + 1 as int));
            assert(a@.skip(i + 1 as int) =~= a@.skip(i as int).drop_first());
        }
        let h = wf_depth(&a[i], d);
        if !h {
            false
        } else {
            wf_items_depth(a, i + 1, d)
        }
    } else {
        proof {
            assert(ll.len() == 0);
        }
        true
    }
}

fn wf_members_depth(m: &Vec<(String, JsonValue)>, i: usize, d: u32) -> (r: bool)
    requires
        i <= m@.len(),
    ensures
        r == (jval_wf_members(jmembers_of(m@).skip(i as int)) && jdepth_members(
            jmembers_of(m@).skip(i as int),
        ) <= d),
    decreases m@.skip(i as int), 1nat,
{
    proof {
        lemma_jmembers_of(m@);
    }
    let ghost mm = jmembers_of(m@).skip(i as int);
    if i < m.len() {
        proof {
            assert(m@.skip(i as int)[0] == m@[i as int]);
            assert(mm[0] == (m@[i as int].0@, jval_of(m@[i as int].1)));
            assert(mm.drop_first() =~= jmembers_of(m@).skip(i + 1 as int));
            assert(m@.skip(i + 1 as int) =~= m@.skip(i as int).drop_first());
        }
        let kb = m[i].0.as_str().as_bytes_vec();
        if (kb.len() as u64) > MAX_LEN {
            return false;
        }
        let h = wf_depth(&m[i].1, d);
        if !h {
            false
        } else {
            wf_members_depth(m, i + 1, d)
        }
    } else {
        proof {
            assert(mm.len() == 0);
        }
        true
    }
}

/// Whether a value fits both codecs: `i64` integers, string and
/// collection lengths within 32 bits, nesting within [`MAX_DEPTH`].
pub fn check_wf(v: &JsonValue) -> (r: bool)
    ensures
        r == (jval_wf(v@) && jdepth(v@) <= MAX_DEPTH),
{
    wf_depth(v, MAX_DEPTH)
}

// ---------- deep clone ----------

/// Clones a value; the copy has the same mathematical shape.
#[verifier::loop_isolation(false)]
pub fn jv_clone(v: &JsonValue) -> (r: JsonValue)
    ensures
        r@ == v@,
    decreases *v,
{
    match v {
        JsonValue::Null => JsonValue::Null,
        JsonValue::Bool(b) => JsonValue::Bool(*b),
        JsonValue::Int(i) => JsonValue::Int(*i),
        JsonValue::Str(s) => JsonValue::Str(s.clone()),
        JsonValue::Arr(a) => {
            let mut out: Vec<JsonValue> = Vec::new();
            let mut i: usize = 0;
            while i < a.len()
                invariant
                    i <= a@.len(),
                    out@.len() == i,
                    forall|j: int| 0 <= j < i ==> jval_of(#[trigger] out@[j]) == jval_of(a@[j]),
                decreases a@.len() - i,
            {
                out.push(jv_clone(&a[i]));
                i = i + 1;
            }
            proof {
                lemma_jvals_of(out@);
                lemma_jvals_of(a@);
                assert forall|j: int|
                    0 <= j < out@.len() implies jvals_of(out@)[j] == jvals_of(a@)[j] by {
                    assert(jval_of(out@[j]) == jval_of(a@[j]));
                }
                assert(jvals_of(out@) =~= jvals_of(a@));
            }
            JsonValue::Arr(out)
        },
        JsonValue::Obj(m) => {
            let mut out: Vec<(String, JsonValue)> = Vec::new();
            let mut i: usize = 0;
            while i < m.len()
                invariant
                    i <= m@.len(),
                    out@.len() == i,
                    forall|j: int|
                        0 <= j < i ==> (#[trigger] out@[j]).0@ == m@[j].0@ && jval_of(out@[j].1)
                            == jval_of(m@[j].1),
                decreases m@.len() - i,
            {
                let pair = &m[i];
                out.push((pair.0.clone(), jv_clone(&pair.1)));
                i = i + 1;
            }
            proof {
                lemma_jmembers_of(out@);
                lemma_jmembers_of(m@);
                assert forall|j: int|
                    0 <= j < out@.len() implies jmembers_of(out@)[j] == jmembers_of(m@)[j] by {
                    assert(out@[j].0@ == m@[j].0@ && jval_of(out@[j].1) == jval_of(m@[j].1));
                }
                assert(jmembers_of(out@) =~= jmembers_of(m@));
            }
            JsonValue::Obj(out)
        },
    }
}

// ---------- typed field access ----------

pub open spec fn jv_field(x: JVal, k: Seq<char>) -> Option<JVal> {
    match x {
        JVal::Obj(m) => obj_get(m, k),
        _ => None,
    }
}

pub open spec fn jv_str_field(x: JVal, k: Seq<char>) -> Option<Seq<char>> {
    match jv_field(x, k) {
        Some(JVal::Str(s)) => Some(s),
        _ => None,
    }
}

pub open spec fn jv_i32_field(x: JVal, k: Seq<char>) -> Option<int> {
    match jv_field(x, k) {
        Some(JVal::Int(i)) => if i32::MIN <= i <= i32::MAX {
            Some(i)
        } else {
            None
        },
        _ => None,
    }
}

pub open spec fn jv_i64_field(x: JVal, k: Seq<char>) -> Option<int> {
    match jv_field(x, k) {
        Some(JVal::Int(i)) => Some(i),
        _ => None,
    }
}

/// An optional string field: absent and null count as missing; any
/// other non-string value is a shape error.
pub open spec fn jv_opt_str_field(x: JVal, k: Seq<char>) -> Option<Option<Seq<char>>> {
    match jv_field(x, k) {
        None => Some(None),
        Some(JVal::Null) => Some(None),
        Some(JVal::Str(s)) => Some(Some(s)),
        Some(_) => None,
    }
}

pub fn get_str_field(v: &JsonValue, k: &str) -> (r: Option<String>)
    ensures
        match r {
            Some(s) => jv_str_field(v@, k@) == Some(s@),
            None => jv_str_field(v@, k@) is None,
        },
{
    match jv_get(v, k) {
        Some(JsonValue::Str(s)) => Some(s.clone()),
        _ => None,
    }
}

pub fn get_i32_field(v: &JsonValue, k: &str) -> (r: Option<i32>)
    ensures
        match r {
            Some(i) => jv_i32_field(v@, k@) == Some(i as int),
            None => jv_i32_field(v@, k@) is None,
        },
{
    match jv_get(v, k) {
        Some(JsonValue::Int(i)) => {
            let i = *i;
            if i64::from(i32::MIN) <= i && i <= i64::from(i32::MAX) {
                Some(i as i32)
            } else {
                None
            }
        },
        _ => None,
    }
}

pub fn get_i64_field(v: &JsonValue, k: &str) -> (r: Option<i64>)
    ensures
        match r {
            Some(i) => jv_i64_field(v@, k@) == Some(i as int),
            None => jv_i64_field(v@, k@) is None,
        },
{
    match jv_get(v, k) {
        Some(JsonValue::Int(i)) => Some(*i),
        _ => None,
    }
}

pub fn get_opt_str_field(v: &JsonValue, k: &str) -> (r: Option<Option<String>>)
    ensures
        match r {
            Some(Some(s)) => jv_opt_str_field(v@, k@) == Some(Some(s@)),
            Some(None) => jv_opt_str_field(v@, k@) == Some(None::<Seq<char>>),
            None => jv_opt_str_field(v@, k@) is None,
        },
{
    match jv_get(v, k) {
        None => Some(None),
        Some(JsonValue::Null) => Some(None),
        Some(JsonValue::Str(s)) => Some(Some(s.clone())),
        Some(_) => None,
    }
}

pub fn get_any_field(v: &JsonValue, k: &str) -> (r: Option<JsonValue>)
    ensures
        match r {
            Some(x) => jv_field(v@, k@) == Some(x@),
            None => jv_field(v@, k@) is None,
        },
{
    match jv_get(v, k) {
        Some(x) => Some(jv_clone(x)),
        None => None,
    }
}


/// Looking up the key of entry `i` finds entry `i`, when no earlier
/// entry shares that key.
pub proof fn lemma_obj_get_at(m: Seq<(Seq<char>, JVal)>, i: int)
    requires
        0 <= i < m.len(),
        forall|j: int| 0 <= j < i ==> (#[trigger] m[j]).0 != m[i].0,
    ensures
        obj_get(m, m[i].0) == Some(m[i].1),
    decreases i,
{
    if i == 0 {
    } else {
        assert(m[0].0 != m[i].0);
        assert(m.drop_first()[i - 1] == m[i]);
        assert forall|j: int|
            0 <= j < i - 1 implies (#[trigger] m.drop_first()[j]).0 != m.drop_first()[i - 1].0 by {
            assert(m.drop_first()[j] == m[j + 1]);
        }
        lemma_obj_get_at(m.drop_first(), i - 1);
    }
}


proof fn lemma_obj_get_member_wf(m: Seq<(Seq<char>, JVal)>, k: Seq<char>)
    requires
        jval_wf_members(m),
        obj_get(m, k) is Some,
    ensures
        jval_wf(obj_get(m, k)->Some_0),
    decreases m,
{
    if m.len() > 0 {
        if m[0].0 == k {
        } else {
            lemma_obj_get_member_wf(m.drop_first(), k);
        }
    }
}

/// A string field of a well-formed object is itself well-formed:
/// its UTF-8 form is within the length bound.
pub proof fn lemma_jv_str_field_wf(x: JVal, k: Seq<char>)
    requires
        jval_wf(x),
        jv_str_field(x, k) is Some,
    ensures
        encode_utf8(jv_str_field(x, k)->Some_0).len() <= MAX_LEN,
{
    match x {
        JVal::Obj(m) => {
            lemma_obj_get_member_wf(m, k);
        },
        _ => {},
    }
}

} // verus!
