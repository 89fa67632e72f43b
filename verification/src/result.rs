//! The two result shapes of the protocol: the tagged union
//! [`RiverResult`] that code works with, and the flattened
//! [`RiverResultInternal`] that matches the wire envelope
//! `{ok, message?, code?, ...inner fields}`.

use vstd::prelude::*;

use crate::value::{
    jmembers_of, jv_clone, jv_get, jval_of, jval_wf, lemma_jmembers_of, lemma_jmembers_of_push,
    obj_get, str_eq,
    JVal, JsonValue,
};

verus! {

/// Result type used by the protocol: success value, or message and
/// error code.
pub enum RiverResult<T, E> {
    /// Contains the success value
    Success(T),
    /// Contains the error value
    Failure {
        /// The associated error message
        message: String,
        /// The error code
        code: E,
    },
}

impl<T, E> RiverResult<T, E> {
    /// Returns `true` if the result is `Ok`.
    pub fn is_ok(&self) -> (r: bool)
        ensures
            r == (self matches RiverResult::Success(_)),
    {
        match self {
            RiverResult::Success(_) => true,
            RiverResult::Failure { .. } => false,
        }
    }

    /// Returns `true` if the result is `Err`.
    pub fn is_err(&self) -> (r: bool)
        ensures
            r == (self matches RiverResult::Failure { .. }),
    {
        match self {
            RiverResult::Success(_) => false,
            RiverResult::Failure { .. } => true,
        }
    }
}

/// An error code that has a fixed wire spelling.
pub trait ErrorCode {
    /// The wire spelling.
    spec fn code_spec(&self) -> Seq<char>;

    /// Produces the wire spelling.
    fn code_string(&self) -> (r: String)
        ensures
            r@ == self.code_spec(),
    ;
}

impl ErrorCode for String {
    open spec fn code_spec(&self) -> Seq<char> {
        self@
    }

    fn code_string(&self) -> (r: String) {
        self.clone()
    }
}

/// Flattened, wire-shaped form of [`RiverResult`].
#[derive(Debug)]
pub struct RiverResultInternal<T> {
    pub ok: bool,
    pub message: Option<String>,
    pub code: Option<String>,
    pub inner: Option<T>,
}

impl<T, E: ErrorCode> RiverResult<T, E> {
    /// Flattens into the wire shape: `Ok` keeps only the value,
    /// `Err` keeps only message and code.
    pub fn into_internal(self) -> (r: RiverResultInternal<T>)
        ensures
            match self {
                RiverResult::Success(v) => r.ok && r.message is None && r.code is None && r.inner
                    == Some(v),
                RiverResult::Failure { message, code } => !r.ok && r.message == Some(message)
                    && (r.code matches Some(c) && c@ == code.code_spec()) && r.inner is None,
            },
    {
        match self {
            RiverResult::Success(v) => RiverResultInternal {
                ok: true,
                message: None,
                code: None,
                inner: Some(v),
            },
            RiverResult::Failure { message, code } => RiverResultInternal {
                ok: false,
                message: Some(message),
                code: Some(code.code_string()),
                inner: None,
            },
        }
    }
}

impl<T> RiverResultInternal<T> {
    /// Recovers the tagged union from the flattened shape: a success
    /// must carry its value, a failure its message and code.
    pub fn into_result(self) -> (r: Option<RiverResult<T, String>>)
        ensures
            match r {
                Some(RiverResult::Success(v)) => self.ok && self.inner == Some(v),
                Some(RiverResult::Failure { message, code }) => !self.ok && self.message == Some(
                    message,
                ) && self.code == Some(code),
                None => (self.ok && self.inner is None) || (!self.ok && (self.message is None
                    || self.code is None)),
            },
    {
        if self.ok {
            match self.inner {
                Some(v) => Some(RiverResult::Success(v)),
                None => None,
            }
        } else {
            match (self.message, self.code) {
                (Some(message), Some(code)) => Some(RiverResult::Failure { message, code }),
                _ => None,
            }
        }
    }
}

// ---------- the wire envelope over document trees ----------

/// Mathematical shape of a wire envelope.
pub struct EnvV {
    pub ok: bool,
    pub message: Option<Seq<char>>,
    pub code: Option<Seq<char>>,
    pub inner: Option<JVal>,
}

impl View for RiverResultInternal<JsonValue> {
    type V = EnvV;

    open spec fn view(&self) -> EnvV {
        EnvV {
            ok: self.ok,
            message: match self.message {
                Some(ref s) => Some(s@),
                None => None,
            },
            code: match self.code {
                Some(ref s) => Some(s@),
                None => None,
            },
            inner: match self.inner {
                Some(ref v) => Some(v@),
                None => None,
            },
        }
    }
}

/// The object fields of the envelope's inner value.
pub open spec fn env_inner_fields(e: EnvV) -> Seq<(Seq<char>, JVal)> {
    match e.inner {
        Some(JVal::Obj(f)) => f,
        _ => Seq::empty(),
    }
}

/// Wire form of an envelope: `ok`, then `message` and `code` when
/// present, then the inner value's fields spliced at top level.
pub open spec fn envelope_jv(e: EnvV) -> JVal {
    JVal::Obj(
        seq![(("ok")@, JVal::Bool(e.ok))] + (match e.message {
            Some(s) => seq![(("message")@, JVal::Str(s))],
            None => Seq::empty(),
        }) + (match e.code {
            Some(s) => seq![(("code")@, JVal::Str(s))],
            None => Seq::empty(),
        }) + env_inner_fields(e),
    )
}

/// Drops the `ok`, `message` and `code` fields, keeping the rest.
pub open spec fn strip_env_fields(m: Seq<(Seq<char>, JVal)>) -> Seq<(Seq<char>, JVal)>
    decreases m,
{
    if m.len() == 0 {
        Seq::empty()
    } else if m[0].0 == ("ok")@ || m[0].0 == ("message")@ || m[0].0 == ("code")@ {
        strip_env_fields(m.drop_first())
    } else {
        seq![m[0]] + strip_env_fields(m.drop_first())
    }
}

/// An optional string field: absent or null count as missing, any
/// non-string value is an error.
pub open spec fn opt_str_field(m: Seq<(Seq<char>, JVal)>, k: Seq<char>) -> Option<
    Option<Seq<char>>,
> {
    match obj_get(m, k) {
        None => Some(None),
        Some(JVal::Null) => Some(None),
        Some(JVal::Str(s)) => Some(Some(s)),
        Some(_) => None,
    }
}

/// Reads an envelope back from its wire form.
pub open spec fn envelope_of_jv(x: JVal) -> Option<EnvV> {
    match x {
        JVal::Obj(m) => match obj_get(m, ("ok")@) {
            Some(JVal::Bool(b)) => match (opt_str_field(m, ("message")@), opt_str_field(
                m,
                ("code")@,
            )) {
                (Some(msg), Some(cod)) => {
                    let rest = strip_env_fields(m);
                    Some(
                        EnvV {
                            ok: b,
                            message: msg,
                            code: cod,
                            inner: if rest.len() == 0 {
                                None
                            } else {
                                Some(JVal::Obj(rest))
                            },
                        },
                    )
                },
                _ => None,
            },
            _ => None,
        },
        _ => None,
    }
}


// ---------- executable envelope adapters ----------

impl RiverResultInternal<JsonValue> {
    /// Wire form of this envelope, as [`envelope_jv`] describes.
    #[verifier::loop_isolation(false)]
    pub fn to_json(&self) -> (r: JsonValue)
        ensures
            r@ == envelope_jv(self@),
    {
        let mut fields: Vec<(String, JsonValue)> = Vec::new();
        fields.push(("ok".to_owned(), JsonValue::Bool(self.ok)));
        proof {
            lemma_jmembers_of(fields@);
            assert(jmembers_of(fields@) =~~= seq![(("ok")@, JVal::Bool(self.ok))]);
        }
        let ghost okpart = jmembers_of(fields@);
        if let Some(m) = &self.message {
            let ghost prev = fields@;
            fields.push(("message".to_owned(), JsonValue::Str(m.clone())));
            proof {
                lemma_jmembers_of_push(prev, fields@[prev.len() as int].0, fields@[prev.len() as int].1);
            }
        }
        proof {
            lemma_jmembers_of(fields@);
            assert(jmembers_of(fields@) =~~= okpart + (match self@.message {
                Some(s) => seq![(("message")@, JVal::Str(s))],
                None => Seq::empty(),
            }));
        }
        let ghost msgpart = jmembers_of(fields@);
        if let Some(c) = &self.code {
            let ghost prev = fields@;
            fields.push(("code".to_owned(), JsonValue::Str(c.clone())));
            proof {
                lemma_jmembers_of_push(prev, fields@[prev.len() as int].0, fields@[prev.len() as int].1);
            }
        }
        proof {
            lemma_jmembers_of(fields@);
            assert(jmembers_of(fields@) =~~= msgpart + (match self@.code {
                Some(s) => seq![(("code")@, JVal::Str(s))],
                None => Seq::empty(),
            }));
        }
        let ghost codepart = jmembers_of(fields@);
        if let Some(inner) = &self.inner {
            if let JsonValue::Obj(f) = inner {
                let mut i: usize = 0;
                while i < f.len()
                    invariant
                        i <= f@.len(),
                        jmembers_of(fields@) =~= codepart + jmembers_of(f@).take(i as int),
                    decreases f@.len() - i,
                {
                    let pair = &f[i];
                    let ghost prev = fields@;
                    fields.push((pair.0.clone(), jv_clone(&pair.1)));
                    proof {
                        lemma_jmembers_of(f@);
                        lemma_jmembers_of_push(prev, fields@[prev.len() as int].0, fields@[prev.len() as int].1);
                        lemma_jmembers_of(fields@);
                        assert(jmembers_of(fields@) =~~= codepart + jmembers_of(f@).take(i
                            + 1 as int));
                    }
                    i = i + 1;
                }
                proof {
                    lemma_jmembers_of(f@);
                    assert(jmembers_of(f@).take(f@.len() as int) =~~= jmembers_of(f@));
                }
            }
        }
        proof {
            assert(jmembers_of(fields@) =~~= codepart + env_inner_fields(self@));
        }
        JsonValue::Obj(fields)
    }

    /// Reads an envelope from its wire form, as [`envelope_of_jv`]
    /// describes.
    #[verifier::loop_isolation(false)]
    pub fn from_json(v: &JsonValue) -> (r: Option<RiverResultInternal<JsonValue>>)
        ensures
            match r {
                Some(e) => envelope_of_jv(v@) == Some(e@),
                None => envelope_of_jv(v@) is None,
            },
    {
        let fields = match v {
            JsonValue::Obj(f) => f,
            _ => {
                return None;
            },
        };
        let ghost mm = jmembers_of(fields@);
        proof {
            lemma_jmembers_of(fields@);
            reveal_strlit("ok");
            reveal_strlit("message");
            reveal_strlit("code");
        }
        let ok = match jv_get(v, "ok") {
            Some(JsonValue::Bool(b)) => *b,
            _ => {
                return None;
            },
        };
        let message: Option<String> = match jv_get(v, "message") {
            None => None,
            Some(JsonValue::Null) => None,
            Some(JsonValue::Str(s)) => Some(s.clone()),
            Some(_) => {
                return None;
            },
        };
        let code: Option<String> = match jv_get(v, "code") {
            None => None,
            Some(JsonValue::Null) => None,
            Some(JsonValue::Str(s)) => Some(s.clone()),
            Some(_) => {
                return None;
            },
        };
        let mut rest: Vec<(String, JsonValue)> = Vec::new();
        let mut i: usize = 0;
        proof {
            assert(mm.skip(0) =~= mm);
            assert(jmembers_of(rest@) =~= Seq::<(Seq<char>, JVal)>::empty());
        }
        while i < fields.len()
            invariant
                i <= fields@.len(),
                strip_env_fields(mm) =~= jmembers_of(rest@) + strip_env_fields(
                    mm.skip(i as int),
                ),
            decreases fields@.len() - i,
        {
            let ghost prev = rest@;
            proof {
                reveal_strlit("ok");
                reveal_strlit("message");
                reveal_strlit("code");
                assert(mm.skip(i as int)[0] == mm[i as int]);
                assert(mm.skip(i as int).drop_first() =~= mm.skip(i + 1 as int));
            }
            let pair = &fields[i];
            let k = pair.0.as_str();
            if str_eq(k, "ok") || str_eq(k, "message") || str_eq(k, "code") {
            } else {
                rest.push((pair.0.clone(), jv_clone(&pair.1)));
                proof {
                    lemma_jmembers_of_push(prev, rest@[prev.len() as int].0, rest@[prev.len() as int].1);
                    assert(jmembers_of(rest@) =~~= jmembers_of(prev).push(
                        (mm[i as int].0, mm[i as int].1),
                    ));
                    assert forall|t0: Seq<(Seq<char>, JVal)>|
                        true implies jmembers_of(prev) + (seq![mm[i as int]] + t0) == jmembers_of(
                        rest@,
                    ) + t0 by {
                        assert(jmembers_of(prev) + (seq![mm[i as int]] + t0) =~= jmembers_of(rest@)
                            + t0);
                    }
                }
            }
            i = i + 1;
        }
        proof {
            assert(mm.skip(fields@.len() as int).len() == 0);
            assert(strip_env_fields(mm) =~= jmembers_of(rest@) + Seq::<(Seq<char>, JVal)>::empty());
            assert(strip_env_fields(mm) =~= jmembers_of(rest@));
        }
        let inner: Option<JsonValue> = if rest.len() == 0 {
            None
        } else {
            Some(JsonValue::Obj(rest))
        };
        Some(RiverResultInternal { ok, message, code, inner })
    }
}

// ---------- the envelope law ----------

/// No field name collides with the envelope's own fields.
pub open spec fn env_keys_free(f: Seq<(Seq<char>, JVal)>) -> bool {
    forall|i: int|
        0 <= i < f.len() ==> (#[trigger] f[i]).0 != ("ok")@ && f[i].0 != ("message")@ && f[i].0
            != ("code")@
}

/// A well-formed envelope: a success carries only a non-empty inner
/// object whose fields are free of the envelope's names; a failure
/// carries only message and code.
pub open spec fn envelope_wf(e: EnvV) -> bool {
    if e.ok {
        e.message is None && e.code is None && (e.inner matches Some(JVal::Obj(f)) && f.len() >= 1
            && env_keys_free(f))
    } else {
        e.message is Some && e.code is Some && e.inner is None
    }
}

pub proof fn lemma_obj_get_absent_pub(f: Seq<(Seq<char>, JVal)>, k: Seq<char>)
    requires
        forall|i: int| 0 <= i < f.len() ==> (#[trigger] f[i]).0 != k,
    ensures
        obj_get(f, k) is None,
{
    lemma_obj_get_absent(f, k);
}

proof fn lemma_obj_get_absent(f: Seq<(Seq<char>, JVal)>, k: Seq<char>)
    requires
        forall|i: int| 0 <= i < f.len() ==> (#[trigger] f[i]).0 != k,
    ensures
        obj_get(f, k) is None,
    decreases f,
{
    if f.len() > 0 {
        assert forall|i: int|
            0 <= i < f.drop_first().len() implies (#[trigger] f.drop_first()[i]).0 != k by {
            assert(f.drop_first()[i] == f[i + 1]);
        }
        lemma_obj_get_absent(f.drop_first(), k);
    }
}

proof fn lemma_strip_free(f: Seq<(Seq<char>, JVal)>)
    requires
        env_keys_free(f),
    ensures
        strip_env_fields(f) == f,
    decreases f,
{
    if f.len() > 0 {
        assert forall|i: int|
            0 <= i < f.drop_first().len() implies (#[trigger] f.drop_first()[i]).0 != ("ok")@
            && f.drop_first()[i].0 != ("message")@ && f.drop_first()[i].0 != ("code")@ by {
            assert(f.drop_first()[i] == f[i + 1]);
        }
        lemma_strip_free(f.drop_first());
        assert(strip_env_fields(f) =~= f);
    }
}

/// The envelope law: a success envelope and the wire form
/// `{ok: true, ...fields}` convert back and forth; a failure
/// envelope and `{ok: false, message, code}` likewise.
pub proof fn lemma_envelope_round_trip(e: EnvV)
    requires
        envelope_wf(e),
    ensures
        envelope_of_jv(envelope_jv(e)) == Some(e),
{
    reveal_strlit("ok");
    reveal_strlit("message");
    reveal_strlit("code");
    assert(("ok")@.len() == 2);
    assert(("message")@.len() == 7);
    assert(("code")@.len() == 4);
    let x = envelope_jv(e);
    if e.ok {
        let f = env_inner_fields(e);
        let m = seq![(("ok")@, JVal::Bool(true))] + Seq::<(Seq<char>, JVal)>::empty()
            + Seq::<(Seq<char>, JVal)>::empty() + f;
        assert(x == JVal::Obj(m));
        assert(m[0] == (("ok")@, JVal::Bool(true)));
        assert(m.drop_first() =~= f);
        assert(obj_get(m, ("ok")@) == Some(JVal::Bool(true)));
        assert(("message")@ != ("ok")@);
        assert(("code")@ != ("ok")@);
        lemma_obj_get_absent(f, ("message")@);
        lemma_obj_get_absent(f, ("code")@);
        assert(obj_get(m, ("message")@) is None);
        assert(obj_get(m, ("code")@) is None);
        lemma_strip_free(f);
        assert(strip_env_fields(m) =~= f);
        assert(f.len() >= 1);
        assert(envelope_of_jv(x) == Some(e));
    } else {
        let ms = e.message->Some_0;
        let cs = e.code->Some_0;
        let m = seq![(("ok")@, JVal::Bool(false))] + seq![(("message")@, JVal::Str(ms))] + seq![
            (("code")@, JVal::Str(cs)),
        ] + Seq::<(Seq<char>, JVal)>::empty();
        assert(x == JVal::Obj(m));
        assert(m.len() == 3);
        assert(m[0] == (("ok")@, JVal::Bool(false)));
        assert(m[1] == (("message")@, JVal::Str(ms)));
        assert(m[2] == (("code")@, JVal::Str(cs)));
        crate::value::lemma_obj_get_at(m, 0);
        crate::value::lemma_obj_get_at(m, 1);
        crate::value::lemma_obj_get_at(m, 2);
        assert(obj_get(m, ("ok")@) == Some(JVal::Bool(false)));
        assert(obj_get(m, ("message")@) == Some(JVal::Str(ms)));
        assert(obj_get(m, ("code")@) == Some(JVal::Str(cs)));
        let m1 = m.drop_first();
        let m2 = m1.drop_first();
        let m3 = m2.drop_first();
        assert(m1[0] == m[1]);
        assert(m2[0] == m[2]);
        assert(m3.len() == 0);
        assert(strip_env_fields(m3) =~= Seq::<(Seq<char>, JVal)>::empty());
        assert(strip_env_fields(m2) =~= Seq::<(Seq<char>, JVal)>::empty());
        assert(strip_env_fields(m1) =~= Seq::<(Seq<char>, JVal)>::empty());
        assert(strip_env_fields(m) =~= Seq::<(Seq<char>, JVal)>::empty());
        assert(envelope_of_jv(x) == Some(e));
    }
}

} // verus!
