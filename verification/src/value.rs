use vstd::prelude::*;
use crate::number::Number;
use crate::object::{ObjectMap, has_key, last_key_index};
use crate::small_string::SmallString;
use crate::ValueType;

verus! {

/// A JSON value. String content is held as bytes: either an owned
/// copy produced by the general string parser, or the inline
/// `SmallString` copy produced by the short-string scanner.
pub enum Value {
    Null,
    Bool(bool),
    Number(Number),
    String(Vec<u8>),
    SmallString(SmallString),
    Array(Vec<Value>),
    Object(ObjectMap),
}

/// Every object inside the value keeps its key index in step with its
/// entry list.
pub open spec fn value_wf(v: Value) -> bool
    decreases v,
{
    match v {
        Value::Array(a) => array_wf(a@),
        Value::Object(m) => m.wf() && m.values_wf(),
        _ => true,
    }
}

/// Every element of the sequence is a well-formed value.
pub open spec fn array_wf(s: Seq<Value>) -> bool
    decreases s,
{
    if s.len() == 0 {
        true
    } else {
        value_wf(s.first()) && array_wf(s.drop_first())
    }
}

/// Every entry's value in the sequence is a well-formed value.
pub open spec fn entries_wf(s: Seq<(Vec<u8>, Value)>) -> bool
    decreases s,
{
    if s.len() == 0 {
        true
    } else {
        value_wf(s.first().1) && entries_wf(s.drop_first())
    }
}

pub proof fn lemma_array_wf(s: Seq<Value>)
    ensures
        array_wf(s) <==> (forall|i: int| 0 <= i < s.len() ==> value_wf(#[trigger] s[i])),
    decreases s.len(),
{
    if s.len() > 0 {
        lemma_array_wf(s.drop_first());
        if array_wf(s) {
            assert forall|i: int| 0 <= i < s.len() implies value_wf(#[trigger] s[i]) by {
                if i > 0 {
                    assert(s.drop_first()[i - 1] == s[i]);
                }
            }
        }
        if forall|i: int| 0 <= i < s.len() ==> value_wf(#[trigger] s[i]) {
            assert forall|j: int|
                0 <= j < s.drop_first().len() implies value_wf(#[trigger] s.drop_first()[j]) by {
                assert(s.drop_first()[j] == s[j + 1]);
            }
            assert(array_wf(s));
        }
    }
}

pub proof fn lemma_entries_wf(s: Seq<(Vec<u8>, Value)>)
    ensures
        entries_wf(s) <==> (forall|i: int| 0 <= i < s.len() ==> value_wf(#[trigger] s[i].1)),
    decreases s.len(),
{
    if s.len() > 0 {
        lemma_entries_wf(s.drop_first());
        if entries_wf(s) {
            assert forall|i: int| 0 <= i < s.len() implies value_wf(#[trigger] s[i].1) by {
                if i > 0 {
                    assert(s.drop_first()[i - 1] == s[i]);
                }
            }
        }
        if forall|i: int| 0 <= i < s.len() ==> value_wf(#[trigger] s[i].1) {
            assert forall|j: int|
                0 <= j < s.drop_first().len() implies value_wf(
                #[trigger] s.drop_first()[j].1,
            ) by {
                assert(s.drop_first()[j] == s[j + 1]);
            }
            assert(entries_wf(s));
        }
    }
}

/// Structural equality of two values: variant tags and contents must
/// agree. Strings compare by byte content within one representation;
/// an inline string and an owned string stay distinct (see
/// `spec_content` for the representation-blind view). Objects compare
/// as maps: same size, and every entry of the left is bound, by key,
/// to an equal value on the right, whatever the insertion order.
/// On maps with unique keys this is true map equality and symmetric;
/// on a map that holds repeated keys the comparison reads each side's
/// keys through the other's latest binding, so, like the underlying
/// map's own equality, it is not symmetric there.
pub open spec fn value_eq(a: Value, b: Value) -> bool
    decreases a,
    via value_eq_decreases
{
    match (a, b) {
        (Value::Null, Value::Null) => true,
        (Value::Bool(x), Value::Bool(y)) => x == y,
        (Value::Number(x), Value::Number(y)) => x == y,
        (Value::String(x), Value::String(y)) => x@ == y@,
        (Value::SmallString(x), Value::SmallString(y)) => x@ == y@,
        (Value::Array(x), Value::Array(y)) => array_eq(x@, y@),
        (Value::Object(x), Value::Object(y)) => x@.len() == y@.len() && entries_sub(x@, y@),
        _ => false,
    }
}

/// Elementwise equality of two value sequences.
pub open spec fn array_eq(xs: Seq<Value>, ys: Seq<Value>) -> bool
    decreases xs,
{
    if xs.len() != ys.len() {
        false
    } else if xs.len() == 0 {
        true
    } else {
        value_eq(xs.first(), ys.first()) && array_eq(xs.drop_first(), ys.drop_first())
    }
}

/// Every entry of `xs` is bound, by key, to an equal value in `ys`.
pub open spec fn entries_sub(xs: Seq<(Vec<u8>, Value)>, ys: Seq<(Vec<u8>, Value)>) -> bool
    decreases xs,
{
    if xs.len() == 0 {
        true
    } else {
        has_key(ys, xs.first().0@) && value_eq(
            xs.first().1,
            crate::object::lookup(ys, xs.first().0@),
        ) && entries_sub(xs.drop_first(), ys)
    }
}

pub proof fn lemma_array_eq(xs: Seq<Value>, ys: Seq<Value>)
    ensures
        array_eq(xs, ys) <==> (xs.len() == ys.len() && (forall|i: int|
            0 <= i < xs.len() ==> value_eq(#[trigger] xs[i], ys[i]))),
    decreases xs.len(),
{
    if xs.len() == ys.len() && xs.len() > 0 {
        lemma_array_eq(xs.drop_first(), ys.drop_first());
        if array_eq(xs, ys) {
            assert forall|i: int| 0 <= i < xs.len() implies value_eq(#[trigger] xs[i], ys[i]) by {
                if i > 0 {
                    assert(xs.drop_first()[i - 1] == xs[i]);
                    assert(ys.drop_first()[i - 1] == ys[i]);
                }
            }
        }
        if forall|i: int| 0 <= i < xs.len() ==> value_eq(#[trigger] xs[i], ys[i]) {
            assert forall|j: int|
                0 <= j < xs.drop_first().len() implies value_eq(
                #[trigger] xs.drop_first()[j],
                ys.drop_first()[j],
            ) by {
                assert(xs.drop_first()[j] == xs[j + 1]);
                assert(ys.drop_first()[j] == ys[j + 1]);
            }
            assert(array_eq(xs, ys));
        }
    }
}

pub proof fn lemma_entries_sub(xs: Seq<(Vec<u8>, Value)>, ys: Seq<(Vec<u8>, Value)>)
    ensures
        entries_sub(xs, ys) <==> (forall|i: int|
            0 <= i < xs.len() ==> (has_key(ys, #[trigger] xs[i].0@) && value_eq(
                xs[i].1,
                crate::object::lookup(ys, xs[i].0@),
            ))),
    decreases xs.len(),
{
    if xs.len() > 0 {
        lemma_entries_sub(xs.drop_first(), ys);
        if entries_sub(xs, ys) {
            assert forall|i: int|
                0 <= i < xs.len() implies (has_key(ys, #[trigger] xs[i].0@) && value_eq(
                xs[i].1,
                crate::object::lookup(ys, xs[i].0@),
            )) by {
                if i > 0 {
                    assert(xs.drop_first()[i - 1] == xs[i]);
                }
            }
        }
        if forall|i: int|
            0 <= i < xs.len() ==> (has_key(ys, #[trigger] xs[i].0@) && value_eq(
                xs[i].1,
                crate::object::lookup(ys, xs[i].0@),
            )) {
            assert forall|j: int|
                0 <= j < xs.drop_first().len() implies (has_key(
                ys,
                #[trigger] xs.drop_first()[j].0@,
            ) && value_eq(
                xs.drop_first()[j].1,
                crate::object::lookup(ys, xs.drop_first()[j].0@),
            )) by {
                assert(xs.drop_first()[j] == xs[j + 1]);
            }
            assert(entries_sub(xs, ys));
        }
    }
}

#[via_fn]
proof fn value_eq_decreases(a: Value, b: Value) {
    match a {
        Value::Object(m) => {
            crate::object::lemma_map_view_decreases(m);
        },
        _ => {
        },
    }
}

/// The mathematical shape of a parsed value: what the builder is
/// meant to produce for a given token range, with string content as
/// plain bytes and a flag for the inline representation.
pub enum SpecVal {
    Null,
    Bool(bool),
    Int(int),
    Str(Seq<u8>, bool),
    Arr(Seq<SpecVal>),
    Obj(Seq<(Seq<u8>, SpecVal)>),
}

/// The value `v` realises the shape `s`: same structure, same
/// contents, and each string in the representation the flag names.
pub open spec fn models(v: Value, s: SpecVal) -> bool
    decreases v,
    via models_decreases
{
    match (v, s) {
        (Value::Null, SpecVal::Null) => true,
        (Value::Bool(a), SpecVal::Bool(b)) => a == b,
        (Value::Number(n), SpecVal::Int(x)) => n->I64_0 == x,
        (Value::String(b), SpecVal::Str(content, small)) => !small && b@ == content,
        (Value::SmallString(ss), SpecVal::Str(content, small)) => small && ss@ == content,
        (Value::Array(a), SpecVal::Arr(xs)) => models_seq(a@, xs),
        (Value::Object(m), SpecVal::Obj(ps)) => models_entries(m@, ps),
        _ => false,
    }
}

#[via_fn]
proof fn models_decreases(v: Value, s: SpecVal) {
    match v {
        Value::Object(m) => {
            crate::object::lemma_map_view_decreases(m);
        },
        _ => {
        },
    }
}

/// Elementwise realisation of a sequence of shapes.
pub open spec fn models_seq(vs: Seq<Value>, xs: Seq<SpecVal>) -> bool
    decreases vs,
{
    if vs.len() != xs.len() {
        false
    } else if vs.len() == 0 {
        true
    } else {
        models(vs.first(), xs.first()) && models_seq(vs.drop_first(), xs.drop_first())
    }
}

/// Pairwise realisation of an entry list: same keys in the same
/// order, each value realising its shape.
pub open spec fn models_entries(es: Seq<(Vec<u8>, Value)>, ps: Seq<(Seq<u8>, SpecVal)>) -> bool
    decreases es,
{
    if es.len() != ps.len() {
        false
    } else if es.len() == 0 {
        true
    } else {
        es.first().0@ == ps.first().0 && models(es.first().1, ps.first().1) && models_entries(
            es.drop_first(),
            ps.drop_first(),
        )
    }
}

pub proof fn lemma_models_seq_push(vs: Seq<Value>, xs: Seq<SpecVal>, v: Value, x: SpecVal)
    requires
        models_seq(vs, xs),
        models(v, x),
    ensures
        models_seq(vs.push(v), xs.push(x)),
    decreases vs.len(),
{
    if vs.len() == 0 {
        assert(vs.push(v).drop_first() =~= Seq::<Value>::empty());
        assert(xs.push(x).drop_first() =~= Seq::<SpecVal>::empty());
        assert(models_seq(Seq::<Value>::empty(), Seq::<SpecVal>::empty()));
        assert(vs.push(v).first() == v);
        assert(xs.push(x).first() == x);
    } else {
        assert(models(vs.first(), xs.first()));
        lemma_models_seq_push(vs.drop_first(), xs.drop_first(), v, x);
        assert(vs.push(v).drop_first() =~= vs.drop_first().push(v));
        assert(xs.push(x).drop_first() =~= xs.drop_first().push(x));
        assert(vs.push(v).first() == vs.first());
        assert(xs.push(x).first() == xs.first());
    }
}

pub proof fn lemma_models_entries_push(
    es: Seq<(Vec<u8>, Value)>,
    ps: Seq<(Seq<u8>, SpecVal)>,
    e: (Vec<u8>, Value),
    p: (Seq<u8>, SpecVal),
)
    requires
        models_entries(es, ps),
        e.0@ == p.0,
        models(e.1, p.1),
    ensures
        models_entries(es.push(e), ps.push(p)),
    decreases es.len(),
{
    if es.len() == 0 {
        assert(es.push(e).drop_first() =~= Seq::<(Vec<u8>, Value)>::empty());
        assert(ps.push(p).drop_first() =~= Seq::<(Seq<u8>, SpecVal)>::empty());
        assert(models_entries(Seq::<(Vec<u8>, Value)>::empty(), Seq::<(Seq<u8>, SpecVal)>::empty()));
        assert(es.push(e).first() == e);
        assert(ps.push(p).first() == p);
    } else {
        assert(models(es.first().1, ps.first().1));
        lemma_models_entries_push(es.drop_first(), ps.drop_first(), e, p);
        assert(es.push(e).drop_first() =~= es.drop_first().push(e));
        assert(ps.push(p).drop_first() =~= ps.drop_first().push(p));
        assert(es.push(e).first() == es.first());
        assert(ps.push(p).first() == ps.first());
    }
}

/// The byte content a string-bearing value carries, whatever its
/// representation; nothing for the other variants.
pub open spec fn spec_content(v: Value) -> Option<Seq<u8>> {
    match v {
        Value::String(s) => Some(s@),
        Value::SmallString(s) => Some(s@),
        _ => None,
    }
}

/// Content access does not depend on the representation: a borrowed-
/// style string and an inline string holding the same bytes expose
/// the same content, although they remain distinct variants.
pub proof fn lemma_content_ignores_representation(a: Value, b: Value)
    requires
        a matches Value::String(s) && b matches Value::SmallString(t) && s@ == t@,
    ensures
        spec_content(a) == spec_content(b),
{
}

fn vecs_eq(a: &Vec<u8>, b: &Vec<u8>) -> (r: bool)
    ensures
        r == (a@ == b@),
{
    let n = a.len();
    if n != b.len() {
        return false;
    }
    let mut j: usize = 0;
    while j < n
        invariant
            n == a@.len(),
            n == b@.len(),
            j <= n,
            forall|k: int| 0 <= k < j ==> a@[k] == b@[k],
        decreases n - j,
    {
        if *vstd::std_specs::vec::vec_index(a, j) != *vstd::std_specs::vec::vec_index(b, j) {
            return false;
        }
        j += 1;
    }
    proof {
        assert(a@ =~= b@);
    }
    true
}

impl Value {
    /// Structural equality of two well-formed values, as `value_eq`
    /// states it: tags and contents agree, objects compare as maps
    /// regardless of insertion order.
    pub fn eq_value(&self, other: &Value) -> (r: bool)
        requires
            value_wf(*self),
            value_wf(*other),
        ensures
            r == value_eq(*self, *other),
        decreases *self,
    {
        match (self, other) {
            (Value::Null, Value::Null) => true,
            (Value::Bool(x), Value::Bool(y)) => *x == *y,
            (Value::Number(x), Value::Number(y)) => *x == *y,
            (Value::String(x), Value::String(y)) => vecs_eq(x, y),
            (Value::SmallString(x), Value::SmallString(y)) => x.eq(y),
            (Value::Array(x), Value::Array(y)) => {
                let n = x.len();
                if n != y.len() {
                    return false;
                }
                let mut i: usize = 0;
                while i < n
                    invariant
                        *self == Value::Array(*x),
                        *other == Value::Array(*y),
                        value_wf(*self),
                        value_wf(*other),
                        n == x@.len(),
                        n == y@.len(),
                        i <= n,
                        forall|k: int| 0 <= k < i ==> value_eq(#[trigger] x@[k], y@[k]),
                    decreases n - i,
                {
                    let xe = vstd::std_specs::vec::vec_index(x, i);
                    let ye = vstd::std_specs::vec::vec_index(y, i);
                    proof {
                        assert(value_wf(Value::Array(*x)));
                        assert(value_wf(Value::Array(*y)));
                        lemma_array_wf((*x)@);
                        lemma_array_wf((*y)@);
                        assert(value_wf((*x)@[i as int]));
                        assert(value_wf((*y)@[i as int]));
                        assert(decreases_to!(*self => (*self)->Array_0));
                        assert(decreases_to!(*x => x@));
                        assert(decreases_to!(x@ => x@[i as int]));
                    }
                    if !xe.eq_value(ye) {
                        proof {
                            assert(!value_eq(x@[i as int], y@[i as int]));
                            lemma_array_eq((*x)@, (*y)@);
                        }
                        return false;
                    }
                    i += 1;
                }
                proof {
                    lemma_array_eq((*x)@, (*y)@);
                }
                true
            },
            (Value::Object(x), Value::Object(y)) => {
                let n = x.len();
                if n != y.len() {
                    return false;
                }
                let mut i: usize = 0;
                while i < n
                    invariant
                        *self == Value::Object(*x),
                        *other == Value::Object(*y),
                        value_wf(*self),
                        value_wf(*other),
                        n == x@.len(),
                        n == y@.len(),
                        i <= n,
                        forall|k: int|
                            0 <= k < i ==> (has_key(y@, #[trigger] x@[k].0@) && value_eq(
                                x@[k].1,
                                crate::object::lookup(y@, x@[k].0@),
                            )),
                    decreases n - i,
                {
                    let key = x.key_at(i);
                    let val = x.value_at(i);
                    proof {
                        assert(value_wf(Value::Object(*x)));
                        assert(value_wf(Value::Object(*y)));
                        crate::object::lemma_values_wf(*x);
                        crate::object::lemma_values_wf(*y);
                        crate::object::lemma_entry_decreases(*x, i as int);
                        assert(decreases_to!(*self => (*self)->Object_0));
                        assert(value_wf((*x)@[i as int].1));
                    }
                    match y.get(key.as_slice()) {
                        Some(w) => {
                            proof {
                                crate::object::lemma_last_key_index_props(y@, key@);
                            }
                            if !val.eq_value(w) {
                                proof {
                                    assert(!value_eq(
                                        x@[i as int].1,
                                        crate::object::lookup(y@, x@[i as int].0@),
                                    ));
                                    lemma_entries_sub((*x)@, (*y)@);
                                }
                                return false;
                            }
                        },
                        None => {
                            proof {
                                assert(!has_key(y@, x@[i as int].0@));
                                lemma_entries_sub((*x)@, (*y)@);
                            }
                            return false;
                        },
                    }
                    i += 1;
                }
                proof {
                    lemma_entries_sub((*x)@, (*y)@);
                }
                true
            },
            _ => false,
        }
    }

    /// The kind tag of the value; both string representations report
    /// the same kind.
    pub fn kind(&self) -> (r: ValueType)
        ensures
            r == (match *self {
                Value::Null => ValueType::Null,
                Value::Bool(_) => ValueType::Bool,
                Value::Number(_) => ValueType::I64,
                Value::String(_) => ValueType::String,
                Value::SmallString(_) => ValueType::String,
                Value::Array(_) => ValueType::Array,
                Value::Object(_) => ValueType::Object,
            }),
    {
        match self {
            Value::Null => ValueType::Null,
            Value::Bool(_) => ValueType::Bool,
            Value::Number(_) => ValueType::I64,
            Value::String(_) => ValueType::String,
            Value::SmallString(_) => ValueType::String,
            Value::Array(_) => ValueType::Array,
            Value::Object(_) => ValueType::Object,
        }
    }

    pub fn is_null(&self) -> (r: bool)
        ensures
            r == (*self matches Value::Null),
    {
        match self {
            Value::Null => true,
            _ => false,
        }
    }

    pub fn as_bool(&self) -> (r: Option<bool>)
        ensures
            match *self {
                Value::Bool(b) => r == Some(b),
                _ => r is None,
            },
    {
        match self {
            Value::Bool(b) => Some(*b),
            _ => None,
        }
    }

    pub fn as_i64(&self) -> (r: Option<i64>)
        ensures
            match *self {
                Value::Number(n) => r == Some(n->I64_0),
                _ => r is None,
            },
    {
        match self {
            Value::Number(n) => n.as_i64(),
            _ => None,
        }
    }

    pub fn as_u64(&self) -> (r: Option<u64>)
        ensures
            match *self {
                Value::Number(n) => {
                    if n->I64_0 >= 0 {
                        r == Some(n->I64_0 as u64)
                    } else {
                        r is None
                    }
                },
                _ => r is None,
            },
    {
        match self {
            Value::Number(n) => n.as_u64(),
            _ => None,
        }
    }

    /// The owned byte content of a general string value. An inline
    /// small string reports nothing here: the two representations are
    /// deliberately not unified (see `content_bytes`).
    pub fn as_string(&self) -> (r: Option<&Vec<u8>>)
        ensures
            match *self {
                Value::String(_) => r == Some(&self->String_0),
                _ => r is None,
            },
    {
        match self {
            Value::String(s) => Some(s),
            _ => None,
        }
    }

    /// The byte content of either string representation.
    pub fn content_bytes(&self) -> (r: Option<Vec<u8>>)
        ensures
            match r {
                Some(b) => spec_content(*self) == Some(b@),
                None => spec_content(*self) is None,
            },
    {
        match self {
            Value::String(s) => {
                let mut out: Vec<u8> = Vec::new();
                let n = s.len();
                let mut j: usize = 0;
                while j < n
                    invariant
                        n == s@.len(),
                        j <= n,
                        out@ == s@.take(j as int),
                    decreases n - j,
                {
                    out.push(*vstd::std_specs::vec::vec_index(s, j));
                    proof {
                        assert(out@ =~= s@.take(j + 1));
                    }
                    j += 1;
                }
                proof {
                    assert(s@.take(n as int) =~= s@);
                }
                Some(out)
            },
            Value::SmallString(s) => {
                let b = s.as_bytes();
                let mut out: Vec<u8> = Vec::new();
                let n = b.len();
                let mut j: usize = 0;
                while j < n
                    invariant
                        n == b@.len(),
                        j <= n,
                        out@ == b@.take(j as int),
                    decreases n - j,
                {
                    out.push(*vstd::slice::slice_index_get(b, j));
                    proof {
                        assert(out@ =~= b@.take(j + 1));
                    }
                    j += 1;
                }
                proof {
                    assert(b@.take(n as int) =~= b@);
                }
                Some(out)
            },
            _ => None,
        }
    }

    /// Mutable view of an array value; the new value of the array
    /// becomes the new value behind the borrow.
    pub fn as_array_mut(&mut self) -> (r: Option<&mut Vec<Value>>)
        ensures
            *old(self) matches Value::Array(_) ==> (r matches Some(a) && *a
                == old(self)->Array_0 && *final(self) == Value::Array(*final(a))),
            !(*old(self) matches Value::Array(_)) ==> (r is None && *final(self) == *old(self)),
    {
        match self {
            Value::Array(a) => Some(a),
            _ => None,
        }
    }

    pub fn as_array(&self) -> (r: Option<&Vec<Value>>)
        ensures
            match *self {
                Value::Array(_) => r == Some(&self->Array_0),
                _ => r is None,
            },
    {
        match self {
            Value::Array(a) => Some(a),
            _ => None,
        }
    }

    /// Mutable view of an object value.
    pub fn as_object_mut(&mut self) -> (r: Option<&mut ObjectMap>)
        ensures
            *old(self) matches Value::Object(_) ==> (r matches Some(m) && *m
                == old(self)->Object_0 && *final(self) == Value::Object(*final(m))),
            !(*old(self) matches Value::Object(_)) ==> (r is None && *final(self) == *old(self)),
    {
        match self {
            Value::Object(m) => Some(m),
            _ => None,
        }
    }

    pub fn as_object(&self) -> (r: Option<&ObjectMap>)
        ensures
            match *self {
                Value::Object(_) => r == Some(&self->Object_0),
                _ => r is None,
            },
    {
        match self {
            Value::Object(m) => Some(m),
            _ => None,
        }
    }

    /// Field lookup: the value bound to `k` when this is an object
    /// that carries the key, nothing for any other variant or key.
    pub fn get(&self, k: &[u8]) -> (r: Option<&Value>)
        requires
            value_wf(*self),
        ensures
            match *self {
                Value::Object(m) => (match r {
                    Some(v) => has_key(m@, k@) && *v == m@[last_key_index(m@, k@)].1,
                    None => !has_key(m@, k@),
                }),
                _ => r is None,
            },
    {
        match self {
            Value::Object(m) => m.get(k),
            _ => None,
        }
    }
}

impl Value {
    /// Mutable field lookup: the value bound to `k` when this is an
    /// object that carries the key; the caller's writes land in that
    /// entry and the object's key index stays in step.
    pub fn get_mut(&mut self, k: &[u8]) -> (r: Option<&mut Value>)
        requires
            value_wf(*old(self)),
        ensures
            *old(self) matches Value::Object(m0) ==> (match r {
                Some(p) => has_key(m0@, k@) && *p == crate::object::lookup(m0@, k@)
                    && (*final(self) matches Value::Object(m1) && m1@ == m0@.update(
                    last_key_index(m0@, k@),
                    (m0@[last_key_index(m0@, k@)].0, *final(p)),
                ) && m1.wf()),
                None => !has_key(m0@, k@) && *final(self) == *old(self),
            }),
            !(*old(self) matches Value::Object(_)) ==> (r is None && *final(self) == *old(self)),
    {
        match self {
            Value::Object(m) => m.get_mut(k),
            _ => None,
        }
    }
}

impl Default for Value {
    /// The default value is `Null`, as for the source model.
    fn default() -> (r: Self)
        ensures
            r matches Value::Null,
    {
        Value::Null
    }
}

} // verus!
