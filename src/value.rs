use vstd::prelude::*;

verus! {

/// A JSON value as a mathematical object: strings are character sequences, a
/// number is the text of its literal, an object is its members in order.
pub enum Json {
    Null,
    Str(Seq<char>),
    Num(Seq<char>),
    Bool(bool),
    Arr(Seq<Json>),
    Obj(Seq<(Seq<char>, Json)>),
}

/// A JSON value tree. A number holds the text of its literal; an object holds
/// its members in the order they were given.
#[derive(Debug, PartialEq)]
pub enum JsonValue {
    Null,
    String(String),
    Number(String),
    Boolean(bool),
    Array(Vec<JsonValue>),
    Object(Vec<(String, JsonValue)>),
}

/// A failed lookup in a value tree.
#[derive(Debug, Clone, Copy, PartialEq, Eq, Structural)]
pub enum AccessError {
    /// The value is not of the kind that the lookup needs.
    TypeMismatch,
    /// The position is not below the array's length.
    IndexOutOfBounds,
    /// The object has no member of that key.
    KeyNotFound,
}

/// The model of a value tree.
pub open spec fn model(v: JsonValue) -> Json
    decreases v, 1nat,
{
    match v {
        JsonValue::Null => Json::Null,
        JsonValue::String(s) => Json::Str(s@),
        JsonValue::Number(t) => Json::Num(t@),
        JsonValue::Boolean(b) => Json::Bool(b),
        JsonValue::Array(items) => Json::Arr(models(items@)),
        JsonValue::Object(members) => Json::Obj(member_models(members@)),
    }
}

/// The models of a sequence of value trees.
pub open spec fn models(s: Seq<JsonValue>) -> Seq<Json>
    decreases s, 0nat,
{
    if s.len() == 0 {
        Seq::empty()
    } else {
        models(s.drop_last()).push(model(s.last()))
    }
}

/// The models of a sequence of object members.
pub open spec fn member_models(s: Seq<(String, JsonValue)>) -> Seq<(Seq<char>, Json)>
    decreases s, 0nat,
{
    if s.len() == 0 {
        Seq::empty()
    } else {
        member_models(s.drop_last()).push((s.last().0@, model(s.last().1)))
    }
}

pub proof fn lemma_models_index(s: Seq<JsonValue>)
    ensures
        models(s).len() == s.len(),
        forall|m: int| 0 <= m < s.len() ==> #[trigger] models(s)[m] == model(s[m]),
    decreases s.len(),
{
    if s.len() > 0 {
        lemma_models_index(s.drop_last());
    }
}

pub proof fn lemma_member_models_index(s: Seq<(String, JsonValue)>)
    ensures
        member_models(s).len() == s.len(),
        forall|m: int|
            0 <= m < s.len() ==> #[trigger] member_models(s)[m] == (s[m].0@, model(s[m].1)),
    decreases s.len(),
{
    if s.len() > 0 {
        lemma_member_models_index(s.drop_last());
    }
}

pub proof fn lemma_models_push(s: Seq<JsonValue>, x: JsonValue)
    ensures
        models(s.push(x)) == models(s).push(model(x)),
{
    assert(s.push(x).drop_last() =~= s);
}

pub proof fn lemma_member_models_push(s: Seq<(String, JsonValue)>, x: (String, JsonValue))
    ensures
        member_models(s.push(x)) == member_models(s).push((x.0@, model(x.1))),
{
    assert(s.push(x).drop_last() =~= s);
}

/// The element at position `i` of an array value, or why there is none.
pub open spec fn element_at(v: Json, i: int) -> Result<Json, AccessError> {
    match v {
        Json::Arr(items) => if 0 <= i < items.len() {
            Ok(items[i])
        } else {
            Err(AccessError::IndexOutOfBounds)
        },
        _ => Err(AccessError::TypeMismatch),
    }
}

/// The position of the first member of `members` whose key is `k`.
pub open spec fn first_with_key(members: Seq<(Seq<char>, Json)>, k: Seq<char>) -> int {
    choose|m: int|
        0 <= m < members.len() && #[trigger] members[m].0 == k && forall|q: int|
            0 <= q < m ==> members[q].0 != k
}

/// Whether some member of `members` has the key `k`.
pub open spec fn key_present(members: Seq<(Seq<char>, Json)>, k: Seq<char>) -> bool {
    exists|m: int| 0 <= m < members.len() && #[trigger] members[m].0 == k
}

/// The value of the first member of an object value whose key is `k`, or why there is none.
pub open spec fn member_value(v: Json, k: Seq<char>) -> Result<Json, AccessError> {
    match v {
        Json::Obj(members) => if key_present(members, k) {
            Ok(members[first_with_key(members, k)].1)
        } else {
            Err(AccessError::KeyNotFound)
        },
        _ => Err(AccessError::TypeMismatch),
    }
}

proof fn lemma_first_with_key(members: Seq<(Seq<char>, Json)>, k: Seq<char>, m: int)
    requires
        0 <= m < members.len(),
        members[m].0 == k,
        forall|q: int| 0 <= q < m ==> members[q].0 != k,
    ensures
        first_with_key(members, k) == m,
{
    let f = first_with_key(members, k);
    assert(0 <= f < members.len() && members[f].0 == k && forall|q: int|
        0 <= q < f ==> members[q].0 != k);
    if f < m {
        assert(members[f].0 != k);
    } else if f > m {
        assert(members[m].0 != k);
    }
}

impl JsonValue {
    /// The element at position `i` of an array.
    pub fn index(&self, i: usize) -> (r: Result<&JsonValue, AccessError>)
        ensures
            match self {
                JsonValue::Array(items) => if i < items.len() {
                    r is Ok && *r->Ok_0 == items@[i as int]
                } else {
                    r == Err::<&JsonValue, AccessError>(AccessError::IndexOutOfBounds)
                },
                _ => r == Err::<&JsonValue, AccessError>(AccessError::TypeMismatch),
            },
            match r {
                Ok(e) => element_at(self@, i as int) == Ok::<Json, AccessError>(e@),
                Err(f) => element_at(self@, i as int) == Err::<Json, AccessError>(f),
            },
    {
        proof {
            if let JsonValue::Array(items) = self {
                lemma_models_index(items@);
            }
        }
        match self {
            JsonValue::Array(items) => {
                if i < items.len() {
                    Ok(&items[i])
                } else {
                    Err(AccessError::IndexOutOfBounds)
                }
            },
            _ => Err(AccessError::TypeMismatch),
        }
    }

    /// The value of the first member of an object whose key is `key`.
    pub fn index_key(&self, key: &str) -> (r: Result<&JsonValue, AccessError>)
        ensures
            match self {
                JsonValue::Object(members) => if exists|m: int|
                    0 <= m < members.len() && #[trigger] members@[m].0@ == key@ {
                    r is Ok && exists|m: int|
                        0 <= m < members.len() && #[trigger] members@[m].0@ == key@ && (forall|q: int|
                            0 <= q < m ==> members@[q].0@ != key@) && *r->Ok_0 == members@[m].1
                } else {
                    r == Err::<&JsonValue, AccessError>(AccessError::KeyNotFound)
                },
                _ => r == Err::<&JsonValue, AccessError>(AccessError::TypeMismatch),
            },
            match r {
                Ok(e) => member_value(self@, key@) == Ok::<Json, AccessError>(e@),
                Err(f) => member_value(self@, key@) == Err::<Json, AccessError>(f),
            },
    {
        proof {
            if let JsonValue::Object(members) = self {
                lemma_member_models_index(members@);
            }
        }
        match self {
            JsonValue::Object(members) => {
                let k = key.to_string();
                let mut m: usize = 0;
                while m < members.len()
                    invariant
                        0 <= m <= members.len(),
                        k@ == key@,
                        *self == JsonValue::Object(*members),
                        forall|q: int| 0 <= q < m ==> members@[q].0@ != key@,
                    decreases members.len() - m,
                {
                    if members[m].0 == k {
                        assert(members@[m as int].0@ == key@);
                        proof {
                            lemma_member_models_index(members@);
                            let ms = member_models(members@);
                            assert(ms[m as int].0 == key@);
                            assert forall|q: int| 0 <= q < m implies ms[q].0 != key@ by {
                                assert(ms[q].0 == members@[q].0@);
                            }
                            lemma_first_with_key(ms, key@, m as int);
                            assert(ms[m as int].1 == members@[m as int].1@);
                            assert(self@ == Json::Obj(ms));
                            assert(0 <= m < ms.len() && ms[m as int].0 == key@);
                            assert(first_with_key(ms, key@) == m);
                            assert(key_present(ms, key@));
                            assert(member_value(Json::Obj(ms), key@) == Ok::<Json, AccessError>(
                                ms[m as int].1,
                            ));
                            assert(member_value(self@, key@) == Ok::<Json, AccessError>(
                                members@[m as int].1@,
                            ));
                        }
                        return Ok(&members[m].1);
                    }
                    m = m + 1;
                }
                proof {
                    lemma_member_models_index(members@);
                    let ms = member_models(members@);
                    assert forall|q: int| 0 <= q < ms.len() implies ms[q].0 != key@ by {
                        assert(ms[q].0 == members@[q].0@);
                    }
                }
                Err(AccessError::KeyNotFound)
            },
            _ => Err(AccessError::TypeMismatch),
        }
    }
}

impl View for JsonValue {
    type V = Json;

    open spec fn view(&self) -> Json {
        model(*self)
    }
}

} // verus!
