//! A structured value for decoded frame payloads, with a ghost model that
//! contracts speak of, and a trusted decoder backed by serde_json.

use vstd::prelude::*;

verus! {

broadcast use
    vstd::std_specs::vec::axiom_vec_decreases_to_view,
    vstd::seq::axiom_seq_index_decreases;

/// A decoded structured payload. Numbers keep their raw decimal text; the
/// relay never does arithmetic on them.
pub enum JsonValue {
    Null,
    Bool(bool),
    Number(String),
    Str(String),
    Array(Vec<JsonValue>),
    Object(Vec<(String, JsonValue)>),
}

/// The mathematical shape of a `JsonValue`.
pub enum JsonModel {
    Null,
    Bool(bool),
    Number(Seq<char>),
    Str(Seq<char>),
    Array(Seq<JsonModel>),
    Object(Seq<(Seq<char>, JsonModel)>),
}

/// The model of one value.
pub open spec fn model_of(v: JsonValue) -> JsonModel
    decreases v,
{
    match v {
        JsonValue::Null => JsonModel::Null,
        JsonValue::Bool(b) => JsonModel::Bool(b),
        JsonValue::Number(s) => JsonModel::Number(s@),
        JsonValue::Str(s) => JsonModel::Str(s@),
        JsonValue::Array(items) => JsonModel::Array(models_of(items@)),
        JsonValue::Object(pairs) => JsonModel::Object(pair_models_of(pairs@)),
    }
}

/// The models of a sequence of values, in order.
pub open spec fn models_of(s: Seq<JsonValue>) -> Seq<JsonModel>
    decreases s,
{
    if s.len() == 0 {
        Seq::empty()
    } else {
        models_of(s.drop_last()).push(model_of(s.last()))
    }
}

/// The models of a sequence of key/value pairs, in order.
pub open spec fn pair_models_of(s: Seq<(String, JsonValue)>) -> Seq<(Seq<char>, JsonModel)>
    decreases s,
{
    if s.len() == 0 {
        Seq::empty()
    } else {
        pair_models_of(s.drop_last()).push((s.last().0@, model_of(s.last().1)))
    }
}

impl View for JsonValue {
    type V = JsonModel;

    open spec fn view(&self) -> JsonModel {
        model_of(*self)
    }
}

pub proof fn lemma_models_of_len(s: Seq<JsonValue>)
    ensures
        models_of(s).len() == s.len(),
    decreases s.len(),
{
    if s.len() > 0 {
        lemma_models_of_len(s.drop_last());
    }
}

pub proof fn lemma_models_of_index(s: Seq<JsonValue>, i: int)
    requires
        0 <= i < s.len(),
    ensures
        models_of(s).len() == s.len(),
        models_of(s)[i] == model_of(s[i]),
    decreases s.len(),
{
    lemma_models_of_len(s);
    if i < s.len() - 1 {
        lemma_models_of_index(s.drop_last(), i);
    }
}

pub proof fn lemma_pair_models_of_len(s: Seq<(String, JsonValue)>)
    ensures
        pair_models_of(s).len() == s.len(),
    decreases s.len(),
{
    if s.len() > 0 {
        lemma_pair_models_of_len(s.drop_last());
    }
}

pub proof fn lemma_pair_models_of_index(s: Seq<(String, JsonValue)>, i: int)
    requires
        0 <= i < s.len(),
    ensures
        pair_models_of(s).len() == s.len(),
        pair_models_of(s)[i] == (s[i].0@, model_of(s[i].1)),
    decreases s.len(),
{
    lemma_pair_models_of_len(s);
    if i < s.len() - 1 {
        lemma_pair_models_of_index(s.drop_last(), i);
    }
}

/// First binding of `key` among `pairs`, scanning from the front.
pub open spec fn model_get(pairs: Seq<(Seq<char>, JsonModel)>, key: Seq<char>) -> Option<
    JsonModel,
>
    decreases pairs.len(),
{
    if pairs.len() == 0 {
        None
    } else if pairs.first().0 == key {
        Some(pairs.first().1)
    } else {
        model_get(pairs.drop_first(), key)
    }
}

/// Field lookup: `None` on anything but an object holding the key.
pub open spec fn json_get(m: JsonModel, key: Seq<char>) -> Option<JsonModel> {
    match m {
        JsonModel::Object(pairs) => model_get(pairs, key),
        _ => None,
    }
}

/// String content of a field, if the field is there and holds a string.
pub open spec fn json_get_str(m: JsonModel, key: Seq<char>) -> Option<Seq<char>> {
    match json_get(m, key) {
        Some(JsonModel::Str(s)) => Some(s),
        _ => None,
    }
}

pub proof fn lemma_model_get_at(pairs: Seq<(Seq<char>, JsonModel)>, key: Seq<char>, j: int)
    requires
        0 <= j < pairs.len(),
        pairs[j].0 == key,
        forall|k: int| 0 <= k < j ==> (#[trigger] pairs[k]).0 != key,
    ensures
        model_get(pairs, key) == Some(pairs[j].1),
    decreases pairs.len(),
{
    if j > 0 {
        lemma_model_get_at(pairs.drop_first(), key, j - 1);
    }
}

pub proof fn lemma_model_get_absent(pairs: Seq<(Seq<char>, JsonModel)>, key: Seq<char>)
    requires
        forall|k: int| 0 <= k < pairs.len() ==> (#[trigger] pairs[k]).0 != key,
    ensures
        model_get(pairs, key) is None,
    decreases pairs.len(),
{
    if pairs.len() > 0 {
        lemma_model_get_absent(pairs.drop_first(), key);
    }
}

impl JsonValue {
    /// Field lookup on an object; `None` for any other shape.
    #[verifier::loop_isolation(false)]
    pub fn get<'a>(&'a self, key: &str) -> (r: Option<&'a JsonValue>)
        ensures
            match r {
                Some(v) => json_get(self@, key@) == Some(v@),
                None => json_get(self@, key@) is None,
            },
    {
        match self {
            JsonValue::Object(pairs) => {
                let needle = String::from_str(key);
                let n = pairs.len();
                let mut i: usize = 0;
                while i < n
                    invariant
                        n == pairs@.len(),
                        0 <= i <= n,
                        needle@ == key@,
                        forall|k: int|
                            0 <= k < i ==> (#[trigger] pairs@[k]).0@ != key@,
                    decreases n - i,
                {
                    if pairs[i].0 == needle {
                        proof {
                            let ghost ps = pair_models_of(pairs@);
                            assert forall|k: int| 0 <= k < i implies (#[trigger] ps[k]).0
                                != key@ by {
                                lemma_pair_models_of_index(pairs@, k);
                            }
                            lemma_pair_models_of_index(pairs@, i as int);
                            lemma_model_get_at(ps, key@, i as int);
                        }
                        return Some(&pairs[i].1);
                    }
                    i = i + 1;
                }
                proof {
                    let ghost ps = pair_models_of(pairs@);
                    lemma_pair_models_of_len(pairs@);
                    assert forall|k: int| 0 <= k < ps.len() implies (#[trigger] ps[k]).0
                        != key@ by {
                        lemma_pair_models_of_index(pairs@, k);
                    }
                    lemma_model_get_absent(ps, key@);
                }
                None
            },
            _ => None,
        }
    }

    /// The string inside, if this is a string.
    pub fn as_str<'a>(&'a self) -> (r: Option<&'a String>)
        ensures
            match r {
                Some(s) => self@ == JsonModel::Str(s@),
                None => !(self@ is Str),
            },
    {
        match self {
            JsonValue::Str(s) => Some(s),
            _ => None,
        }
    }

    /// The elements inside, if this is an array.
    pub fn as_array<'a>(&'a self) -> (r: Option<&'a Vec<JsonValue>>)
        ensures
            match r {
                Some(items) => self@ == JsonModel::Array(models_of(items@)),
                None => !(self@ is Array),
            },
    {
        match self {
            JsonValue::Array(items) => Some(items),
            _ => None,
        }
    }

    /// String content of a field of this value.
    pub fn get_str<'a>(&'a self, key: &str) -> (r: Option<&'a String>)
        ensures
            match r {
                Some(s) => json_get_str(self@, key@) == Some(s@),
                None => json_get_str(self@, key@) is None,
            },
    {
        match self.get(key) {
            Some(v) => v.as_str(),
            None => None,
        }
    }

    /// An independent copy with the same model.
    #[verifier::loop_isolation(false)]
    pub fn deep_copy(&self) -> (r: JsonValue)
        ensures
            r@ == self@,
        decreases self,
    {
        match self {
            JsonValue::Null => JsonValue::Null,
            JsonValue::Bool(b) => JsonValue::Bool(*b),
            JsonValue::Number(s) => JsonValue::Number(s.clone()),
            JsonValue::Str(s) => JsonValue::Str(s.clone()),
            JsonValue::Array(items) => {
                let n = items.len();
                let mut out: Vec<JsonValue> = Vec::new();
                let mut i: usize = 0;
                while i < n
                    invariant
                        n == items@.len(),
                        0 <= i <= n,
                        out@.len() == i,
                        forall|k: int|
                            0 <= k < i ==> model_of(#[trigger] out@[k]) == model_of(items@[k]),
                    decreases n - i,
                {
                    let c = items[i].deep_copy();
                    out.push(c);
                    i = i + 1;
                }
                proof {
                    lemma_models_seq_equal(items@, out@);
                }
                JsonValue::Array(out)
            },
            JsonValue::Object(pairs) => {
                let n = pairs.len();
                let mut out: Vec<(String, JsonValue)> = Vec::new();
                let mut i: usize = 0;
                while i < n
                    invariant
                        n == pairs@.len(),
                        0 <= i <= n,
                        out@.len() == i,
                        forall|k: int|
                            0 <= k < i ==> (#[trigger] out@[k]).0@ == pairs@[k].0@ && model_of(
                                out@[k].1,
                            ) == model_of(pairs@[k].1),
                    decreases n - i,
                {
                    let k = pairs[i].0.clone();
                    let c = pairs[i].1.deep_copy();
                    out.push((k, c));
                    i = i + 1;
                }
                proof {
                    lemma_pair_models_seq_equal(pairs@, out@);
                }
                JsonValue::Object(out)
            },
        }
    }
}

pub proof fn lemma_models_seq_equal(a: Seq<JsonValue>, b: Seq<JsonValue>)
    requires
        a.len() == b.len(),
        forall|k: int| 0 <= k < a.len() ==> model_of(#[trigger] b[k]) == model_of(a[k]),
    ensures
        models_of(a) == models_of(b),
{
    lemma_models_of_len(a);
    lemma_models_of_len(b);
    assert forall|k: int| 0 <= k < a.len() implies #[trigger] models_of(a)[k] == models_of(
        b,
    )[k] by {
        lemma_models_of_index(a, k);
        lemma_models_of_index(b, k);
    }
    assert(models_of(a) =~= models_of(b));
}

proof fn lemma_pair_models_seq_equal(a: Seq<(String, JsonValue)>, b: Seq<(String, JsonValue)>)
    requires
        a.len() == b.len(),
        forall|k: int|
            0 <= k < a.len() ==> (#[trigger] b[k]).0@ == a[k].0@ && model_of(b[k].1) == model_of(
                a[k].1,
            ),
    ensures
        pair_models_of(a) == pair_models_of(b),
{
    lemma_pair_models_of_len(a);
    lemma_pair_models_of_len(b);
    assert forall|k: int| 0 <= k < a.len() implies #[trigger] pair_models_of(a)[k]
        == pair_models_of(b)[k] by {
        lemma_pair_models_of_index(a, k);
        lemma_pair_models_of_index(b, k);
    }
    assert(pair_models_of(a) =~= pair_models_of(b));
}

/// serde_json's document type, declared so that the decoder below can
/// mention it; the relay never looks inside a value of it.
#[verifier::external_type_specification]
#[verifier::external_body]
pub struct ExValue(serde_json::Value);

/// What serde_json makes of a byte string: `None` where the bytes are not
/// valid JSON, otherwise the decoded structure. The outcome depends on the
/// bytes alone.
pub uninterp spec fn json_of(bytes: Seq<u8>) -> Option<JsonModel>;

/// Relies on serde_json::Value: turns each variant into the matching
/// `JsonValue` variant, moving fields; numbers keep their decimal text.
#[verifier::external_body]
fn value_to_json(v: serde_json::Value) -> JsonValue {
    match v {
        serde_json::Value::Null => JsonValue::Null,
        serde_json::Value::Bool(b) => JsonValue::Bool(b),
        serde_json::Value::Number(n) => JsonValue::Number(n.to_string()),
        serde_json::Value::String(s) => JsonValue::Str(s),
        serde_json::Value::Array(a) => JsonValue::Array(
            a.into_iter().map(value_to_json).collect(),
        ),
        serde_json::Value::Object(m) => JsonValue::Object(
            m.into_iter().map(|(k, inner)| (k, value_to_json(inner))).collect(),
        ),
    }
}

/// Relies on serde_json::from_slice: parses a complete JSON document from
/// bytes, `None` exactly on input serde_json does not accept.
#[verifier::external_body]
pub fn parse_json(bytes: &[u8]) -> (r: Option<JsonValue>)
    ensures
        match r {
            Some(v) => json_of(bytes@) == Some(v@),
            None => json_of(bytes@) is None,
        },
{
    match serde_json::from_slice::<serde_json::Value>(bytes) {
        Ok(v) => Some(value_to_json(v)),
        Err(_) => None,
    }
}

impl JsonValue {
    /// The key/value pairs inside, if this is an object.
    pub fn as_object<'a>(&'a self) -> (r: Option<&'a Vec<(String, JsonValue)>>)
        ensures
            match r {
                Some(pairs) => self@ == JsonModel::Object(pair_models_of(pairs@)),
                None => !(self@ is Object),
            },
    {
        match self {
            JsonValue::Object(pairs) => Some(pairs),
            _ => None,
        }
    }

    /// The boolean inside, if this is a boolean.
    pub fn as_bool(&self) -> (r: Option<bool>)
        ensures
            match r {
                Some(b) => self@ == JsonModel::Bool(b),
                None => !(self@ is Bool),
            },
    {
        match self {
            JsonValue::Bool(b) => Some(*b),
            _ => None,
        }
    }

    /// The raw number text inside, if this is a number.
    pub fn as_number_text<'a>(&'a self) -> (r: Option<&'a String>)
        ensures
            match r {
                Some(s) => self@ == JsonModel::Number(s@),
                None => !(self@ is Number),
            },
    {
        match self {
            JsonValue::Number(s) => Some(s),
            _ => None,
        }
    }
}

/// Boolean content of a field, if the field is there and holds a boolean.
pub open spec fn json_get_bool(m: JsonModel, key: Seq<char>) -> Option<bool> {
    match json_get(m, key) {
        Some(JsonModel::Bool(b)) => Some(b),
        _ => None,
    }
}

} // verus!
