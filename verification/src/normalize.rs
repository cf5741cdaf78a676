//! Envelope unwrapping: a frame payload may arrive wrapped as
//! `{"directory": ..., "payload": event}`; the relay forwards the inner
//! event and leaves anything else untouched.

use vstd::prelude::*;

use crate::json::{
    json_get, lemma_pair_models_of_index, lemma_pair_models_of_len, pair_models_of, JsonModel,
    JsonValue,
};

verus! {

/// The event a payload denotes: the contents of its `payload` field when
/// there is one, otherwise the payload itself.
pub open spec fn normalize_model(v: JsonModel) -> JsonModel {
    match json_get(v, "payload"@) {
        Some(inner) => inner,
        None => v,
    }
}

/// Unwrap the envelope, moving the inner event out rather than copying it.
#[verifier::loop_isolation(false)]
pub fn normalize(v: JsonValue) -> (r: JsonValue)
    ensures
        r@ == normalize_model(v@),
{
    match v {
        JsonValue::Object(mut pairs) => {
            let ghost ps0 = pairs@;
            proof {
                assert(v@ == JsonModel::Object(pair_models_of(ps0)));
            }
            let needle = String::from_str("payload");
            let n = pairs.len();
            let mut i: usize = 0;
            while i < n
                invariant
                    0 <= i <= n,
                    pairs@ == ps0,
                    n == pairs@.len(),
                    needle@ == "payload"@,
                    forall|k: int| 0 <= k < i ==> (#[trigger] pairs@[k]).0@ != "payload"@,
                decreases n - i,
            {
                if pairs[i].0 == needle {
                    proof {
                        let ps = pair_models_of(pairs@);
                        assert forall|k: int| 0 <= k < i implies (#[trigger] ps[k]).0
                            != "payload"@ by {
                            lemma_pair_models_of_index(pairs@, k);
                        }
                        lemma_pair_models_of_index(pairs@, i as int);
                        crate::json::lemma_model_get_at(ps, "payload"@, i as int);
                    }
                    let entry = pairs.remove(i);
                    proof {
                        assert(entry == ps0[i as int]);
                        assert(normalize_model(v@) == pair_models_of(ps0)[i as int].1);
                    }
                    return entry.1;
                }
                i = i + 1;
            }
            proof {
                let ps = pair_models_of(pairs@);
                lemma_pair_models_of_len(pairs@);
                assert forall|k: int| 0 <= k < ps.len() implies (#[trigger] ps[k]).0
                    != "payload"@ by {
                    lemma_pair_models_of_index(pairs@, k);
                }
                crate::json::lemma_model_get_absent(ps, "payload"@);
            }
            JsonValue::Object(pairs)
        },
        other => other,
    }
}

/// The `type` string an event carries for routing, if any.
pub fn event_type<'a>(ev: &'a JsonValue) -> (r: Option<&'a String>)
    ensures
        match r {
            Some(s) => crate::json::json_get_str(ev@, "type"@) == Some(s@),
            None => crate::json::json_get_str(ev@, "type"@) is None,
        },
{
    ev.get_str("type")
}

} // verus!
