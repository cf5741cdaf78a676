//! Bounded first-in-first-out history of delivered events, kept for late and
//! reconnecting subscribers.

use vstd::prelude::*;

use crate::json::{lemma_models_seq_equal, models_of, JsonModel, JsonValue};

verus! {

/// One push into a history of capacity `cap`: append, evicting the oldest
/// entry when the history is full.
pub open spec fn buf_push(s: Seq<JsonModel>, cap: nat, e: JsonModel) -> Seq<JsonModel> {
    if s.len() >= cap {
        s.drop_first().push(e)
    } else {
        s.push(e)
    }
}

/// Pushes in order, oldest first.
pub open spec fn buf_push_all(s: Seq<JsonModel>, cap: nat, es: Seq<JsonModel>) -> Seq<
    JsonModel,
>
    decreases es.len(),
{
    if es.len() == 0 {
        s
    } else {
        buf_push_all(buf_push(s, cap, es.first()), cap, es.drop_first())
    }
}

/// Bounded replay history. Order of entries is arrival order.
pub struct ReplayBuffer {
    items: Vec<JsonValue>,
    capacity: usize,
}

impl View for ReplayBuffer {
    type V = Seq<JsonModel>;

    closed spec fn view(&self) -> Seq<JsonModel> {
        models_of(self.items@)
    }
}

impl ReplayBuffer {
    /// The fixed bound on how many entries are kept.
    pub closed spec fn cap(&self) -> nat {
        self.capacity as nat
    }

    /// Length stays within the bound.
    pub closed spec fn wf(&self) -> bool {
        self.capacity >= 1 && self.items@.len() <= self.capacity
    }

    /// An empty history with the given bound.
    pub fn new(capacity: usize) -> (r: Self)
        requires
            capacity >= 1,
        ensures
            r.wf(),
            r@ == Seq::<JsonModel>::empty(),
            r.cap() == capacity,
    {
        let r = ReplayBuffer { items: Vec::new(), capacity };
        proof {
            assert(r@ =~= Seq::<JsonModel>::empty());
        }
        r
    }

    /// How many entries are held now.
    pub fn len(&self) -> (n: usize)
        ensures
            n == self@.len(),
    {
        proof {
            crate::json::lemma_models_of_len(self.items@);
        }
        self.items.len()
    }

    /// Append one event; the oldest entry leaves first when the history is
    /// full.
    pub fn push(&mut self, e: JsonValue)
        requires
            old(self).wf(),
        ensures
            final(self).wf(),
            final(self).cap() == old(self).cap(),
            final(self)@ == buf_push(old(self)@, old(self).cap(), e@),
    {
        proof {
            crate::json::lemma_models_of_len(self.items@);
        }
        let ghost s0 = self.items@;
        if self.items.len() >= self.capacity {
            let _evicted = self.items.remove(0);
            proof {
                assert(self.items@ =~= s0.drop_first());
                lemma_models_drop_first(s0);
            }
        }
        let ghost s1 = self.items@;
        self.items.push(e);
        proof {
            lemma_models_push(s1, e);
        }
    }

    /// An independent copy of the history, oldest first. Later pushes do not
    /// change a snapshot already taken.
    pub fn snapshot(&self) -> (out: Vec<JsonValue>)
        ensures
            models_of(out@) == self@,
    {
        let n = self.items.len();
        let mut out: Vec<JsonValue> = Vec::new();
        let mut i: usize = 0;
        while i < n
            invariant
                0 <= i <= n,
                n == self.items@.len(),
                out@.len() == i,
                forall|k: int|
                    0 <= k < i ==> crate::json::model_of(#[trigger] out@[k])
                        == crate::json::model_of(self.items@[k]),
            decreases n - i,
        {
            let c = self.items[i].deep_copy();
            out.push(c);
            i = i + 1;
        }
        proof {
            lemma_models_seq_equal(self.items@, out@);
        }
        out
    }
}

proof fn lemma_models_push(s: Seq<JsonValue>, e: JsonValue)
    ensures
        models_of(s.push(e)) == models_of(s).push(crate::json::model_of(e)),
{
    let s2 = s.push(e);
    assert(s2.drop_last() =~= s);
    assert(s2.last() == e);
}

proof fn lemma_models_drop_first(s: Seq<JsonValue>)
    requires
        s.len() > 0,
    ensures
        models_of(s.drop_first()) == models_of(s).drop_first(),
{
    crate::json::lemma_models_of_len(s);
    crate::json::lemma_models_of_len(s.drop_first());
    assert forall|k: int| 0 <= k < s.len() - 1 implies #[trigger] models_of(s.drop_first())[k]
        == models_of(s).drop_first()[k] by {
        crate::json::lemma_models_of_index(s.drop_first(), k);
        crate::json::lemma_models_of_index(s, k + 1);
    }
    assert(models_of(s.drop_first()) =~= models_of(s).drop_first());
}

/// After pushing any run of events into a history, what is held is exactly
/// the newest entries of the whole run: the last `cap` of them, in arrival
/// order, or all of them when they fit.
pub proof fn lemma_replay_keeps_newest(s: Seq<JsonModel>, cap: nat, es: Seq<JsonModel>)
    requires
        cap >= 1,
        s.len() <= cap,
    ensures
        ({
            let all = s + es;
            let r = buf_push_all(s, cap, es);
            r.len() == if all.len() <= cap {
                all.len() as int
            } else {
                cap as int
            } && r == all.skip(all.len() - r.len())
        }),
    decreases es.len(),
{
    let all = s + es;
    let r = buf_push_all(s, cap, es);
    if es.len() == 0 {
        assert(all =~= s);
        assert(all.skip(0) =~= all);
    } else {
        let s2 = buf_push(s, cap, es.first());
        lemma_replay_keeps_newest(s2, cap, es.drop_first());
        let all2 = s2 + es.drop_first();
        if s.len() >= cap {
            assert(all2 =~= all.drop_first());
            let r2 = buf_push_all(s2, cap, es.drop_first());
            assert(r == r2);
            assert(all2.skip(all2.len() - r2.len()) =~= all.skip(all.len() - r2.len()));
        } else {
            assert(all2 =~= all);
        }
    }
}

/// The history never outgrows its bound: a push into a history within the
/// bound leaves it within the bound.
pub proof fn lemma_buf_push_bounded(s: Seq<JsonModel>, cap: nat, e: JsonModel)
    requires
        cap >= 1,
        s.len() <= cap,
    ensures
        buf_push(s, cap, e).len() <= cap,
{
}

} // verus!
