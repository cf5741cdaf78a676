//! Per-message metadata and turn-completion detection: additive metadata
//! merging, placeholder suppression, completion conditions, and one-shot
//! notification dispatch.

use vstd::prelude::*;

use crate::json::{json_get, json_get_str, JsonModel, JsonValue};

verus! {

/// What is remembered about one message.
pub struct MessageMeta {
    pub model_id: Option<String>,
    pub mode: Option<String>,
}

/// The remembered fields as sequences.
pub struct MetaModel {
    pub model_id: Option<Seq<char>>,
    pub mode: Option<Seq<char>>,
}

pub open spec fn opt_str_view(o: Option<String>) -> Option<Seq<char>> {
    match o {
        Some(s) => Some(s@),
        None => None,
    }
}

impl View for MessageMeta {
    type V = MetaModel;

    open spec fn view(&self) -> MetaModel {
        MetaModel { model_id: opt_str_view(self.model_id), mode: opt_str_view(self.mode) }
    }
}

/// Nothing known yet.
pub open spec fn empty_meta() -> MetaModel {
    MetaModel { model_id: None, mode: None }
}

/// Additive merge: a field that arrives overwrites, a field that is absent
/// leaves the remembered value alone.
pub open spec fn merge_meta(
    m: MetaModel,
    model_id: Option<Seq<char>>,
    mode: Option<Seq<char>>,
) -> MetaModel {
    MetaModel {
        model_id: if model_id is Some {
            model_id
        } else {
            m.model_id
        },
        mode: if mode is Some {
            mode
        } else {
            m.mode
        },
    }
}

/// Metadata merging never regresses: a field once known stays known, an
/// absent update leaves the known value in place, and a present update
/// wins.
pub proof fn lemma_merge_monotonic(
    m: MetaModel,
    model_id: Option<Seq<char>>,
    mode: Option<Seq<char>>,
)
    ensures
        (m.model_id is Some || model_id is Some) ==> merge_meta(m, model_id, mode).model_id
            is Some,
        (m.mode is Some || mode is Some) ==> merge_meta(m, model_id, mode).mode is Some,
        model_id is None ==> merge_meta(m, model_id, mode).model_id == m.model_id,
        mode is None ==> merge_meta(m, model_id, mode).mode == m.mode,
        model_id is Some ==> merge_meta(m, model_id, mode).model_id == model_id,
        mode is Some ==> merge_meta(m, model_id, mode).mode == mode,
{
}

/// The map a run of cache entries denotes; a later entry for the same id
/// wins.
pub open spec fn cache_map_of(s: Seq<(String, MessageMeta)>) -> Map<Seq<char>, MetaModel>
    decreases s.len(),
{
    if s.len() == 0 {
        Map::empty()
    } else {
        cache_map_of(s.drop_last()).insert(s.last().0@, s.last().1@)
    }
}

/// The per-message metadata store. Ids are held once each; the store keeps
/// everything for the manager's lifetime.
pub struct MetaCache {
    entries: Vec<(String, MessageMeta)>,
}

impl View for MetaCache {
    type V = Map<Seq<char>, MetaModel>;

    closed spec fn view(&self) -> Map<Seq<char>, MetaModel> {
        cache_map_of(self.entries@)
    }
}

proof fn lemma_cache_at(s: Seq<(String, MessageMeta)>, i: int)
    requires
        0 <= i < s.len(),
        forall|p: int, q: int|
            0 <= p < q < s.len() ==> (#[trigger] s[p]).0@ != (#[trigger] s[q]).0@,
    ensures
        cache_map_of(s).contains_key(s[i].0@),
        cache_map_of(s)[s[i].0@] == s[i].1@,
    decreases s.len(),
{
    if i < s.len() - 1 {
        lemma_cache_at(s.drop_last(), i);
        assert(s.drop_last()[i] == s[i]);
        assert(s[i].0@ != s.last().0@);
    }
}

proof fn lemma_cache_absent(s: Seq<(String, MessageMeta)>, key: Seq<char>)
    requires
        forall|p: int| 0 <= p < s.len() ==> (#[trigger] s[p]).0@ != key,
    ensures
        !cache_map_of(s).contains_key(key),
    decreases s.len(),
{
    if s.len() > 0 {
        lemma_cache_absent(s.drop_last(), key);
    }
}

proof fn lemma_cache_update(s: Seq<(String, MessageMeta)>, i: int, e: (String, MessageMeta))
    requires
        0 <= i < s.len(),
        e.0@ == s[i].0@,
        forall|p: int, q: int|
            0 <= p < q < s.len() ==> (#[trigger] s[p]).0@ != (#[trigger] s[q]).0@,
    ensures
        cache_map_of(s.update(i, e)) == cache_map_of(s).insert(e.0@, e.1@),
    decreases s.len(),
{
    let s2 = s.update(i, e);
    if i == s.len() - 1 {
        assert(s2.drop_last() =~= s.drop_last());
        assert(s2.last() == e);
        assert(cache_map_of(s.drop_last()).insert(s.last().0@, s.last().1@).insert(e.0@, e.1@)
            =~= cache_map_of(s.drop_last()).insert(e.0@, e.1@));
    } else {
        assert(s2.drop_last() =~= s.drop_last().update(i, e));
        assert(s2.last() == s.last());
        lemma_cache_update(s.drop_last(), i, e);
        assert(s.drop_last()[i] == s[i]);
        assert(e.0@ != s.last().0@);
        assert(cache_map_of(s.drop_last()).insert(e.0@, e.1@).insert(s.last().0@, s.last().1@)
            =~= cache_map_of(s.drop_last()).insert(s.last().0@, s.last().1@).insert(
            e.0@,
            e.1@,
        ));
    }
}

fn clone_opt_string(o: &Option<String>) -> (r: Option<String>)
    ensures
        opt_str_view(r) == opt_str_view(*o),
{
    match o {
        Some(s) => Some(s.clone()),
        None => None,
    }
}

impl MetaCache {
    /// Ids are held at most once.
    pub closed spec fn wf(&self) -> bool {
        forall|p: int, q: int|
            0 <= p < q < self.entries@.len() ==> (#[trigger] self.entries@[p]).0@ != (
            #[trigger] self.entries@[q]).0@
    }

    /// An empty store.
    pub fn new() -> (r: Self)
        ensures
            r.wf(),
            r@ == Map::<Seq<char>, MetaModel>::empty(),
    {
        MetaCache { entries: Vec::new() }
    }

    /// What is remembered for an id, if anything.
    #[verifier::loop_isolation(false)]
    pub fn lookup(&self, id: &String) -> (r: Option<MessageMeta>)
        requires
            self.wf(),
        ensures
            match r {
                Some(m) => self@.contains_key(id@) && self@[id@] == m@,
                None => !self@.contains_key(id@),
            },
    {
        let n = self.entries.len();
        let mut i: usize = 0;
        while i < n
            invariant
                0 <= i <= n,
                n == self.entries@.len(),
                self.wf(),
                forall|p: int| 0 <= p < i ==> (#[trigger] self.entries@[p]).0@ != id@,
            decreases n - i,
        {
            if self.entries[i].0 == *id {
                let m = MessageMeta {
                    model_id: clone_opt_string(&self.entries[i].1.model_id),
                    mode: clone_opt_string(&self.entries[i].1.mode),
                };
                proof {
                    lemma_cache_at(self.entries@, i as int);
                }
                return Some(m);
            }
            i = i + 1;
        }
        proof {
            lemma_cache_absent(self.entries@, id@);
        }
        None
    }

    /// Merge newly seen fields into an id's entry, additively.
    #[verifier::loop_isolation(false)]
    pub fn update(&mut self, id: &String, model_id: Option<String>, mode: Option<String>)
        requires
            old(self).wf(),
        ensures
            final(self).wf(),
            final(self)@ == old(self)@.insert(
                id@,
                merge_meta(
                    if old(self)@.contains_key(id@) {
                        old(self)@[id@]
                    } else {
                        empty_meta()
                    },
                    opt_str_view(model_id),
                    opt_str_view(mode),
                ),
            ),
    {
        let ghost target = merge_meta(
            if old(self)@.contains_key(id@) {
                old(self)@[id@]
            } else {
                empty_meta()
            },
            opt_str_view(model_id),
            opt_str_view(mode),
        );
        let n = self.entries.len();
        let mut i: usize = 0;
        while i < n
            invariant
                0 <= i <= n,
                n == self.entries@.len(),
                self == old(self),
                forall|p: int| 0 <= p < i ==> (#[trigger] self.entries@[p]).0@ != id@,
            decreases n - i,
        {
            if self.entries[i].0 == *id {
                proof {
                    lemma_cache_at(self.entries@, i as int);
                }
                let merged = MessageMeta {
                    model_id: match model_id {
                        Some(s) => Some(s),
                        None => clone_opt_string(&self.entries[i].1.model_id),
                    },
                    mode: match mode {
                        Some(s) => Some(s),
                        None => clone_opt_string(&self.entries[i].1.mode),
                    },
                };
                let entry = (id.clone(), merged);
                proof {
                    assert(entry.1@ == target);
                    lemma_cache_update(self.entries@, i as int, entry);
                }
                self.entries.set(i, entry);
                proof {
                    assert forall|p: int, q: int|
                        0 <= p < q < self.entries@.len() implies (#[trigger] self.entries@[p]).0@
                        != (#[trigger] self.entries@[q]).0@ by {
                        assert(old(self).entries@[p].0@ != old(self).entries@[q].0@);
                    }
                }
                return ;
            }
            i = i + 1;
        }
        proof {
            lemma_cache_absent(self.entries@, id@);
        }
        let merged = MessageMeta { model_id, mode };
        let entry = (id.clone(), merged);
        let ghost s0 = self.entries@;
        self.entries.push(entry);
        proof {
            assert(self.entries@.drop_last() =~= s0);
            assert(self.entries@.last() == entry);
            assert(entry.1@ == target);
            assert forall|p: int, q: int|
                0 <= p < q < self.entries@.len() implies (#[trigger] self.entries@[p]).0@ != (
            #[trigger] self.entries@[q]).0@ by {
                if q < self.entries@.len() - 1 {
                    assert(s0[p].0@ != s0[q].0@);
                } else {
                    assert(s0[p].0@ != id@);
                }
            }
        }
    }
}

/// The event's `type` string.
pub open spec fn etype_of(ev: JsonModel) -> Option<Seq<char>> {
    json_get_str(ev, "type"@)
}

/// The event's `properties` object.
pub open spec fn props_of(ev: JsonModel) -> Option<JsonModel> {
    json_get(ev, "properties"@)
}

pub open spec fn is_msg_updated(ev: JsonModel) -> bool {
    etype_of(ev) == Some("message.updated"@)
}

pub open spec fn is_part_updated(ev: JsonModel) -> bool {
    etype_of(ev) == Some("message.part.updated"@)
}

/// A field of the properties object, falling back to `info` only when the
/// field is absent at the top level.
pub open spec fn prop_or_info(p: JsonModel, key: Seq<char>) -> Option<JsonModel> {
    match json_get(p, key) {
        Some(v) => Some(v),
        None => match json_get(p, "info"@) {
            Some(info) => json_get(info, key),
            None => None,
        },
    }
}

/// Like `prop_or_info`, but only a string counts.
pub open spec fn prop_or_info_str(p: JsonModel, key: Seq<char>) -> Option<Seq<char>> {
    match prop_or_info(p, key) {
        Some(JsonModel::Str(s)) => Some(s),
        _ => None,
    }
}

/// The message id of a `message.updated` event: top-level `id`, else
/// `info.id`.
pub open spec fn upd_msg_id(ev: JsonModel) -> Option<Seq<char>> {
    match props_of(ev) {
        Some(p) => prop_or_info_str(p, "id"@),
        None => None,
    }
}

/// The parts the placeholder rule looks at: `parts` when it is an array,
/// else `info.parts` when that is an array, else nothing.
pub open spec fn placeholder_parts(p: JsonModel) -> Seq<JsonModel> {
    match json_get(p, "parts"@) {
        Some(JsonModel::Array(a)) => a,
        _ => match json_get(p, "info"@) {
            Some(info) => match json_get(info, "parts"@) {
                Some(JsonModel::Array(a)) => a,
                _ => Seq::empty(),
            },
            None => Seq::empty(),
        },
    }
}

/// A transient placeholder: an assistant `message.updated` with no parts.
/// Such an event is dropped whole.
pub open spec fn is_placeholder(ev: JsonModel) -> bool {
    is_msg_updated(ev) && match props_of(ev) {
        Some(p) => prop_or_info_str(p, "role"@) == Some("assistant"@) && placeholder_parts(
            p,
        ).len() == 0,
        None => false,
    }
}

/// A part that marks the end of a turn.
pub open spec fn is_stop_part(part: JsonModel) -> bool {
    json_get_str(part, "type"@) == Some("step-finish"@) && json_get_str(part, "reason"@) == Some(
        "stop"@,
    )
}

pub open spec fn has_stop_part(parts: Seq<JsonModel>) -> bool {
    exists|i: int| 0 <= i < parts.len() && is_stop_part(#[trigger] parts[i])
}

/// Whether a `message.updated` event signals completion: status
/// `completed`, or a stop-marking entry among its top-level parts.
pub open spec fn upd_completion(ev: JsonModel) -> bool {
    match props_of(ev) {
        Some(p) => prop_or_info_str(p, "status"@) == Some("completed"@) || (match json_get(
            p,
            "parts"@,
        ) {
            Some(JsonModel::Array(a)) => has_stop_part(a),
            _ => false,
        }),
        None => false,
    }
}

/// The message a part refers to: `messageID`, else `message_id`, each only
/// when absent at the earlier slot.
pub open spec fn part_msg_id(part: JsonModel) -> Option<Seq<char>> {
    match json_get(part, "messageID"@) {
        Some(v) => match v {
            JsonModel::Str(s) => Some(s),
            _ => None,
        },
        None => match json_get(part, "message_id"@) {
            Some(JsonModel::Str(s)) => Some(s),
            _ => None,
        },
    }
}

/// The id a `message.part.updated` event completes, if its single part
/// marks a stop.
pub open spec fn part_completion_id(ev: JsonModel) -> Option<Seq<char>> {
    match props_of(ev) {
        Some(p) => match json_get(p, "part"@) {
            Some(part) => if is_stop_part(part) {
                part_msg_id(part)
            } else {
                None
            },
            None => None,
        },
        None => None,
    }
}

/// The id this event completes, if it is a completion signal at all.
pub open spec fn completion_id(ev: JsonModel) -> Option<Seq<char>> {
    if is_msg_updated(ev) {
        if upd_completion(ev) {
            upd_msg_id(ev)
        } else {
            None
        }
    } else if is_part_updated(ev) {
        part_completion_id(ev)
    } else {
        None
    }
}

/// The model id a `message.updated` event carries, read from
/// `properties.info` only.
pub open spec fn meta_model_of(ev: JsonModel) -> Option<Seq<char>> {
    match props_of(ev) {
        Some(p) => match json_get(p, "info"@) {
            Some(info) => json_get_str(info, "modelID"@),
            None => None,
        },
        None => None,
    }
}

/// The mode a `message.updated` event carries, read from `properties.info`
/// only.
pub open spec fn meta_mode_of(ev: JsonModel) -> Option<Seq<char>> {
    match props_of(ev) {
        Some(p) => match json_get(p, "info"@) {
            Some(info) => json_get_str(info, "mode"@),
            None => None,
        },
        None => None,
    }
}

/// The detector between two events.
pub struct DetectorModel {
    pub last: Option<Seq<char>>,
    pub cache: Map<Seq<char>, MetaModel>,
}

/// One notification, ready to show.
pub struct NoticeModel {
    pub message_id: Seq<char>,
    pub title: Seq<char>,
    pub body: Seq<char>,
}

/// Everything one event does to the detector.
pub struct StepModel {
    pub st: DetectorModel,
    pub suppressed: bool,
    pub notice: Option<NoticeModel>,
}

/// The metadata store after an event: `message.updated` events with an id
/// and at least one newly seen field merge additively; everything else
/// leaves the store alone.
pub open spec fn cache_after(cache: Map<Seq<char>, MetaModel>, ev: JsonModel) -> Map<
    Seq<char>,
    MetaModel,
> {
    if is_msg_updated(ev) && upd_msg_id(ev) is Some && (meta_model_of(ev) is Some || meta_mode_of(
        ev,
    ) is Some) {
        let id = upd_msg_id(ev)->0;
        cache.insert(
            id,
            merge_meta(
                if cache.contains_key(id) {
                    cache[id]
                } else {
                    empty_meta()
                },
                meta_model_of(ev),
                meta_mode_of(ev),
            ),
        )
    } else {
        cache
    }
}

/// The notification text for a completed message, drawn from what the
/// store remembers about it.
pub open spec fn notice_for(cache: Map<Seq<char>, MetaModel>, id: Seq<char>) -> NoticeModel {
    let meta = if cache.contains_key(id) {
        cache[id]
    } else {
        empty_meta()
    };
    let mode = match meta.mode {
        Some(s) => s,
        None => Seq::empty(),
    };
    let model = match meta.model_id {
        Some(s) => s,
        None => Seq::empty(),
    };
    NoticeModel {
        message_id: id,
        title: crate::format::mode_text(mode) + " agent is ready"@,
        body: crate::format::model_text(model) + " completed the task"@,
    }
}

/// What one normalized event does: metadata is merged first; a placeholder
/// is then suppressed whole; otherwise a completion signal for an id not
/// yet notified fires exactly one notification and arms the guard.
pub open spec fn detect_step(st: DetectorModel, ev: JsonModel) -> StepModel {
    let cache2 = cache_after(st.cache, ev);
    if is_placeholder(ev) {
        StepModel {
            st: DetectorModel { last: st.last, cache: cache2 },
            suppressed: true,
            notice: None,
        }
    } else {
        match completion_id(ev) {
            Some(id) => if st.last == Some(id) {
                StepModel {
                    st: DetectorModel { last: st.last, cache: cache2 },
                    suppressed: false,
                    notice: None,
                }
            } else {
                StepModel {
                    st: DetectorModel { last: Some(id), cache: cache2 },
                    suppressed: false,
                    notice: Some(notice_for(cache2, id)),
                }
            },
            None => StepModel {
                st: DetectorModel { last: st.last, cache: cache2 },
                suppressed: false,
                notice: None,
            },
        }
    }
}

/// Two completion signals for the same id, arriving back to back at a
/// detector that has not yet notified for it, produce exactly one
/// notification: the first fires, the second is swallowed by the guard.
pub proof fn lemma_completion_fires_once(st: DetectorModel, e1: JsonModel, e2: JsonModel, id: Seq<
    char,
>)
    requires
        st.last != Some(id),
        !is_placeholder(e1),
        !is_placeholder(e2),
        completion_id(e1) == Some(id),
        completion_id(e2) == Some(id),
    ensures
        detect_step(st, e1).notice is Some,
        detect_step(detect_step(st, e1).st, e2).notice is None,
{
}

/// Whether a string equals the given text.
fn str_is(s: &String, lit: &str) -> (r: bool)
    ensures
        r == (s@ == lit@),
{
    let l = String::from_str(lit);
    *s == l
}

/// A field of the properties object, falling back to `info` only when the
/// field is absent at the top level.
fn prop_or_info_x<'a>(p: &'a JsonValue, key: &str) -> (r: Option<&'a JsonValue>)
    ensures
        match r {
            Some(v) => prop_or_info(p@, key@) == Some(v@),
            None => prop_or_info(p@, key@) is None,
        },
{
    match p.get(key) {
        Some(v) => Some(v),
        None => match p.get("info") {
            Some(info) => info.get(key),
            None => None,
        },
    }
}

fn prop_or_info_str_x<'a>(p: &'a JsonValue, key: &str) -> (r: Option<&'a String>)
    ensures
        match r {
            Some(s) => prop_or_info_str(p@, key@) == Some(s@),
            None => prop_or_info_str(p@, key@) is None,
        },
{
    match prop_or_info_x(p, key) {
        Some(v) => v.as_str(),
        None => None,
    }
}

/// Whether the parts the placeholder rule looks at are empty.
fn placeholder_parts_empty(p: &JsonValue) -> (r: bool)
    ensures
        r == (placeholder_parts(p@).len() == 0),
{
    if let Some(v) = p.get("parts") {
        if let Some(a) = v.as_array() {
            proof {
                crate::json::lemma_models_of_len(a@);
            }
            return a.len() == 0;
        }
    }
    if let Some(info) = p.get("info") {
        if let Some(v) = info.get("parts") {
            if let Some(a) = v.as_array() {
                proof {
                    crate::json::lemma_models_of_len(a@);
                }
                return a.len() == 0;
            }
        }
    }
    true
}

/// Whether a part marks the end of a turn.
fn is_stop_part_x(part: &JsonValue) -> (r: bool)
    ensures
        r == is_stop_part(part@),
{
    let ty_ok = match part.get_str("type") {
        Some(s) => str_is(s, "step-finish"),
        None => false,
    };
    if !ty_ok {
        return false;
    }
    match part.get_str("reason") {
        Some(s) => str_is(s, "stop"),
        None => false,
    }
}

/// Whether any entry marks the end of a turn.
#[verifier::loop_isolation(false)]
fn has_stop_part_x(parts: &Vec<JsonValue>) -> (r: bool)
    ensures
        r == has_stop_part(crate::json::models_of(parts@)),
{
    let ghost ms = crate::json::models_of(parts@);
    proof {
        crate::json::lemma_models_of_len(parts@);
    }
    let n = parts.len();
    let mut i: usize = 0;
    while i < n
        invariant
            0 <= i <= n,
            forall|k: int| 0 <= k < i ==> !is_stop_part(#[trigger] ms[k]),
        decreases n - i,
    {
        let hit = is_stop_part_x(&parts[i]);
        proof {
            crate::json::lemma_models_of_index(parts@, i as int);
        }
        if hit {
            return true;
        }
        i = i + 1;
    }
    false
}

/// The message a part refers to.
fn part_msg_id_x<'a>(part: &'a JsonValue) -> (r: Option<&'a String>)
    ensures
        match r {
            Some(s) => part_msg_id(part@) == Some(s@),
            None => part_msg_id(part@) is None,
        },
{
    match part.get("messageID") {
        Some(v) => v.as_str(),
        None => match part.get("message_id") {
            Some(v) => v.as_str(),
            None => None,
        },
    }
}

/// One notification, ready to hand to the platform capability.
pub struct Notice {
    pub message_id: String,
    pub title: String,
    pub body: String,
}

impl View for Notice {
    type V = NoticeModel;

    open spec fn view(&self) -> NoticeModel {
        NoticeModel { message_id: self.message_id@, title: self.title@, body: self.body@ }
    }
}

/// What the detector decided about one event.
pub struct Outcome {
    pub suppressed: bool,
    pub notice: Option<Notice>,
}

/// Tracks per-message metadata and the one-shot completion guard.
pub struct CompletionDetector {
    last_notified: Option<String>,
    cache: MetaCache,
}

impl View for CompletionDetector {
    type V = DetectorModel;

    closed spec fn view(&self) -> DetectorModel {
        DetectorModel { last: opt_str_view(self.last_notified), cache: self.cache@ }
    }
}

impl CompletionDetector {
    pub closed spec fn wf(&self) -> bool {
        self.cache.wf()
    }

    /// A detector that has seen nothing.
    pub fn new() -> (r: Self)
        ensures
            r.wf(),
            r@ == (DetectorModel {
                last: None,
                cache: Map::<Seq<char>, MetaModel>::empty(),
            }),
    {
        CompletionDetector { last_notified: None, cache: MetaCache::new() }
    }

    /// Run one normalized event through metadata merging, placeholder
    /// suppression, completion detection and the one-shot guard.
    pub fn observe(&mut self, ev: &JsonValue) -> (r: Outcome)
        requires
            old(self).wf(),
        ensures
            final(self).wf(),
            final(self)@ == detect_step(old(self)@, ev@).st,
            r.suppressed == detect_step(old(self)@, ev@).suppressed,
            match (r.notice, detect_step(old(self)@, ev@).notice) {
                (Some(n), Some(nm)) => n@ == nm,
                (None, None) => true,
                _ => false,
            },
    {
        let ghost step = detect_step(old(self)@, ev@);
        let is_upd: bool;
        let is_part: bool;
        match ev.get_str("type") {
            Some(t) => {
                is_upd = str_is(t, "message.updated");
                is_part = str_is(t, "message.part.updated");
            },
            None => {
                is_upd = false;
                is_part = false;
            },
        }
        proof {
            assert(is_upd == is_msg_updated(ev@));
            assert(is_part == is_part_updated(ev@));
        }
        if is_upd {
            if let Some(p) = ev.get("properties") {
                if let Some(id) = prop_or_info_str_x(p, "id") {
                    let id_owned = id.clone();
                    let model_opt: Option<String>;
                    let mode_opt: Option<String>;
                    match p.get("info") {
                        Some(info) => {
                            model_opt = match info.get_str("modelID") {
                                Some(s) => Some(s.clone()),
                                None => None,
                            };
                            mode_opt = match info.get_str("mode") {
                                Some(s) => Some(s.clone()),
                                None => None,
                            };
                        },
                        None => {
                            model_opt = None;
                            mode_opt = None;
                        },
                    }
                    proof {
                        assert(opt_str_view(model_opt) == meta_model_of(ev@));
                        assert(opt_str_view(mode_opt) == meta_mode_of(ev@));
                    }
                    if model_opt.is_some() || mode_opt.is_some() {
                        self.cache.update(&id_owned, model_opt, mode_opt);
                    }
                }
            }
        }
        proof {
            assert(self@.cache == cache_after(old(self)@.cache, ev@));
            assert(self@.last == old(self)@.last);
        }
        if is_upd {
            if let Some(p) = ev.get("properties") {
                let role_assist = match prop_or_info_str_x(p, "role") {
                    Some(r) => str_is(r, "assistant"),
                    None => false,
                };
                if role_assist && placeholder_parts_empty(p) {
                    proof {
                        assert(is_placeholder(ev@));
                    }
                    return Outcome { suppressed: true, notice: None };
                }
            }
        }
        proof {
            assert(!is_placeholder(ev@));
        }
        let mut comp_id: Option<String> = None;
        if is_upd {
            if let Some(p) = ev.get("properties") {
                let status_completed = match prop_or_info_str_x(p, "status") {
                    Some(s) => str_is(s, "completed"),
                    None => false,
                };
                let step_finish: bool = match p.get("parts") {
                    Some(v) => match v.as_array() {
                        Some(a) => has_stop_part_x(a),
                        None => false,
                    },
                    None => false,
                };
                if status_completed || step_finish {
                    comp_id = match prop_or_info_str_x(p, "id") {
                        Some(id) => Some(id.clone()),
                        None => None,
                    };
                } else {
                    proof {
                        assert(!upd_completion(ev@));
                    }
                }
            }
        } else if is_part {
            if let Some(p) = ev.get("properties") {
                if let Some(part) = p.get("part") {
                    if is_stop_part_x(part) {
                        comp_id = match part_msg_id_x(part) {
                            Some(id) => Some(id.clone()),
                            None => None,
                        };
                    }
                }
            }
        }
        proof {
            assert(opt_str_view(comp_id) == completion_id(ev@));
        }
        match comp_id {
            Some(id) => {
                let already: bool = match &self.last_notified {
                    Some(prev) => *prev == id,
                    None => false,
                };
                if already {
                    return Outcome { suppressed: false, notice: None };
                }
                self.last_notified = Some(id.clone());
                let meta = self.cache.lookup(&id);
                let model_s: String;
                let mode_s: String;
                match meta {
                    Some(m) => {
                        model_s = match m.model_id {
                            Some(s) => s,
                            None => String::new(),
                        };
                        mode_s = match m.mode {
                            Some(s) => s,
                            None => String::new(),
                        };
                    },
                    None => {
                        model_s = String::new();
                        mode_s = String::new();
                    },
                }
                let title = crate::format::format_mode(mode_s.as_str()).concat(
                    " agent is ready",
                );
                let body = crate::format::format_model(model_s.as_str()).concat(
                    " completed the task",
                );
                Outcome {
                    suppressed: false,
                    notice: Some(Notice { message_id: id, title, body }),
                }
            },
            None => Outcome { suppressed: false, notice: None },
        }
    }
}

} // verus!
