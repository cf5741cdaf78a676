//! The stream connector's state: directory and subscriber bookkeeping, the
//! reconnect backoff, the liveness heartbeat, and the per-chunk pipeline
//! that routes every decoded frame through normalization, completion
//! detection, the replay buffer and sink delivery.

use vstd::prelude::*;

use crate::buffer::{buf_push, ReplayBuffer};
use crate::detect::{detect_step, CompletionDetector, DetectorModel, Notice, NoticeModel};
use crate::frame::{feed, initial_state, opt_bytes, FrameModel, FrameParser, ParserState};
use crate::json::{json_of, models_of, JsonModel, JsonValue};
use crate::normalize::{normalize, normalize_model};

verus! {

/// Floor of the reconnect backoff, in milliseconds.
pub const BACKOFF_FLOOR_MS: u64 = 500;

/// Ceiling of the reconnect backoff, in milliseconds.
pub const BACKOFF_CEILING_MS: u64 = 8000;

/// Quiet time after which a liveness heartbeat is due, in milliseconds.
pub const HEARTBEAT_GAP_MS: u64 = 20000;

/// A connectivity or diagnostic signal for the status channel.
pub enum StatusEvent {
    Connected { directory: String },
    Heartbeat { subscribers: usize },
    Error { hint: String },
    ParseError { raw: Vec<u8> },
    Reconnecting { delay_ms: u64, last_event_id: Option<Vec<u8>> },
}

/// The shape of a status signal.
pub enum StatusModel {
    Connected { directory: Seq<char> },
    Heartbeat { subscribers: int },
    Error { hint: Seq<char> },
    ParseError { raw: Seq<u8> },
    Reconnecting { delay_ms: int, last_event_id: Option<Seq<u8>> },
}

impl View for StatusEvent {
    type V = StatusModel;

    open spec fn view(&self) -> StatusModel {
        match self {
            StatusEvent::Connected { directory } => StatusModel::Connected {
                directory: directory@,
            },
            StatusEvent::Heartbeat { subscribers } => StatusModel::Heartbeat {
                subscribers: *subscribers as int,
            },
            StatusEvent::Error { hint } => StatusModel::Error { hint: hint@ },
            StatusEvent::ParseError { raw } => StatusModel::ParseError { raw: raw@ },
            StatusEvent::Reconnecting { delay_ms, last_event_id } => StatusModel::Reconnecting {
                delay_ms: *delay_ms as int,
                last_event_id: opt_bytes(*last_event_id),
            },
        }
    }
}

/// One thing the relay asks its surroundings to do.
pub enum RelayOutput {
    /// Hand the event to the live push channel.
    Deliver(JsonValue),
    /// Invoke the platform notification capability.
    Notify(Notice),
    /// Signal on the live channel that a message finished.
    MessageComplete(String),
    /// Emit on the status channel.
    Status(StatusEvent),
}

/// The shape of one output.
pub enum OutputModel {
    Deliver(JsonModel),
    Notify(NoticeModel),
    MessageComplete(Seq<char>),
    Status(StatusModel),
}

impl View for RelayOutput {
    type V = OutputModel;

    open spec fn view(&self) -> OutputModel {
        match self {
            RelayOutput::Deliver(v) => OutputModel::Deliver(v@),
            RelayOutput::Notify(n) => OutputModel::Notify(n@),
            RelayOutput::MessageComplete(id) => OutputModel::MessageComplete(id@),
            RelayOutput::Status(s) => OutputModel::Status(s@),
        }
    }
}

/// The models of a run of outputs.
pub open spec fn output_views(s: Seq<RelayOutput>) -> Seq<OutputModel> {
    Seq::new(s.len(), |i: int| s[i]@)
}

/// Where the connector stands in its reconnect loop.
#[derive(Clone, Copy, PartialEq, Eq, Structural)]
pub enum ConnectorPhase {
    Connecting,
    Streaming,
    Backoff,
    Stopped,
}

/// The whole connector between two calls.
pub struct RelayModel {
    pub phase: ConnectorPhase,
    pub stopped: bool,
    pub base: Seq<char>,
    pub directory: Seq<char>,
    pub subscribers: int,
    pub parser: ParserState,
    pub detector: DetectorModel,
    pub buffer: Seq<JsonModel>,
    pub cap: nat,
    pub last_event_id: Option<Seq<u8>>,
    pub delay_ms: int,
    pub last_heartbeat_ms: int,
}

/// What one complete frame does to the detector, the replay buffer, the
/// resume id, and what it sends out. A frame whose payload does not parse
/// is dropped whole with a diagnostic carrying the raw bytes. A parsed
/// frame is unwrapped and examined; a placeholder is dropped silently,
/// anything else is buffered and delivered, after any completion signal.
pub open spec fn handle_frame_model(
    det: DetectorModel,
    buf: Seq<JsonModel>,
    cap: nat,
    last_id: Option<Seq<u8>>,
    f: FrameModel,
) -> (DetectorModel, Seq<JsonModel>, Option<Seq<u8>>, Seq<OutputModel>) {
    match json_of(f.data) {
        None => (
            det,
            buf,
            last_id,
            seq![OutputModel::Status(StatusModel::ParseError { raw: f.data })],
        ),
        Some(vm) => {
            let ev = normalize_model(vm);
            let step = detect_step(det, ev);
            let last2 = match f.id {
                Some(i) => Some(i),
                None => last_id,
            };
            if step.suppressed {
                (step.st, buf, last2, Seq::empty())
            } else {
                let head = match step.notice {
                    Some(n) => seq![
                        OutputModel::MessageComplete(n.message_id),
                        OutputModel::Notify(n),
                    ],
                    None => Seq::empty(),
                };
                (step.st, buf_push(buf, cap, ev), last2, head.push(OutputModel::Deliver(ev)))
            }
        },
    }
}

/// Frames applied in arrival order.
pub open spec fn frames_fold(
    det: DetectorModel,
    buf: Seq<JsonModel>,
    cap: nat,
    last_id: Option<Seq<u8>>,
    fs: Seq<FrameModel>,
) -> (DetectorModel, Seq<JsonModel>, Option<Seq<u8>>, Seq<OutputModel>)
    decreases fs.len(),
{
    if fs.len() == 0 {
        (det, buf, last_id, Seq::empty())
    } else {
        let (d1, b1, l1, o1) = handle_frame_model(det, buf, cap, last_id, fs.first());
        let (d2, b2, l2, o2) = frames_fold(d1, b1, cap, l1, fs.drop_first());
        (d2, b2, l2, o1 + o2)
    }
}

/// What one chunk of stream bytes does: a heartbeat when one is due, then
/// every newly completed frame, in order. The directory, the subscriber
/// count, the stop flag and the backoff delay are untouched.
pub open spec fn chunk_step(m: RelayModel, chunk: Seq<u8>, now_ms: int) -> (
    RelayModel,
    Seq<OutputModel>,
) {
    let hb_due = now_ms - m.last_heartbeat_ms > HEARTBEAT_GAP_MS;
    let hb_out: Seq<OutputModel> = if hb_due {
        seq![OutputModel::Status(StatusModel::Heartbeat { subscribers: m.subscribers })]
    } else {
        Seq::empty()
    };
    let (pst, fs) = feed(m.parser, chunk);
    let (d2, b2, l2, outs) = frames_fold(m.detector, m.buffer, m.cap, m.last_event_id, fs);
    (
        RelayModel {
            parser: pst,
            detector: d2,
            buffer: b2,
            last_event_id: l2,
            last_heartbeat_ms: if hb_due {
                now_ms
            } else {
                m.last_heartbeat_ms
            },
            ..m
        },
        hb_out + outs,
    )
}

/// The same connector with another target directory.
pub open spec fn with_directory(m: RelayModel, d: Seq<char>) -> RelayModel {
    RelayModel { directory: d, ..m }
}

/// A directory change during an active stream does not touch in-flight
/// processing: any chunk decodes, detects, buffers and delivers exactly as
/// it would have, and only the directory of the resulting state differs —
/// ready to be read at the next connection attempt.
pub proof fn lemma_directory_change_defers(m: RelayModel, d: Seq<char>, chunk: Seq<u8>, now_ms: int)
    ensures
        chunk_step(with_directory(m, d), chunk, now_ms).1 == chunk_step(m, chunk, now_ms).1,
        chunk_step(with_directory(m, d), chunk, now_ms).0 == with_directory(
            chunk_step(m, chunk, now_ms).0,
            d,
        ),
        with_directory(m, d).directory == d,
{
}

/// Everything a connection attempt needs, read at the moment of the
/// attempt: the event endpoint, the directory to ask for, and the id to
/// resume after.
pub struct ConnectParams {
    pub url: String,
    pub directory: String,
    pub last_event_id: Option<Vec<u8>>,
}

/// The base with trailing slashes dropped.
pub open spec fn trim_slash(s: Seq<char>) -> Seq<char>
    decreases s.len(),
{
    if s.len() > 0 && s.last() == '/' {
        trim_slash(s.drop_last())
    } else {
        s
    }
}

proof fn lemma_trim_slash_at(s: Seq<char>, k: int)
    requires
        0 <= k <= s.len(),
        forall|j: int| k <= j < s.len() ==> s[j] == '/',
        k > 0 ==> s[k - 1] != '/',
    ensures
        trim_slash(s) == s.take(k),
    decreases s.len(),
{
    if k < s.len() {
        lemma_trim_slash_at(s.drop_last(), k);
        assert(s.drop_last().take(k) =~= s.take(k));
    } else {
        assert(s.take(k) =~= s);
    }
}

/// The connector and its shared foreground surface, in one place. The
/// caller guards it and runs the network loop; every decision lives here.
pub struct SseManager {
    phase: ConnectorPhase,
    stopped: bool,
    base: String,
    directory: String,
    subscribers: usize,
    parser: FrameParser,
    detector: CompletionDetector,
    buffer: ReplayBuffer,
    last_event_id: Option<Vec<u8>>,
    delay_ms: u64,
    last_heartbeat_ms: u64,
}

impl View for SseManager {
    type V = RelayModel;

    closed spec fn view(&self) -> RelayModel {
        RelayModel {
            phase: self.phase,
            stopped: self.stopped,
            base: self.base@,
            directory: self.directory@,
            subscribers: self.subscribers as int,
            parser: self.parser@,
            detector: self.detector@,
            buffer: self.buffer@,
            cap: self.buffer.cap(),
            last_event_id: opt_bytes(self.last_event_id),
            delay_ms: self.delay_ms as int,
            last_heartbeat_ms: self.last_heartbeat_ms as int,
        }
    }
}

impl SseManager {
    /// The backoff stays between its floor and ceiling, and the parts keep
    /// their own invariants.
    pub closed spec fn wf(&self) -> bool {
        &&& self.buffer.wf()
        &&& self.detector.wf()
        &&& BACKOFF_FLOOR_MS <= self.delay_ms <= BACKOFF_CEILING_MS
    }

    /// A fresh connector: nothing buffered, nothing notified, backoff at
    /// the floor, no resume id, directory as given (empty when absent).
    pub fn new(base_path: String, directory: Option<String>, capacity: usize, now_ms: u64) -> (r:
        Self)
        requires
            capacity >= 1,
        ensures
            r.wf(),
            r@.phase == ConnectorPhase::Connecting,
            r@.stopped == false,
            r@.base == base_path@,
            r@.directory == match directory {
                Some(d) => d@,
                None => Seq::<char>::empty(),
            },
            r@.subscribers == 0,
            r@.parser == initial_state(),
            r@.detector == (DetectorModel {
                last: None,
                cache: Map::<Seq<char>, crate::detect::MetaModel>::empty(),
            }),
            r@.buffer == Seq::<JsonModel>::empty(),
            r@.cap == capacity,
            r@.last_event_id is None,
            r@.delay_ms == BACKOFF_FLOOR_MS,
            r@.last_heartbeat_ms == now_ms,
    {
        let dir = match directory {
            Some(d) => d,
            None => String::new(),
        };
        SseManager {
            phase: ConnectorPhase::Connecting,
            stopped: false,
            base: base_path,
            directory: dir,
            subscribers: 0,
            parser: FrameParser::new(),
            detector: CompletionDetector::new(),
            buffer: ReplayBuffer::new(capacity),
            last_event_id: None,
            delay_ms: BACKOFF_FLOOR_MS,
            last_heartbeat_ms: now_ms,
        }
    }

    /// Raise the cooperative stop flag; the background loop observes it at
    /// its next iteration.
    pub fn stop(&mut self)
        ensures
            final(self)@ == (RelayModel {
                stopped: true,
                phase: ConnectorPhase::Stopped,
                ..old(self)@
            }),
            final(self).wf() == old(self).wf(),
    {
        self.stopped = true;
        self.phase = ConnectorPhase::Stopped;
    }

    /// Whether the stop flag has been raised.
    pub fn is_stopped(&self) -> (r: bool)
        ensures
            r == self@.stopped,
    {
        self.stopped
    }

    /// Where the connector stands.
    pub fn phase(&self) -> (r: ConnectorPhase)
        ensures
            r == self@.phase,
    {
        self.phase
    }

    /// An independent copy of the replay history, oldest first.
    pub fn replay_buffer(&self) -> (out: Vec<JsonValue>)
        ensures
            models_of(out@) == self@.buffer,
    {
        self.buffer.snapshot()
    }

    /// One more diagnostic subscriber; the count saturates.
    pub fn increment_subscribers(&mut self)
        ensures
            final(self)@ == (RelayModel {
                subscribers: if old(self)@.subscribers < usize::MAX {
                    old(self)@.subscribers + 1
                } else {
                    old(self)@.subscribers
                },
                ..old(self)@
            }),
            final(self).wf() == old(self).wf(),
    {
        if self.subscribers < usize::MAX {
            self.subscribers = self.subscribers + 1;
        }
    }

    /// One less diagnostic subscriber; the count never goes below zero.
    pub fn decrement_subscribers(&mut self)
        ensures
            final(self)@ == (RelayModel {
                subscribers: if old(self)@.subscribers > 0 {
                    old(self)@.subscribers - 1
                } else {
                    0
                },
                ..old(self)@
            }),
            final(self).wf() == old(self).wf(),
    {
        if self.subscribers > 0 {
            self.subscribers = self.subscribers - 1;
        }
    }

    /// The diagnostic subscriber count.
    pub fn subscriber_count(&self) -> (r: usize)
        ensures
            r as int == self@.subscribers,
    {
        self.subscribers
    }

    /// Change the target directory for future connection attempts; an
    /// absent directory clears it. Nothing else moves.
    pub fn set_directory(&mut self, directory: Option<String>)
        ensures
            final(self)@ == with_directory(
                old(self)@,
                match directory {
                    Some(d) => d@,
                    None => Seq::<char>::empty(),
                },
            ),
            final(self).wf() == old(self).wf(),
    {
        self.directory = match directory {
            Some(d) => d,
            None => String::new(),
        };
    }

    /// What the next connection attempt should use, read now: the event
    /// endpoint under the base, the current directory, and the id to
    /// resume after.
    pub fn connect_params(&self) -> (r: ConnectParams)
        ensures
            r.url@ == trim_slash(self@.base) + "/global/event"@,
            r.directory@ == self@.directory,
            opt_bytes(r.last_event_id) == self@.last_event_id,
    {
        let cs = crate::format::chars_of(self.base.as_str());
        let n = cs.len();
        let mut e: usize = n;
        while e > 0 && cs[e - 1] == '/'
            invariant
                0 <= e <= n,
                n == cs@.len(),
                forall|j: int| e <= j < n ==> cs@[j] == '/',
            decreases e,
        {
            e = e - 1;
        }
        proof {
            lemma_trim_slash_at(cs@, e as int);
        }
        let mut out: Vec<char> = Vec::new();
        let mut i: usize = 0;
        while i < e
            invariant
                0 <= i <= e <= n,
                n == cs@.len(),
                out@ == cs@.subrange(0, i as int),
            decreases e - i,
        {
            out.push(cs[i]);
            proof {
                assert(cs@.subrange(0, i + 1) =~= cs@.subrange(0, i as int).push(cs@[i as int]));
            }
            i = i + 1;
        }
        proof {
            assert(out@ =~= trim_slash(self@.base));
        }
        let head = crate::format::string_of(&out);
        let url = head.concat("/global/event");
        let dir = self.directory.clone();
        let id = match &self.last_event_id {
            Some(v) => Some(crate::frame::copy_range(v, 0, v.len())),
            None => None,
        };
        proof {
            if self.last_event_id is Some {
                let v = self.last_event_id->0;
                assert(v@.subrange(0, v@.len() as int) =~= v@);
            }
        }
        ConnectParams { url, directory: dir, last_event_id: id }
    }

    /// A connection attempt succeeded: the stream starts clean, mid-stream
    /// state forgotten, and the backoff returns to its floor. The replay
    /// history, the metadata store, the guard and the resume id persist.
    pub fn on_connect_success(&mut self) -> (out: Vec<RelayOutput>)
        requires
            old(self).wf(),
        ensures
            final(self).wf(),
            final(self)@ == (RelayModel {
                phase: ConnectorPhase::Streaming,
                parser: initial_state(),
                delay_ms: BACKOFF_FLOOR_MS as int,
                ..old(self)@
            }),
            output_views(out@) == seq![
                OutputModel::Status(StatusModel::Connected { directory: old(self)@.directory }),
            ],
    {
        self.phase = ConnectorPhase::Streaming;
        self.parser = FrameParser::new();
        self.delay_ms = BACKOFF_FLOOR_MS;
        let mut out: Vec<RelayOutput> = Vec::new();
        out.push(
            RelayOutput::Status(StatusEvent::Connected { directory: self.directory.clone() }),
        );
        proof {
            assert(output_views(out@) =~= seq![
                OutputModel::Status(StatusModel::Connected { directory: old(self)@.directory }),
            ]);
        }
        out
    }

    /// A connection attempt or a stream read failed. Nothing is fatal:
    /// the failure is surfaced on the status channel and recovery goes
    /// through the backoff.
    pub fn on_error(&mut self, hint: String) -> (out: Vec<RelayOutput>)
        ensures
            final(self)@ == (RelayModel { phase: ConnectorPhase::Backoff, ..old(self)@ }),
            final(self).wf() == old(self).wf(),
            output_views(out@) == seq![
                OutputModel::Status(StatusModel::Error { hint: hint@ }),
            ],
    {
        self.phase = ConnectorPhase::Backoff;
        let mut out: Vec<RelayOutput> = Vec::new();
        out.push(RelayOutput::Status(StatusEvent::Error { hint }));
        proof {
            assert(output_views(out@) =~= seq![
                OutputModel::Status(StatusModel::Error { hint: out@[0]->Status_0->Error_hint@ }),
            ]);
        }
        out
    }

    /// Begin a backoff pause: announce the delay about to be slept and the
    /// id held for resumption, and double the delay for next time, up to
    /// the ceiling.
    pub fn backoff_begin(&mut self) -> (r: (u64, Vec<RelayOutput>))
        requires
            old(self).wf(),
        ensures
            final(self).wf(),
            r.0 == old(self)@.delay_ms,
            final(self)@ == (RelayModel {
                phase: ConnectorPhase::Backoff,
                delay_ms: if 2 * old(self)@.delay_ms <= BACKOFF_CEILING_MS {
                    2 * old(self)@.delay_ms
                } else {
                    BACKOFF_CEILING_MS as int
                },
                ..old(self)@
            }),
            output_views(r.1@) == seq![
                OutputModel::Status(StatusModel::Reconnecting {
                    delay_ms: old(self)@.delay_ms,
                    last_event_id: old(self)@.last_event_id,
                }),
            ],
    {
        self.phase = ConnectorPhase::Backoff;
        let current = self.delay_ms;
        let id = match &self.last_event_id {
            Some(v) => Some(crate::frame::copy_range(v, 0, v.len())),
            None => None,
        };
        proof {
            if self.last_event_id is Some {
                let v = self.last_event_id->0;
                assert(v@.subrange(0, v@.len() as int) =~= v@);
            }
        }
        let mut out: Vec<RelayOutput> = Vec::new();
        out.push(
            RelayOutput::Status(
                StatusEvent::Reconnecting { delay_ms: current, last_event_id: id },
            ),
        );
        self.delay_ms = crate::double_capped(self.delay_ms, BACKOFF_CEILING_MS);
        proof {
            assert(output_views(out@) =~= seq![
                OutputModel::Status(StatusModel::Reconnecting {
                    delay_ms: old(self)@.delay_ms,
                    last_event_id: old(self)@.last_event_id,
                }),
            ]);
        }
        (current, out)
    }

    /// The backoff pause is over: head back to connecting, unless the stop
    /// flag fired during the sleep.
    pub fn backoff_elapsed(&mut self)
        ensures
            final(self)@ == (RelayModel {
                phase: if old(self)@.stopped {
                    old(self)@.phase
                } else {
                    ConnectorPhase::Connecting
                },
                ..old(self)@
            }),
            final(self).wf() == old(self).wf(),
    {
        if !self.stopped {
            self.phase = ConnectorPhase::Connecting;
        }
    }
}

impl SseManager {
    /// Run one chunk of stream bytes through the whole pipeline: emit a
    /// heartbeat when one is due, decode the newly completed frames, and
    /// for each one in arrival order parse it, unwrap it, merge metadata,
    /// drop placeholders, fire at most one notification per message id,
    /// advance the resume id, buffer and deliver.
    #[verifier::loop_isolation(false)]
    #[verifier::rlimit(100)]
    pub fn on_chunk(&mut self, chunk: &[u8], now_ms: u64) -> (out: Vec<RelayOutput>)
        requires
            old(self).wf(),
        ensures
            final(self).wf(),
            ({
                let (m2, os) = chunk_step(old(self)@, chunk@, now_ms as int);
                final(self)@ == m2 && output_views(out@) == os
            }),
    {
        let ghost m0 = old(self)@;
        let ghost target = chunk_step(m0, chunk@, now_ms as int);
        let mut out: Vec<RelayOutput> = Vec::new();
        proof {
            assert(output_views(out@) =~= Seq::<OutputModel>::empty());
        }
        if now_ms > HEARTBEAT_GAP_MS && now_ms - HEARTBEAT_GAP_MS > self.last_heartbeat_ms {
            let ghost pre = out@;
            out.push(
                RelayOutput::Status(StatusEvent::Heartbeat { subscribers: self.subscribers }),
            );
            self.last_heartbeat_ms = now_ms;
            proof {
                assert(output_views(out@) =~= output_views(pre).push(out@.last()@));
            }
        }
        let ghost hbo = output_views(out@);
        let frames = self.parser.push_chunk(chunk);
        let ghost fviews = crate::frame::views_of(frames@);
        let ghost ffold = frames_fold(m0.detector, m0.buffer, m0.cap, m0.last_event_id, fviews);
        let ghost mut done: Seq<OutputModel> = Seq::empty();
        proof {
            assert(hbo + done =~= hbo);
        }
        let n = frames.len();
        proof {
            assert(fviews.skip(0) =~= fviews);
            assert(done + ffold.3 =~= ffold.3);
        }
        let mut i: usize = 0;
        while i < n
            invariant
                0 <= i <= n,
                n == frames@.len(),
                self.buffer.wf(),
                self.detector.wf(),
                self@.cap == m0.cap,
                self@.phase == m0.phase,
                self@.base == m0.base,
                self@.directory == m0.directory,
                self@.subscribers == m0.subscribers,
                self@.stopped == m0.stopped,
                self@.delay_ms == m0.delay_ms,
                self@.last_heartbeat_ms == target.0.last_heartbeat_ms,
                self@.parser == target.0.parser,
                output_views(out@) == hbo + done,
                ({
                    let rem = frames_fold(
                        self@.detector,
                        self@.buffer,
                        m0.cap,
                        self@.last_event_id,
                        fviews.skip(i as int),
                    );
                    rem.0 == ffold.0 && rem.1 == ffold.1 && rem.2 == ffold.2 && done + rem.3
                        == ffold.3
                }),
            decreases n - i,
        {
            let ghost det0 = self@.detector;
            let ghost buf0 = self@.buffer;
            let ghost lid0 = self@.last_event_id;
            let ghost f = fviews[i as int];
            proof {
                assert(fviews.skip(i as int).first() == f);
                assert(fviews.skip(i as int).drop_first() =~= fviews.skip(i + 1));
            }
            let ghost hf = handle_frame_model(det0, buf0, m0.cap, lid0, f);
            match crate::json::parse_json(frames[i].data.as_slice()) {
                None => {
                    let raw = crate::frame::copy_range(&frames[i].data, 0, frames[i].data.len());
                    proof {
                        assert(raw@ =~= f.data);
                    }
                    let ghost pre = out@;
                    out.push(RelayOutput::Status(StatusEvent::ParseError { raw }));
                    proof {
                        assert(output_views(out@) =~= output_views(pre).push(out@.last()@));
                        done = done + hf.3;
                        assert(output_views(out@) =~= hbo + done);
                    }
                },
                Some(v) => {
                    let ev = normalize(v);
                    let outcome = self.detector.observe(&ev);
                    match &frames[i].id {
                        Some(idv) => {
                            self.last_event_id = Some(
                                crate::frame::copy_range(idv, 0, idv.len()),
                            );
                            proof {
                                let w = frames@[i as int].id->0;
                                assert(w@.subrange(0, w@.len() as int) =~= w@);
                            }
                        },
                        None => {},
                    }
                    if !outcome.suppressed {
                        match outcome.notice {
                            Some(nt) => {
                                let ghost pre = out@;
                                out.push(
                                    RelayOutput::MessageComplete(nt.message_id.clone()),
                                );
                                proof {
                                    assert(output_views(out@) =~= output_views(pre).push(
                                        out@.last()@,
                                    ));
                                }
                                let ghost pre2 = out@;
                                out.push(RelayOutput::Notify(nt));
                                proof {
                                    assert(output_views(out@) =~= output_views(pre2).push(
                                        out@.last()@,
                                    ));
                                }
                            },
                            None => {},
                        }
                        let copy = ev.deep_copy();
                        self.buffer.push(copy);
                        let ghost pre3 = out@;
                        out.push(RelayOutput::Deliver(ev));
                        proof {
                            assert(output_views(out@) =~= output_views(pre3).push(
                                out@.last()@,
                            ));
                        }
                    }
                    proof {
                        done = done + hf.3;
                        assert(output_views(out@) =~= hbo + done);
                    }
                },
            }
            i = i + 1;
        }
        proof {
            assert(fviews.skip(n as int) =~= Seq::<FrameModel>::empty());
            assert(done =~= ffold.3);
            assert(output_views(out@) =~= target.1);
            assert(self@ == target.0);
        }
        out
    }
}

} // verus!
