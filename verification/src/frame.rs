//! Incremental decoder for line-framed event streams: bytes go in, in chunks
//! cut at arbitrary points, complete frames come out.
//!
//! A frame is a run of lines ended by a blank line. A line starting with `:`
//! is a comment. `data:` lines accumulate the frame's payload, joined with a
//! newline; an `id:` line records the frame's event id. Carriage returns
//! before the line feed are dropped, and a frame is only emitted when it has
//! payload bytes.

use vstd::prelude::*;

verus! {

pub const NL: u8 = 10;

pub const CR: u8 = 13;

pub const COLON: u8 = 58;

/// ASCII whitespace, as trimmed around payload and id text.
pub open spec fn is_ws(b: u8) -> bool {
    b == 9 || b == 10 || b == 12 || b == 13 || b == 32
}

/// `data:`
pub open spec fn data_prefix() -> Seq<u8> {
    seq![100u8, 97u8, 116u8, 97u8, 58u8]
}

/// `id:`
pub open spec fn id_prefix() -> Seq<u8> {
    seq![105u8, 100u8, 58u8]
}

pub open spec fn has_prefix(s: Seq<u8>, p: Seq<u8>) -> bool {
    s.len() >= p.len() && s.take(p.len() as int) == p
}

/// Index of the first line feed, or the length when there is none.
pub open spec fn find_nl(s: Seq<u8>) -> int
    decreases s.len(),
{
    if s.len() == 0 {
        0
    } else if s[0] == NL {
        0
    } else {
        1 + find_nl(s.drop_first())
    }
}

/// Drop the run of carriage returns at the end of a line.
pub open spec fn strip_cr(s: Seq<u8>) -> Seq<u8>
    decreases s.len(),
{
    if s.len() > 0 && s.last() == CR {
        strip_cr(s.drop_last())
    } else {
        s
    }
}

/// Drop leading whitespace.
pub open spec fn trim_left(s: Seq<u8>) -> Seq<u8>
    decreases s.len(),
{
    if s.len() > 0 && is_ws(s.first()) {
        trim_left(s.drop_first())
    } else {
        s
    }
}

/// Drop trailing whitespace.
pub open spec fn trim_right(s: Seq<u8>) -> Seq<u8>
    decreases s.len(),
{
    if s.len() > 0 && is_ws(s.last()) {
        trim_right(s.drop_last())
    } else {
        s
    }
}

/// One complete frame: its payload bytes and the event id that came with it.
pub struct FrameModel {
    pub data: Seq<u8>,
    pub id: Option<Seq<u8>>,
}

/// The decoder between two chunks: unterminated tail bytes, the payload
/// gathered so far, and the pending event id.
pub struct ParserState {
    pub rem: Seq<u8>,
    pub data: Seq<u8>,
    pub id: Option<Seq<u8>>,
}

/// What one line does to the pending payload and id, and the frame it may
/// complete. The line is taken with its end-of-line bytes already stripped.
pub open spec fn step_line(data: Seq<u8>, id: Option<Seq<u8>>, line: Seq<u8>) -> (
    Seq<u8>,
    Option<Seq<u8>>,
    Option<FrameModel>,
) {
    if line.len() > 0 && line[0] == COLON {
        (data, id, None)
    } else if line.len() == 0 {
        if data.len() > 0 {
            (Seq::empty(), None, Some(FrameModel { data, id }))
        } else {
            (data, id, None)
        }
    } else if has_prefix(line, data_prefix()) {
        let payload = trim_left(line.skip(data_prefix().len() as int));
        if data.len() == 0 {
            (payload, id, None)
        } else {
            (data + seq![NL] + payload, id, None)
        }
    } else if has_prefix(line, id_prefix()) {
        (data, Some(trim_right(trim_left(line.skip(id_prefix().len() as int)))), None)
    } else {
        (data, id, None)
    }
}

/// Extract and apply every complete line held in `st.rem`.
pub open spec fn consume(st: ParserState) -> (ParserState, Seq<FrameModel>)
    decreases st.rem.len(),
{
    let i = find_nl(st.rem);
    if i >= st.rem.len() {
        (st, Seq::empty())
    } else {
        proof {
            lemma_find_nl_bounds(st.rem);
        }
        let line = strip_cr(st.rem.take(i));
        let (data2, id2, frame) = step_line(st.data, st.id, line);
        let (stf, fs) = consume(
            ParserState { rem: st.rem.skip(i + 1), data: data2, id: id2 },
        );
        match frame {
            Some(f) => (stf, seq![f] + fs),
            None => (stf, fs),
        }
    }
}

/// The decoder's meaning: append the chunk to the tail and consume whole
/// lines.
pub open spec fn feed(st: ParserState, bytes: Seq<u8>) -> (ParserState, Seq<FrameModel>) {
    consume(ParserState { rem: st.rem + bytes, data: st.data, id: st.id })
}

pub proof fn lemma_find_nl_bounds(s: Seq<u8>)
    ensures
        0 <= find_nl(s) <= s.len(),
        find_nl(s) < s.len() ==> s[find_nl(s)] == NL,
        forall|j: int| 0 <= j < find_nl(s) ==> s[j] != NL,
    decreases s.len(),
{
    if s.len() > 0 && s[0] != NL {
        lemma_find_nl_bounds(s.drop_first());
        assert forall|j: int| 0 <= j < find_nl(s) implies s[j] != NL by {
            if j > 0 {
                assert(s.drop_first()[j - 1] == s[j]);
            }
        }
    }
}

proof fn lemma_find_nl_at(s: Seq<u8>, i: int)
    requires
        0 <= i <= s.len(),
        i < s.len() ==> s[i] == NL,
        forall|j: int| 0 <= j < i ==> s[j] != NL,
    ensures
        find_nl(s) == i,
    decreases s.len(),
{
    if s.len() > 0 && s[0] != NL {
        lemma_find_nl_at(s.drop_first(), i - 1);
    }
}

proof fn lemma_strip_cr_at(s: Seq<u8>, k: int)
    requires
        0 <= k <= s.len(),
        forall|j: int| k <= j < s.len() ==> s[j] == CR,
        k > 0 ==> s[k - 1] != CR,
    ensures
        strip_cr(s) == s.take(k),
    decreases s.len(),
{
    if k < s.len() {
        lemma_strip_cr_at(s.drop_last(), k);
        assert(s.drop_last().take(k) =~= s.take(k));
    } else {
        assert(s.take(k) =~= s);
    }
}

proof fn lemma_trim_left_at(s: Seq<u8>, t: int)
    requires
        0 <= t <= s.len(),
        forall|j: int| 0 <= j < t ==> is_ws(s[j]),
        t < s.len() ==> !is_ws(s[t]),
    ensures
        trim_left(s) == s.skip(t),
    decreases s.len(),
{
    if t > 0 {
        lemma_trim_left_at(s.drop_first(), t - 1);
        assert(s.drop_first().skip(t - 1) =~= s.skip(t));
    } else {
        assert(s.skip(0) =~= s);
    }
}

proof fn lemma_trim_right_at(s: Seq<u8>, k: int)
    requires
        0 <= k <= s.len(),
        forall|j: int| k <= j < s.len() ==> is_ws(s[j]),
        k > 0 ==> !is_ws(s[k - 1]),
    ensures
        trim_right(s) == s.take(k),
    decreases s.len(),
{
    if k < s.len() {
        lemma_trim_right_at(s.drop_last(), k);
        assert(s.drop_last().take(k) =~= s.take(k));
    } else {
        assert(s.take(k) =~= s);
    }
}

/// Consuming a buffer, then consuming what is left extended by more bytes,
/// is consuming the extended buffer at once.
proof fn lemma_consume_append(st: ParserState, ext: Seq<u8>)
    ensures
        ({
            let (s1, f1) = consume(st);
            let (s2, f2) = consume(ParserState { rem: s1.rem + ext, data: s1.data, id: s1.id });
            let (s3, f3) = consume(ParserState { rem: st.rem + ext, data: st.data, id: st.id });
            s2 == s3 && f1 + f2 == f3
        }),
    decreases st.rem.len(),
{
    lemma_find_nl_bounds(st.rem);
    let i = find_nl(st.rem);
    if i >= st.rem.len() {
        let (s1, f1) = consume(st);
        assert(s1 == st);
        assert(s1.rem + ext =~= st.rem + ext);
        let (s2, f2) = consume(ParserState { rem: s1.rem + ext, data: s1.data, id: s1.id });
        assert(f1 + f2 =~= f2);
    } else {
        let whole = st.rem + ext;
        assert(forall|j: int| 0 <= j < i ==> whole[j] == st.rem[j]);
        assert(whole[i] == st.rem[i]);
        lemma_find_nl_at(whole, i);
        assert(whole.take(i) =~= st.rem.take(i));
        let line = strip_cr(st.rem.take(i));
        let (data2, id2, frame) = step_line(st.data, st.id, line);
        let next = ParserState { rem: st.rem.skip(i + 1), data: data2, id: id2 };
        assert(whole.skip(i + 1) =~= st.rem.skip(i + 1) + ext);
        lemma_consume_append(next, ext);
        let (s1, f1) = consume(st);
        let (s2, f2) = consume(ParserState { rem: s1.rem + ext, data: s1.data, id: s1.id });
        let (s3, f3) = consume(ParserState { rem: whole, data: st.data, id: st.id });
        match frame {
            Some(f) => {
                assert((seq![f] + consume(next).1) + f2 =~= seq![f] + (consume(next).1 + f2));
            },
            None => {},
        }
    }
}

/// Splitting a byte stream anywhere and feeding the two chunks in order
/// decodes the same frames, and leaves the decoder in the same state, as
/// feeding the whole stream at once.
pub proof fn lemma_feed_split(st: ParserState, a: Seq<u8>, b: Seq<u8>)
    ensures
        ({
            let (s1, f1) = feed(st, a);
            let (s2, f2) = feed(s1, b);
            let (s3, f3) = feed(st, a + b);
            s2 == s3 && f1 + f2 == f3
        }),
{
    let joined = ParserState { rem: st.rem + a, data: st.data, id: st.id };
    lemma_consume_append(joined, b);
    assert((st.rem + a) + b =~= st.rem + (a + b));
    let (s1, f1) = consume(joined);
    assert(feed(st, a) == consume(joined));
    assert(feed(s1, b) == consume(ParserState { rem: s1.rem + b, data: s1.data, id: s1.id }));
}

/// The bytes of an optional id, as an optional byte sequence.
pub open spec fn opt_bytes(o: Option<Vec<u8>>) -> Option<Seq<u8>> {
    match o {
        Some(v) => Some(v@),
        None => None,
    }
}

/// One complete frame handed out by the decoder.
pub struct RawFrame {
    pub data: Vec<u8>,
    pub id: Option<Vec<u8>>,
}

impl View for RawFrame {
    type V = FrameModel;

    open spec fn view(&self) -> FrameModel {
        FrameModel { data: self.data@, id: opt_bytes(self.id) }
    }
}

/// The incremental decoder.
pub struct FrameParser {
    buf: Vec<u8>,
    data: Vec<u8>,
    id: Option<Vec<u8>>,
}

impl View for FrameParser {
    type V = ParserState;

    closed spec fn view(&self) -> ParserState {
        ParserState { rem: self.buf@, data: self.data@, id: opt_bytes(self.id) }
    }
}

/// The state a decoder starts in, also right after a reconnect.
pub open spec fn initial_state() -> ParserState {
    ParserState { rem: Seq::empty(), data: Seq::empty(), id: None }
}

fn is_ws_byte(b: u8) -> (r: bool)
    ensures
        r == is_ws(b),
{
    b == 9 || b == 10 || b == 12 || b == 13 || b == 32
}

impl FrameParser {
    /// A decoder with nothing pending.
    pub fn new() -> (r: Self)
        ensures
            r@ == initial_state(),
    {
        let r = FrameParser { buf: Vec::new(), data: Vec::new(), id: None };
        proof {
            assert(r@ =~= initial_state());
        }
        r
    }

    /// Apply one complete line (end-of-line bytes already stripped) to the
    /// pending payload and id.
    #[verifier::loop_isolation(false)]
    fn apply_line(&mut self, line: &[u8]) -> (r: Option<RawFrame>)
        ensures
            final(self).buf@ == old(self).buf@,
            ({
                let (d2, id2, fr) = step_line(old(self).data@, opt_bytes(old(self).id), line@);
                final(self).data@ == d2 && opt_bytes(final(self).id) == id2 && match (r, fr) {
                    (Some(rf), Some(fm)) => rf@ == fm,
                    (None, None) => true,
                    _ => false,
                }
            }),
    {
        let n = line.len();
        if n > 0 && line[0] == COLON {
            return None;
        }
        if n == 0 {
            if self.data.len() > 0 {
                let mut data: Vec<u8> = Vec::new();
                core::mem::swap(&mut self.data, &mut data);
                let mut id: Option<Vec<u8>> = None;
                core::mem::swap(&mut self.id, &mut id);
                return Some(RawFrame { data, id });
            }
            return None;
        }
        if n >= 5 && line[0] == 100 && line[1] == 97 && line[2] == 116 && line[3] == 97 && line[4]
            == 58 {
            proof {
                assert(line@.take(5) =~= data_prefix());
            }
            let mut t: usize = 5;
            while t < n && is_ws_byte(line[t])
                invariant
                    5 <= t <= n,
                    forall|j: int| 5 <= j < t ==> is_ws(line@[j]),
                decreases n - t,
            {
                t = t + 1;
            }
            proof {
                let rest = line@.skip(5);
                assert(forall|j: int| 0 <= j < t - 5 ==> is_ws(#[trigger] rest[j]));
                lemma_trim_left_at(rest, t - 5);
                assert(rest.skip(t - 5) =~= line@.skip(t as int));
            }
            if self.data.len() > 0 {
                self.data.push(NL);
            }
            let ghost mid = self.data@;
            let mut p: usize = t;
            while p < n
                invariant
                    t <= p <= n,
                    self.buf@ == old(self).buf@,
                    self.id == old(self).id,
                    self.data@ == mid + line@.subrange(t as int, p as int),
                decreases n - p,
            {
                self.data.push(line[p]);
                proof {
                    assert(mid + line@.subrange(t as int, p + 1) =~= (mid + line@.subrange(
                        t as int,
                        p as int,
                    )).push(line@[p as int]));
                }
                p = p + 1;
            }
            proof {
                let (d2, id2, fr) = step_line(old(self).data@, opt_bytes(old(self).id), line@);
                assert(line@.subrange(t as int, n as int) =~= line@.skip(t as int));
                if old(self).data@.len() == 0 {
                    assert(self.data@ =~= d2);
                } else {
                    assert(mid =~= old(self).data@ + seq![NL]);
                    assert(self.data@ =~= d2);
                }
            }
            return None;
        }
        if n >= 3 && line[0] == 105 && line[1] == 100 && line[2] == 58 {
            proof {
                assert(line@.take(3) =~= id_prefix());
                assert(!has_prefix(line@, data_prefix()));
            }
            let mut t: usize = 3;
            while t < n && is_ws_byte(line[t])
                invariant
                    3 <= t <= n,
                    forall|j: int| 3 <= j < t ==> is_ws(line@[j]),
                decreases n - t,
            {
                t = t + 1;
            }
            let mut e: usize = n;
            while e > t && is_ws_byte(line[e - 1])
                invariant
                    t <= e <= n,
                    forall|j: int| e <= j < n ==> is_ws(line@[j]),
                decreases e,
            {
                e = e - 1;
            }
            let mut idv: Vec<u8> = Vec::new();
            let mut p: usize = t;
            while p < e
                invariant
                    t <= p <= e,
                    idv@ == line@.subrange(t as int, p as int),
                decreases e - p,
            {
                idv.push(line[p]);
                proof {
                    assert(line@.subrange(t as int, p + 1) =~= line@.subrange(
                        t as int,
                        p as int,
                    ).push(line@[p as int]));
                }
                p = p + 1;
            }
            proof {
                let rest = line@.skip(3);
                assert(forall|j: int| 0 <= j < t - 3 ==> is_ws(#[trigger] rest[j]));
                lemma_trim_left_at(rest, t - 3);
                let trimmed = rest.skip(t - 3);
                assert(trimmed =~= line@.skip(t as int));
                assert(forall|j: int| e - t <= j < trimmed.len() ==> is_ws(#[trigger] trimmed[j]));
                lemma_trim_right_at(trimmed, e - t);
                assert(trimmed.take(e - t) =~= line@.subrange(t as int, e as int));
            }
            self.id = Some(idv);
            return None;
        }
        proof {
            assert(!has_prefix(line@, data_prefix()));
            assert(!has_prefix(line@, id_prefix()));
        }
        None
    }
}

/// The models of a run of frames, in order.
pub open spec fn views_of(fs: Seq<RawFrame>) -> Seq<FrameModel> {
    Seq::new(fs.len(), |i: int| fs[i]@)
}

fn find_from(buf: &Vec<u8>, start: usize) -> (j: usize)
    requires
        start <= buf@.len(),
    ensures
        start <= j <= buf@.len(),
        forall|k: int| start <= k < j ==> buf@[k] != NL,
        j < buf@.len() ==> buf@[j as int] == NL,
{
    let n = buf.len();
    let mut j = start;
    while j < n && buf[j] != NL
        invariant
            start <= j <= n,
            n == buf@.len(),
            forall|k: int| start <= k < j ==> buf@[k] != NL,
        decreases n - j,
    {
        j = j + 1;
    }
    j
}

pub(crate) fn copy_range(buf: &Vec<u8>, a: usize, b: usize) -> (out: Vec<u8>)
    requires
        a <= b <= buf@.len(),
    ensures
        out@ == buf@.subrange(a as int, b as int),
{
    let mut out: Vec<u8> = Vec::new();
    let mut p = a;
    while p < b
        invariant
            a <= p <= b,
            b <= buf@.len(),
            out@ == buf@.subrange(a as int, p as int),
        decreases b - p,
    {
        out.push(buf[p]);
        proof {
            assert(buf@.subrange(a as int, p + 1) =~= buf@.subrange(a as int, p as int).push(
                buf@[p as int],
            ));
        }
        p = p + 1;
    }
    out
}

impl FrameParser {
    /// Feed one chunk of bytes, cut anywhere, and take the frames that are
    /// now complete, in arrival order.
    #[verifier::loop_isolation(false)]
    #[verifier::rlimit(100)]
    pub fn push_chunk(&mut self, chunk: &[u8]) -> (frames: Vec<RawFrame>)
        ensures
            ({
                let (st2, fs) = feed(old(self)@, chunk@);
                final(self)@ == st2 && views_of(frames@) == fs
            }),
    {
        let ghost st0 = ParserState {
            rem: old(self).buf@ + chunk@,
            data: old(self).data@,
            id: opt_bytes(old(self).id),
        };
        let m = chunk.len();
        let mut i: usize = 0;
        while i < m
            invariant
                i <= m,
                self.data == old(self).data,
                self.id == old(self).id,
                self.buf@ == old(self).buf@ + chunk@.subrange(0, i as int),
            decreases m - i,
        {
            self.buf.push(chunk[i]);
            proof {
                assert(old(self).buf@ + chunk@.subrange(0, i + 1) =~= (old(self).buf@
                    + chunk@.subrange(0, i as int)).push(chunk@[i as int]));
            }
            i = i + 1;
        }
        proof {
            assert(old(self).buf@ + chunk@.subrange(0, m as int) =~= st0.rem);
        }
        let mut frames: Vec<RawFrame> = Vec::new();
        let mut start: usize = 0;
        proof {
            assert(self.buf@.skip(0) =~= st0.rem);
            assert(ParserState {
                rem: self.buf@.skip(0),
                data: self.data@,
                id: opt_bytes(self.id),
            } == st0);
            assert(views_of(frames@) + consume(st0).1 =~= consume(st0).1);
        }
        let mut j = find_from(&self.buf, 0);
        while j < self.buf.len()
            invariant
                start <= j <= self.buf@.len(),
                self.buf@ == st0.rem,
                forall|k: int| start <= k < j ==> self.buf@[k] != NL,
                j < self.buf@.len() ==> self.buf@[j as int] == NL,
                ({
                    let cur = ParserState {
                        rem: self.buf@.skip(start as int),
                        data: self.data@,
                        id: opt_bytes(self.id),
                    };
                    consume(cur).0 == consume(st0).0 && views_of(frames@) + consume(cur).1
                        == consume(st0).1
                }),
            decreases self.buf@.len() - start,
        {
            let ghost cur = ParserState {
                rem: self.buf@.skip(start as int),
                data: self.data@,
                id: opt_bytes(self.id),
            };
            proof {
                assert forall|k: int| 0 <= k < j - start implies cur.rem[k] != NL by {
                    assert(cur.rem[k] == self.buf@[start + k]);
                }
                assert(cur.rem[j - start] == self.buf@[j as int]);
                lemma_find_nl_at(cur.rem, j - start);
            }
            let mut k = j;
            while k > start && self.buf[k - 1] == CR
                invariant
                    start <= k <= j,
                    forall|q: int| k <= q < j ==> self.buf@[q] == CR,
                decreases k,
            {
                k = k - 1;
            }
            let line = copy_range(&self.buf, start, k);
            proof {
                let raw = cur.rem.take(j - start);
                assert(raw =~= self.buf@.subrange(start as int, j as int));
                assert forall|q: int| k - start <= q < raw.len() implies raw[q] == CR by {
                    assert(raw[q] == self.buf@[start + q]);
                }
                if k > start {
                    assert(raw[k - start - 1] == self.buf@[k - 1]);
                }
                lemma_strip_cr_at(raw, k - start);
                assert(raw.take(k - start) =~= self.buf@.subrange(start as int, k as int));
                assert(line@ == strip_cr(raw));
            }
            let produced = self.apply_line(line.as_slice());
            let ghost next = ParserState {
                rem: self.buf@.skip(j + 1),
                data: self.data@,
                id: opt_bytes(self.id),
            };
            proof {
                assert(cur.rem.skip(j - start + 1) =~= self.buf@.skip(j + 1));
            }
            match produced {
                Some(f) => {
                    frames.push(f);
                    proof {
                        let (d2, id2, fr) = step_line(cur.data, cur.id, strip_cr(cur.rem.take(j
                            - start)));
                        assert(consume(cur).1 =~= seq![fr->0] + consume(next).1);
                        assert(views_of(frames@) =~= views_of(frames@.drop_last()).push(f@));
                        assert(views_of(frames@) + consume(next).1 =~= (views_of(
                            frames@.drop_last(),
                        ) + consume(cur).1));
                    }
                },
                None => {
                    proof {
                        assert(consume(cur).1 =~= consume(next).1);
                    }
                },
            }
            start = j + 1;
            j = find_from(&self.buf, start);
        }
        proof {
            let cur = ParserState {
                rem: self.buf@.skip(start as int),
                data: self.data@,
                id: opt_bytes(self.id),
            };
            assert forall|k: int| 0 <= k < cur.rem.len() implies cur.rem[k] != NL by {
                assert(cur.rem[k] == self.buf@[start + k]);
            }
            lemma_find_nl_at(cur.rem, cur.rem.len() as int);
        }
        let rest = copy_range(&self.buf, start, self.buf.len());
        self.buf = rest;
        proof {
            assert(self.buf@ =~= st0.rem.skip(start as int));
            assert(views_of(frames@) + Seq::<FrameModel>::empty() =~= views_of(frames@));
            assert(views_of(frames@) =~= consume(st0).1);
        }
        frames
    }
}

} // verus!
