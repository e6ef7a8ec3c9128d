//! How a file's bytes are sent: in one request when small enough, else as an
//! upload session of chunks; and how a chunk buffer is filled by reads.

use vstd::prelude::*;

verus! {

/// Dropbox single-request upload limit (see `files/upload` docs): 150 MiB.
pub const MAX_CHUNK: u64 = 150 * 1024 * 1024;

/// How a file of a given length is uploaded.
#[derive(Clone, Copy, Debug, PartialEq, Eq)]
pub enum UploadMethod {
    /// One `files/upload` request with the whole file.
    SingleRequest,
    /// An upload session: start, append chunks, finish.
    Session,
}

/// Files longer than `MAX_CHUNK` go through an upload session.
pub fn upload_method(len: u64) -> (m: UploadMethod)
    ensures
        m == (if len > MAX_CHUNK { UploadMethod::Session } else { UploadMethod::SingleRequest }),
{
    if len > MAX_CHUNK {
        UploadMethod::Session
    } else {
        UploadMethod::SingleRequest
    }
}

/// The length of the buffer that an upload session reads chunks into:
/// `min(MAX_CHUNK, len)`, but at least one byte.
pub fn session_buffer_len(len: u64) -> (n: usize)
    ensures
        n == (if len < MAX_CHUNK { if len < 1 { 1 } else { len } } else { MAX_CHUNK }),
        1 <= n <= MAX_CHUNK,
{
    if len < MAX_CHUNK {
        if len < 1 {
            1
        } else {
            len as usize
        }
    } else {
        MAX_CHUNK as usize
    }
}

/// One request of an upload session. Every `Start` and `Append` sends the
/// next `size` bytes of the file.
#[derive(Clone, Copy, Debug, PartialEq, Eq)]
pub enum SessionStep {
    /// `upload_session/start` with the first `size` bytes.
    Start { size: u64 },
    /// `upload_session/append_v2` at `offset`, closing the session when `close` holds.
    Append { offset: u64, size: u64, close: bool },
    /// `upload_session/finish` with the cursor at `offset`, committing the file.
    Finish { offset: u64 },
}

/// The size of the first chunk of a file of `len` bytes.
pub open spec fn first_chunk(len: nat) -> nat {
    if len < MAX_CHUNK {
        len
    } else {
        MAX_CHUNK as nat
    }
}

/// The appends once `uploaded` bytes have been sent: full chunks while more
/// than a chunk is left, then the rest, if any, in an append that closes
/// the session.
pub open spec fn appends_from(uploaded: nat, len: nat) -> Seq<SessionStep>
    decreases len - uploaded,
{
    if len > uploaded + MAX_CHUNK {
        seq![SessionStep::Append { offset: uploaded as u64, size: MAX_CHUNK, close: false }]
            + appends_from((uploaded + MAX_CHUNK) as nat, len)
    } else if len > uploaded {
        seq![SessionStep::Append { offset: uploaded as u64, size: (len - uploaded) as u64, close: true }]
    } else {
        seq![]
    }
}

/// The requests of the upload session of a file of `len` bytes, in order.
pub open spec fn session_plan(len: nat) -> Seq<SessionStep> {
    seq![SessionStep::Start { size: first_chunk(len) as u64 }] + appends_from(first_chunk(len), len)
        + seq![SessionStep::Finish { offset: len as u64 }]
}

/// The requests that upload a file of `len` bytes through an upload session.
pub fn plan_upload_session(len: u64) -> (steps: Vec<SessionStep>)
    ensures
        steps@ == session_plan(len as nat),
{
    let first: u64 = if len < MAX_CHUNK { len } else { MAX_CHUNK };
    let mut steps: Vec<SessionStep> = Vec::new();
    steps.push(SessionStep::Start { size: first });
    let mut uploaded: u64 = first;
    while len - uploaded > MAX_CHUNK
        invariant
            first == first_chunk(len as nat),
            first <= uploaded <= len,
            steps@ + appends_from(uploaded as nat, len as nat) == seq![SessionStep::Start { size: first }]
                + appends_from(first as nat, len as nat),
        decreases len - uploaded,
    {
        let ghost before = steps@;
        steps.push(SessionStep::Append { offset: uploaded, size: MAX_CHUNK, close: false });
        assert(steps@ + appends_from((uploaded + MAX_CHUNK) as nat, len as nat) =~= before
            + appends_from(uploaded as nat, len as nat));
        uploaded = uploaded + MAX_CHUNK;
    }
    if len > uploaded {
        let ghost before = steps@;
        steps.push(SessionStep::Append { offset: uploaded, size: len - uploaded, close: true });
        assert(steps@ =~= before + appends_from(uploaded as nat, len as nat));
    } else {
        assert(steps@ =~= steps@ + appends_from(uploaded as nat, len as nat));
    }
    steps.push(SessionStep::Finish { offset: len });
    steps
}

/// The bytes that a step sends.
pub open spec fn step_size(s: SessionStep) -> nat {
    match s {
        SessionStep::Start { size } => size as nat,
        SessionStep::Append { size, .. } => size as nat,
        SessionStep::Finish { .. } => 0,
    }
}

/// The bytes that a run of steps sends in all.
pub open spec fn bytes_sent(steps: Seq<SessionStep>) -> nat
    decreases steps.len(),
{
    if steps.len() == 0 {
        0
    } else {
        bytes_sent(steps.drop_last()) + step_size(steps.last())
    }
}

proof fn lemma_bytes_sent_single(st: SessionStep)
    ensures
        bytes_sent(seq![st]) == step_size(st),
{
    assert(seq![st].drop_last() =~= Seq::<SessionStep>::empty());
    assert(bytes_sent(Seq::<SessionStep>::empty()) == 0);
}

proof fn lemma_bytes_sent_concat(a: Seq<SessionStep>, b: Seq<SessionStep>)
    ensures
        bytes_sent(a + b) == bytes_sent(a) + bytes_sent(b),
    decreases b.len(),
{
    if b.len() > 0 {
        lemma_bytes_sent_concat(a, b.drop_last());
        assert((a + b).drop_last() =~= a + b.drop_last());
    } else {
        assert(a + b =~= a);
    }
}

/// The appends from `uploaded` on: each starts where the bytes before it end,
/// sends at most a chunk and at least one byte, only the last one closes,
/// and together they send the rest of the file.
proof fn lemma_appends_from(uploaded: nat, len: nat)
    requires
        uploaded <= len,
        len <= u64::MAX,
    ensures
        ({
            let a = appends_from(uploaded, len);
            &&& bytes_sent(a) == len - uploaded
            &&& forall|i: int| 0 <= i < a.len() ==> (#[trigger] a[i] matches SessionStep::Append { offset, size, close } && offset == uploaded + bytes_sent(a.take(i)) && 1 <= size <= MAX_CHUNK && (close <==> i == a.len() - 1))
            &&& (len > uploaded <==> a.len() > 0)
        }),
    decreases len - uploaded,
{
    let a = appends_from(uploaded, len);
    if len > uploaded + MAX_CHUNK {
        let head = seq![SessionStep::Append { offset: uploaded as u64, size: MAX_CHUNK, close: false }];
        let rest = appends_from((uploaded + MAX_CHUNK) as nat, len);
        lemma_appends_from((uploaded + MAX_CHUNK) as nat, len);
        lemma_bytes_sent_concat(head, rest);
        lemma_bytes_sent_single(head[0]);
        assert forall|i: int| 0 <= i < a.len() implies (#[trigger] a[i] matches SessionStep::Append { offset, size, close } && offset == uploaded + bytes_sent(a.take(i)) && 1 <= size <= MAX_CHUNK && (close <==> i == a.len() - 1)) by {
            if i == 0 {
                assert(a.take(0) =~= Seq::<SessionStep>::empty());
                assert(rest.len() > 0);
            } else {
                assert(a[i] == rest[i - 1]);
                assert(a.take(i) =~= head + rest.take(i - 1));
                lemma_bytes_sent_concat(head, rest.take(i - 1));
            }
        }
    } else if len > uploaded {
        lemma_bytes_sent_single(a[0]);
        assert(a.take(0) =~= Seq::<SessionStep>::empty());
        assert(bytes_sent(Seq::<SessionStep>::empty()) == 0);
    } else {
        assert(bytes_sent(a) == 0);
    }
}

/// An upload session sends the whole file exactly once, in order: the start
/// sends the first chunk, every append continues where the bytes before it
/// end, no request sends more than `MAX_CHUNK` bytes, the finish commits at
/// the file's length, and a file longer than a chunk is closed by its last
/// append and by no other.
pub proof fn law_session_sends_each_byte_once(len: nat)
    requires
        len <= u64::MAX,
    ensures
        ({
            let p = session_plan(len);
            &&& p.len() >= 2
            &&& p[0] == SessionStep::Start { size: first_chunk(len) as u64 }
            &&& p.last() == SessionStep::Finish { offset: len as u64 }
            &&& bytes_sent(p) == len
            &&& forall|i: int| 0 <= i < p.len() ==> step_size(#[trigger] p[i]) <= MAX_CHUNK
            &&& forall|i: int| 1 <= i < p.len() - 1 ==> (#[trigger] p[i] matches SessionStep::Append { offset, close, .. } && offset == bytes_sent(p.take(i)) && (close <==> (i == p.len() - 2 && len > MAX_CHUNK)))
        }),
{
    let first = first_chunk(len);
    let s = seq![SessionStep::Start { size: first as u64 }];
    let a = appends_from(first, len);
    let f = seq![SessionStep::Finish { offset: len as u64 }];
    let p = session_plan(len);
    lemma_appends_from(first, len);
    assert(p =~= s + a + f);
    lemma_bytes_sent_single(s[0]);
    lemma_bytes_sent_single(f[0]);
    lemma_bytes_sent_concat(s, a);
    lemma_bytes_sent_concat(s + a, f);
    assert forall|i: int| 0 <= i < p.len() implies step_size(#[trigger] p[i]) <= MAX_CHUNK by {
        if 1 <= i < p.len() - 1 {
            assert(p[i] == a[i - 1]);
        }
    }
    assert forall|i: int| 1 <= i < p.len() - 1 implies (#[trigger] p[i] matches SessionStep::Append { offset, close, .. } && offset == bytes_sent(p.take(i)) && (close <==> (i == p.len() - 2 && len > MAX_CHUNK))) by {
        assert(p[i] == a[i - 1]);
        assert(p.take(i) =~= s + a.take(i - 1));
        lemma_bytes_sent_concat(s, a.take(i - 1));
    }
}

/// Where filling a buffer by reads stands.
#[derive(Clone, Copy, Debug, PartialEq, Eq)]
pub enum FillProgress {
    /// `filled` bytes are in; read again into the rest.
    NeedMore { filled: usize },
    /// The buffer is full.
    Filled,
    /// The file ended before the buffer was full: an unexpected end of file.
    ShortRead,
}

/// The progress before the first read into a buffer of `wanted` bytes.
pub fn fill_begin(wanted: usize) -> (p: FillProgress)
    ensures
        p == (if wanted == 0 { FillProgress::Filled } else { FillProgress::NeedMore { filled: 0 } }),
{
    if wanted == 0 {
        FillProgress::Filled
    } else {
        FillProgress::NeedMore { filled: 0 }
    }
}

/// The progress after a read returned `n` bytes, with `filled` bytes of
/// `wanted` in before it. A read of nothing means the file ended.
pub fn fill_after_read(filled: usize, wanted: usize, n: usize) -> (p: FillProgress)
    requires
        filled < wanted,
        n <= wanted - filled,
    ensures
        p == (if n == 0 {
            FillProgress::ShortRead
        } else if filled + n == wanted {
            FillProgress::Filled
        } else {
            FillProgress::NeedMore { filled: (filled + n) as usize }
        }),
        p matches FillProgress::NeedMore { filled: f } ==> filled < f < wanted,
{
    if n == 0 {
        FillProgress::ShortRead
    } else if filled + n == wanted {
        FillProgress::Filled
    } else {
        FillProgress::NeedMore { filled: filled + n }
    }
}

} // verus!
