//! What the host saw of a body as it crossed the boundary.
//!
//! The runtimes disagree on who drives the stream, so the host polls `exec`
//! and the body at once and records when each chunk landed rather than what
//! the totals add up to. These are the records, and what is read from them.

use vstd::prelude::*;
use vstd::string::*;
use vstd::utf8::*;

use crate::text::{owned, push_str};

verus! {

broadcast use vstd::string::group_string_axioms;

/// One chunk as the host saw it: when it arrived, in nanoseconds from the
/// start of `exec`, and what it held.
pub struct Chunk {
    pub at_nanos: u128,
    pub bytes: Vec<u8>,
}

/// What draining a response body produced.
pub struct Drained {
    /// The body arrived as a stream, whatever it then did.
    pub streamed: bool,
    pub chunks: Vec<Chunk>,
    /// An `Err(...)` chunk, which ends the drain.
    pub error: Option<String>,
    /// How long the whole body took, in nanoseconds from the start.
    pub total_nanos: u128,
}

/// The bytes of `chunks`, in order.
pub open spec fn all_bytes(chunks: Seq<Chunk>) -> Seq<u8>
    decreases chunks.len(),
{
    if chunks.len() == 0 {
        Seq::empty()
    } else {
        all_bytes(chunks.drop_last()) + chunks.last().bytes@
    }
}

/// What `String::from_utf8_lossy` makes of `bytes`.
pub uninterp spec fn utf8_lossy(bytes: Seq<u8>) -> Seq<char>;

/// Calls `String::from_utf8_lossy`. Claimed: the result is `utf8_lossy` of
/// the bytes, and bytes that are valid UTF-8 come back as the text they
/// encode, as the function's documentation says. How invalid sequences are
/// replaced is left to the name.
#[verifier::external_body]
pub(crate) fn lossy(bytes: &[u8]) -> (r: String)
    ensures
        r@ == utf8_lossy(bytes@),
        valid_utf8(bytes@) ==> r@ == decode_utf8(bytes@),
{
    String::from_utf8_lossy(bytes).into_owned()
}

impl Drained {
    /// Every byte the body carried, in order.
    pub fn bytes(&self) -> (r: Vec<u8>)
        ensures
            r@ == all_bytes(self.chunks@),
    {
        let mut out: Vec<u8> = Vec::new();
        let mut i: usize = 0;
        while i < self.chunks.len()
            invariant
                i <= self.chunks.len(),
                out@ == all_bytes(self.chunks@.subrange(0, i as int)),
            decreases self.chunks.len() - i,
        {
            assert(self.chunks@.subrange(0, i + 1).drop_last() =~= self.chunks@.subrange(0, i as int));
            out.extend_from_slice(self.chunks[i].bytes.as_slice());
            i += 1;
        }
        assert(self.chunks@.subrange(0, i as int) =~= self.chunks@);
        out
    }

    /// The body as text, with invalid UTF-8 replaced.
    pub fn text(&self) -> (r: String)
        ensures
            r@ == utf8_lossy(all_bytes(self.chunks@)),
            valid_utf8(all_bytes(self.chunks@)) ==> r@ == decode_utf8(all_bytes(self.chunks@)),
    {
        let b = self.bytes();
        lossy(b.as_slice())
    }

    /// When the first byte landed.
    pub fn ttfc(&self) -> (r: Option<u128>)
        ensures
            r == if self.chunks@.len() == 0 {
                None
            } else {
                Some(self.chunks@[0].at_nanos)
            },
    {
        if self.chunks.len() == 0 {
            None
        } else {
            Some(self.chunks[0].at_nanos)
        }
    }
}

/// What one read of a streamed response body gave.
pub enum BodyRead {
    /// A chunk of bytes.
    Chunk(Vec<u8>),
    /// An `Err(...)` on the body channel.
    Failed(String),
    /// The end of the body.
    Ended,
}

impl Drained {
    /// Records one read that landed `at_nanos` in, and says whether to read
    /// on: a chunk is kept and reading goes on; an error is kept and ends the
    /// drain, as the end of the body does.
    pub fn take(&mut self, at_nanos: u128, read: BodyRead) -> (more: bool)
        ensures
            final(self).streamed == old(self).streamed,
            final(self).total_nanos == old(self).total_nanos,
            match read {
                BodyRead::Chunk(bytes) => {
                    &&& more
                    &&& final(self).chunks@ == old(self).chunks@.push(Chunk { at_nanos, bytes })
                    &&& final(self).error == old(self).error
                },
                BodyRead::Failed(e) => {
                    &&& !more
                    &&& final(self).chunks@ == old(self).chunks@
                    &&& final(self).error == Some(e)
                },
                BodyRead::Ended => {
                    &&& !more
                    &&& final(self).chunks@ == old(self).chunks@
                    &&& final(self).error == old(self).error
                },
            },
    {
        match read {
            BodyRead::Chunk(bytes) => {
                self.chunks.push(Chunk { at_nanos, bytes });
                true
            },
            BodyRead::Failed(e) => {
                self.error = Some(e);
                false
            },
            BodyRead::Ended => false,
        }
    }
}

/// Where `exec` stood when the probe ended: still going, back with `Ok`, or
/// back with an error, written as its debug text.
pub enum ExecStatus {
    Running,
    Returned,
    Failed(String),
}

/// How `exec` ended, as a line for the report.
pub open spec fn exec_note_text(done: ExecStatus) -> Seq<char> {
    match done {
        ExecStatus::Running => "exec was still running when the probe ended"@,
        ExecStatus::Returned => "exec returned Ok"@,
        ExecStatus::Failed(reason) => "exec returned Err("@ + reason@ + ")"@,
    }
}

/// How `exec` ended, as a line for the report.
pub fn exec_note(done: &ExecStatus) -> (r: String)
    ensures
        r@ == exec_note_text(*done),
{
    match done {
        ExecStatus::Running => owned("exec was still running when the probe ended"),
        ExecStatus::Returned => owned("exec returned Ok"),
        ExecStatus::Failed(reason) => {
            let mut r = owned("exec returned Err(");
            push_str(&mut r, reason.as_str());
            push_str(&mut r, ")");
            r
        },
    }
}

} // verus!
