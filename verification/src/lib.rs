//! In-memory model and lifecycle rules for a high-availability storage
//! cluster manager: hosts with out-of-band fencing, trees of dependent
//! resources (ZFS pools and the Lustre targets living on them), status
//! aggregation, and the decision logic of the observe and manage loops.

pub mod cluster;
pub mod commands;
pub mod config;
pub mod host;
pub mod manager;
pub mod remote;
pub mod resource;
pub mod strutil;
pub mod test_env;
pub mod wire;

use vstd::prelude::*;

verus! {

/// Reading from the stream is not possible right now: there is nothing
/// to read, the given buffer cannot hold a line, or the stream has no
/// readable side.
#[derive(Debug, PartialEq, Eq, Structural)]
pub enum StreamError {
    /// No unread data is available; a caller that can block should wait
    /// and retry.
    WouldBlock,
    /// The caller's buffer is too small for the data that must be
    /// handed out in one piece.
    TooSmall,
    /// The stream has no readable side.
    NotReadable,
}

/// A byte buffer shared between writers and readers: writers append
/// bytes, readers consume each byte exactly once. The blocking hand-off
/// between threads is layered on top by callers; this type holds the
/// data and the read cursor.
pub struct Buffer {
    data: Vec<u8>,
    read_idx: usize,
}

impl Buffer {
    /// Bytes written so far.
    pub closed spec fn all_data(&self) -> Seq<u8> {
        self.data@
    }

    /// Bytes written but not yet read.
    pub closed spec fn pending(&self) -> Seq<u8> {
        self.data@.skip(self.read_idx as int)
    }

    pub closed spec fn wf(&self) -> bool {
        self.read_idx <= self.data@.len()
    }

    pub fn new() -> (r: Buffer)
        ensures
            r.wf(),
            r.pending() == Seq::<u8>::empty(),
            r.all_data() == Seq::<u8>::empty(),
    {
        let b = Buffer { data: Vec::new(), read_idx: 0 };
        proof {
            assert(b.pending() =~= Seq::<u8>::empty());
        }
        b
    }

    /// Append the given bytes; they become readable.
    pub fn write(&mut self, buf: &Vec<u8>) -> (n: usize)
        requires
            old(self).wf(),
        ensures
            final(self).wf(),
            n == buf@.len(),
            final(self).pending() == old(self).pending() + buf@,
            final(self).all_data() == old(self).all_data() + buf@,
    {
        let ghost pre = self.data@;
        let mut i: usize = 0;
        while i < buf.len()
            invariant
                0 <= i <= buf@.len(),
                self.data@ == pre + buf@.take(i as int),
                self.read_idx == old(self).read_idx,
            decreases buf@.len() - i,
        {
            self.data.push(buf[i]);
            proof {
                assert(pre + buf@.take(i + 1) =~= (pre + buf@.take(i as int)).push(
                    buf@[i as int],
                ));
            }
            i = i + 1;
        }
        proof {
            assert(buf@.take(buf@.len() as int) =~= buf@);
            assert(self.pending() =~= old(self).pending() + buf@);
        }
        buf.len()
    }

    /// Append the given bytes followed by a newline.
    pub fn writeln(&mut self, buf: &Vec<u8>) -> (n: usize)
        requires
            old(self).wf(),
            buf@.len() < usize::MAX,
        ensures
            final(self).wf(),
            n == buf@.len() + 1,
            final(self).pending() == old(self).pending() + buf@.push(10u8),
    {
        let ghost pre_pending = self.pending();
        let n = self.write(buf);
        let nl: Vec<u8> = vec![10u8];
        let _ = self.write(&nl);
        proof {
            assert(nl@ =~= seq![10u8]);
            assert(pre_pending + buf@ + seq![10u8] =~= pre_pending + buf@.push(10u8));
        }
        n + 1
    }

    /// Read as many pending bytes as fit into a buffer of capacity
    /// `max`, consuming them. Nothing to read or no capacity is an
    /// error.
    pub fn read(&mut self, max: usize) -> (r: Result<Vec<u8>, StreamError>)
        requires
            old(self).wf(),
        ensures
            final(self).wf(),
            max == 0 ==> r == Err::<Vec<u8>, StreamError>(StreamError::TooSmall) && *final(self)
                == *old(self),
            max > 0 && old(self).pending().len() == 0 ==> r == Err::<Vec<u8>, StreamError>(
                StreamError::WouldBlock,
            ) && *final(self) == *old(self),
            max > 0 && old(self).pending().len() > 0 ==> {
                let n = if old(self).pending().len() < max as int {
                    old(self).pending().len() as int
                } else {
                    max as int
                };
                &&& (r matches Ok(out) && out@ == old(self).pending().take(n))
                &&& final(self).pending() == old(self).pending().skip(n)
            },
    {
        if max == 0 {
            return Err(StreamError::TooSmall);
        }
        if self.read_idx == self.data.len() {
            proof {
                assert(self.pending().len() == 0);
            }
            return Err(StreamError::WouldBlock);
        }
        proof {
            assert(self.pending().len() > 0);
        }
        let avail = self.data.len() - self.read_idx;
        let n = if avail < max {
            avail
        } else {
            max
        };
        let mut out: Vec<u8> = Vec::new();
        let mut i: usize = 0;
        while i < n
            invariant
                0 <= i <= n,
                self.read_idx + n <= self.data@.len(),
                self.read_idx + n <= usize::MAX,
                out@ == self.data@.subrange(self.read_idx as int, self.read_idx + i),
                self == old(self),
            decreases n - i,
        {
            out.push(self.data[self.read_idx + i]);
            proof {
                assert(self.data@.subrange(self.read_idx as int, self.read_idx + i + 1)
                    =~= self.data@.subrange(self.read_idx as int, self.read_idx + i).push(
                    self.data@[self.read_idx + i],
                ));
            }
            i = i + 1;
        }
        let ghost old_pending = self.pending();
        self.read_idx = self.read_idx + n;
        proof {
            let nn = n as int;
            assert(out@ =~= old_pending.take(nn));
            assert(self.pending() =~= old_pending.skip(nn));
        }
        Ok(out)
    }

    /// Read one full line (through its newline), consuming it. A line is
    /// owed whenever one is complete and fits: only an incomplete line
    /// can ask the caller to wait, and only one beyond the caller's
    /// capacity is refused.
    pub fn readln(&mut self, max: usize) -> (r: Result<Vec<u8>, StreamError>)
        requires
            old(self).wf(),
        ensures
            final(self).wf(),
            r matches Ok(out) ==> {
                let k = crate::first_newline(old(self).pending());
                &&& 0 <= k < old(self).pending().len()
                &&& out@ == old(self).pending().take(k + 1)
                &&& final(self).pending() == old(self).pending().skip(k + 1)
                &&& out@.len() <= max
            },
            r is Ok <==> (crate::first_newline(old(self).pending()) < old(self).pending().len()
                && crate::first_newline(old(self).pending()) + 1 <= max),
            (r == Err::<Vec<u8>, StreamError>(StreamError::WouldBlock)) <==> crate::first_newline(
                old(self).pending(),
            ) == old(self).pending().len(),
            (r == Err::<Vec<u8>, StreamError>(StreamError::TooSmall)) <==> (crate::first_newline(
                old(self).pending(),
            ) < old(self).pending().len() && crate::first_newline(old(self).pending()) + 1 > max),
            r is Err ==> *final(self) == *old(self),
    {
        let ghost pending = self.pending();
        let mut k: usize = 0;
        let avail = self.data.len() - self.read_idx;
        while k < avail && self.data[self.read_idx + k] != 10u8
            invariant
                0 <= k <= avail,
                avail == pending.len(),
                self.read_idx + avail <= usize::MAX,
                self == old(self),
                pending == self.pending(),
                self.read_idx + avail == self.data@.len(),
                forall|j: int| 0 <= j < k ==> pending[j] != 10u8,
            decreases avail - k,
        {
            proof {
                assert(pending[k as int] == self.data@[self.read_idx + k]);
            }
            k = k + 1;
        }
        if k == avail {
            proof {
                crate::lemma_first_newline_is(pending, avail as int);
            }
            return Err(StreamError::WouldBlock);
        }
        proof {
            assert(pending[k as int] == self.data@[self.read_idx + k]);
            crate::lemma_first_newline_is(pending, k as int);
        }
        if k + 1 > max {
            return Err(StreamError::TooSmall);
        }
        match self.read(k + 1) {
            Ok(out) => Ok(out),
            Err(e) => {
                proof {
                    assert(false);
                }
                Err(e)
            },
        }
    }
}

/// Index of the first newline byte, or the length when there is none.
pub open spec fn first_newline(s: Seq<u8>) -> int
    decreases s.len(),
{
    if s.len() == 0 {
        0
    } else if s[0] == 10u8 {
        0
    } else {
        1 + first_newline(s.skip(1))
    }
}

pub proof fn lemma_first_newline_is(s: Seq<u8>, i: int)
    requires
        0 <= i <= s.len(),
        i == s.len() || s[i] == 10u8,
        forall|j: int| 0 <= j < i ==> s[j] != 10u8,
    ensures
        first_newline(s) == i,
    decreases s.len(),
{
    if s.len() != 0 && s[0] != 10u8 {
        assert(i >= 1);
        lemma_first_newline_is(s.skip(1), i - 1);
    }
}

/// A writeable (and in some cases readable) output stream. The standard
/// streams are markers whose writing is carried out at the process edge;
/// the buffer variant holds its bytes here and is readable.
pub enum LogStream {
    Stdout,
    Stderr,
    Buffer(Buffer),
}

impl LogStream {
    /// The stream's buffer contents are well formed.
    pub open spec fn wf(&self) -> bool {
        match self {
            LogStream::Buffer(b) => b.wf(),
            _ => true,
        }
    }

    pub fn new_stdout() -> (r: LogStream)
        ensures
            r is Stdout,
            r.wf(),
    {
        LogStream::Stdout
    }

    pub fn new_stderr() -> (r: LogStream)
        ensures
            r is Stderr,
            r.wf(),
    {
        LogStream::Stderr
    }

    pub fn new_buffer() -> (r: LogStream)
        ensures
            r matches LogStream::Buffer(b) && b.pending() == Seq::<u8>::empty(),
            r.wf(),
    {
        LogStream::Buffer(Buffer::new())
    }

    /// Append a line to a buffered stream. The standard-stream variants
    /// hold no bytes here: writing them is the caller's edge work, and
    /// this reports how many bytes such a write would cover.
    pub fn writeln(&mut self, buf: &Vec<u8>) -> (n: usize)
        requires
            old(self).wf(),
            buf@.len() < usize::MAX,
        ensures
            final(self).wf(),
            n == buf@.len() + 1,
            match *old(self) {
                LogStream::Buffer(b) => *final(self) matches LogStream::Buffer(b2) && b2.pending()
                    == b.pending() + buf@.push(10u8),
                _ => *final(self) == *old(self),
            },
    {
        match self {
            LogStream::Buffer(b) => b.writeln(buf),
            _ => buf.len() + 1,
        }
    }

    /// What a read on a buffered stream hands back: a line is owed
    /// whenever one is complete and fits; only an incomplete line says
    /// to wait, and only one beyond the capacity is refused.
    pub open spec fn buffered_line_read(
        b: Buffer,
        after: LogStream,
        max: int,
        r: Result<Vec<u8>, StreamError>,
    ) -> bool {
        let k = first_newline(b.pending());
        &&& (r matches Ok(out) ==> {
            &&& 0 <= k < b.pending().len()
            &&& out@ == b.pending().take(k + 1)
            &&& (after matches LogStream::Buffer(b2) && b2.pending() == b.pending().skip(k + 1))
            &&& out@.len() <= max
        })
        &&& (r is Ok <==> (k < b.pending().len() && k + 1 <= max))
        &&& ((r == Err::<Vec<u8>, StreamError>(StreamError::WouldBlock)) <==> k
            == b.pending().len())
        &&& ((r == Err::<Vec<u8>, StreamError>(StreamError::TooSmall)) <==> (k < b.pending().len()
            && k + 1 > max))
        &&& (r is Err ==> after == LogStream::Buffer(b))
    }

    /// Read from a buffered stream, which hands lines out whole; the
    /// standard streams are not readable.
    pub fn read(&mut self, max: usize) -> (r: Result<Vec<u8>, StreamError>)
        requires
            old(self).wf(),
        ensures
            final(self).wf(),
            !(*old(self) is Buffer) ==> r == Err::<Vec<u8>, StreamError>(StreamError::NotReadable)
                && *final(self) == *old(self),
            match *old(self) {
                LogStream::Buffer(b) => Self::buffered_line_read(b, *final(self), max as int, r),
                _ => true,
            },
    {
        match self {
            LogStream::Buffer(b) => b.readln(max),
            _ => Err(StreamError::NotReadable),
        }
    }

    /// Read one full line from a buffered stream; the standard streams
    /// are not readable.
    pub fn readln(&mut self, max: usize) -> (r: Result<Vec<u8>, StreamError>)
        requires
            old(self).wf(),
        ensures
            final(self).wf(),
            !(*old(self) is Buffer) ==> r == Err::<Vec<u8>, StreamError>(StreamError::NotReadable)
                && *final(self) == *old(self),
            match *old(self) {
                LogStream::Buffer(b) => Self::buffered_line_read(b, *final(self), max as int, r),
                _ => true,
            },
    {
        match self {
            LogStream::Buffer(b) => b.readln(max),
            _ => Err(StreamError::NotReadable),
        }
    }
}

} // verus!
