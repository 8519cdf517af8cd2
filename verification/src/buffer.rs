//! Per-connection receive buffer: a fixed-capacity byte region, the count of
//! bytes accumulated since the last compaction, and the end of the last
//! complete line found in them.
use vstd::prelude::*;

verus! {

use crate::BUFFER_SIZE;
use crate::framing::{
    has_newline, is_newline, lemma_line_split_properties, lemma_step_pending_no_newline,
    line_split, step_line, step_pending,
};

/// One connection's buffered, not-yet-dispatched bytes.
pub struct ClientBuffer {
    buf: Vec<u8>,
    off: usize,
    needle: usize,
}

impl ClientBuffer {
    /// The valid region: bytes received since the last compaction.
    pub closed spec fn contents(&self) -> Seq<u8> {
        self.buf@.take(self.off as int)
    }

    /// One past the last newline recorded by the most recent scan, or 0 when
    /// none was found.
    pub closed spec fn line_end(&self) -> nat {
        self.needle as nat
    }

    /// Structural invariant: the backing store has the fixed capacity and the
    /// scan mark lies inside the valid region.
    pub closed spec fn wf(&self) -> bool {
        self.buf@.len() == BUFFER_SIZE && self.needle <= self.off <= BUFFER_SIZE
    }

    /// A fresh, empty buffer.
    pub fn new() -> (c: ClientBuffer)
        ensures
            c.wf(),
            c.contents() == Seq::<u8>::empty(),
            c.line_end() == 0,
    {
        let c = ClientBuffer { buf: vec![0u8; BUFFER_SIZE], off: 0, needle: 0 };
        proof {
            assert(c.contents() =~= Seq::<u8>::empty());
        }
        c
    }

    /// How many further bytes a read may deliver into this buffer.
    pub fn capacity_left(&self) -> (n: usize)
        requires
            self.wf(),
        ensures
            n == BUFFER_SIZE - self.contents().len(),
    {
        BUFFER_SIZE - self.off
    }

    /// Copy newly read bytes in after those already held.
    pub fn append(&mut self, data: &[u8])
        requires
            old(self).wf(),
            old(self).contents().len() + data@.len() <= BUFFER_SIZE,
        ensures
            final(self).wf(),
            final(self).contents() == old(self).contents() + data@,
            final(self).line_end() == old(self).line_end(),
    {
        let n: usize = data.len();
        let mut i: usize = 0;
        while i < n
            invariant
                i <= n,
                n == data@.len(),
                self.off == old(self).off,
                self.needle == old(self).needle,
                self.buf@.len() == BUFFER_SIZE,
                self.off + n <= BUFFER_SIZE,
                forall|j: int| 0 <= j < self.off ==> self.buf@[j] == old(self).buf@[j],
                forall|j: int| 0 <= j < i ==> self.buf@[self.off + j] == data@[j],
            decreases n - i,
        {
            self.buf[self.off + i] = data[i];
            i += 1;
        }
        self.off = self.off + n;
        proof {
            assert(self.contents() =~= old(self).contents() + data@);
        }
    }

    /// Scan the whole valid region for its last newline and record one past
    /// it; returns true iff at least one complete line is now pending.
    pub fn check_message(&mut self) -> (found: bool)
        requires
            old(self).wf(),
        ensures
            final(self).wf(),
            final(self).contents() == old(self).contents(),
            final(self).line_end() == line_split(old(self).contents()),
            found <==> final(self).line_end() > 0,
    {
        let ghost c = self.contents();
        proof {
            lemma_line_split_properties(c);
            assert(c.take(self.off as int) =~= c);
        }
        let mut end: usize = 0;
        let mut i: usize = self.off;
        while i > 0 && end == 0
            invariant
                i <= self.off,
                self.wf(),
                c == self.contents(),
                end <= self.off,
                end == 0 ==> line_split(c) == line_split(c.take(i as int)),
                end > 0 ==> end == line_split(c),
            decreases i,
        {
            i = i - 1;
            let b: u8 = self.buf[i];
            proof {
                assert(c[i as int] == self.buf@[i as int]);
            }
            if b == 10u8 {
                end = i + 1;
                proof {
                    assert(c.take(i as int + 1).last() == c[i as int]);
                    assert(is_newline(c.take(i as int + 1).last()));
                    assert(line_split(c.take(i as int + 1)) == i + 1);
                }
            } else {
                proof {
                    assert(c.take(i as int + 1).drop_last() =~= c.take(i as int));
                    assert(!is_newline(c.take(i as int + 1).last()));
                }
            }
        }
        proof {
            if end == 0 {
                assert(c.take(0) =~= Seq::<u8>::empty());
            }
        }
        self.needle = end;
        end > 0
    }

    /// The pending chunk of complete lines: everything up to and including
    /// the last newline the scan found.
    pub fn current_line(&self) -> (line: Vec<u8>)
        requires
            self.wf(),
        ensures
            line@ == self.contents().take(self.line_end() as int),
    {
        let mut line: Vec<u8> = Vec::new();
        let mut i: usize = 0;
        while i < self.needle
            invariant
                i <= self.needle,
                self.wf(),
                line@.len() == i,
                forall|j: int| 0 <= j < i ==> line@[j] == self.contents()[j],
            decreases self.needle - i,
        {
            let b: u8 = self.buf[i];
            line.push(b);
            i += 1;
        }
        proof {
            assert(line@ =~= self.contents().take(self.line_end() as int));
        }
        line
    }

    /// Discard the dispatched lines: shift any bytes after the last newline
    /// down to the front and reset the scan mark, so the next read continues
    /// a partial line from offset 0.
    pub fn compact(&mut self)
        requires
            old(self).wf(),
        ensures
            final(self).wf(),
            final(self).contents() == old(self).contents().skip(old(self).line_end() as int),
            final(self).line_end() == 0,
    {
        let n: usize = self.needle;
        if n < self.off {
            let cnt: usize = self.off - n;
            let mut i: usize = 0;
            while i < cnt
                invariant
                    i <= cnt,
                    n == self.needle,
                    self.off == old(self).off,
                    self.needle == old(self).needle,
                    self.buf@.len() == BUFFER_SIZE,
                    self.needle <= self.off <= BUFFER_SIZE,
                    cnt == self.off - n,
                    forall|j: int| 0 <= j < i ==> self.buf@[j] == old(self).buf@[n + j],
                    forall|j: int| i <= j < BUFFER_SIZE ==> self.buf@[j] == old(self).buf@[j],
                decreases cnt - i,
            {
                let b: u8 = self.buf[n + i];
                self.buf[i] = b;
                i += 1;
            }
            self.off = cnt;
            self.needle = 0;
            proof {
                assert(self.contents() =~= old(self).contents().skip(old(self).line_end() as int));
            }
        } else {
            self.off = 0;
            self.needle = 0;
            proof {
                assert(self.contents() =~= old(self).contents().skip(old(self).line_end() as int));
            }
        }
    }

    /// Drop everything held, for when the buffer has filled without any
    /// newline: the oversized line is abandoned, never dispatched.
    pub fn clear(&mut self)
        requires
            old(self).wf(),
        ensures
            final(self).wf(),
            final(self).contents() == Seq::<u8>::empty(),
            final(self).line_end() == 0,
    {
        self.off = 0;
        self.needle = 0;
        proof {
            assert(self.contents() =~= Seq::<u8>::empty());
        }
    }

    /// Process one read: append the bytes and scan. Either hand back the
    /// chunk of newly completed lines (compacting the buffer), or hold the
    /// bytes for the next read — dropping them when the buffer has filled
    /// without any newline.
    pub fn receive(&mut self, data: &[u8]) -> (line: Option<Vec<u8>>)
        requires
            old(self).wf(),
            old(self).line_end() == 0,
            old(self).contents().len() + data@.len() <= BUFFER_SIZE,
        ensures
            final(self).wf(),
            final(self).line_end() == 0,
            final(self).contents() == step_pending(old(self).contents(), data@),
            final(self).contents().len() < BUFFER_SIZE,
            !has_newline(old(self).contents()) ==> !has_newline(final(self).contents()),
            match line {
                Some(l) => has_newline(old(self).contents() + data@) && l@ == step_line(
                    old(self).contents(),
                    data@,
                ),
                None => !has_newline(old(self).contents() + data@),
            },
    {
        let ghost p = old(self).contents();
        self.append(data);
        let found = self.check_message();
        proof {
            lemma_line_split_properties(p + data@);
            if !has_newline(p) {
                lemma_step_pending_no_newline(p, data@);
            }
        }
        if found {
            let line = self.current_line();
            self.compact();
            Some(line)
        } else {
            if self.capacity_left() == 0 {
                self.clear();
            }
            None
        }
    }
}

} // verus!
