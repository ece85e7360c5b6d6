//! One input stream: a growable window of bytes read from it but not yet
//! discarded, delimited into lines on demand.
use vstd::prelude::*;
use crate::line::{NEWLINE, no_newline, is_line, find_line_end};

verus! {

/// What one read taught a source.
#[derive(Debug, PartialEq, Eq, Structural, Clone, Copy)]
pub enum ReadStep {
    /// The window now starts with a full line of this many bytes.
    Line(usize),
    /// No line is complete yet: read again into the free tail.
    NeedMore,
    /// The stream ended and every byte of it has been handed out as a line.
    Exhausted,
}

/// Capacity after the buffer doubles, where doubling fits in a `usize`.
pub open spec fn doubled(cap: nat) -> nat {
    if cap <= usize::MAX / 2 {
        2 * cap
    } else {
        cap
    }
}

/// The stream's bytes with one delimiter added where they end without one.
pub open spec fn normalized(fed: Seq<u8>) -> Seq<u8> {
    if fed.len() > 0 && fed.last() != NEWLINE {
        fed.push(NEWLINE)
    } else {
        fed
    }
}

pub struct Source {
    /// Names the source in headers, byte for byte.
    pub path: Vec<u8>,
    /// The window; its length is the capacity, and only `buffer[..read]` holds data.
    pub buffer: Vec<u8>,
    pub read: usize,
    /// The stream ended within an unterminated line, and a delimiter was added.
    pub ended: bool,
    /// Every byte the stream has delivered so far.
    pub fed: Ghost<Seq<u8>>,
    /// Every byte shifted out of the front of the window so far.
    pub discarded: Ghost<Seq<u8>>,
    /// The capacity the buffer started with.
    pub initial: Ghost<nat>,
    /// Length of the longest run without a delimiter that made the buffer
    /// grow, and where that run starts among the taken bytes.
    pub widest: Ghost<nat>,
    pub widest_at: Ghost<int>,
}

impl Source {
    /// The bytes held in the window.
    pub open spec fn data(&self) -> Seq<u8> {
        self.buffer@.take(self.read as int)
    }

    /// Every byte made available as line content so far: what was shifted
    /// out, then what the window holds.
    pub open spec fn taken(&self) -> Seq<u8> {
        self.discarded@ + self.data()
    }

    pub open spec fn capacity(&self) -> nat {
        self.buffer@.len()
    }

    pub open spec fn wf(&self) -> bool {
        &&& self.read <= self.buffer@.len()
        &&& 4 <= self.buffer@.len()
        &&& (self.discarded@.len() == 0 || self.discarded@.last() == NEWLINE)
        &&& !self.ended ==> self.taken() == self.fed@
        &&& self.ended ==> {
            &&& self.taken() == self.fed@.push(NEWLINE)
            &&& self.fed@.len() > 0
            &&& self.fed@.last() != NEWLINE
        }
        &&& self.initial@ <= self.capacity()
        &&& self.capacity() <= self.initial@ || self.capacity() <= 3 * self.widest@
        &&& 0 <= self.widest_at@
        &&& self.widest_at@ + self.widest@ <= self.taken().len()
        &&& no_newline(self.taken().subrange(self.widest_at@, self.widest_at@ + self.widest@))
    }

    /// A source named `path` with an empty window of `capacity` bytes.
    pub fn new(path: Vec<u8>, capacity: usize) -> (r: Source)
        requires
            4 <= capacity,
        ensures
            r.wf(),
            r.path@ == path@,
            r.capacity() == capacity,
            r.initial@ == capacity,
            r.data().len() == 0,
            r.fed@.len() == 0,
            !r.ended,
    {
        let mut buffer: Vec<u8> = Vec::new();
        while buffer.len() < capacity
            invariant
                buffer@.len() <= capacity,
            decreases capacity - buffer@.len(),
        {
            buffer.push(0u8);
        }
        let r = Source {
            path,
            buffer,
            read: 0,
            ended: false,
            fed: Ghost(Seq::empty()),
            discarded: Ghost(Seq::empty()),
            initial: Ghost(capacity as nat),
            widest: Ghost(0),
            widest_at: Ghost(0),
        };
        assert(r.data() =~= Seq::empty());
        assert(r.taken() =~= r.fed@);
        r
    }

    /// Bytes that the next read may fill.
    pub fn free_space(&self) -> (r: usize)
        requires
            self.wf(),
        ensures
            r == self.capacity() - self.read,
    {
        self.buffer.len() - self.read
    }

    /// Shifts the first `next_line_begins` bytes, whole lines already
    /// emitted, out of the window, moving the rest to its start.
    pub fn discard_consumed(&mut self, next_line_begins: usize)
        requires
            old(self).wf(),
            next_line_begins <= old(self).read,
            next_line_begins == 0 || old(self).buffer@[next_line_begins - 1] == NEWLINE,
        ensures
            final(self).wf(),
            final(self).data() == old(self).data().skip(next_line_begins as int),
            final(self).taken() == old(self).taken(),
            final(self).discarded@ == old(self).discarded@ + old(self).data().take(next_line_begins as int),
            final(self).capacity() == old(self).capacity(),
            final(self).path == old(self).path,
            final(self).fed == old(self).fed,
            final(self).ended == old(self).ended,
            final(self).initial == old(self).initial,
    {
        let ghost old_data = self.data();
        let n = next_line_begins;
        let end = self.read;
        let mut i: usize = n;
        while i < end
            invariant
                n <= i <= end,
                end == old(self).read,
                self.discarded == old(self).discarded,
                self.fed == old(self).fed,
                self.ended == old(self).ended,
                self.path == old(self).path,
                self.read == old(self).read,
                self.initial == old(self).initial,
                self.widest == old(self).widest,
                self.widest_at == old(self).widest_at,
                self.buffer@.len() == old(self).buffer@.len(),
                end <= self.buffer@.len(),
                old_data == old(self).buffer@.take(end as int),
                forall|k: int| 0 <= k < i - n ==> self.buffer@[k] == old_data[k + n],
                forall|k: int| i <= k < end ==> self.buffer@[k] == old_data[k],
            decreases end - i,
        {
            let b = self.buffer[i];
            self.buffer.set(i - n, b);
            i = i + 1;
        }
        self.read = end - n;
        proof {
            self.discarded = Ghost(self.discarded@ + old_data.take(n as int));
            assert(self.data() =~= old_data.skip(n as int));
            let d0 = old(self).discarded@;
            assert(old_data.take(n as int) + old_data.skip(n as int) =~= old_data);
            assert((d0 + old_data.take(n as int)) + old_data.skip(n as int) =~= d0 + (old_data.take(n as int) + old_data.skip(n as int)));
            assert(self.taken() == self.discarded@ + self.data());
            assert(self.discarded@ == d0 + old_data.take(n as int));
            assert(self.taken() == (d0 + old_data.take(n as int)) + old_data.skip(n as int));
            assert(old(self).taken() == d0 + old_data);
            if n > 0 {
                assert(self.discarded@.last() == old_data[n - 1]);
            }
            assert(self.taken() == old(self).taken());
        }
    }

    /// Takes in the bytes of one read of the stream; an empty `new_bytes`
    /// means the stream has ended. Growth: when no line is complete and
    /// under a quarter of the buffer stays free, its capacity doubles; when
    /// the stream ends in an unterminated line that fills the buffer, it
    /// grows by the one byte of the added delimiter.
    pub fn absorb(&mut self, new_bytes: &[u8]) -> (r: ReadStep)
        requires
            old(self).wf(),
            no_newline(old(self).data()),
            new_bytes@.len() <= old(self).capacity() - old(self).read,
        ensures
            final(self).wf(),
            final(self).path == old(self).path,
            final(self).discarded == old(self).discarded,
            final(self).initial == old(self).initial,
            old(self).ended ==> r == ReadStep::Exhausted && *final(self) == *old(self),
            !old(self).ended && new_bytes@.len() == 0 && old(self).read == 0 ==> {
                &&& r == ReadStep::Exhausted
                &&& *final(self) == *old(self)
            },
            r == ReadStep::Exhausted ==> {
                &&& final(self).data().len() == 0
                &&& final(self).taken() == normalized(final(self).fed@)
            },
            !old(self).ended && new_bytes@.len() == 0 && old(self).read > 0 ==> {
                &&& r == ReadStep::Line((old(self).read + 1) as usize)
                &&& final(self).data() == old(self).data().push(NEWLINE)
                &&& final(self).fed == old(self).fed
                &&& final(self).ended
            },
            !old(self).ended && new_bytes@.len() > 0 ==> {
                &&& final(self).data() == old(self).data() + new_bytes@
                &&& final(self).fed@ == old(self).fed@ + new_bytes@
                &&& !final(self).ended
                &&& (r == ReadStep::NeedMore) == no_newline(new_bytes@)
                &&& r != ReadStep::Exhausted
            },
            r is Line ==> {
                &&& 0 < r->Line_0 <= final(self).read
                &&& is_line(final(self).data().take(r->Line_0 as int))
            },
            r == ReadStep::NeedMore ==> {
                &&& no_newline(final(self).data())
                &&& (final(self).read < final(self).capacity() || old(self).capacity() > usize::MAX / 2)
            },
            final(self).capacity() == old(self).capacity() || {
                &&& r == ReadStep::NeedMore
                &&& 4 * (old(self).capacity() - final(self).read) < old(self).capacity()
                &&& final(self).capacity() == doubled(old(self).capacity())
            } || {
                &&& r is Line
                &&& new_bytes@.len() == 0
                &&& old(self).read == old(self).capacity()
                &&& final(self).capacity() == old(self).capacity() + 1
            },
    {
        let cap0 = self.buffer.len();
        if self.ended {
            proof {
                let d = self.data();
                if d.len() > 0 {
                    assert(self.taken().last() == d.last());
                    assert(d[d.len() - 1] != NEWLINE);
                }
                assert(d =~= Seq::empty());
            }
            return ReadStep::Exhausted;
        }
        let n = new_bytes.len();
        if n == 0 {
            if self.read == 0 {
                proof {
                    assert(self.discarded@ + self.data() =~= self.discarded@);
                }
                return ReadStep::Exhausted;
            }
            let ghost old_data = self.data();
            let ghost old_buf = self.buffer@;
            if self.read < self.buffer.len() {
                self.buffer.set(self.read, NEWLINE);
            } else {
                let mut grown: Vec<u8> = Vec::new();
                let mut i: usize = 0;
                while i < self.buffer.len()
                    invariant
                        i <= self.buffer@.len(),
                        grown@ == self.buffer@.take(i as int),
                    decreases self.buffer@.len() - i,
                {
                    grown.push(self.buffer[i]);
                    assert(grown@ =~= self.buffer@.take(i + 1));
                    i = i + 1;
                }
                grown.push(NEWLINE);
                self.buffer = grown;
                proof {
                    self.widest_at = Ghost(self.discarded@.len() as int);
                    self.widest = Ghost(old_data.len());
                }
            }
            let len_now = self.buffer.len();
            assert(self.read < len_now);
            self.read = self.read + 1;
            self.ended = true;
            proof {
                assert(self.data() =~= old_data.push(NEWLINE));
                assert(self.taken() =~= old(self).taken().push(NEWLINE));
                let t = self.taken();
                if self.widest@ == old(self).widest@ {
                    assert(t.subrange(self.widest_at@, self.widest_at@ + self.widest@)
                        =~= old(self).taken().subrange(self.widest_at@, self.widest_at@ + self.widest@));
                } else {
                    assert(t.subrange(self.widest_at@, self.widest_at@ + self.widest@) =~= old_data);
                }
                let d = self.data();
                assert(d.take(d.len() as int) =~= d);
                assert(d.drop_last() =~= old_data);
                // the stream ends without a delimiter: the data is its unterminated tail
                assert(old(self).fed@.last() == old(self).taken().last());
            }
            return ReadStep::Line(self.read);
        }
        let ghost old_data = self.data();
        let start = self.read;
        let mut i: usize = 0;
        while i < n
            invariant
                n == new_bytes@.len(),
                start == old(self).read,
                self.discarded == old(self).discarded,
                self.fed == old(self).fed,
                self.ended == old(self).ended,
                self.path == old(self).path,
                self.read == old(self).read,
                self.initial == old(self).initial,
                self.widest == old(self).widest,
                self.widest_at == old(self).widest_at,
                start + n <= self.buffer@.len(),
                self.buffer@.len() == old(self).buffer@.len(),
                self.buffer@.len() == cap0,
                i <= n,
                self.buffer@.take(start as int) == old_data,
                self.buffer@.subrange(start as int, start + i) == new_bytes@.take(i as int),
            decreases n - i,
        {
            self.buffer.set(start + i, new_bytes[i]);
            assert(self.buffer@.subrange(start as int, start + i + 1) =~= new_bytes@.take(i + 1));
            i = i + 1;
        }
        self.read = start + n;
        proof {
            self.fed = Ghost(self.fed@ + new_bytes@);
            assert(new_bytes@.take(n as int) =~= new_bytes@);
            assert(self.data() =~= old_data + new_bytes@);
            let d0 = self.discarded@;
            assert((d0 + old_data) + new_bytes@ =~= d0 + (old_data + new_bytes@));
            assert(self.taken() == d0 + (old_data + new_bytes@));
            assert(old(self).taken() == d0 + old_data);
            assert(self.taken().subrange(self.widest_at@, self.widest_at@ + self.widest@)
                =~= old(self).taken().subrange(self.widest_at@, self.widest_at@ + self.widest@));
        }
        let found = find_line_end(self.buffer.as_slice(), start, self.read);
        match found {
            Some(end) => {
                proof {
                    let d = self.data();
                    assert(d.take(end as int).drop_last() =~= self.buffer@.subrange(0, end - 1));
                    assert forall|k: int| 0 <= k < end - 1 implies self.buffer@[k] != NEWLINE by {
                        if k < start {
                            assert(old_data[k] == self.buffer@[k]);
                        } else {
                            assert(self.buffer@.subrange(start as int, end - 1)[k - start] == self.buffer@[k]);
                        }
                    }
                    assert(new_bytes@[end - 1 - start] == self.buffer@[end - 1]);
                }
                ReadStep::Line(end)
            },
            None => {
                proof {
                    assert forall|k: int| 0 <= k < self.read implies self.data()[k] != NEWLINE by {
                        if k < start {
                            assert(old_data[k] == self.data()[k]);
                        } else {
                            assert(self.buffer@.subrange(start as int, self.read as int)[k - start] == self.data()[k]);
                        }
                    }
                    assert forall|k: int| 0 <= k < n implies new_bytes@[k] != NEWLINE by {
                        assert(self.buffer@.subrange(start as int, self.read as int)[k] == new_bytes@[k]);
                    }
                }
                let cap = self.buffer.len();
                if cap - self.read < cap / 4 && cap <= usize::MAX / 2 {
                    let ghost before = self.buffer@;
                    let mut grown: Vec<u8> = Vec::new();
                    let mut j: usize = 0;
                    while j < 2 * cap
                        invariant
                            cap == self.buffer@.len(),
                            cap <= usize::MAX / 2,
                            self.read <= cap,
                            j <= 2 * cap,
                            j <= self.read ==> grown@ == self.buffer@.take(j as int),
                            j > self.read ==> grown@.take(self.read as int) == self.buffer@.take(self.read as int),
                            grown@.len() == j,
                        decreases 2 * cap - j,
                    {
                        if j < self.read {
                            grown.push(self.buffer[j]);
                            assert(grown@ =~= self.buffer@.take(j + 1));
                        } else {
                            grown.push(0u8);
                            assert(grown@.take(self.read as int) =~= self.buffer@.take(self.read as int));
                        }
                        j = j + 1;
                    }
                    proof {
                        if 2 * cap == self.read {
                            assert(false);
                        }
                    }
                    self.buffer = grown;
                    assert(self.data() =~= before.take(self.read as int));
                    proof {
                        self.widest_at = Ghost(self.discarded@.len() as int);
                        self.widest = Ghost(self.read as nat);
                        assert(self.taken().subrange(self.widest_at@, self.widest_at@ + self.widest@) =~= self.data());
                    }
                }
                ReadStep::NeedMore
            },
        }
    }
}

} // verus!
