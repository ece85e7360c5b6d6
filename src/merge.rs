//! The k-way merge: picks, among the next lines of all open sources, the one
//! that sorts first, and records for each emitted line whether a header
//! naming its source must precede it.
use vstd::prelude::*;
use vstd::multiset::Multiset;
use crate::line::{NEWLINE, lex_lt, no_newline, is_line, compare_bytes, find_line_end,
    lemma_lex_lt_irreflexive, lemma_lex_lt_trichotomy, lemma_lex_lt_transitive};
use crate::source::{Source, ReadStep, normalized};

verus! {

/// Where a source stands in the merge.
#[derive(Debug, PartialEq, Eq, Structural, Clone, Copy)]
pub enum Status {
    /// Its next line was not found in the window; the first bytes, this many,
    /// were emitted and may be shifted out before the next read.
    Waiting(usize),
    /// Being read into until a line is complete or the stream ends.
    Filling,
    /// Its next line is `buffer[start..start + len]`.
    Ready(usize, usize),
    /// Every line of it was emitted.
    Exhausted,
}

/// One emitted line: where its bytes lie, and whether a header precedes it.
#[derive(Debug, PartialEq, Eq, Structural, Clone, Copy)]
pub struct Emission {
    pub source: usize,
    pub start: usize,
    pub len: usize,
    /// A header naming the source comes first.
    pub header: bool,
    /// That header is the first of the whole output: it has no blank line before it.
    pub first: bool,
}

/// Every line emitted so far, in output order: its source, its bytes, and
/// whether a header preceded it.
pub type Log = Seq<(usize, Seq<u8>, bool)>;

/// The bytes that source `s` contributed to `log`, in output order.
pub open spec fn emitted_of(log: Log, s: usize) -> Seq<u8>
    decreases log.len(),
{
    if log.len() == 0 {
        Seq::empty()
    } else if log.last().0 == s {
        emitted_of(log.drop_last(), s) + log.last().1
    } else {
        emitted_of(log.drop_last(), s)
    }
}

/// A header stands before a line exactly when its source differs from that
/// of the line before it, and before the very first line.
pub open spec fn headers_mark_switches(log: Log) -> bool {
    forall|i: int| 0 <= i < log.len() ==> (#[trigger] log[i]).2 == (i == 0 || log[i - 1].0 != log[i].0)
}

/// Line `a` of source `sa` is emitted before line `b` of source `sb`:
/// byte order first; among equal lines the source printed last, then the
/// lower index.
pub open spec fn precedes(a: Seq<u8>, sa: usize, b: Seq<u8>, sb: usize, last: Option<usize>) -> bool {
    lex_lt(a, b) || (a == b && (last == Some(sa) || (last != Some(sb) && sa < sb)))
}

/// Source of the line emitted just before entry `i`, if any.
pub open spec fn prev_source(log: Log, i: int) -> Option<usize> {
    if i == 0 {
        None
    } else {
        Some(log[i - 1].0)
    }
}

/// No entry from `i` on came from source `t`.
pub open spec fn none_from(log: Log, t: usize, i: int) -> bool {
    forall|k: int| i <= k < log.len() ==> (#[trigger] log[k]).0 != t
}

/// Every line emitted since source `t` last emitted goes before `line`,
/// the line that `t` holds ready.
#[verifier::opaque]
pub open spec fn goes_before_pending(log: Log, t: usize, line: Seq<u8>) -> bool {
    forall|i: int| 0 <= i < log.len() && none_from(log, t, i)
        ==> precedes((#[trigger] log[i]).1, log[i].0, line, t, prev_source(log, i))
}

/// Each emitted line goes before the next line emitted from every other
/// source: the merge picked it over all lines then ready.
#[verifier::opaque]
pub open spec fn merge_ordered(log: Log) -> bool {
    forall|i: int, j: int|
        0 <= i < j < log.len() && (#[trigger] log[j]).0 != (#[trigger] log[i]).0
            && (forall|k: int| i < k < j ==> (#[trigger] log[k]).0 != log[j].0)
            ==> precedes(log[i].1, log[i].0, log[j].1, log[j].0, prev_source(log, i))
}

pub struct Merger {
    pub sources: Vec<Source>,
    pub status: Vec<Status>,
    /// Lines emitted since the caller last wrote the output.
    pub batch: Vec<Emission>,
    /// Source of the most recently emitted line.
    pub last_printed: Option<usize>,
    pub log: Ghost<Log>,
    /// How many entries of the log were written in earlier batches.
    pub flushed: Ghost<nat>,
}

impl Merger {
    /// Bytes of source `s` already emitted and still in its window.
    pub open spec fn consumed(&self, s: int) -> nat {
        match self.status@[s] {
            Status::Waiting(c) => c as nat,
            Status::Ready(start, _) => start as nat,
            _ => 0,
        }
    }

    /// The next line of source `s`, when it is ready.
    pub open spec fn next_line(&self, s: int) -> Seq<u8> {
        match self.status@[s] {
            Status::Ready(start, len) => self.sources@[s].data().subrange(start as int, start + len),
            _ => Seq::empty(),
        }
    }

    /// Bytes of source `s` in its window and not yet emitted.
    pub open spec fn remaining(&self, s: int) -> nat {
        (self.sources@[s].read - self.consumed(s)) as nat
    }

    pub open spec fn remaining_below(&self, n: int) -> nat
        decreases n,
    {
        if n <= 0 {
            0
        } else {
            self.remaining_below(n - 1) + self.remaining(n - 1)
        }
    }

    pub open spec fn source_wf(&self, s: int) -> bool {
        let src = self.sources@[s];
        &&& src.wf()
        &&& self.consumed(s) <= src.read
        &&& (self.consumed(s) == 0 || src.buffer@[self.consumed(s) - 1] == NEWLINE)
        &&& emitted_of(self.log@, s as usize) == src.discarded@ + src.data().take(self.consumed(s) as int)
        &&& match self.status@[s] {
            Status::Waiting(c) => no_newline(src.data().skip(c as int))
                && (self.log@.len() == 0 || self.log@.last().0 == s),
            Status::Filling => no_newline(src.data()) && (self.log@.len() == 0 || self.log@.last().0 == s),
            Status::Ready(start, len) => start + len <= src.read && is_line(self.next_line(s))
                && goes_before_pending(self.log@, s as usize, self.next_line(s)),
            Status::Exhausted => src.data().len() == 0 && src.taken() == normalized(src.fed@),
        }
    }

    pub open spec fn batch_wf(&self) -> bool {
        &&& self.flushed@ + self.batch@.len() == self.log@.len()
        &&& forall|k: int| 0 <= k < self.batch@.len() ==> {
            let e = #[trigger] self.batch@[k];
            let entry = self.log@[self.flushed@ + k];
            &&& e.source == entry.0
            &&& e.header == entry.2
            &&& e.first == (self.flushed@ + k == 0)
            &&& e.source < self.sources@.len()
            &&& e.start + e.len <= self.sources@[e.source as int].read
            &&& self.sources@[e.source as int].data().subrange(e.start as int, e.start + e.len) == entry.1
        }
    }

    pub open spec fn wf(&self) -> bool {
        &&& self.sources@.len() == self.status@.len()
        &&& forall|s: int| 0 <= s < self.sources@.len() ==> self.source_wf(s)
        &&& headers_mark_switches(self.log@)
        &&& merge_ordered(self.log@)
        &&& forall|i: int| 0 <= i < self.log@.len() ==> (#[trigger] self.log@[i]).0 < self.sources@.len()
        &&& forall|i: int| 0 <= i < self.log@.len() ==> is_line((#[trigger] self.log@[i]).1)
        &&& self.last_printed == if self.log@.len() == 0 { None } else { Some(self.log@.last().0) }
        &&& self.batch_wf()
    }

    /// Source `s` holds the ready line that is emitted first.
    pub open spec fn goes_first(&self, s: int) -> bool {
        &&& 0 <= s < self.sources@.len()
        &&& self.status@[s] is Ready
        &&& forall|t: int| 0 <= t < self.sources@.len() && t != s && self.status@[t] is Ready
            ==> precedes(self.next_line(s), s as usize, self.next_line(t), t as usize, self.last_printed)
    }

    /// No source is between a refill's first and last step.
    pub open spec fn settled(&self) -> bool {
        forall|s: int| 0 <= s < self.status@.len() ==> (#[trigger] self.status@[s] is Ready
            || self.status@[s] is Exhausted)
    }

    pub open spec fn finished(&self) -> bool {
        forall|s: int| 0 <= s < self.status@.len() ==> #[trigger] self.status@[s] == Status::Exhausted
    }
}


proof fn lemma_emitted_push(log: Log, e: (usize, Seq<u8>, bool), t: usize)
    ensures
        emitted_of(log.push(e), t) == if e.0 == t { emitted_of(log, t) + e.1 } else { emitted_of(log, t) },
{
    assert(log.push(e).drop_last() =~= log);
}

proof fn lemma_merge_ordered_push(log: Log, e: (usize, Seq<u8>, bool))
    requires
        merge_ordered(log),
        goes_before_pending(log, e.0, e.1),
    ensures
        merge_ordered(log.push(e)),
{
    reveal(merge_ordered);
    reveal(goes_before_pending);
    let l2 = log.push(e);
    assert forall|i: int, j: int|
        0 <= i < j < l2.len() && (#[trigger] l2[j]).0 != (#[trigger] l2[i]).0
            && (forall|k: int| i < k < j ==> (#[trigger] l2[k]).0 != l2[j].0)
        implies precedes(l2[i].1, l2[i].0, l2[j].1, l2[j].0, prev_source(l2, i)) by {
        assert(l2[i] == log[i]);
        if i > 0 {
            assert(l2[i - 1] == log[i - 1]);
        }
        if j < log.len() {
            assert(l2[j] == log[j]);
            assert forall|k: int| i < k < j implies (#[trigger] log[k]).0 != log[j].0 by {
                assert(l2[k] == log[k]);
            }
        } else {
            assert forall|k: int| i <= k < log.len() implies (#[trigger] log[k]).0 != e.0 by {
                if k > i {
                    assert(l2[k] == log[k]);
                }
            }
            assert(none_from(log, e.0, i));
        }
    }
}

proof fn lemma_pending_push_other(log: Log, e: (usize, Seq<u8>, bool), t: usize, line: Seq<u8>)
    requires
        goes_before_pending(log, t, line),
        e.0 != t,
        precedes(e.1, e.0, line, t, prev_source(log.push(e), log.len() as int)),
    ensures
        goes_before_pending(log.push(e), t, line),
{
    reveal(goes_before_pending);
    let l2 = log.push(e);
    assert forall|i: int| 0 <= i < l2.len() && none_from(l2, t, i)
        implies precedes((#[trigger] l2[i]).1, l2[i].0, line, t, prev_source(l2, i)) by {
        if i < log.len() {
            assert(l2[i] == log[i]);
            if i > 0 {
                assert(l2[i - 1] == log[i - 1]);
            }
            assert forall|k: int| i <= k < log.len() implies (#[trigger] log[k]).0 != t by {
                assert(l2[k] == log[k]);
            }
        }
    }
}

proof fn lemma_pending_after_own(log: Log, e: (usize, Seq<u8>, bool), line: Seq<u8>)
    ensures
        goes_before_pending(log.push(e), e.0, line),
{
    reveal(goes_before_pending);
    let l2 = log.push(e);
    assert forall|i: int| 0 <= i < l2.len() && none_from(l2, e.0, i)
        implies precedes((#[trigger] l2[i]).1, l2[i].0, line, e.0, prev_source(l2, i)) by {
        assert(l2[log.len() as int].0 == e.0);
    }
}

/// `after` is `before` once source `s` emitted its ready line
/// `buffer[start..start + len]` and looked for its next one, with `found`.
pub open spec fn emit_step(before: Merger, after: Merger, s: usize, start: usize, len: usize, found: Option<usize>) -> bool {
    let src = before.sources@[s as int];
    let from = start + len;
    &&& before.wf()
    &&& before.settled()
    &&& before.goes_first(s as int)
    &&& before.sources@.len() <= usize::MAX
    &&& before.status@[s as int] == Status::Ready(start, len)
    &&& after.sources == before.sources
    &&& after.flushed == before.flushed
    &&& after.last_printed == Some(s)
    &&& after.log@ == before.log@.push((s, before.next_line(s as int), before.last_printed != Some(s)))
    &&& after.batch@ == before.batch@.push(Emission {
        source: s,
        start,
        len,
        header: before.last_printed != Some(s),
        first: before.last_printed is None,
    })
    &&& match found {
        Some(end) => {
            &&& from < end <= src.read
            &&& src.buffer@[end - 1] == NEWLINE
            &&& no_newline(src.buffer@.subrange(from, end - 1))
            &&& after.status@ == before.status@.update(s as int, Status::Ready(from as usize, (end - from) as usize))
        },
        None => {
            &&& no_newline(src.buffer@.subrange(from, src.read as int))
            &&& after.status@ == before.status@.update(s as int, Status::Waiting(from as usize))
        },
    }
}

proof fn lemma_emit_source_wf(before: Merger, after: Merger, s: usize, start: usize, len: usize, found: Option<usize>, t: int)
    requires
        emit_step(before, after, s, start, len, found),
        0 <= t < after.sources@.len(),
    ensures
        after.source_wf(t),
{
    let line = before.next_line(s as int);
    let entry = (s, line, before.last_printed != Some(s));
    let src = before.sources@[s as int];
    let from = start + len;
    assert(before.source_wf(t));
    assert(before.source_wf(s as int));
    lemma_emitted_push(before.log@, entry, t as usize);
    if t != s as int {
        assert(after.status@[t] == before.status@[t]);
        if after.status@[t] is Ready {
            assert(after.next_line(t) == before.next_line(t));
            lemma_pending_push_other(before.log@, entry, t as usize, before.next_line(t));
        }
    } else {
        let d = src.data();
        lemma_pending_after_own(before.log@, entry, after.next_line(t));
        assert(after.consumed(t) == from);
        assert(line == d.subrange(start as int, from as int));
        assert(d.take(start as int) + d.subrange(start as int, from as int) =~= d.take(from as int));
        assert((src.discarded@ + d.take(start as int)) + line =~= src.discarded@ + d.take(from as int));
        assert(src.buffer@[from - 1] == line.last());
        match found {
            Some(end) => {
                assert(d.subrange(from as int, end as int).drop_last() =~= src.buffer@.subrange(from as int, end - 1));
            },
            None => {
                assert(d.skip(from as int) =~= src.buffer@.subrange(from as int, src.read as int));
            },
        }
    }
}

proof fn lemma_emit_keeps_wf(before: Merger, after: Merger, s: usize, start: usize, len: usize, found: Option<usize>)
    requires
        emit_step(before, after, s, start, len, found),
    ensures
        after.wf(),
{
    let line = before.next_line(s as int);
    let entry = (s, line, before.last_printed != Some(s));
    assert(before.source_wf(s as int));
    lemma_merge_ordered_push(before.log@, entry);
    assert forall|t: int| 0 <= t < after.sources@.len() implies after.source_wf(t) by {
        lemma_emit_source_wf(before, after, s, start, len, found, t);
    }
    assert forall|i: int| 0 <= i < after.log@.len() implies (#[trigger] after.log@[i]).2
        == (i == 0 || after.log@[i - 1].0 != after.log@[i].0) by {
        if i < before.log@.len() {
            assert(after.log@[i] == before.log@[i]);
        }
    }
    assert forall|k: int| 0 <= k < after.batch@.len() implies {
        let e = #[trigger] after.batch@[k];
        let entry = after.log@[after.flushed@ + k];
        &&& e.source == entry.0
        &&& e.header == entry.2
        &&& e.first == (after.flushed@ + k == 0)
        &&& e.source < after.sources@.len()
        &&& e.start + e.len <= after.sources@[e.source as int].read
        &&& after.sources@[e.source as int].data().subrange(e.start as int, e.start + e.len) == entry.1
    } by {
        if k < before.batch@.len() {
            assert(after.batch@[k] == before.batch@[k]);
        }
    }
    assert forall|i: int| 0 <= i < after.log@.len() implies (#[trigger] after.log@[i]).0 < after.sources@.len()
        && is_line(after.log@[i].1) by {
        if i < before.log@.len() {
            assert(after.log@[i] == before.log@[i]);
        }
    }
}

proof fn lemma_pending_fresh(log: Log, t: usize, line: Seq<u8>)
    requires
        log.len() == 0 || log.last().0 == t,
    ensures
        goes_before_pending(log, t, line),
{
    reveal(goes_before_pending);
    assert forall|i: int| 0 <= i < log.len() && none_from(log, t, i)
        implies precedes((#[trigger] log[i]).1, log[i].0, line, t, prev_source(log, i)) by {
        assert(log[log.len() - 1].0 == t);
    }
}

/// Of two lines of different sources, exactly one is emitted first.
pub proof fn lemma_precedes_total(a: Seq<u8>, sa: usize, b: Seq<u8>, sb: usize, last: Option<usize>)
    requires
        sa != sb,
    ensures
        precedes(a, sa, b, sb, last) != precedes(b, sb, a, sa, last),
{
    lemma_lex_lt_trichotomy(a, b);
    lemma_lex_lt_irreflexive(a);
}

/// The emission order is transitive.
pub proof fn lemma_precedes_transitive(
    a: Seq<u8>,
    sa: usize,
    b: Seq<u8>,
    sb: usize,
    c: Seq<u8>,
    sc: usize,
    last: Option<usize>,
)
    requires
        sa != sc,
        precedes(a, sa, b, sb, last),
        precedes(b, sb, c, sc, last),
    ensures
        precedes(a, sa, c, sc, last),
{
    if lex_lt(a, b) && lex_lt(b, c) {
        lemma_lex_lt_transitive(a, b, c);
    }
}

/// An empty stand-in, swapped into the vector while a source is worked on.
fn vacant_source() -> Source {
    Source {
        path: Vec::new(),
        buffer: Vec::new(),
        read: 0,
        ended: false,
        fed: Ghost(Seq::empty()),
        discarded: Ghost(Seq::empty()),
        initial: Ghost(0),
        widest: Ghost(0),
        widest_at: Ghost(0),
    }
}

impl Merger {
    /// A merge over `sources`, each still to be read from its start.
    pub fn new(sources: Vec<Source>) -> (r: Merger)
        requires
            forall|i: int| 0 <= i < sources@.len() ==> (#[trigger] sources@[i]).wf()
                && sources@[i].taken().len() == 0,
        ensures
            r.wf(),
            r.sources@ == sources@,
            r.status@.len() == sources@.len(),
            forall|i: int| 0 <= i < r.status@.len() ==> #[trigger] r.status@[i] == Status::Waiting(0),
            r.log@.len() == 0,
            r.batch@.len() == 0,
    {
        let mut status: Vec<Status> = Vec::new();
        let n = sources.len();
        while status.len() < n
            invariant
                n == sources@.len(),
                status@.len() <= n,
                forall|i: int| 0 <= i < status@.len() ==> #[trigger] status@[i] == Status::Waiting(0),
            decreases n - status@.len(),
        {
            status.push(Status::Waiting(0));
        }
        let r = Merger {
            sources,
            status,
            batch: Vec::new(),
            last_printed: None,
            log: Ghost(Seq::empty()),
            flushed: Ghost(0),
        };
        reveal(merge_ordered);
        assert forall|s: int| 0 <= s < r.sources@.len() implies r.source_wf(s) by {
            let src = r.sources@[s];
            assert(src.discarded@.len() == 0);
            assert(src.data().len() == 0);
            assert(src.discarded@ + src.data().take(0) =~= Seq::<u8>::empty());
            assert(src.data().skip(0) =~= src.data());
        }
        r
    }

    /// Bytes that the next read into source `s` may fill.
    pub fn free_space(&self, s: usize) -> (r: usize)
        requires
            self.wf(),
            s < self.sources@.len(),
        ensures
            r == self.sources@[s as int].capacity() - self.sources@[s as int].read,
    {
        proof {
            assert(self.source_wf(s as int));
        }
        self.sources[s].free_space()
    }

    /// Starts refilling source `s`: shifts its emitted bytes out of its
    /// window. The batch must have been written, since it refers to them.
    pub fn begin_refill(&mut self, s: usize)
        requires
            old(self).wf(),
            s < old(self).sources@.len(),
            old(self).status@[s as int] is Waiting,
            old(self).batch@.len() == 0,
        ensures
            final(self).wf(),
            final(self).status@ == old(self).status@.update(s as int, Status::Filling),
            final(self).sources@.len() == old(self).sources@.len(),
            forall|t: int| 0 <= t < old(self).sources@.len() && t != s ==> final(self).sources@[t] == old(self).sources@[t],
            final(self).sources@[s as int].data() == old(self).sources@[s as int].data().skip(old(self).consumed(s as int) as int),
            final(self).sources@[s as int].taken() == old(self).sources@[s as int].taken(),
            final(self).sources@[s as int].capacity() == old(self).sources@[s as int].capacity(),
            final(self).sources@[s as int].path == old(self).sources@[s as int].path,
            final(self).log == old(self).log,
            final(self).batch@.len() == 0,
            final(self).last_printed == old(self).last_printed,
    {
        proof {
            assert(self.source_wf(s as int));
        }
        let c = match self.status[s] {
            Status::Waiting(c) => c,
            _ => 0,
        };
        let mut src = vacant_source();
        self.sources.set_and_swap(s, &mut src);
        src.discard_consumed(c);
        self.sources.set_and_swap(s, &mut src);
        self.status.set(s, Status::Filling);
        proof {
            let f = self.sources@[s as int];
            assert(f.discarded@ + f.data().take(0) =~= f.discarded@);
            assert forall|t: int| 0 <= t < self.sources@.len() implies self.source_wf(t) by {
                if t != s {
                    assert(old(self).source_wf(t));
                }
            }
        }
    }

    /// Takes in one read of source `s`; empty `new_bytes` means its stream
    /// ended. A completed line makes the source ready again.
    pub fn fill(&mut self, s: usize, new_bytes: &[u8]) -> (r: ReadStep)
        requires
            old(self).wf(),
            s < old(self).sources@.len(),
            old(self).status@[s as int] == Status::Filling,
            new_bytes@.len() <= old(self).sources@[s as int].capacity() - old(self).sources@[s as int].read,
            old(self).batch@.len() == 0,
        ensures
            final(self).wf(),
            final(self).status@ == old(self).status@.update(
                s as int,
                match r {
                    ReadStep::Line(n) => Status::Ready(0, n),
                    ReadStep::NeedMore => Status::Filling,
                    ReadStep::Exhausted => Status::Exhausted,
                },
            ),
            final(self).sources@.len() == old(self).sources@.len(),
            forall|t: int| 0 <= t < old(self).sources@.len() && t != s ==> final(self).sources@[t] == old(self).sources@[t],
            !old(self).sources@[s as int].ended && new_bytes@.len() > 0 ==> {
                &&& final(self).sources@[s as int].data() == old(self).sources@[s as int].data() + new_bytes@
                &&& final(self).sources@[s as int].fed@ == old(self).sources@[s as int].fed@ + new_bytes@
            },
            r == ReadStep::Exhausted <==> (old(self).sources@[s as int].ended
                || (new_bytes@.len() == 0 && old(self).sources@[s as int].read == 0)),
            r == ReadStep::NeedMore ==> final(self).sources@[s as int].read < final(self).sources@[s as int].capacity()
                || old(self).sources@[s as int].capacity() > usize::MAX / 2,
            final(self).log == old(self).log,
            final(self).batch@.len() == 0,
            final(self).last_printed == old(self).last_printed,
    {
        let mut src = vacant_source();
        proof {
            assert(self.source_wf(s as int));
        }
        self.sources.set_and_swap(s, &mut src);
        let r = src.absorb(new_bytes);
        self.sources.set_and_swap(s, &mut src);
        let next = match r {
            ReadStep::Line(n) => Status::Ready(0, n),
            ReadStep::NeedMore => Status::Filling,
            ReadStep::Exhausted => Status::Exhausted,
        };
        self.status.set(s, next);
        proof {
            let o = old(self).sources@[s as int];
            let f = self.sources@[s as int];
            assert(o.data().take(0) =~= Seq::<u8>::empty());
            assert(f.data().take(0) =~= Seq::<u8>::empty());
            assert(o.discarded@ + o.data().take(0) =~= o.discarded@);
            assert(f.discarded@ + f.data().take(0) =~= f.discarded@);
            if let ReadStep::Line(n) = r {
                assert(f.data().subrange(0, n as int) =~= f.data().take(n as int));
                lemma_pending_fresh(self.log@, s, self.next_line(s as int));
            }
            assert forall|t: int| 0 <= t < self.sources@.len() implies self.source_wf(t) by {
                if t != s {
                    assert(old(self).source_wf(t));
                }
            }
        }
        r
    }
}

proof fn lemma_remaining_below_drops(a: &Merger, b: &Merger, s: int, n: int)
    requires
        0 <= s < n,
        b.remaining(s) < a.remaining(s),
        forall|t: int| 0 <= t < n && t != s ==> b.remaining(t) == a.remaining(t),
    ensures
        b.remaining_below(n) < a.remaining_below(n),
    decreases n,
{
    if n - 1 > s {
        lemma_remaining_below_drops(a, b, s, n - 1);
    } else {
        lemma_remaining_below_same(a, b, s);
    }
}

proof fn lemma_remaining_below_same(a: &Merger, b: &Merger, n: int)
    requires
        forall|t: int| 0 <= t < n ==> b.remaining(t) == a.remaining(t),
    ensures
        b.remaining_below(n) == a.remaining_below(n),
    decreases n,
{
    if n > 0 {
        lemma_remaining_below_same(a, b, n - 1);
    }
}

impl Merger {
    /// Whether the next line of source `a` is emitted before that of `b`.
    fn line_precedes(&self, a: usize, b: usize) -> (r: bool)
        requires
            self.wf(),
            a < self.sources@.len(),
            b < self.sources@.len(),
            self.status@[a as int] is Ready,
            self.status@[b as int] is Ready,
        ensures
            r == precedes(self.next_line(a as int), a, self.next_line(b as int), b, self.last_printed),
    {
        proof {
            assert(self.source_wf(a as int));
            assert(self.source_wf(b as int));
        }
        let (sa, la) = match self.status[a] {
            Status::Ready(start, len) => (start, len),
            _ => (0, 0),
        };
        let (sb, lb) = match self.status[b] {
            Status::Ready(start, len) => (start, len),
            _ => (0, 0),
        };
        let line_a = vstd::slice::slice_subrange(self.sources[a].buffer.as_slice(), sa, sa + la);
        let line_b = vstd::slice::slice_subrange(self.sources[b].buffer.as_slice(), sb, sb + lb);
        proof {
            assert(line_a@ =~= self.next_line(a as int));
            assert(line_b@ =~= self.next_line(b as int));
        }
        match compare_bytes(line_a, line_b) {
            core::cmp::Ordering::Less => true,
            core::cmp::Ordering::Greater => false,
            core::cmp::Ordering::Equal => {
                match self.last_printed {
                    Some(p) => if p == a {
                        true
                    } else if p == b {
                        false
                    } else {
                        a < b
                    },
                    None => a < b,
                }
            },
        }
    }

    /// The ready source whose next line is emitted first.
    pub fn select(&self) -> (r: usize)
        requires
            self.wf(),
            !self.finished(),
            self.settled(),
        ensures
            self.goes_first(r as int),
    {
        let n = self.status.len();
        let mut best: usize = n;
        let mut i: usize = 0;
        while i < n
            invariant
                self.wf(),
                n == self.status@.len(),
                i <= n,
                best == n || (best < i && self.status@[best as int] is Ready),
                best == n ==> forall|t: int| 0 <= t < i ==> !(self.status@[t] is Ready),
                best < n ==> forall|t: int| 0 <= t < i && t != best && self.status@[t] is Ready
                    ==> precedes(self.next_line(best as int), best, self.next_line(t), t as usize, self.last_printed),
            decreases n - i,
        {
            if let Status::Ready(_, _) = self.status[i] {
                if best == n {
                    best = i;
                } else if self.line_precedes(i, best) {
                    proof {
                        assert forall|t: int| 0 <= t < i + 1 && t != i && self.status@[t] is Ready
                            implies precedes(self.next_line(i as int), i, self.next_line(t), t as usize, self.last_printed) by {
                            if t != best {
                                lemma_precedes_transitive(self.next_line(i as int), i, self.next_line(best as int), best,
                                    self.next_line(t), t as usize, self.last_printed);
                            }
                        }
                    }
                    best = i;
                } else {
                    proof {
                        lemma_precedes_total(self.next_line(i as int), i, self.next_line(best as int), best, self.last_printed);
                    }
                }
            }
            i = i + 1;
        }
        proof {
            if best == n {
                assert forall|t: int| 0 <= t < n implies #[trigger] self.status@[t] == Status::Exhausted by {
                    assert(!(self.status@[t] is Ready));
                }
            }
        }
        best
    }

    /// Emits lines, smallest first, while every open source has its next
    /// line in its window. Returns the source whose window ran out of
    /// lines, which must be refilled after the batch is written, or `None`
    /// when every source is exhausted.
    pub fn merge_available(&mut self) -> (r: Option<usize>)
        requires
            old(self).wf(),
            old(self).settled(),
        ensures
            final(self).wf(),
            r is None <==> old(self).finished(),
            r is None ==> *final(self) == *old(self),
            r matches Some(s) ==> {
                &&& s < final(self).sources@.len()
                &&& final(self).status@[s as int] is Waiting
                &&& forall|t: int| 0 <= t < final(self).status@.len() && t != s
                    ==> (#[trigger] final(self).status@[t] is Ready || final(self).status@[t] is Exhausted)
                &&& final(self).log@.len() > old(self).log@.len()
                &&& final(self).log@.last().0 == s
                &&& exists|f: int| #[trigger] old(self).goes_first(f)
                    && final(self).log@[old(self).log@.len() as int]
                        == (f as usize, old(self).next_line(f), old(self).last_printed != Some(f as usize))
            },
            final(self).sources@ == old(self).sources@,
            final(self).status@.len() == old(self).status@.len(),
            final(self).log@.take(old(self).log@.len() as int) == old(self).log@,
            final(self).flushed == old(self).flushed,
    {
        proof {
            assert(self.log@.take(self.log@.len() as int) =~= self.log@);
        }
        if self.status.len() == 0 || !self.any_ready() {
            return None;
        }
        loop
            invariant
                self.wf(),
                self.settled(),
                !self.finished(),
                self.sources@ == old(self).sources@,
                self.status@.len() == old(self).status@.len(),
                self.log@.len() >= old(self).log@.len(),
                self.log@.take(old(self).log@.len() as int) == old(self).log@,
                self.flushed == old(self).flushed,
                old(self).wf(),
                !old(self).finished(),
                self.log@.len() == old(self).log@.len() ==> *self == *old(self),
                self.log@.len() > old(self).log@.len() ==> exists|f: int| #[trigger] old(self).goes_first(f)
                    && self.log@[old(self).log@.len() as int]
                        == (f as usize, old(self).next_line(f), old(self).last_printed != Some(f as usize)),
            decreases self.remaining_below(self.sources@.len() as int),
        {
            let s = self.select();
            let ghost before = *self;
            let found = self.emit_line(s);
            proof {
                if before.log@.len() == old(self).log@.len() {
                    assert(old(self).goes_first(s as int));
                    assert(self.log@[old(self).log@.len() as int]
                        == (s, old(self).next_line(s as int), old(self).last_printed != Some(s)));
                } else {
                    let f = choose|f: int| #[trigger] old(self).goes_first(f)
                        && before.log@[old(self).log@.len() as int]
                            == (f as usize, old(self).next_line(f), old(self).last_printed != Some(f as usize));
                    assert(self.log@[old(self).log@.len() as int] == before.log@[old(self).log@.len() as int]);
                    assert(old(self).goes_first(f));
                }
                assert(self.source_wf(s as int));
                assert forall|t: int| 0 <= t < self.sources@.len() && t != s implies self.remaining(t) == before.remaining(t) by {}
                lemma_remaining_below_drops(&before, self, s as int, self.sources@.len() as int);
                assert(self.log@.take(old(self).log@.len() as int) =~= before.log@.take(old(self).log@.len() as int));
            }
            if !found {
                return Some(s);
            }
        }
    }

    /// Emits the next line of source `s` into the batch, with a header
    /// where the source differs from that of the line before, then looks
    /// for the following line of `s` in its window. Returns whether it was
    /// there.
    fn emit_line(&mut self, s: usize) -> (found: bool)
        requires
            old(self).wf(),
            old(self).settled(),
            old(self).goes_first(s as int),
        ensures
            final(self).wf(),
            final(self).sources@ == old(self).sources@,
            final(self).status@.len() == old(self).status@.len(),
            forall|t: int| 0 <= t < old(self).status@.len() && t != s ==> final(self).status@[t] == old(self).status@[t],
            found ==> final(self).status@[s as int] is Ready,
            !found ==> final(self).status@[s as int] is Waiting,
            final(self).remaining(s as int) < old(self).remaining(s as int),
            final(self).log@ == old(self).log@.push((s, old(self).next_line(s as int), old(self).last_printed != Some(s))),
            final(self).flushed == old(self).flushed,
    {
        let _n = self.sources.len();
        proof {
            assert(self.source_wf(s as int));
        }
        let ghost before = *self;
        assert(before.sources@.len() <= usize::MAX);
        let (start, len) = match self.status[s] {
            Status::Ready(start, len) => (start, len),
            _ => (0, 0),
        };
        let header = match self.last_printed {
            Some(p) => p != s,
            None => true,
        };
        let first = self.last_printed.is_none();
        self.batch.push(Emission { source: s, start, len, header, first });
        proof {
            self.log = Ghost(self.log@.push((s, before.next_line(s as int), header)));
        }
        self.last_printed = Some(s);
        let from = start + len;
        let read = self.sources[s].read;
        let found = find_line_end(self.sources[s].buffer.as_slice(), from, read);
        match found {
            Some(end) => self.status.set(s, Status::Ready(from, end - from)),
            None => self.status.set(s, Status::Waiting(from)),
        }
        proof {
            lemma_emit_keeps_wf(before, *self, s, start, len, found);
        }
        found.is_some()
    }

    /// Whether some source has a line ready.
    fn any_ready(&self) -> (r: bool)
        requires
            self.settled(),
        ensures
            r == !self.finished(),
    {
        let mut i: usize = 0;
        while i < self.status.len()
            invariant
                self.settled(),
                i <= self.status@.len(),
                forall|t: int| 0 <= t < i ==> #[trigger] self.status@[t] == Status::Exhausted,
            decreases self.status@.len() - i,
        {
            if let Status::Ready(_, _) = self.status[i] {
                return true;
            }
            i = i + 1;
        }
        false
    }

    /// Marks the batch as written.
    pub fn clear_batch(&mut self)
        requires
            old(self).wf(),
        ensures
            final(self).wf(),
            final(self).batch@.len() == 0,
            final(self).sources == old(self).sources,
            final(self).status == old(self).status,
            final(self).log == old(self).log,
            final(self).last_printed == old(self).last_printed,
    {
        self.batch.clear();
        proof {
            self.flushed = Ghost(self.log@.len());
            assert forall|t: int| 0 <= t < self.sources@.len() implies self.source_wf(t) by {
                assert(old(self).source_wf(t));
            }
        }
    }
}

/// The non-header bytes of the output: every emitted line, in order.
pub open spec fn line_bytes(log: Log) -> Seq<u8>
    decreases log.len(),
{
    if log.len() == 0 {
        Seq::empty()
    } else {
        line_bytes(log.drop_last()) + log.last().1
    }
}

/// The bytes that sources below `n` contributed to `log`, as a multiset.
pub open spec fn emitted_below(log: Log, n: nat) -> Multiset<u8>
    decreases n,
{
    if n == 0 {
        Multiset::empty()
    } else {
        emitted_below(log, (n - 1) as nat).add(emitted_of(log, (n - 1) as usize).to_multiset())
    }
}

/// The bytes of the sources below `n`, each with its missing final
/// delimiter added, as a multiset.
pub open spec fn inputs_below(sources: Seq<Source>, n: nat) -> Multiset<u8>
    decreases n,
{
    if n == 0 {
        Multiset::empty()
    } else {
        inputs_below(sources, (n - 1) as nat).add(normalized(sources[n - 1].fed@).to_multiset())
    }
}

proof fn lemma_emitted_below_push(log: Log, e: (usize, Seq<u8>, bool), n: nat)
    requires
        n <= usize::MAX + 1,
    ensures
        emitted_below(log.push(e), n) == emitted_below(log, n).add(
            if e.0 < n { e.1.to_multiset() } else { Multiset::empty() },
        ),
    decreases n,
{
    broadcast use vstd::multiset::group_multiset_axioms;
    broadcast use vstd::seq_lib::lemma_multiset_commutative;
    if n > 0 {
        let k = (n - 1) as nat;
        lemma_emitted_below_push(log, e, k);
        lemma_emitted_push(log, e, k as usize);
        if e.0 == k {
            assert(emitted_of(log.push(e), k as usize).to_multiset() =~= emitted_of(log, k as usize).to_multiset().add(e.1.to_multiset()));
        }
        assert(emitted_below(log.push(e), n) =~= emitted_below(log, n).add(
            if e.0 < n { e.1.to_multiset() } else { Multiset::empty() }));
    } else {
        assert(emitted_below(log.push(e), 0) =~= emitted_below(log, 0).add(Multiset::empty()));
    }
}

proof fn lemma_line_bytes_by_source(log: Log, n: nat)
    requires
        n <= usize::MAX + 1,
        forall|i: int| 0 <= i < log.len() ==> (#[trigger] log[i]).0 < n,
    ensures
        line_bytes(log).to_multiset() == emitted_below(log, n),
    decreases log.len(),
{
    broadcast use vstd::multiset::group_multiset_axioms;
    broadcast use vstd::seq_lib::lemma_multiset_commutative;
    if log.len() == 0 {
        lemma_emitted_below_empty(log, n);
        line_bytes(log).to_multiset_ensures();
        vstd::multiset::lemma_multiset_empty_len(line_bytes(log).to_multiset());
    } else {
        let rest = log.drop_last();
        let e = log.last();
        assert forall|i: int| 0 <= i < rest.len() implies (#[trigger] rest[i]).0 < n by {
            assert(rest[i] == log[i]);
        }
        lemma_line_bytes_by_source(rest, n);
        assert(rest.push(e) =~= log);
        lemma_emitted_below_push(rest, e, n);
        assert(line_bytes(log).to_multiset() =~= emitted_below(log, n));
    }
}

proof fn lemma_emitted_below_empty(log: Log, n: nat)
    requires
        log.len() == 0,
    ensures
        emitted_below(log, n) == Multiset::<u8>::empty(),
    decreases n,
{
    broadcast use vstd::multiset::group_multiset_axioms;
    if n > 0 {
        lemma_emitted_below_empty(log, (n - 1) as nat);
        let none = emitted_of(log, (n - 1) as usize);
        assert(none =~= Seq::<u8>::empty());
        none.to_multiset_ensures();
        vstd::multiset::lemma_multiset_empty_len(none.to_multiset());
        assert(emitted_below(log, n) =~= Multiset::<u8>::empty());
    }
}

proof fn lemma_emitted_below_is_inputs(m: &Merger, n: nat)
    requires
        m.wf(),
        m.finished(),
        n <= m.sources@.len(),
    ensures
        emitted_below(m.log@, n) == inputs_below(m.sources@, n),
    decreases n,
{
    if n > 0 {
        lemma_emitted_below_is_inputs(m, (n - 1) as nat);
        lemma_finished_source_fully_emitted(m, n - 1);
    }
}

/// Whatever has been emitted from a source is, byte for byte and in order,
/// the start of that source's stream (with its missing final delimiter
/// added): lines of one source are never reordered, dropped or altered.
pub proof fn lemma_source_order_kept(m: &Merger, s: int)
    requires
        m.wf(),
        0 <= s < m.sources@.len(),
    ensures
        emitted_of(m.log@, s as usize).len() <= normalized(m.sources@[s].fed@).len(),
        emitted_of(m.log@, s as usize) == normalized(m.sources@[s].fed@).take(emitted_of(m.log@, s as usize).len() as int),
{
    assert(m.source_wf(s));
    let src = m.sources@[s];
    let e = emitted_of(m.log@, s as usize);
    let c = m.consumed(s) as int;
    assert(src.taken() =~= e + src.data().skip(c));
    assert(src.taken().take(e.len() as int) =~= e);
    assert(normalized(src.fed@).take(src.taken().len() as int) =~= src.taken());
    assert(normalized(src.fed@).take(e.len() as int) =~= e);
}

/// Once the merge is finished, each source's stream was emitted whole.
pub proof fn lemma_finished_source_fully_emitted(m: &Merger, s: int)
    requires
        m.wf(),
        m.finished(),
        0 <= s < m.sources@.len(),
    ensures
        emitted_of(m.log@, s as usize) == normalized(m.sources@[s].fed@),
{
    assert(m.source_wf(s));
    assert(m.status@[s] == Status::Exhausted);
    let src = m.sources@[s];
    assert(src.data().take(0) =~= src.data());
    assert(src.taken() =~= src.discarded@);
}

/// Once the merge is finished, the non-header bytes of the output are, as a
/// multiset, exactly the bytes of all sources, each with its missing final
/// delimiter added.
pub proof fn lemma_output_bytes_are_inputs(m: &Merger)
    requires
        m.wf(),
        m.finished(),
        m.sources@.len() <= usize::MAX,
    ensures
        line_bytes(m.log@).to_multiset() == inputs_below(m.sources@, m.sources@.len()),
{
    lemma_line_bytes_by_source(m.log@, m.sources@.len());
    lemma_emitted_below_is_inputs(m, m.sources@.len());
}

/// A header precedes an emitted line exactly when the line's source differs
/// from that of the line emitted just before it, or when it is the first
/// line; only the first header of the output lacks the leading blank line.
pub proof fn lemma_headers_mark_switches(m: &Merger)
    requires
        m.wf(),
    ensures
        headers_mark_switches(m.log@),
        forall|k: int| 0 <= k < m.batch@.len() ==> {
            let e = #[trigger] m.batch@[k];
            &&& e.header == (m.flushed@ + k == 0 || m.log@[m.flushed@ + k - 1].0 != e.source)
            &&& e.first == (m.flushed@ + k == 0)
        },
{
    assert forall|k: int| 0 <= k < m.batch@.len() implies {
        let e = #[trigger] m.batch@[k];
        &&& e.header == (m.flushed@ + k == 0 || m.log@[m.flushed@ + k - 1].0 != e.source)
        &&& e.first == (m.flushed@ + k == 0)
    } by {
        let i = m.flushed@ + k;
        assert(m.log@[i].2 == (i == 0 || m.log@[i - 1].0 != m.log@[i].0));
    }
}

/// The output is merged in order: every emitted line goes before the next
/// line that each other source emits after it, by byte order and, among
/// equal lines, by the tie-break that held when it was emitted.
pub proof fn lemma_merge_order(m: &Merger)
    requires
        m.wf(),
    ensures
        merge_ordered(m.log@),
{
}

/// A source's buffer never exceeds the larger of its initial capacity and
/// three times the length of a run of bytes without a delimiter that it
/// has read: many short lines never make it grow.
pub proof fn lemma_capacity_bounded(src: &Source)
    requires
        src.wf(),
    ensures
        src.capacity() <= src.initial@ || src.capacity() <= 3 * src.widest@,
        src.widest_at@ + src.widest@ <= src.taken().len(),
        no_newline(src.taken().subrange(src.widest_at@, src.widest_at@ + src.widest@)),
{
}

/// Of two equal lines, the one from the source printed last goes first;
/// when neither source was printed last, the lower index goes first.
pub proof fn lemma_equal_lines_tie_break(line: Seq<u8>, a: usize, b: usize, last: Option<usize>)
    requires
        a != b,
    ensures
        last == Some(b) ==> precedes(line, b, line, a, last) && !precedes(line, a, line, b, last),
        last != Some(a) && last != Some(b) && a < b ==> precedes(line, a, line, b, last)
            && !precedes(line, b, line, a, last),
{
    lemma_lex_lt_irreflexive(line);
}
} // verus!
