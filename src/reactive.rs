//! Signal cells and tracked computations in an arena addressed by integer
//! handles, with a scheduler that hands out dirty computations so that a
//! dirty feeder always runs before the computations that read its output.
//!
//! The runtime does not call user code. A computation is run by its owner:
//! `begin_run` starts tracking, every `read` made until `end_run` (or
//! `fail_run`, when the computation's function failed) is recorded as a
//! dependency, and `end_run` stores the rebuilt dependency set.
//!
//! Signal values are `i64`. A write notifies subscribers only when the value
//! changes.
//!
//! Flush policy: batched. Writes made between `begin_batch` and `end_batch`
//! only mark subscribers dirty (each at most once); `next_to_run` hands out
//! nothing while a batch is open, so no computation observes an
//! intermediate value of a batch. Without a batch, a flush after each write
//! shows every value in turn.
use vstd::prelude::*;

verus! {

#[derive(Clone, Copy, Debug)]
struct SignalSlot {
    value: i64,
    alive: bool,
}

#[derive(Clone, Copy, Debug)]
struct ComputationSlot {
    dirty: bool,
    stale: bool,
    alive: bool,
    output: Option<usize>,
    level: usize,
}

/// Usage errors of the runtime.
#[derive(Clone, Copy, Debug, PartialEq, Eq, Structural)]
pub enum ReactiveError {
    /// The signal handle is unknown or was disposed.
    DisposedSignal(usize),
    /// The computation handle is unknown or was disposed.
    DisposedComputation(usize),
    /// `end_run` without a running computation.
    NotRunning,
    /// `begin_run` while the given computation is still running.
    AlreadyRunning(usize),
    /// `end_batch` without an open batch.
    NotBatching,
    /// The run of the first computation closed a cycle through the second:
    /// the two are the same when it wrote a signal it read or reads its own
    /// output; otherwise the second feeds it and already sits at the top
    /// level, which only a cycle through both can bring about.
    Cycle(usize, usize),
}

/// The reactive graph: signals, computations and the dependency edges
/// recorded during each computation's last run.
pub struct Runtime {
    signals: Vec<SignalSlot>,
    computations: Vec<ComputationSlot>,
    edges: Vec<(usize, usize)>,
    running: Option<usize>,
    batch_depth: usize,
}

/// Some edge among the first `n` records that `c` read `s`.
spec fn edge_before(edges: Seq<(usize, usize)>, c: int, s: int, n: int) -> bool {
    exists|j: int| 0 <= j < n && edges[j].0 as int == c && edges[j].1 as int == s
}

proof fn lemma_edges_frame(a: Runtime, b: Runtime)
    requires
        a.edges@ == b.edges@,
    ensures
        a.same_edges(b),
{
}

proof fn lemma_wf_slot_update(a: Runtime, b: Runtime, c: int)
    requires
        a.wf(),
        b.signals@ == a.signals@,
        b.edges@ == a.edges@,
        b.running == a.running,
        b.computations@.len() == a.computations@.len() || b.computations@.len() == a.computations@.len() + 1,
        forall|d: int| 0 <= d < a.computations@.len() && d != c ==> #[trigger] b.computations@[d] == a.computations@[d],
        0 <= c < b.computations@.len(),
        forall|i: int|
            0 <= i < b.edges@.len() && #[trigger] b.edges@[i].0 as int == c ==> b.computations@[c].alive,
        b.running == Some(c as usize) ==> b.computations@[c].alive,
        !b.computations@[c].alive ==> !b.computations@[c].dirty,
        match b.computations@[c].output {
            Some(s) => s < b.signals@.len(),
            None => true,
        },
        b.computations@.len() == a.computations@.len() + 1 ==> c == a.computations@.len(),
    ensures
        b.wf(),
{
    assert forall|i: int| 0 <= i < b.edges@.len() implies {
        &&& b.computation_live(#[trigger] b.edges@[i].0 as int)
        &&& b.signal_live(b.edges@[i].1 as int)
    } by {
        assert(a.computation_live(a.edges@[i].0 as int));
        assert(a.signal_live(a.edges@[i].1 as int));
    }
    assert forall|d: int| 0 <= d < b.computations@.len() implies match #[trigger] b.computations@[d].output {
        Some(s) => s < b.signals@.len(),
        None => true,
    } by {
        if d != c {
            assert(b.computations@[d] == a.computations@[d]);
        }
    }
    assert forall|d: int| 0 <= d < b.computations@.len() && !b.computations@[d].alive implies !#[trigger] b.computations@[d].dirty by {
        if d != c {
            assert(b.computations@[d] == a.computations@[d]);
        }
    }
}

proof fn lemma_wf_stop(a: Runtime, b: Runtime)
    requires
        a.wf(),
        b.signals@ == a.signals@,
        b.computations@ == a.computations@,
        b.edges@ == a.edges@,
        b.running is None || b.running == a.running,
    ensures
        b.wf(),
{
    assert forall|i: int| 0 <= i < b.edges@.len() implies {
        &&& b.computation_live(#[trigger] b.edges@[i].0 as int)
        &&& b.signal_live(b.edges@[i].1 as int)
    } by {
        assert(a.computation_live(a.edges@[i].0 as int));
    }
}

/// The runtime after each of the writes `vs` to `s`, starting from `rs[0]`.
pub open spec fn write_chain(rs: Seq<Runtime>, s: int, vs: Seq<i64>) -> bool {
    &&& rs.len() == vs.len() + 1
    &&& forall|k: int| 0 <= k < vs.len() ==> Runtime::written(#[trigger] rs[k], rs[k + 1], s, vs[k])
}

/// The runtime after each of the tracked reads `reads`, starting from `rs[0]`.
pub open spec fn read_chain(rs: Seq<Runtime>, reads: Seq<usize>) -> bool {
    &&& rs.len() == reads.len() + 1
    &&& forall|k: int|
        0 <= k < reads.len() ==> Runtime::tracked_read(#[trigger] rs[k], rs[k + 1], reads[k] as int)
}

/// Writes coalesce. After any sequence of writes to `s`, the signal holds
/// the last value written, nothing else changed value, the dependency
/// graph is unchanged, and each computation is dirty (queued once) exactly
/// when it was before or it subscribes to `s` and some write changed the
/// value. Inside a batch the depth does not move, so no computation is
/// handed out to run, and the one run after the batch reads the last value.
pub proof fn lemma_writes_coalesce(rs: Seq<Runtime>, s: int, vs: Seq<i64>)
    requires
        write_chain(rs, s, vs),
        vs.len() > 0,
    ensures
        rs.last().value(s) == vs.last(),
        forall|t: int| t != s ==> #[trigger] rs.last().value(t) == rs[0].value(t),
        rs.last().batch_depth() == rs[0].batch_depth(),
        rs.last().same_edges(rs[0]),
        forall|c: int|
            #[trigger] rs.last().dirty(c) == (rs[0].dirty(c) || (rs[0].depends(c, s) && exists|k: int|
                0 <= k < vs.len() && vs[k] != #[trigger] rs[k].value(s))),
    decreases vs.len(),
{
    let n = vs.len() - 1;
    assert(Runtime::written(rs[n], rs[n + 1], s, vs[n]));
    if n == 0 {
        assert forall|c: int|
            #[trigger] rs.last().dirty(c) == (rs[0].dirty(c) || (rs[0].depends(c, s) && exists|k: int|
                0 <= k < vs.len() && vs[k] != #[trigger] rs[k].value(s))) by {
            if rs[0].depends(c, s) && vs[0] != rs[0].value(s) {
                assert(0 <= 0 < vs.len() && vs[0] != rs[0].value(s));
            }
        }
    } else {
        let rs0 = rs.drop_last();
        let vs0 = vs.drop_last();
        assert forall|k: int| 0 <= k < vs0.len() implies Runtime::written(#[trigger] rs0[k], rs0[k + 1], s, vs0[k]) by {
            assert(Runtime::written(rs[k], rs[k + 1], s, vs[k]));
        }
        lemma_writes_coalesce(rs0, s, vs0);
        assert(rs0.last() == rs[n]);
        assert forall|c: int, t: int| #[trigger] rs.last().depends(c, t) == rs[0].depends(c, t) by {
            assert(rs[n + 1].depends(c, t) == rs[n].depends(c, t));
            assert(rs0.last().depends(c, t) == rs0[0].depends(c, t));
        }
        assert forall|c: int|
            #[trigger] rs.last().dirty(c) == (rs[0].dirty(c) || (rs[0].depends(c, s) && exists|k: int|
                0 <= k < vs.len() && vs[k] != #[trigger] rs[k].value(s))) by {
            assert(rs0.last().dirty(c) == (rs0[0].dirty(c) || (rs0[0].depends(c, s) && exists|k: int|
                0 <= k < vs0.len() && vs0[k] != #[trigger] rs0[k].value(s))));
            assert(rs[n].depends(c, s) == rs[0].depends(c, s));
            if exists|k: int| 0 <= k < vs.len() && vs[k] != #[trigger] rs[k].value(s) {
                let k = choose|k: int| 0 <= k < vs.len() && vs[k] != #[trigger] rs[k].value(s);
                if k < n {
                    assert(vs0[k] != rs0[k].value(s));
                }
            }
            if exists|k: int| 0 <= k < vs0.len() && vs0[k] != #[trigger] rs0[k].value(s) {
                let k = choose|k: int| 0 <= k < vs0.len() && vs0[k] != #[trigger] rs0[k].value(s);
                assert(vs[k] != rs[k].value(s));
            }
        }
    }
}

/// Dependencies are rebuilt on every run. From any runtime `before`, a run
/// of `c` (`begin_run(c)`, then the reads `reads`) leaves the dependency set
/// of `c` holding exactly the signals read: a signal of an earlier run that
/// was not read again is no longer a dependency, and writing it no longer
/// marks `c` dirty.
pub proof fn lemma_dependencies_rebuilt(before: Runtime, rs: Seq<Runtime>, c: int, reads: Seq<usize>)
    requires
        Runtime::began(before, rs[0], c),
        read_chain(rs, reads),
    ensures
        forall|t: int| #[trigger] rs.last().depends(c, t) <==> exists|k: int| 0 <= k < reads.len() && #[trigger] reads[k] as int == t,
        rs.last().is_running(c),
        forall|after: Runtime, t: int, v: i64|
            #[trigger] Runtime::written(rs.last(), after, t, v) && !(exists|k: int|
                0 <= k < reads.len() && #[trigger] reads[k] as int == t) ==> after.dirty(c)
                == rs.last().dirty(c),
{
    lemma_reads_only(before, rs, c, reads);
}

proof fn lemma_reads_only(before: Runtime, rs: Seq<Runtime>, c: int, reads: Seq<usize>)
    requires
        Runtime::began(before, rs[0], c),
        read_chain(rs, reads),
    ensures
        forall|t: int| #[trigger] rs.last().depends(c, t) <==> exists|k: int| 0 <= k < reads.len() && #[trigger] reads[k] as int == t,
        rs.last().is_running(c),
    decreases reads.len(),
{
    if reads.len() > 0 {
        let n = reads.len() - 1;
        let rs0 = rs.drop_last();
        let reads0 = reads.drop_last();
        assert forall|k: int| 0 <= k < reads0.len() implies Runtime::tracked_read(#[trigger] rs0[k], rs0[k + 1], reads0[k] as int) by {
            assert(Runtime::tracked_read(rs[k], rs[k + 1], reads[k] as int));
        }
        lemma_reads_only(before, rs0, c, reads0);
        assert(Runtime::tracked_read(rs[n], rs[n + 1], reads[n] as int));
        assert(rs0.last() == rs[n]);
        assert forall|t: int| #[trigger] rs.last().depends(c, t) <==> exists|k: int| 0 <= k < reads.len() && #[trigger] reads[k] as int == t by {
            assert(rs[n + 1].depends(c, t) == (rs[n].depends(c, t) || t == reads[n] as int));
            if exists|k: int| 0 <= k < reads.len() && #[trigger] reads[k] as int == t {
                let k = choose|k: int| 0 <= k < reads.len() && #[trigger] reads[k] as int == t;
                if k < n {
                    assert(reads0[k] as int == t);
                }
            }
            if exists|k: int| 0 <= k < reads0.len() && #[trigger] reads0[k] as int == t {
                let k = choose|k: int| 0 <= k < reads0.len() && #[trigger] reads0[k] as int == t;
                assert(reads[k] as int == t);
            }
        }
    }
}

impl Runtime {
    pub closed spec fn signal_count(self) -> nat {
        self.signals@.len()
    }

    pub closed spec fn signal_live(self, s: int) -> bool {
        0 <= s < self.signals@.len() && self.signals@[s].alive
    }

    pub closed spec fn value(self, s: int) -> i64 {
        if 0 <= s < self.signals@.len() {
            self.signals@[s].value
        } else {
            0
        }
    }

    pub closed spec fn computation_count(self) -> nat {
        self.computations@.len()
    }

    pub closed spec fn computation_live(self, c: int) -> bool {
        0 <= c < self.computations@.len() && self.computations@[c].alive
    }

    pub closed spec fn dirty(self, c: int) -> bool {
        0 <= c < self.computations@.len() && self.computations@[c].dirty
    }

    /// The last run of `c` failed or was cut off as a cycle: what it
    /// computed is stale until a run of it ends well.
    pub closed spec fn stale(self, c: int) -> bool {
        0 <= c < self.computations@.len() && self.computations@[c].stale
    }

    pub closed spec fn output(self, c: int) -> Option<usize> {
        if 0 <= c < self.computations@.len() {
            self.computations@[c].output
        } else {
            None
        }
    }

    pub closed spec fn level(self, c: int) -> nat {
        if 0 <= c < self.computations@.len() {
            self.computations@[c].level as nat
        } else {
            0
        }
    }

    /// `c` read `s` during its current or last run.
    pub closed spec fn depends(self, c: int, s: int) -> bool {
        exists|i: int|
            0 <= i < self.edges@.len() && self.edges@[i].0 as int == c && self.edges@[i].1 as int
                == s
    }

    pub closed spec fn running(self) -> Option<usize> {
        self.running
    }

    pub open spec fn is_running(self, c: int) -> bool {
        match self.running() {
            Some(r) => r as int == c,
            None => false,
        }
    }

    pub closed spec fn batch_depth(self) -> nat {
        self.batch_depth as nat
    }

    pub closed spec fn wf(self) -> bool {
        &&& forall|i: int|
            0 <= i < self.edges@.len() ==> {
                &&& self.computation_live(#[trigger] self.edges@[i].0 as int)
                &&& self.signal_live(self.edges@[i].1 as int)
            }
        &&& forall|c: int|
            0 <= c < self.computations@.len() ==> match #[trigger] self.computations@[c].output {
                Some(s) => s < self.signals@.len(),
                None => true,
            }
        &&& forall|c: int|
            0 <= c < self.computations@.len() && !self.computations@[c].alive
                ==> !#[trigger] self.computations@[c].dirty
        &&& match self.running {
            Some(c) => self.computation_live(c as int),
            None => true,
        }
    }

    pub open spec fn same_signals(self, o: Self) -> bool {
        &&& self.signal_count() == o.signal_count()
        &&& forall|s: int| #[trigger] self.signal_live(s) == o.signal_live(s)
        &&& forall|s: int| #[trigger] self.value(s) == o.value(s)
    }

    pub open spec fn same_computations(self, o: Self) -> bool {
        &&& self.computation_count() == o.computation_count()
        &&& forall|c: int| #[trigger] self.computation_live(c) == o.computation_live(c)
        &&& forall|c: int| #[trigger] self.dirty(c) == o.dirty(c)
        &&& forall|c: int| #[trigger] self.stale(c) == o.stale(c)
        &&& forall|c: int| #[trigger] self.output(c) == o.output(c)
        &&& forall|c: int| #[trigger] self.level(c) == o.level(c)
    }

    pub open spec fn same_edges(self, o: Self) -> bool {
        forall|c: int, s: int| #[trigger] self.depends(c, s) == o.depends(c, s)
    }

    /// `new` is `old` after `write(s, v)` succeeded: the value is replaced
    /// and, if it changed, every subscriber of `s` is marked dirty once.
    pub open spec fn written(old: Self, new: Self, s: int, v: i64) -> bool {
        &&& new.signal_count() == old.signal_count()
        &&& forall|t: int| #[trigger] new.signal_live(t) == old.signal_live(t)
        &&& new.value(s) == v
        &&& forall|t: int| t != s ==> #[trigger] new.value(t) == old.value(t)
        &&& new.computation_count() == old.computation_count()
        &&& forall|c: int| #[trigger] new.computation_live(c) == old.computation_live(c)
        &&& forall|c: int|
            #[trigger] new.dirty(c) == (old.dirty(c) || (v != old.value(s) && old.depends(c, s)))
        &&& forall|c: int| #[trigger] new.stale(c) == old.stale(c)
        &&& forall|c: int| #[trigger] new.output(c) == old.output(c)
        &&& forall|c: int| #[trigger] new.level(c) == old.level(c)
        &&& new.same_edges(old)
        &&& new.running() == old.running()
        &&& new.batch_depth() == old.batch_depth()
    }

    /// `new` is `old` after `begin_run(c)` succeeded: `c` runs, is no longer
    /// dirty, and has an empty dependency set; nothing else changed.
    pub open spec fn began(old: Self, new: Self, c: int) -> bool {
        &&& old.running() == None::<usize>
        &&& old.computation_live(c)
        &&& new.is_running(c)
        &&& !new.dirty(c)
        &&& forall|d: int| d != c ==> #[trigger] new.dirty(d) == old.dirty(d)
        &&& forall|d: int| #[trigger] new.stale(d) == old.stale(d)
        &&& forall|d: int| #[trigger] new.computation_live(d) == old.computation_live(d)
        &&& forall|d: int| #[trigger] new.output(d) == old.output(d)
        &&& forall|d: int| #[trigger] new.level(d) == old.level(d)
        &&& new.computation_count() == old.computation_count()
        &&& forall|d: int, t: int| #[trigger] new.depends(d, t) == (old.depends(d, t) && d != c)
        &&& new.same_signals(old)
        &&& new.batch_depth() == old.batch_depth()
    }

    /// `new` is `old` after a successful tracked `read(s)`.
    pub open spec fn tracked_read(old: Self, new: Self, s: int) -> bool {
        &&& new.same_signals(old)
        &&& new.same_computations(old)
        &&& forall|c: int, t: int|
            #[trigger] new.depends(c, t) == (old.depends(c, t) || (old.is_running(c) && t == s))
        &&& new.running() == old.running()
        &&& new.batch_depth() == old.batch_depth()
    }

    /// An empty runtime.
    pub fn new() -> (r: Runtime)
        ensures
            r.wf(),
            r.signal_count() == 0,
            r.computation_count() == 0,
            forall|s: int| !#[trigger] r.signal_live(s),
            forall|c: int| !#[trigger] r.computation_live(c),
            forall|c: int| !#[trigger] r.dirty(c),
            forall|c: int, s: int| !#[trigger] r.depends(c, s),
            r.running() == None::<usize>,
            r.batch_depth() == 0,
    {
        Runtime {
            signals: Vec::new(),
            computations: Vec::new(),
            edges: Vec::new(),
            running: None,
            batch_depth: 0,
        }
    }

    /// Creates a signal holding `value`; its handle is the next free index.
    pub fn create_signal(&mut self, value: i64) -> (id: usize)
        requires
            old(self).wf(),
        ensures
            final(self).wf(),
            id == old(self).signal_count(),
            final(self).signal_count() == old(self).signal_count() + 1,
            final(self).signal_live(id as int),
            final(self).value(id as int) == value,
            forall|s: int| s != id ==> #[trigger] final(self).signal_live(s) == old(self).signal_live(s),
            forall|s: int| s != id ==> #[trigger] final(self).value(s) == old(self).value(s),
            final(self).same_computations(*old(self)),
            final(self).same_edges(*old(self)),
            final(self).running() == old(self).running(),
            final(self).batch_depth() == old(self).batch_depth(),
    {
        let id = self.signals.len();
        self.signals.push(SignalSlot { value, alive: true });
        assert(self.edges@ == old(self).edges@);
        assert forall|c: int| 0 <= c < self.computations@.len() implies match #[trigger] self.computations@[c].output {
            Some(o) => o < self.signals@.len(),
            None => true,
        } by {
            assert(self.computations@[c] == old(self).computations@[c]);
        }
        assert forall|i: int| 0 <= i < self.edges@.len() implies {
            &&& self.computation_live(#[trigger] self.edges@[i].0 as int)
            &&& self.signal_live(self.edges@[i].1 as int)
        } by {
            assert(old(self).computation_live(old(self).edges@[i].0 as int));
            assert(old(self).signal_live(old(self).edges@[i].1 as int));
        }
        id
    }

    /// Replaces the value of `s`. If the value changed, every computation that
    /// read `s` in its current or last run is marked dirty (a flag, so it is
    /// queued once however many writes reach it).
    pub fn write(&mut self, s: usize, v: i64) -> (r: Result<(), ReactiveError>)
        requires
            old(self).wf(),
        ensures
            final(self).wf(),
            match r {
                Ok(()) => old(self).signal_live(s as int) && Self::written(
                    *old(self),
                    *final(self),
                    s as int,
                    v,
                ),
                Err(e) => !old(self).signal_live(s as int) && e == ReactiveError::DisposedSignal(s)
                    && *final(self) == *old(self),
            },
    {
        if s >= self.signals.len() || !self.signals[s].alive {
            return Err(ReactiveError::DisposedSignal(s));
        }
        let old_value = self.signals[s].value;
        self.signals.set(s, SignalSlot { value: v, alive: true });
        assert(forall|t: int| #[trigger] self.signal_live(t) == old(self).signal_live(t));
        if old_value != v {
            let mut i: usize = 0;
            while i < self.edges.len()
                invariant
                    self.wf(),
                    i <= self.edges@.len(),
                    self.edges@ == old(self).edges@,
                    self.signals@ == old(self).signals@.update(
                        s as int,
                        SignalSlot { value: v, alive: true },
                    ),
                    self.running == old(self).running,
                    self.batch_depth == old(self).batch_depth,
                    self.computations@.len() == old(self).computations@.len(),
                    forall|c: int|
                        #![trigger self.computations@[c]]
                        0 <= c < self.computations@.len() ==> {
                            &&& self.computations@[c].alive
                                == old(self).computations@[c].alive
                            &&& self.computations@[c].output == old(self).computations@[c].output
                            &&& self.computations@[c].stale == old(self).computations@[c].stale
                            &&& self.computations@[c].level == old(self).computations@[c].level
                            &&& self.computations@[c].dirty == (old(self).computations@[c].dirty
                                || edge_before(self.edges@, c, s as int, i as int))
                        },
                decreases self.edges@.len() - i,
            {
                let (c, t) = self.edges[i];
                assert(self.computation_live(self.edges@[i as int].0 as int));
                let ghost before = self.computations@;
                if t == s {
                    let mut slot = self.computations[c];
                    slot.dirty = true;
                    self.computations.set(c, slot);
                }
                assert forall|d: int| 0 <= d < self.computations@.len() && d != c implies #[trigger] self.computations@[d] == before[d] by {}
                assert forall|d: int|
                    #[trigger] edge_before(self.edges@, d, s as int, i + 1) == (edge_before(
                        self.edges@,
                        d,
                        s as int,
                        i as int,
                    ) || (d == c && t == s)) by {
                    if edge_before(self.edges@, d, s as int, i + 1) && !(d == c && t == s) {
                        let j = choose|j: int|
                            0 <= j < i + 1 && self.edges@[j].0 as int == d && self.edges@[j].1
                                as int == s;
                        assert(j != i);
                    }
                    if d == c && t == s {
                        assert(self.edges@[i as int].0 as int == d);
                    }
                }
                i = i + 1;
            }
            assert forall|c: int| #[trigger] edge_before(self.edges@, c, s as int, self.edges@.len() as int)
                == old(self).depends(c, s as int) by {}
            assert forall|c: int| #[trigger] self.dirty(c) == (old(self).dirty(c) || (v != old(self).value(s as int) && old(self).depends(c, s as int))) by {
                if old(self).depends(c, s as int) {
                    let j = choose|j: int| 0 <= j < old(self).edges@.len() && old(self).edges@[j].0 as int == c && old(self).edges@[j].1 as int == s;
                    assert(old(self).computation_live(old(self).edges@[j].0 as int));
                }
            }
        } else {
            assert(self.signals@ =~= old(self).signals@.update(
                s as int,
                SignalSlot { value: v, alive: true },
            ));
        }
        proof {
            lemma_edges_frame(*self, *old(self));
        }
        Ok(())
    }

    /// Opens a batch: until the matching `end_batch`, no computation is handed
    /// out to run.
    pub fn begin_batch(&mut self)
        requires
            old(self).wf(),
            old(self).batch_depth() < usize::MAX,
        ensures
            final(self).wf(),
            final(self).batch_depth() == old(self).batch_depth() + 1,
            final(self).same_signals(*old(self)),
            final(self).same_computations(*old(self)),
            final(self).same_edges(*old(self)),
            final(self).running() == old(self).running(),
    {
        self.batch_depth = self.batch_depth + 1;
        proof {
            lemma_wf_stop(*old(self), *self);
            lemma_edges_frame(*self, *old(self));
        }
    }

    /// Closes the innermost open batch.
    pub fn end_batch(&mut self) -> (r: Result<(), ReactiveError>)
        requires
            old(self).wf(),
        ensures
            final(self).wf(),
            r is Ok <==> old(self).batch_depth() > 0,
            r is Ok ==> final(self).batch_depth() == old(self).batch_depth() - 1,
            r is Err ==> r == Err::<(), ReactiveError>(ReactiveError::NotBatching) && *final(self)
                == *old(self),
            final(self).same_signals(*old(self)),
            final(self).same_computations(*old(self)),
            final(self).same_edges(*old(self)),
            final(self).running() == old(self).running(),
    {
        if self.batch_depth == 0 {
            return Err(ReactiveError::NotBatching);
        }
        self.batch_depth = self.batch_depth - 1;
        proof {
            lemma_wf_stop(*old(self), *self);
            lemma_edges_frame(*self, *old(self));
        }
        Ok(())
    }

    /// Whether some pending computation feeds `c`.
    fn is_fed(&self, c: usize) -> (r: bool)
        requires
            self.wf(),
        ensures
            r == exists|p: int| #[trigger] self.pending(p) && self.feeds(p, c as int),
    {
        let mut p: usize = 0;
        while p < self.computations.len()
            invariant
                self.wf(),
                p <= self.computations@.len(),
                forall|q: int| 0 <= q < p ==> !(#[trigger] self.pending(q) && self.feeds(q, c as int)),
            decreases self.computations@.len() - p,
        {
            let slot = self.computations[p];
            if slot.alive && slot.dirty {
                if let Some(o) = slot.output {
                    if self.has_edge(c, o) {
                        assert(self.pending(p as int) && self.feeds(p as int, c as int));
                        return true;
                    }
                }
            }
            p = p + 1;
        }
        false
    }

    /// The next computation to run: none while a batch is open or a
    /// computation runs. Otherwise a pending computation that no pending
    /// computation feeds, so every dirty feeder runs before its readers: the
    /// one with the lowest level, the lowest handle among equal levels. Only
    /// when every pending computation has a pending feeder (the pending ones
    /// then form a cycle) is the lowest of all handed out, so that its
    /// `end_run` reports the cycle.
    pub fn next_to_run(&self) -> (r: Option<usize>)
        requires
            self.wf(),
        ensures
            match r {
                Some(c) => {
                    &&& self.batch_depth() == 0
                    &&& self.running() == None::<usize>
                    &&& self.pending(c as int)
                    &&& if exists|d: int| #[trigger] self.unfed(d) {
                        &&& self.unfed(c as int)
                        &&& forall|d: int| #[trigger] self.unfed(d) ==> self.runs_before(c as int, d)
                    } else {
                        forall|d: int| #[trigger] self.pending(d) ==> self.runs_before(c as int, d)
                    }
                },
                None => self.batch_depth() > 0 || self.running() is Some || forall|d: int|
                    !#[trigger] self.pending(d),
            },
    {
        if self.batch_depth > 0 || self.running.is_some() {
            return None;
        }
        let mut best: Option<usize> = None;
        let mut best_unfed: Option<usize> = None;
        let mut i: usize = 0;
        while i < self.computations.len()
            invariant
                self.wf(),
                i <= self.computations@.len(),
                match best {
                    Some(c) => c < i && self.pending(c as int) && forall|d: int|
                        0 <= d < i && #[trigger] self.pending(d) ==> self.runs_before(c as int, d),
                    None => forall|d: int| 0 <= d < i ==> !#[trigger] self.pending(d),
                },
                match best_unfed {
                    Some(c) => c < i && self.unfed(c as int) && forall|d: int|
                        0 <= d < i && #[trigger] self.unfed(d) ==> self.runs_before(c as int, d),
                    None => forall|d: int| 0 <= d < i ==> !#[trigger] self.unfed(d),
                },
            decreases self.computations@.len() - i,
        {
            let slot = self.computations[i];
            if slot.alive && slot.dirty {
                match best {
                    Some(b) => {
                        if slot.level < self.computations[b].level {
                            best = Some(i);
                        }
                    },
                    None => {
                        best = Some(i);
                    },
                }
                if !self.is_fed(i) {
                    match best_unfed {
                        Some(b) => {
                            if slot.level < self.computations[b].level {
                                best_unfed = Some(i);
                            }
                        },
                        None => {
                            best_unfed = Some(i);
                        },
                    }
                }
            }
            i = i + 1;
        }
        assert forall|d: int| #[trigger] self.pending(d) implies 0 <= d < self.computations@.len() by {}
        if best_unfed.is_some() {
            best_unfed
        } else {
            best
        }
    }

    /// `c` is pending and no pending computation feeds it.
    pub open spec fn unfed(self, c: int) -> bool {
        self.pending(c) && !exists|p: int| #[trigger] self.pending(p) && self.feeds(p, c)
    }

    /// `c` is live and waiting to run.
    pub open spec fn pending(self, c: int) -> bool {
        self.computation_live(c) && self.dirty(c)
    }

    /// The scheduler order: lower level first, then lower handle.
    pub open spec fn runs_before(self, c: int, d: int) -> bool {
        self.level(c) < self.level(d) || (self.level(c) == self.level(d) && c <= d)
    }

    /// `p` is live and its output signal is a dependency of `c`.
    pub open spec fn feeds(self, p: int, c: int) -> bool {
        self.computation_live(p) && match self.output(p) {
            Some(o) => self.depends(c, o as int),
            None => false,
        }
    }

    /// Finishing the run of `c` would close a cycle: `c` became dirty during
    /// its own run (it wrote a signal it read), or a computation feeding `c`
    /// is `c` itself or already sits at the top level.
    pub open spec fn closes_cycle(self, c: int) -> bool {
        self.dirty(c) || exists|p: int| #[trigger]
            self.feeds(p, c) && (p == c || self.level(p) >= self.computation_count())
    }

    /// `p` is a witness that finishing the run of `c` closes a cycle.
    pub open spec fn closes_cycle_through(self, c: int, p: int) -> bool {
        if self.dirty(c) {
            p == c
        } else {
            self.feeds(p, c) && (p == c || self.level(p) >= self.computation_count())
        }
    }

    /// `l` is one more than the highest level feeding `c`, or 0 when nothing
    /// computed feeds `c`.
    pub open spec fn level_above_feeders(self, c: int, l: nat) -> bool {
        &&& forall|p: int| #[trigger] self.feeds(p, c) ==> self.level(p) < l
        &&& (l == 0 || exists|p: int| #[trigger] self.feeds(p, c) && l == self.level(p) + 1)
    }

    fn has_edge(&self, c: usize, s: usize) -> (r: bool)
        ensures
            r == self.depends(c as int, s as int),
    {
        let mut i: usize = 0;
        while i < self.edges.len()
            invariant
                i <= self.edges@.len(),
                !edge_before(self.edges@, c as int, s as int, i as int),
            decreases self.edges@.len() - i,
        {
            if self.edges[i].0 == c && self.edges[i].1 == s {
                return true;
            }
            i = i + 1;
        }
        false
    }

    /// Drops every edge of computation `x` (`by_computation`) or of signal `x`.
    fn drop_edges(&mut self, x: usize, by_computation: bool)
        requires
            old(self).wf(),
        ensures
            final(self).wf(),
            final(self).signals == old(self).signals,
            final(self).computations == old(self).computations,
            final(self).running == old(self).running,
            final(self).batch_depth == old(self).batch_depth,
            forall|d: int, t: int|
                #[trigger] final(self).depends(d, t) == (old(self).depends(d, t) && if by_computation {
                    d != x
                } else {
                    t != x
                }),
    {
        let mut kept: Vec<(usize, usize)> = Vec::new();
        let mut i: usize = 0;
        while i < self.edges.len()
            invariant
                i <= self.edges@.len(),
                self == old(self),
                forall|j: int|
                    0 <= j < kept@.len() ==> exists|k: int| 0 <= k < i && #[trigger] kept@[j] == self.edges@[k],
                forall|d: int, t: int|
                    #[trigger] edge_before(kept@, d, t, kept@.len() as int) == (edge_before(
                        self.edges@,
                        d,
                        t,
                        i as int,
                    ) && if by_computation {
                        d != x
                    } else {
                        t != x
                    }),
            decreases self.edges@.len() - i,
        {
            let e = self.edges[i];
            let keep = if by_computation { e.0 != x } else { e.1 != x };
            let ghost kept0 = kept@;
            if keep {
                kept.push(e);
            }
            assert(keep ==> kept@ == kept0.push(e));
            assert(!keep ==> kept@ == kept0);
            assert forall|j: int|
                0 <= j < kept@.len() implies exists|k: int| 0 <= k < i + 1 && #[trigger] kept@[j] == self.edges@[k] by {
                if j < kept0.len() {
                    assert(kept@[j] == kept0[j]);
                    let k = choose|k: int| 0 <= k < i && #[trigger] kept0[j] == self.edges@[k];
                    assert(kept@[j] == self.edges@[k]);
                } else {
                    assert(kept@[j] == self.edges@[i as int]);
                }
            }
            assert forall|d: int, t: int|
                #[trigger] edge_before(kept@, d, t, kept@.len() as int) == (edge_before(
                    self.edges@,
                    d,
                    t,
                    i + 1,
                ) && if by_computation {
                    d != x
                } else {
                    t != x
                }) by {
                if edge_before(kept@, d, t, kept@.len() as int) {
                    let j = choose|j: int|
                        0 <= j < kept@.len() && kept@[j].0 as int == d && kept@[j].1 as int == t;
                    if j < kept0.len() {
                        assert(kept0[j] == kept@[j]);
                        assert(edge_before(kept0, d, t, kept0.len() as int));
                    }
                }
                if edge_before(self.edges@, d, t, i + 1) && (if by_computation {
                    d != x
                } else {
                    t != x
                }) {
                    let k = choose|k: int|
                        0 <= k < i + 1 && self.edges@[k].0 as int == d && self.edges@[k].1 as int
                            == t;
                    if k < i {
                        assert(edge_before(self.edges@, d, t, i as int));
                        assert(edge_before(kept0, d, t, kept0.len() as int));
                        let j = choose|j: int|
                            0 <= j < kept0.len() && kept0[j].0 as int == d && kept0[j].1 as int
                                == t;
                        assert(kept@[j] == kept0[j]);
                    } else {
                        assert(kept@[kept@.len() - 1] == e);
                    }
                }
            }
            i = i + 1;
        }
        self.edges = kept;
        assert forall|d: int, t: int| #[trigger] self.depends(d, t) == edge_before(self.edges@, d, t, self.edges@.len() as int) by {}
        assert forall|d: int, t: int| #[trigger] old(self).depends(d, t) == edge_before(old(self).edges@, d, t, old(self).edges@.len() as int) by {}
        assert forall|j: int| 0 <= j < self.edges@.len() implies {
            &&& self.computation_live(#[trigger] self.edges@[j].0 as int)
            &&& self.signal_live(self.edges@[j].1 as int)
        } by {
            let k = choose|k: int| 0 <= k < old(self).edges@.len() && self.edges@[j] == old(self).edges@[k];
            assert(old(self).computation_live(old(self).edges@[k].0 as int));
        }
    }

    /// Creates a computation, dirty so that its first run is scheduled. With
    /// `output`, the computation caches its result in that signal: it is then
    /// placed after every computation that feeds it.
    pub fn create_computation(&mut self, output: Option<usize>) -> (r: Result<usize, ReactiveError>)
        requires
            old(self).wf(),
        ensures
            final(self).wf(),
            match r {
                Ok(id) => {
                    &&& (output matches Some(o) ==> old(self).signal_live(o as int))
                    &&& id == old(self).computation_count()
                    &&& final(self).computation_count() == old(self).computation_count() + 1
                    &&& final(self).computation_live(id as int)
                    &&& final(self).dirty(id as int)
                    &&& !final(self).stale(id as int)
                    &&& forall|c: int| c != id ==> #[trigger] final(self).stale(c) == old(self).stale(c)
                    &&& final(self).output(id as int) == output
                    &&& final(self).level(id as int) == 0
                    &&& forall|c: int| c != id ==> #[trigger] final(self).computation_live(c) == old(self).computation_live(c)
                    &&& forall|c: int| c != id ==> #[trigger] final(self).dirty(c) == old(self).dirty(c)
                    &&& forall|c: int| c != id ==> #[trigger] final(self).output(c) == old(self).output(c)
                    &&& forall|c: int| c != id ==> #[trigger] final(self).level(c) == old(self).level(c)
                    &&& final(self).same_signals(*old(self))
                    &&& final(self).same_edges(*old(self))
                    &&& final(self).running() == old(self).running()
                    &&& final(self).batch_depth() == old(self).batch_depth()
                },
                Err(e) => {
                    &&& output matches Some(o) && !old(self).signal_live(o as int)
                    &&& e == ReactiveError::DisposedSignal(output->Some_0)
                    &&& *final(self) == *old(self)
                },
            },
    {
        if let Some(o) = output {
            if o >= self.signals.len() || !self.signals[o].alive {
                return Err(ReactiveError::DisposedSignal(o));
            }
        }
        let id = self.computations.len();
        self.computations.push(ComputationSlot { dirty: true, stale: false, alive: true, output, level: 0 });
        proof {
            lemma_edges_frame(*self, *old(self));
            lemma_wf_slot_update(*old(self), *self, id as int);
        }
        Ok(id)
    }

    /// Starts a run of `c`: its dependency set is emptied, to be rebuilt by
    /// the reads of this run, and it is no longer dirty.
    pub fn begin_run(&mut self, c: usize) -> (r: Result<(), ReactiveError>)
        requires
            old(self).wf(),
        ensures
            final(self).wf(),
            match r {
                Ok(()) => Self::began(*old(self), *final(self), c as int),
                Err(e) => {
                    &&& *final(self) == *old(self)
                    &&& match old(self).running() {
                        Some(x) => e == ReactiveError::AlreadyRunning(x),
                        None => !old(self).computation_live(c as int)
                            && e == ReactiveError::DisposedComputation(c),
                    }
                },
            },
    {
        if let Some(x) = self.running {
            return Err(ReactiveError::AlreadyRunning(x));
        }
        if c >= self.computations.len() || !self.computations[c].alive {
            return Err(ReactiveError::DisposedComputation(c));
        }
        self.drop_edges(c, true);
        let ghost dropped = *self;
        let mut slot = self.computations[c];
        slot.dirty = false;
        self.computations.set(c, slot);
        proof {
            assert(dropped.computations@ == old(self).computations@);
            assert(self.computations@[c as int].stale == old(self).computations@[c as int].stale);
            lemma_edges_frame(*self, dropped);
            lemma_wf_slot_update(dropped, *self, c as int);
        }
        self.running = Some(c);
        proof {
            lemma_edges_frame(*self, dropped);
        }
        Ok(())
    }

    /// Ends the running computation and places it one level above the
    /// computations that feed it. If that closes a cycle, the computation is
    /// cut off instead: its dependencies are dropped, so it is not triggered
    /// again, and the cycle is reported.
    pub fn end_run(&mut self) -> (r: Result<usize, ReactiveError>)
        requires
            old(self).wf(),
        ensures
            final(self).wf(),
            final(self).running() == None::<usize>,
            final(self).same_signals(*old(self)),
            final(self).batch_depth() == old(self).batch_depth(),
            final(self).computation_count() == old(self).computation_count(),
            forall|d: int| #[trigger] final(self).computation_live(d) == old(self).computation_live(d),
            forall|d: int| #[trigger] final(self).output(d) == old(self).output(d),
            match old(self).running() {
                None => r == Err::<usize, ReactiveError>(ReactiveError::NotRunning) && *final(self) == *old(self),
                Some(c) => if old(self).closes_cycle(c as int) {
                    &&& r matches Err(ReactiveError::Cycle(x, p)) && x == c && old(self).closes_cycle_through(c as int, p as int)
                    &&& !final(self).dirty(c as int)
                    &&& final(self).stale(c as int)
                    &&& forall|d: int| d != c ==> #[trigger] final(self).dirty(d) == old(self).dirty(d)
                    &&& forall|d: int| d != c ==> #[trigger] final(self).stale(d) == old(self).stale(d)
                    &&& forall|d: int| #[trigger] final(self).level(d) == old(self).level(d)
                    &&& forall|d: int, t: int|
                        #[trigger] final(self).depends(d, t) == (old(self).depends(d, t) && d != c)
                } else {
                    &&& r == Ok::<usize, ReactiveError>(c)
                    &&& forall|d: int| #[trigger] final(self).dirty(d) == old(self).dirty(d)
                    &&& !final(self).stale(c as int)
                    &&& forall|d: int| d != c ==> #[trigger] final(self).stale(d) == old(self).stale(d)
                    &&& old(self).level_above_feeders(c as int, final(self).level(c as int))
                    &&& final(self).level(c as int) <= old(self).computation_count()
                    &&& forall|d: int| d != c ==> #[trigger] final(self).level(d) == old(self).level(d)
                    &&& final(self).same_edges(*old(self))
                },
            },
    {
        let c = match self.running {
            Some(c) => c,
            None => {
                return Err(ReactiveError::NotRunning);
            },
        };
        let n = self.computations.len();
        let mut level: usize = 0;
        let mut cycle = self.computations[c].dirty;
        let mut through: usize = c;
        let mut p: usize = 0;
        while p < n
            invariant
                self == old(self),
                self.wf(),
                self.running == Some(c),
                n == self.computations@.len(),
                p <= n,
                level <= n,
                cycle ==> self.closes_cycle_through(c as int, through as int),
                cycle == (self.dirty(c as int) || exists|q: int| 0 <= q < p && #[trigger] self.feeds(q, c as int) && (q == c
                    || self.level(q) >= n)),
                !cycle ==> forall|q: int| 0 <= q < p && #[trigger] self.feeds(q, c as int) ==> self.level(q) < level,
                !cycle ==> (level == 0 || exists|q: int| 0 <= q < p && #[trigger] self.feeds(q, c as int) && level == self.level(q) + 1),
            decreases n - p,
        {
            let slot = self.computations[p];
            if slot.alive {
                if let Some(o) = slot.output {
                    if self.has_edge(c, o) {
                        assert(self.feeds(p as int, c as int));
                        if p == c || slot.level >= n {
                            if !cycle {
                                through = p;
                            }
                            cycle = true;
                        } else if slot.level + 1 > level {
                            level = slot.level + 1;
                        }
                    }
                }
            }
            p = p + 1;
        }
        assert forall|q: int| #[trigger] self.feeds(q, c as int) implies 0 <= q < n by {}
        if cycle {
            self.drop_edges(c, true);
            let ghost dropped = *self;
            let mut slot = self.computations[c];
            slot.dirty = false;
            slot.stale = true;
            self.computations.set(c, slot);
            proof {
                lemma_wf_slot_update(dropped, *self, c as int);
            }
            let ghost cleared = *self;
            self.running = None;
            proof {
                lemma_wf_stop(cleared, *self);
                lemma_edges_frame(*self, dropped);
            }
            return Err(ReactiveError::Cycle(c, through));
        }
        let ghost before = *self;
        self.running = None;
        proof {
            lemma_wf_stop(before, *self);
        }
        let mut slot = self.computations[c];
        slot.level = level;
        slot.stale = false;
        let ghost stopped = *self;
        self.computations.set(c, slot);
        proof {
            lemma_edges_frame(*self, *old(self));
            lemma_wf_slot_update(stopped, *self, c as int);
        }
        Ok(c)
    }

    /// Ends the running computation after its function failed. The failure
    /// is isolated: the computation is marked stale, keeps the dependencies
    /// it read before failing (a later write to one of them schedules it
    /// again), and nothing else changes, so the rest of the flush goes on.
    pub fn fail_run(&mut self) -> (r: Result<usize, ReactiveError>)
        requires
            old(self).wf(),
        ensures
            final(self).wf(),
            final(self).running() == None::<usize>,
            final(self).same_signals(*old(self)),
            final(self).same_edges(*old(self)),
            final(self).batch_depth() == old(self).batch_depth(),
            final(self).computation_count() == old(self).computation_count(),
            forall|d: int| #[trigger] final(self).computation_live(d) == old(self).computation_live(d),
            forall|d: int| #[trigger] final(self).dirty(d) == old(self).dirty(d),
            forall|d: int| #[trigger] final(self).output(d) == old(self).output(d),
            forall|d: int| #[trigger] final(self).level(d) == old(self).level(d),
            match old(self).running() {
                None => r == Err::<usize, ReactiveError>(ReactiveError::NotRunning) && *final(self)
                    == *old(self),
                Some(c) => {
                    &&& r == Ok::<usize, ReactiveError>(c)
                    &&& final(self).stale(c as int)
                    &&& forall|d: int| d != c ==> #[trigger] final(self).stale(d) == old(self).stale(d)
                },
            },
    {
        let c = match self.running {
            Some(c) => c,
            None => {
                return Err(ReactiveError::NotRunning);
            },
        };
        let mut slot = self.computations[c];
        slot.stale = true;
        self.computations.set(c, slot);
        proof {
            lemma_wf_slot_update(*old(self), *self, c as int);
        }
        let ghost marked = *self;
        self.running = None;
        proof {
            lemma_wf_stop(marked, *self);
            lemma_edges_frame(*self, *old(self));
        }
        Ok(c)
    }

    /// Disposes `s`: it can no longer be read or written, and it leaves the
    /// dependency set of every computation.
    pub fn dispose_signal(&mut self, s: usize) -> (r: Result<(), ReactiveError>)
        requires
            old(self).wf(),
        ensures
            final(self).wf(),
            match r {
                Ok(()) => {
                    &&& old(self).signal_live(s as int)
                    &&& !final(self).signal_live(s as int)
                    &&& final(self).signal_count() == old(self).signal_count()
                    &&& forall|t: int| t != s ==> #[trigger] final(self).signal_live(t) == old(self).signal_live(t)
                    &&& forall|t: int| #[trigger] final(self).value(t) == old(self).value(t)
                    &&& final(self).same_computations(*old(self))
                    &&& forall|d: int, t: int|
                        #[trigger] final(self).depends(d, t) == (old(self).depends(d, t) && t != s)
                    &&& final(self).running() == old(self).running()
                    &&& final(self).batch_depth() == old(self).batch_depth()
                },
                Err(e) => !old(self).signal_live(s as int) && e == ReactiveError::DisposedSignal(s)
                    && *final(self) == *old(self),
            },
    {
        if s >= self.signals.len() || !self.signals[s].alive {
            return Err(ReactiveError::DisposedSignal(s));
        }
        self.drop_edges(s, false);
        let ghost dropped = *self;
        let value = self.signals[s].value;
        self.signals.set(s, SignalSlot { value, alive: false });
        proof {
            lemma_edges_frame(*self, dropped);
            assert forall|i: int| 0 <= i < self.edges@.len() implies {
                &&& self.computation_live(#[trigger] self.edges@[i].0 as int)
                &&& self.signal_live(self.edges@[i].1 as int)
            } by {
                assert(dropped.computation_live(dropped.edges@[i].0 as int));
                assert(dropped.signal_live(dropped.edges@[i].1 as int));
                assert(self.depends(self.edges@[i].0 as int, self.edges@[i].1 as int));
            }
        }
        Ok(())
    }

    /// Disposes `c`: it leaves the graph, any scheduled run of it is
    /// dropped, and a run of it in progress ends.
    pub fn dispose_computation(&mut self, c: usize) -> (r: Result<(), ReactiveError>)
        requires
            old(self).wf(),
        ensures
            final(self).wf(),
            match r {
                Ok(()) => {
                    &&& old(self).computation_live(c as int)
                    &&& !final(self).computation_live(c as int)
                    &&& !final(self).dirty(c as int)
                    &&& final(self).computation_count() == old(self).computation_count()
                    &&& forall|d: int| d != c ==> #[trigger] final(self).computation_live(d) == old(self).computation_live(d)
                    &&& forall|d: int| d != c ==> #[trigger] final(self).dirty(d) == old(self).dirty(d)
                    &&& forall|d: int| #[trigger] final(self).stale(d) == old(self).stale(d)
                    &&& forall|d: int| #[trigger] final(self).output(d) == old(self).output(d)
                    &&& forall|d: int| #[trigger] final(self).level(d) == old(self).level(d)
                    &&& forall|d: int, t: int|
                        #[trigger] final(self).depends(d, t) == (old(self).depends(d, t) && d != c)
                    &&& final(self).same_signals(*old(self))
                    &&& final(self).running() == if old(self).running() == Some(c) {
                        None
                    } else {
                        old(self).running()
                    }
                    &&& final(self).batch_depth() == old(self).batch_depth()
                },
                Err(e) => !old(self).computation_live(c as int) && e
                    == ReactiveError::DisposedComputation(c) && *final(self) == *old(self),
            },
    {
        if c >= self.computations.len() || !self.computations[c].alive {
            return Err(ReactiveError::DisposedComputation(c));
        }
        self.drop_edges(c, true);
        if self.running == Some(c) {
            let ghost dropped = *self;
            self.running = None;
            proof {
                lemma_wf_stop(dropped, *self);
                lemma_edges_frame(*self, dropped);
            }
        }
        let ghost before = *self;
        let mut slot = self.computations[c];
        slot.alive = false;
        slot.dirty = false;
        self.computations.set(c, slot);
        proof {
            assert(before.computations@ == old(self).computations@);
            assert(self.computations@[c as int].stale == old(self).computations@[c as int].stale);
            lemma_edges_frame(*self, before);
            assert forall|i: int|
                0 <= i < self.edges@.len() && #[trigger] self.edges@[i].0 as int == c implies self.computations@[c as int].alive by {
                assert(before.depends(self.edges@[i].0 as int, self.edges@[i].1 as int));
            }
            lemma_wf_slot_update(before, *self, c as int);
        }
        Ok(())
    }

    /// The value of `s`, recorded as a dependency of the running computation.
    pub fn read(&mut self, s: usize) -> (r: Result<i64, ReactiveError>)
        requires
            old(self).wf(),
        ensures
            final(self).wf(),
            match r {
                Ok(v) => old(self).signal_live(s as int) && v == old(self).value(s as int)
                    && Self::tracked_read(*old(self), *final(self), s as int),
                Err(e) => !old(self).signal_live(s as int) && e == ReactiveError::DisposedSignal(s)
                    && *final(self) == *old(self),
            },
    {
        if s >= self.signals.len() || !self.signals[s].alive {
            return Err(ReactiveError::DisposedSignal(s));
        }
        let v = self.signals[s].value;
        if let Some(c) = self.running {
            if self.has_edge(c, s) {
                assert(self.edges@ == old(self).edges@);
            } else {
                self.edges.push((c, s));
                assert(self.edges@[self.edges@.len() - 1] == (c, s));
                assert forall|d: int, t: int| #[trigger] self.depends(d, t) == (old(self).depends(d, t)
                    || (old(self).is_running(d) && t == s)) by {
                    if old(self).depends(d, t) {
                        let j = choose|j: int| 0 <= j < old(self).edges@.len() && old(self).edges@[j].0 as int == d && old(self).edges@[j].1 as int == t;
                        assert(self.edges@[j] == old(self).edges@[j]);
                    }
                    if self.depends(d, t) {
                        let j = choose|j: int| 0 <= j < self.edges@.len() && self.edges@[j].0 as int == d && self.edges@[j].1 as int == t;
                        if j < old(self).edges@.len() {
                            assert(self.edges@[j] == old(self).edges@[j]);
                        }
                    }
                }
            }
        } else {
            assert(self.edges@ == old(self).edges@);
        }
        Ok(v)
    }
}

} // verus!
