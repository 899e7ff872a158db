use vstd::prelude::*;
use crate::queue::views;

verus! {

/// What a poll found out about one live process.
#[derive(Clone, Copy, Debug, PartialEq, Eq, Structural)]
pub enum Status {
    /// Still running.
    Running,
    /// Exited (or its state could not be read), with its exit code if it has one.
    Exited(Option<i32>),
}

/// The completion of one command: its place in the queue and its exit code,
/// or `None` where the process ended without one (killed by a signal).
#[derive(Clone, Copy, Debug, PartialEq, Eq, Structural)]
pub struct ExitRecord {
    pub index: usize,
    pub code: Option<i32>,
}

/// The next thing the driver of a pool has to do.
#[derive(Clone, Copy, Debug, PartialEq, Eq, Structural)]
pub enum Action {
    /// Start the command at this index of the queue, then call `start_next`.
    Spawn(usize),
    /// Check every live process without blocking, then call `reclaim`.
    Poll,
    /// As `Poll`, after a short pause: the last poll found nothing finished.
    PauseThenPoll,
    /// Every command has been started and reclaimed.
    Done,
}

/// The abstract state of a pool.
pub struct PoolView {
    pub commands: Seq<Seq<char>>,
    pub limit: nat,
    pub next: nat,
    pub live: Seq<usize>,
    pub records: Seq<ExitRecord>,
    pub stalled: bool,
}

/// The queue indices of a sequence of exit records.
pub open spec fn indices(records: Seq<ExitRecord>) -> Seq<usize> {
    records.map_values(|r: ExitRecord| r.index)
}

/// The live processes that a poll found still running, in their order.
pub open spec fn kept(live: Seq<usize>, st: Seq<Status>) -> Seq<usize>
    decreases live.len(),
{
    if live.len() == 0 {
        Seq::empty()
    } else {
        let k = kept(live.drop_last(), st);
        if st[live.len() - 1] is Running {
            k.push(live.last())
        } else {
            k
        }
    }
}

/// The exit records of the live processes that a poll found finished, in
/// their order.
pub open spec fn finished(live: Seq<usize>, st: Seq<Status>) -> Seq<ExitRecord>
    decreases live.len(),
{
    if live.len() == 0 {
        Seq::empty()
    } else {
        let f = finished(live.drop_last(), st);
        match st[live.len() - 1] {
            Status::Running => f,
            Status::Exited(code) => f.push(ExitRecord { index: live.last(), code }),
        }
    }
}

/// The failures among exit records: those with a non-zero exit code, as
/// (queue index, code), in the order of the records.
pub open spec fn failures_of(records: Seq<ExitRecord>) -> Seq<(usize, i32)>
    decreases records.len(),
{
    if records.len() == 0 {
        Seq::empty()
    } else {
        let f = failures_of(records.drop_last());
        match records.last().code {
            Some(c) => if c != 0 {
                f.push((records.last().index, c))
            } else {
                f
            },
            None => f,
        }
    }
}

/// The decision a pool takes in a state. A command is started while the
/// queue has one and at most `limit` processes are live, so that up to
/// `limit + 1` run at once and an empty pool always starts one.
pub open spec fn action_of(v: PoolView) -> Action {
    if v.next < v.commands.len() && v.live.len() <= v.limit {
        Action::Spawn(v.next as usize)
    } else if v.live.len() > 0 {
        if v.stalled {
            Action::PauseThenPoll
        } else {
            Action::Poll
        }
    } else {
        Action::Done
    }
}

/// A measure of what is left of a run: each start and each poll that finds
/// a finished process lowers it, and it is zero exactly when the run is done.
pub open spec fn work_left(v: PoolView) -> int {
    2 * (v.commands.len() - v.next) + v.live.len()
}

impl PoolView {
    /// Every command started so far is either live or has exactly one
    /// exit record, and at most `limit + 1` are live.
    pub open spec fn wf(self) -> bool {
        let idx = indices(self.records);
        &&& self.next <= self.commands.len()
        &&& self.live.len() <= self.limit + 1
        &&& self.live.len() + self.records.len() == self.next
        &&& self.live.no_duplicates()
        &&& idx.no_duplicates()
        &&& forall|i: int| 0 <= i < self.live.len() ==> self.live[i] < self.next
        &&& forall|i: int| 0 <= i < idx.len() ==> idx[i] < self.next
        &&& forall|x: usize| self.live.contains(x) ==> !idx.contains(x)
        &&& forall|k: usize| k < self.next ==> self.live.contains(k) || idx.contains(k)
    }
}

/// How a poll splits the live processes: each is either kept or finished,
/// nothing else enters either part, and the two parts share nothing.
proof fn lemma_split(live: Seq<usize>, st: Seq<Status>)
    requires
        live.len() <= st.len(),
    ensures
        kept(live, st).len() + finished(live, st).len() == live.len(),
        forall|x: usize| kept(live, st).contains(x) ==> live.contains(x),
        forall|x: usize| indices(finished(live, st)).contains(x) ==> live.contains(x),
        forall|p: int|
            0 <= p < live.len() ==> (if st[p] is Running {
                kept(live, st).contains(live[p])
            } else {
                indices(finished(live, st)).contains(live[p])
            }),
        live.no_duplicates() ==> kept(live, st).no_duplicates(),
        live.no_duplicates() ==> indices(finished(live, st)).no_duplicates(),
        live.no_duplicates() ==> forall|x: usize|
            kept(live, st).contains(x) ==> !indices(finished(live, st)).contains(x),
    decreases live.len(),
{
    if live.len() > 0 {
        let pre = live.drop_last();
        let n = live.len() - 1;
        lemma_split(pre, st);
        let k0 = kept(pre, st);
        let f0 = finished(pre, st);
        let k = kept(live, st);
        let f = finished(live, st);
        assert(live =~= pre.push(live.last()));
        assert forall|x: usize| pre.contains(x) implies live.contains(x) by {
            let i = choose|i: int| 0 <= i < pre.len() && pre[i] == x;
            assert(live[i] == x);
        }
        if st[n] is Running {
            assert(indices(f) =~= indices(f0));
            assert(k.last() == live[n]);
        } else {
            assert(indices(f) =~= indices(f0).push(live.last()));
            assert(indices(f).last() == live[n]);
        }
        assert forall|x: usize| k0.contains(x) implies k.contains(x) by {
            let j = choose|j: int| 0 <= j < k0.len() && k0[j] == x;
            assert(k[j] == x);
        }
        assert forall|x: usize| indices(f0).contains(x) implies indices(f).contains(x) by {
            let j = choose|j: int| 0 <= j < indices(f0).len() && indices(f0)[j] == x;
            assert(indices(f)[j] == x);
        }
        assert forall|p: int| 0 <= p < live.len() implies (if st[p] is Running {
            k.contains(live[p])
        } else {
            indices(f).contains(live[p])
        }) by {
            if p < n {
                assert(live[p] == pre[p]);
            }
        }
        if live.no_duplicates() {
            assert(pre.no_duplicates());
            assert(!pre.contains(live[n]));
            assert forall|x: usize| k.contains(x) implies !indices(f).contains(x) by {
                if k0.contains(x) {
                    assert(x != live[n]);
                    if indices(f).contains(x) {
                        let j = choose|j: int| 0 <= j < indices(f).len() && indices(f)[j] == x;
                        assert(indices(f0).contains(x)) by {
                            assert(indices(f0)[j] == x);
                        }
                    }
                } else {
                    assert(x == live[n]) by {
                        let j = choose|j: int| 0 <= j < k.len() && k[j] == x;
                        assert(j == k.len() - 1);
                    }
                    assert(!indices(f0).contains(x));
                }
            }
        }
    }
}

/// A run ends exactly when every command of the queue has been started and
/// none is live; then every command has been reclaimed exactly once, so
/// there are as many exit records as commands.
pub proof fn lemma_every_command_reported(v: PoolView)
    requires
        v.wf(),
    ensures
        action_of(v) == Action::Done <==> (v.next == v.commands.len() && v.live.len() == 0),
        action_of(v) == Action::Done <==> work_left(v) == 0,
        action_of(v) == Action::Done ==> {
            &&& v.records.len() == v.commands.len()
            &&& indices(v.records).no_duplicates()
            &&& forall|k: usize| k < v.commands.len() ==> indices(v.records).contains(k)
        },
{
    if action_of(v) == Action::Done {
        assert forall|k: usize| k < v.commands.len() implies indices(v.records).contains(k) by {
            if v.live.contains(k) {
                let j = choose|j: int| 0 <= j < v.live.len() && v.live[j] == k;
            }
        }
    }
}

/// At any decision to start a command at most `limit` processes are live,
/// and at no time are more than `limit + 1` live.
pub proof fn lemma_live_bound(v: PoolView)
    requires
        v.wf(),
    ensures
        v.live.len() <= v.limit + 1,
        action_of(v) is Spawn ==> v.live.len() <= v.limit,
{
}

/// A pool with nothing live starts the next command whatever its limit,
/// even a limit of zero: it cannot stall while commands wait.
pub proof fn lemma_empty_pool_starts(v: PoolView)
    requires
        v.wf(),
        v.live.len() == 0,
        v.next < v.commands.len(),
    ensures
        action_of(v) == Action::Spawn(v.next as usize),
{
}

/// A bounded pool of processes running the commands of a queue in order.
pub struct Pool {
    commands: Vec<String>,
    limit: usize,
    next: usize,
    live: Vec<usize>,
    records: Vec<ExitRecord>,
    stalled: bool,
}

impl View for Pool {
    type V = PoolView;

    closed spec fn view(&self) -> PoolView {
        PoolView {
            commands: views(self.commands@),
            limit: self.limit as nat,
            next: self.next as nat,
            live: self.live@,
            records: self.records@,
            stalled: self.stalled,
        }
    }
}

impl Pool {
    pub open spec fn wf(&self) -> bool {
        self@.wf()
    }

    /// A pool over the given queue that keeps at most `limit + 1` processes
    /// live; nothing is started yet.
    pub fn new(commands: Vec<String>, limit: usize) -> (r: Pool)
        ensures
            r.wf(),
            r@ == (PoolView {
                commands: views(commands@),
                limit: limit as nat,
                next: 0,
                live: Seq::empty(),
                records: Seq::empty(),
                stalled: false,
            }),
    {
        let r = Pool {
            commands,
            limit,
            next: 0,
            live: Vec::new(),
            records: Vec::new(),
            stalled: false,
        };
        assert(indices(r.records@) =~= Seq::<usize>::empty());
        r
    }

    /// The number of commands in the queue.
    pub fn total(&self) -> (r: usize)
        ensures
            r == self@.commands.len(),
    {
        proof {
            self.lemma_len();
        }
        self.commands.len()
    }

    proof fn lemma_len(&self)
        ensures
            self.commands.len() == self@.commands.len(),
    {
    }

    /// The command at a place of the queue.
    pub fn command(&self, i: usize) -> (r: &String)
        requires
            i < self@.commands.len(),
        ensures
            r@ == self@.commands[i as int],
    {
        proof {
            self.lemma_len();
        }
        &self.commands[i]
    }

    /// The queue indices of the live processes, oldest first.
    pub fn live(&self) -> (r: &Vec<usize>)
        ensures
            r@ == self@.live,
    {
        &self.live
    }

    /// The exit records so far, in the order in which they were detected.
    pub fn records(&self) -> (r: &Vec<ExitRecord>)
        ensures
            r@ == self@.records,
    {
        &self.records
    }

    /// What the driver has to do next.
    pub fn next_action(&self) -> (r: Action)
        ensures
            r == action_of(self@),
    {
        proof {
            self.lemma_len();
        }
        if self.next < self.commands.len() && self.live.len() <= self.limit {
            Action::Spawn(self.next)
        } else if self.live.len() > 0 {
            if self.stalled {
                Action::PauseThenPoll
            } else {
                Action::Poll
            }
        } else {
            Action::Done
        }
    }

    /// Marks the next command of the queue as started; returns its index.
    pub fn start_next(&mut self) -> (i: usize)
        requires
            old(self).wf(),
            action_of(old(self)@) is Spawn,
        ensures
            final(self).wf(),
            i == old(self)@.next,
            action_of(old(self)@) == Action::Spawn(i),
            final(self)@ == (PoolView {
                live: old(self)@.live.push(i),
                next: old(self)@.next + 1,
                stalled: false,
                ..old(self)@
            }),
            final(self)@.live.len() <= final(self)@.limit + 1,
            work_left(final(self)@) < work_left(old(self)@),
    {
        proof {
            self.lemma_len();
        }
        let i = self.next;
        let ghost pre = self@;
        self.live.push(i);
        self.next = i + 1;
        self.stalled = false;
        proof {
            let v = self@;
            let idx = indices(v.records);
            assert(v.live =~= pre.live.push(i));
            assert forall|x: usize| v.live.contains(x) implies !idx.contains(x) by {
                if x != i {
                    let j = choose|j: int| 0 <= j < v.live.len() && v.live[j] == x;
                    assert(pre.live[j] == x);
                } else if idx.contains(x) {
                    let j = choose|j: int| 0 <= j < idx.len() && idx[j] == x;
                    assert(idx[j] < pre.next);
                }
            }
            assert forall|k: usize| k < v.next implies v.live.contains(k) || idx.contains(k) by {
                if k == i {
                    assert(v.live[v.live.len() - 1] == k);
                } else if pre.live.contains(k) {
                    let j = choose|j: int| 0 <= j < pre.live.len() && pre.live[j] == k;
                    assert(v.live[j] == k);
                }
            }
        }
        i
    }

    /// Takes the result of one poll, a status for each live process in the
    /// order of `live`: the finished ones leave the live set and get their
    /// exit records, which are also returned.
    pub fn reclaim(&mut self, statuses: &Vec<Status>) -> (reaped: Vec<ExitRecord>)
        requires
            old(self).wf(),
            statuses@.len() == old(self)@.live.len(),
        ensures
            final(self).wf(),
            reaped@ == finished(old(self)@.live, statuses@),
            final(self)@ == (PoolView {
                live: kept(old(self)@.live, statuses@),
                records: old(self)@.records + reaped@,
                stalled: reaped@.len() == 0,
                ..old(self)@
            }),
            reaped@.len() > 0 ==> work_left(final(self)@) < work_left(old(self)@),
    {
        proof {
            self.lemma_len();
        }
        let ghost pre = self@;
        let ghost live0 = self.live@;
        let mut still: Vec<usize> = Vec::new();
        let mut reaped: Vec<ExitRecord> = Vec::new();
        let mut i: usize = 0;
        while i < self.live.len()
            invariant
                i <= self.live.len(),
                self.live@ == live0,
                statuses@.len() == live0.len(),
                still@ == kept(live0.take(i as int), statuses@),
                reaped@ == finished(live0.take(i as int), statuses@),
            decreases self.live.len() - i,
        {
            let x = self.live[i];
            assert(live0.take(i + 1).drop_last() =~= live0.take(i as int));
            match statuses[i] {
                Status::Running => still.push(x),
                Status::Exited(code) => reaped.push(ExitRecord { index: x, code }),
            }
            i = i + 1;
        }
        assert(live0.take(i as int) =~= live0);
        self.live = still;
        let mut added = reaped.clone();
        self.records.append(&mut added);
        self.stalled = reaped.len() == 0;
        proof {
            let v = self@;
            let st = statuses@;
            lemma_split(live0, st);
            assert(reaped@ == finished(live0, st));
            assert(v.live == kept(live0, st));
            let fin = indices(reaped@);
            let old_idx = indices(pre.records);
            let idx = indices(v.records);
            assert(v.records =~= pre.records + reaped@);
            assert(idx =~= old_idx + fin);
            assert forall|a: int, b: int|
                0 <= a < b < idx.len() implies idx[a] != idx[b] by {
                if b < old_idx.len() {
                } else if a >= old_idx.len() {
                    assert(fin[a - old_idx.len()] == idx[a]);
                    assert(fin[b - old_idx.len()] == idx[b]);
                } else {
                    assert(fin.contains(idx[b])) by {
                        assert(fin[b - old_idx.len()] == idx[b]);
                    }
                    assert(old_idx.contains(idx[a])) by {
                        assert(old_idx[a] == idx[a]);
                    }
                }
            }
            assert forall|j: int| 0 <= j < idx.len() implies idx[j] < v.next by {
                if j >= old_idx.len() {
                    assert(fin.contains(idx[j])) by {
                        assert(fin[j - old_idx.len()] == idx[j]);
                    }
                    assert(live0.contains(idx[j]));
                    let q = choose|q: int| 0 <= q < live0.len() && live0[q] == idx[j];
                } else {
                    assert(old_idx[j] == idx[j]);
                }
            }
            assert forall|j: int| 0 <= j < v.live.len() implies v.live[j] < v.next by {
                assert(v.live.contains(v.live[j]));
                assert(live0.contains(v.live[j]));
                let q = choose|q: int| 0 <= q < live0.len() && live0[q] == v.live[j];
            }
            assert forall|x: usize| v.live.contains(x) implies !idx.contains(x) by {
                assert(live0.contains(x));
                if idx.contains(x) {
                    let j = choose|j: int| 0 <= j < idx.len() && idx[j] == x;
                    if j < old_idx.len() {
                        assert(old_idx[j] == x);
                        assert(old_idx.contains(x));
                        assert(pre.live.contains(x));
                    } else {
                        assert(fin[j - old_idx.len()] == x);
                        assert(fin.contains(x));
                        assert(kept(live0, st).contains(x));
                    }
                }
            }
            assert forall|k: usize| k < v.next implies v.live.contains(k) || idx.contains(k) by {
                if live0.contains(k) {
                    let q = choose|q: int| 0 <= q < live0.len() && live0[q] == k;
                    if !(st[q] is Running) {
                        let j = choose|j: int| 0 <= j < fin.len() && fin[j] == k;
                        assert(idx[old_idx.len() + j] == k);
                    }
                } else {
                    assert(k < pre.next);
                    assert(pre.live.contains(k) || old_idx.contains(k));
                    let j = choose|j: int| 0 <= j < old_idx.len() && old_idx[j] == k;
                    assert(idx[j] == k);
                }
            }
        }
        reaped
    }

    /// The failures so far: every exit record with a non-zero exit code, as
    /// (queue index, code), in the order of detection.
    pub fn failures(&self) -> (r: Vec<(usize, i32)>)
        ensures
            r@ == failures_of(self@.records),
    {
        let mut r: Vec<(usize, i32)> = Vec::new();
        let mut i: usize = 0;
        while i < self.records.len()
            invariant
                i <= self.records.len(),
                r@ == failures_of(self.records@.take(i as int)),
            decreases self.records.len() - i,
        {
            let rec = self.records[i];
            assert(self.records@.take(i + 1).drop_last() =~= self.records@.take(i as int));
            match rec.code {
                Some(c) => {
                    if c != 0 {
                        r.push((rec.index, c));
                    }
                },
                None => {},
            }
            i = i + 1;
        }
        assert(self.records@.take(i as int) =~= self.records@);
        r
    }
}

} // verus!
