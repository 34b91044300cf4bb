use vstd::prelude::*;

use crate::relays::{is_listed, listed};

verus! {

/// What a connection is asked to do.
#[derive(Clone, Copy, Debug, PartialEq, Eq, Structural)]
pub enum JobKind {
    /// Keep a subscription open.
    Subscribe,
    /// Fetch some events and finish.
    Fetch,
    /// Publish an event.
    Publish,
}

/// A unit of work assigned to one connected relay.
#[derive(Clone, Copy, Debug, PartialEq, Eq, Structural)]
pub struct RelayJob {
    pub id: u64,
    pub kind: JobKind,
}

/// Why the orchestrator refused a command.
#[derive(Clone, Copy, Debug, PartialEq, Eq, Structural)]
pub enum CommandError {
    /// Shutdown has begun: only termination reports are taken.
    ShuttingDown,
    /// No agent runs for that relay.
    NotConnected,
    /// An agent already runs for that relay.
    AlreadyConnected,
}

/// The jobs of `jobs` assigned to relay `url`, in order of assignment.
pub open spec fn jobs_for(jobs: Seq<(String, RelayJob)>, url: Seq<char>) -> Seq<RelayJob>
    decreases jobs.len(),
{
    if jobs.len() == 0 {
        Seq::empty()
    } else {
        let rest = jobs_for(jobs.drop_last(), url);
        if jobs.last().0@ == url {
            rest.push(jobs.last().1)
        } else {
            rest
        }
    }
}

/// The assignments of `jobs` not made to relay `url`.
pub open spec fn jobs_without(jobs: Seq<(String, RelayJob)>, url: Seq<char>) -> Seq<(String, RelayJob)>
    decreases jobs.len(),
{
    if jobs.len() == 0 {
        Seq::empty()
    } else {
        let rest = jobs_without(jobs.drop_last(), url);
        if jobs.last().0@ == url {
            rest
        } else {
            rest.push(jobs.last())
        }
    }
}

/// The connected relays, the jobs assigned to them, and whether shutdown has begun.
pub struct Overlord {
    connected: Vec<String>,
    jobs: Vec<(String, RelayJob)>,
    shutting_down: bool,
}

impl Overlord {
    /// URLs of the relays whose agents run, in order of connection.
    pub closed spec fn agents(&self) -> Seq<String> {
        self.connected@
    }

    /// Every assignment, in order.
    pub closed spec fn assignments(&self) -> Seq<(String, RelayJob)> {
        self.jobs@
    }

    pub closed spec fn is_shutting_down(&self) -> bool {
        self.shutting_down
    }

    /// Each relay runs at most one agent, and jobs go to running agents only.
    pub open spec fn wf(&self) -> bool {
        &&& forall|a: int, b: int|
            0 <= a < b < self.agents().len() ==> (#[trigger] self.agents()[a])@ != (#[trigger] self.agents()[b])@
        &&& forall|k: int|
            0 <= k < self.assignments().len() ==> listed(self.agents(), (#[trigger] self.assignments()[k]).0@)
    }

    pub fn new() -> (o: Overlord)
        ensures
            o.wf(),
            o.agents() == Seq::<String>::empty(),
            o.assignments() == Seq::<(String, RelayJob)>::empty(),
            !o.is_shutting_down(),
    {
        Overlord { connected: Vec::new(), jobs: Vec::new(), shutting_down: false }
    }

    /// URLs of the relays whose agents run, in order of connection.
    pub fn agent_urls(&self) -> (r: &Vec<String>)
        ensures
            r@ == self.agents(),
    {
        &self.connected
    }

    pub fn shutting_down(&self) -> (r: bool)
        ensures
            r == self.is_shutting_down(),
    {
        self.shutting_down
    }

    /// Records that an agent runs for `url`.
    pub fn connect(&mut self, url: String) -> (r: Result<(), CommandError>)
        requires
            old(self).wf(),
        ensures
            final(self).wf(),
            final(self).is_shutting_down() == old(self).is_shutting_down(),
            final(self).assignments() == old(self).assignments(),
            r == Err::<(), CommandError>(CommandError::ShuttingDown) <==> old(self).is_shutting_down(),
            r == Err::<(), CommandError>(CommandError::AlreadyConnected) <==> !old(self).is_shutting_down()
                && listed(old(self).agents(), url@),
            r is Ok <==> !old(self).is_shutting_down() && !listed(old(self).agents(), url@),
            r is Ok ==> final(self).agents() == old(self).agents().push(url),
            r is Err ==> final(self).agents() == old(self).agents(),
    {
        if self.shutting_down {
            return Err(CommandError::ShuttingDown);
        }
        if is_listed(&self.connected, &url) {
            return Err(CommandError::AlreadyConnected);
        }
        let ghost u = url@;
        self.connected.push(url);
        assert forall|k: int| 0 <= k < self.assignments().len() implies listed(
            self.agents(),
            (#[trigger] self.assignments()[k]).0@,
        ) by {
            assert(self.assignments()[k] == old(self).assignments()[k]);
            assert(listed(old(self).agents(), old(self).assignments()[k].0@));
            let q = choose|q: int|
                0 <= q < old(self).agents().len() && (#[trigger] old(self).agents()[q])@
                    == old(self).assignments()[k].0@;
            assert(self.agents()[q] == old(self).agents()[q]);
        }
        assert forall|a: int, b: int| 0 <= a < b < self.agents().len() implies (#[trigger] self.agents()[a])@
            != (#[trigger] self.agents()[b])@ by {
            assert(self.agents()[a] == old(self).agents()[a]);
            if b < self.agents().len() - 1 {
                assert(self.agents()[b] == old(self).agents()[b]);
            } else {
                assert(self.agents()[b]@ == u);
            }
        }
        Ok(())
    }

    /// Assigns `job` to the agent of `url`.
    pub fn assign(&mut self, url: &String, job: RelayJob) -> (r: Result<(), CommandError>)
        requires
            old(self).wf(),
        ensures
            final(self).wf(),
            final(self).is_shutting_down() == old(self).is_shutting_down(),
            final(self).agents() == old(self).agents(),
            r == Err::<(), CommandError>(CommandError::ShuttingDown) <==> old(self).is_shutting_down(),
            r == Err::<(), CommandError>(CommandError::NotConnected) <==> !old(self).is_shutting_down()
                && !listed(old(self).agents(), url@),
            r is Ok <==> !old(self).is_shutting_down() && listed(old(self).agents(), url@),
            r is Ok ==> final(self).assignments() == old(self).assignments().push((*url, job)),
            r is Err ==> final(self).assignments() == old(self).assignments(),
    {
        if self.shutting_down {
            return Err(CommandError::ShuttingDown);
        }
        if !is_listed(&self.connected, url) {
            return Err(CommandError::NotConnected);
        }
        self.jobs.push((url.clone(), job));
        assert forall|k: int| 0 <= k < self.assignments().len() implies listed(
            self.agents(),
            (#[trigger] self.assignments()[k]).0@,
        ) by {
            if k < old(self).assignments().len() {
                assert(self.assignments()[k] == old(self).assignments()[k]);
            } else {
                assert(self.assignments()[k].0@ == url@);
            }
        }
        assert(self.agents() == old(self).agents());
        Ok(())
    }

    /// The jobs assigned to the agent of `url`, in order of assignment.
    pub fn jobs_of(&self, url: &String) -> (r: Vec<RelayJob>)
        ensures
            r@ == jobs_for(self.assignments(), url@),
    {
        let mut out: Vec<RelayJob> = Vec::new();
        let mut k: usize = 0;
        while k < self.jobs.len()
            invariant
                k <= self.jobs@.len(),
                out@ == jobs_for(self.jobs@.take(k as int), url@),
            decreases self.jobs@.len() - k,
        {
            assert(self.jobs@.take(k + 1).drop_last() =~= self.jobs@.take(k as int));
            if self.jobs[k].0.eq(url) {
                out.push(self.jobs[k].1);
            }
            k = k + 1;
        }
        assert(self.jobs@.take(self.jobs@.len() as int) =~= self.jobs@);
        out
    }

    /// Begins shutdown, and returns the URLs of the agents that must be told to
    /// terminate: every agent running now.
    pub fn begin_shutdown(&mut self) -> (r: Vec<String>)
        requires
            old(self).wf(),
        ensures
            final(self).wf(),
            final(self).is_shutting_down(),
            final(self).agents() == old(self).agents(),
            final(self).assignments() == old(self).assignments(),
            r@ == old(self).agents(),
    {
        self.shutting_down = true;
        assert(self.agents() == old(self).agents());
        assert(self.assignments() == old(self).assignments());
        self.connected.clone()
    }

    /// Records that the agent of `url` terminated: it no longer runs, and its jobs
    /// are dropped.
    pub fn agent_terminated(&mut self, url: &String)
        requires
            old(self).wf(),
        ensures
            final(self).wf(),
            final(self).is_shutting_down() == old(self).is_shutting_down(),
            !listed(final(self).agents(), url@),
            forall|x: Seq<char>| x != url@ ==> (listed(final(self).agents(), x) <==> listed(old(self).agents(), x)),
            final(self).agents().len() == old(self).agents().len() - (if listed(old(self).agents(), url@) { 1int } else { 0 }),
            final(self).assignments() == jobs_without(old(self).assignments(), url@),
    {
        let mut k: usize = 0;
        while k < self.connected.len()
            invariant
                k <= self.connected@.len(),
                self.connected@ == old(self).connected@,
                forall|q: int| 0 <= q < k ==> (#[trigger] self.connected@[q])@ != url@,
            ensures
                k <= self.connected@.len(),
                self.connected@ == old(self).connected@,
                forall|q: int| 0 <= q < k ==> (#[trigger] self.connected@[q])@ != url@,
                k < self.connected@.len() ==> self.connected@[k as int]@ == url@,
            decreases self.connected@.len() - k,
        {
            if self.connected[k].eq(url) {
                break;
            }
            k = k + 1;
        }
        let ghost before = self.connected@;
        if k < self.connected.len() {
            self.connected.remove(k);
            proof {
                before.remove_ensures(k as int);
                assert forall|x: Seq<char>| listed(self.connected@, x) <==> listed(before, x) && x != url@ by {
                    if listed(before, x) && x != url@ {
                        let q = choose|q: int| 0 <= q < before.len() && (#[trigger] before[q])@ == x;
                        if q < k {
                            assert(self.connected@[q]@ == x);
                        } else {
                            assert(q != k);
                            assert(self.connected@[q - 1]@ == x);
                        }
                    }
                    if listed(self.connected@, x) {
                        let q = choose|q: int| 0 <= q < self.connected@.len() && (#[trigger] self.connected@[q])@ == x;
                        assert(before == old(self).agents());
                        if q < k {
                            assert(before[q]@ == x);
                            assert(before[q]@ != before[k as int]@);
                        } else {
                            assert(before[q + 1]@ == x);
                            assert(before[q + 1]@ != before[k as int]@);
                        }
                    }
                }
            }
        } else {
            assert(!listed(before, url@));
        }
        let mut kept: Vec<(String, RelayJob)> = Vec::new();
        let mut j: usize = 0;
        while j < self.jobs.len()
            invariant
                j <= self.jobs@.len(),
                self.jobs@ == old(self).jobs@,
                kept@ == jobs_without(self.jobs@.take(j as int), url@),
            decreases self.jobs@.len() - j,
        {
            assert(self.jobs@.take(j + 1).drop_last() =~= self.jobs@.take(j as int));
            if !self.jobs[j].0.eq(url) {
                kept.push((self.jobs[j].0.clone(), self.jobs[j].1));
            }
            j = j + 1;
        }
        assert(self.jobs@.take(self.jobs@.len() as int) =~= self.jobs@);
        self.jobs = kept;
        proof {
            lemma_jobs_without(old(self).jobs@, url@);
            assert forall|k: int| 0 <= k < self.assignments().len() implies listed(
                self.agents(),
                (#[trigger] self.assignments()[k]).0@,
            ) by {
                let j = choose|j: int| 0 <= j < old(self).jobs@.len() && old(self).jobs@[j] == self.jobs@[k];
                assert(old(self).assignments()[j] == self.jobs@[k]);
            }
            assert forall|a: int, b: int| 0 <= a < b < self.agents().len() implies (#[trigger] self.agents()[a])@
                != (#[trigger] self.agents()[b])@ by {
                if k < before.len() {
                    if a >= k {
                        assert(self.agents()[a] == before[a + 1]);
                    } else {
                        assert(self.agents()[a] == before[a]);
                    }
                    if b >= k {
                        assert(self.agents()[b] == before[b + 1]);
                    } else {
                        assert(self.agents()[b] == before[b]);
                    }
                }
            }
        }
    }

    /// Shutdown has begun and every agent has reported termination.
    pub fn shutdown_complete(&self) -> (r: bool)
        ensures
            r == (self.is_shutting_down() && self.agents().len() == 0),
    {
        self.shutting_down && self.connected.len() == 0
    }
}

/// What `jobs_without` keeps is kept from `jobs`, and not for `url`.
proof fn lemma_jobs_without(jobs: Seq<(String, RelayJob)>, url: Seq<char>)
    ensures
        forall|k: int|
            0 <= k < jobs_without(jobs, url).len() ==> (#[trigger] jobs_without(jobs, url)[k]).0@ != url
                && jobs.contains(jobs_without(jobs, url)[k]),
    decreases jobs.len(),
{
    if jobs.len() > 0 {
        lemma_jobs_without(jobs.drop_last(), url);
        let rest = jobs_without(jobs.drop_last(), url);
        assert forall|k: int| 0 <= k < jobs_without(jobs, url).len() implies (#[trigger] jobs_without(jobs, url)[k]).0@ != url
            && jobs.contains(jobs_without(jobs, url)[k]) by {
            if k < rest.len() {
                let x = choose|x: int| 0 <= x < jobs.drop_last().len() && jobs.drop_last()[x] == rest[k];
                assert(jobs[x] == rest[k]);
            } else {
                assert(jobs[jobs.len() - 1] == jobs_without(jobs, url)[k]);
            }
        }
    }
}

} // verus!
