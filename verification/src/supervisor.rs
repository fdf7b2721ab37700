//! The process supervisor: which process ids have a monitoring task running,
//! and the handle ticket the surrounding daemon uses to cancel and join that
//! task.
//!
//! The daemon keeps the actual cancellation senders and join handles itself,
//! filed under an opaque ticket number; this registry holds the decision
//! logic: registering overwrites by process id, and a detach finds and
//! removes the entry, or reports that the process was never attached.

use vstd::prelude::*;

verus! {

/// One attached process: its id and the ticket under which the daemon filed
/// the running task's cancellation and join handles.
#[derive(Clone, Copy, PartialEq, Eq, Structural, Debug)]
pub struct AttachedProcess {
    pub pid: u32,
    pub task_id: u64,
}

/// Well-formedness: strictly increasing by process id, so ids are unique.
pub open spec fn sup_wf(s: Seq<AttachedProcess>) -> bool {
    forall|i: int, j: int| 0 <= i < j < s.len() ==> #[trigger] s[i].pid < #[trigger] s[j].pid
}

/// The ticket recorded for a process id, if any.
pub open spec fn lookup_pid(s: Seq<AttachedProcess>, pid: u32) -> Option<u64>
    decreases s.len(),
{
    if s.len() == 0 {
        None
    } else if s[0].pid == pid {
        Some(s[0].task_id)
    } else {
        lookup_pid(s.drop_first(), pid)
    }
}

/// Registration: insert at the sorted position, or overwrite the entry that
/// already carries this process id.
pub open spec fn register_seq(s: Seq<AttachedProcess>, pid: u32, task_id: u64) -> Seq<
    AttachedProcess,
>
    decreases s.len(),
{
    let e = AttachedProcess { pid, task_id };
    if s.len() == 0 {
        seq![e]
    } else if pid < s[0].pid {
        seq![e] + s
    } else if pid == s[0].pid {
        seq![e] + s.drop_first()
    } else {
        seq![s[0]] + register_seq(s.drop_first(), pid, task_id)
    }
}

/// Removal of the entry carrying this process id, if any.
pub open spec fn remove_pid_seq(s: Seq<AttachedProcess>, pid: u32) -> Seq<AttachedProcess>
    decreases s.len(),
{
    if s.len() == 0 {
        s
    } else if s[0].pid == pid {
        s.drop_first()
    } else {
        seq![s[0]] + remove_pid_seq(s.drop_first(), pid)
    }
}

proof fn lemma_sup_wf_drop_first(s: Seq<AttachedProcess>)
    requires
        sup_wf(s),
        s.len() > 0,
    ensures
        sup_wf(s.drop_first()),
{
    assert forall|i: int, j: int| 0 <= i < j < s.drop_first().len() implies
        #[trigger] s.drop_first()[i].pid < #[trigger] s.drop_first()[j].pid by {
        assert(s.drop_first()[i] == s[i + 1]);
        assert(s.drop_first()[j] == s[j + 1]);
    }
}

/// A detach for a process id that is not attached changes nothing.
pub proof fn lemma_remove_absent(s: Seq<AttachedProcess>, pid: u32)
    requires
        lookup_pid(s, pid) is None,
    ensures
        remove_pid_seq(s, pid) == s,
    decreases s.len(),
{
    if s.len() > 0 {
        lemma_remove_absent(s.drop_first(), pid);
        assert(remove_pid_seq(s, pid) =~= s);
    }
}

/// What each process id maps to after a registration: the registered id
/// carries the new ticket, every other id is untouched.
pub proof fn lemma_lookup_after_register(s: Seq<AttachedProcess>, pid: u32, task_id: u64, p: u32)
    requires
        sup_wf(s),
    ensures
        lookup_pid(register_seq(s, pid, task_id), p) == if p == pid {
            Some(task_id)
        } else {
            lookup_pid(s, p)
        },
    decreases s.len(),
{
    let e = AttachedProcess { pid, task_id };
    let r = register_seq(s, pid, task_id);
    if s.len() == 0 {
        assert(r == seq![e]);
        if p != pid {
            assert(r.drop_first() =~= Seq::<AttachedProcess>::empty());
            assert(lookup_pid(r.drop_first(), p) is None);
            assert(lookup_pid(r, p) is None);
        }
    } else if pid < s[0].pid {
        assert(r == seq![e] + s);
        assert(r[0] == e);
        assert(r.drop_first() =~= s);
        if p == pid {
            assert(lookup_pid(r, p) == Some(task_id));
        } else {
            assert(lookup_pid(r, p) == lookup_pid(s, p));
        }
    } else if pid == s[0].pid {
        assert(r == seq![e] + s.drop_first());
        assert(r[0] == e);
        assert(r.drop_first() =~= s.drop_first());
        if p == pid {
            assert(lookup_pid(r, p) == Some(task_id));
        } else {
            assert(lookup_pid(r, p) == lookup_pid(s.drop_first(), p));
            assert(lookup_pid(s, p) == lookup_pid(s.drop_first(), p));
        }
    } else {
        lemma_sup_wf_drop_first(s);
        lemma_lookup_after_register(s.drop_first(), pid, task_id, p);
        assert(r == seq![s[0]] + register_seq(s.drop_first(), pid, task_id));
        assert(r[0] == s[0]);
        assert(r.drop_first() =~= register_seq(s.drop_first(), pid, task_id));
        if p == s[0].pid {
            assert(lookup_pid(r, p) == Some(s[0].task_id));
            assert(lookup_pid(s, p) == Some(s[0].task_id));
        } else {
            assert(lookup_pid(r, p) == lookup_pid(register_seq(s.drop_first(), pid, task_id), p));
            assert(lookup_pid(s, p) == lookup_pid(s.drop_first(), p));
        }
    }
}

/// What each process id maps to after a removal: the removed id is gone,
/// every other id is untouched.
pub proof fn lemma_lookup_after_remove(s: Seq<AttachedProcess>, pid: u32, p: u32)
    requires
        sup_wf(s),
    ensures
        lookup_pid(remove_pid_seq(s, pid), p) == if p == pid {
            None::<u64>
        } else {
            lookup_pid(s, p)
        },
    decreases s.len(),
{
    let r = remove_pid_seq(s, pid);
    if s.len() == 0 {
    } else if s[0].pid == pid {
        assert(r == s.drop_first());
        if p == pid {
            assert forall|j: int| 0 <= j < r.len() implies #[trigger] r[j].pid != pid by {
                assert(r[j] == s[j + 1]);
                assert(s[0].pid < s[j + 1].pid);
            }
            lemma_lookup_absent_pid(r, pid);
        } else {
            assert(lookup_pid(s, p) == lookup_pid(s.drop_first(), p));
        }
    } else {
        lemma_sup_wf_drop_first(s);
        lemma_lookup_after_remove(s.drop_first(), pid, p);
        assert(r == seq![s[0]] + remove_pid_seq(s.drop_first(), pid));
        assert(r[0] == s[0]);
        assert(r.drop_first() =~= remove_pid_seq(s.drop_first(), pid));
        if p == s[0].pid {
            assert(lookup_pid(r, p) == Some(s[0].task_id));
            assert(lookup_pid(s, p) == Some(s[0].task_id));
        } else {
            assert(lookup_pid(r, p) == lookup_pid(remove_pid_seq(s.drop_first(), pid), p));
            assert(lookup_pid(s, p) == lookup_pid(s.drop_first(), p));
        }
    }
}

proof fn lemma_lookup_absent_pid(s: Seq<AttachedProcess>, pid: u32)
    requires
        forall|j: int| 0 <= j < s.len() ==> #[trigger] s[j].pid != pid,
    ensures
        lookup_pid(s, pid) is None,
    decreases s.len(),
{
    if s.len() > 0 {
        assert forall|j: int| 0 <= j < s.drop_first().len() implies #[trigger] s.drop_first()[j].pid
            != pid by {
            assert(s.drop_first()[j] == s[j + 1]);
        }
        lemma_lookup_absent_pid(s.drop_first(), pid);
    }
}

proof fn lemma_lookup_at_pid_index(s: Seq<AttachedProcess>, i: int)
    requires
        sup_wf(s),
        0 <= i < s.len(),
    ensures
        lookup_pid(s, s[i].pid) == Some(s[i].task_id),
    decreases i,
{
    if i == 0 {
    } else {
        assert(s[0].pid < s[i].pid);
        lemma_sup_wf_drop_first(s);
        assert(s.drop_first()[i - 1] == s[i]);
        lemma_lookup_at_pid_index(s.drop_first(), i - 1);
    }
}

proof fn lemma_register_at_point(s: Seq<AttachedProcess>, pid: u32, task_id: u64, i: int)
    requires
        sup_wf(s),
        0 <= i <= s.len(),
        forall|j: int| 0 <= j < i ==> #[trigger] s[j].pid < pid,
        forall|j: int| i <= j < s.len() ==> pid < #[trigger] s[j].pid,
    ensures
        register_seq(s, pid, task_id) == s.insert(i, AttachedProcess { pid, task_id }),
    decreases i,
{
    let e = AttachedProcess { pid, task_id };
    if i == 0 {
        if s.len() == 0 {
            assert(register_seq(s, pid, task_id) =~= s.insert(0, e));
        } else {
            assert(pid < s[0].pid);
            assert(seq![e] + s =~= s.insert(0, e));
        }
    } else {
        assert(s[0].pid < pid);
        lemma_sup_wf_drop_first(s);
        lemma_register_at_point(s.drop_first(), pid, task_id, i - 1);
        assert(seq![s[0]] + s.drop_first().insert(i - 1, e) =~= s.insert(i, e));
    }
}

proof fn lemma_register_at_found(s: Seq<AttachedProcess>, pid: u32, task_id: u64, i: int)
    requires
        sup_wf(s),
        0 <= i < s.len(),
        s[i].pid == pid,
    ensures
        register_seq(s, pid, task_id) == s.update(i, AttachedProcess { pid, task_id }),
    decreases i,
{
    let e = AttachedProcess { pid, task_id };
    if i == 0 {
        assert(seq![e] + s.drop_first() =~= s.update(0, e));
    } else {
        assert(s[0].pid < s[i].pid);
        lemma_sup_wf_drop_first(s);
        assert(s.drop_first()[i - 1] == s[i]);
        lemma_register_at_found(s.drop_first(), pid, task_id, i - 1);
        assert(seq![s[0]] + s.drop_first().update(i - 1, e) =~= s.update(i, e));
    }
}

proof fn lemma_remove_at_found(s: Seq<AttachedProcess>, pid: u32, i: int)
    requires
        sup_wf(s),
        0 <= i < s.len(),
        s[i].pid == pid,
    ensures
        remove_pid_seq(s, pid) == s.remove(i),
    decreases i,
{
    if i == 0 {
        assert(s.drop_first() =~= s.remove(0));
    } else {
        assert(s[0].pid < s[i].pid);
        lemma_sup_wf_drop_first(s);
        assert(s.drop_first()[i - 1] == s[i]);
        lemma_remove_at_found(s.drop_first(), pid, i - 1);
        assert(seq![s[0]] + s.drop_first().remove(i - 1) =~= s.remove(i));
    }
}

proof fn lemma_register_wf(s: Seq<AttachedProcess>, pid: u32, task_id: u64, i: int)
    requires
        sup_wf(s),
        0 <= i <= s.len(),
        forall|j: int| 0 <= j < i ==> #[trigger] s[j].pid < pid,
        forall|j: int| i <= j < s.len() ==> pid < #[trigger] s[j].pid,
    ensures
        sup_wf(s.insert(i, AttachedProcess { pid, task_id })),
{
    let r = s.insert(i, AttachedProcess { pid, task_id });
    assert forall|a: int, b: int| 0 <= a < b < r.len() implies #[trigger] r[a].pid
        < #[trigger] r[b].pid by {
        if a < i {
            assert(r[a] == s[a]);
        } else if a > i {
            assert(r[a] == s[a - 1]);
        }
        if b < i {
            assert(r[b] == s[b]);
        } else if b > i {
            assert(r[b] == s[b - 1]);
        }
    }
}

/// The supervisor: one running monitoring task per attached process id.
pub struct ProcessSupervisor {
    procs: Vec<AttachedProcess>,
}

impl View for ProcessSupervisor {
    type V = Seq<AttachedProcess>;

    closed spec fn view(&self) -> Seq<AttachedProcess> {
        self.procs@
    }
}

impl ProcessSupervisor {
    pub fn new() -> (r: ProcessSupervisor)
        ensures
            r@ == Seq::<AttachedProcess>::empty(),
            sup_wf(r@),
    {
        ProcessSupervisor { procs: Vec::new() }
    }

    pub fn len(&self) -> (r: usize)
        ensures
            r == self@.len(),
    {
        self.procs.len()
    }

    pub fn process_at(&self, i: usize) -> (r: AttachedProcess)
        requires
            i < self@.len(),
        ensures
            r == self@[i as int],
    {
        self.procs[i]
    }

    /// The position of the first entry whose process id is not below `pid`.
    fn scan(&self, pid: u32) -> (r: usize)
        requires
            sup_wf(self@),
        ensures
            r <= self@.len(),
            forall|j: int| 0 <= j < r ==> #[trigger] self@[j].pid < pid,
            forall|j: int| r <= j < self@.len() ==> #[trigger] self@[j].pid >= pid,
    {
        let n = self.procs.len();
        let mut i: usize = 0;
        while i < n && self.procs[i].pid < pid
            invariant
                i <= n == self@.len(),
                sup_wf(self@),
                forall|j: int| 0 <= j < i ==> #[trigger] self@[j].pid < pid,
            decreases n - i,
        {
            i = i + 1;
        }
        proof {
            assert forall|j: int| i <= j < self@.len() implies #[trigger] self@[j].pid >= pid by {
                if j > i {
                    assert(self@[i as int].pid < self@[j].pid);
                }
            }
        }
        i
    }

    /// The ticket filed for a process id, if it is attached.
    pub fn find(&self, pid: u32) -> (r: Option<u64>)
        requires
            sup_wf(self@),
        ensures
            r == lookup_pid(self@, pid),
    {
        let i = self.scan(pid);
        if i < self.procs.len() && self.procs[i].pid == pid {
            proof {
                lemma_lookup_at_pid_index(self@, i as int);
            }
            Some(self.procs[i].task_id)
        } else {
            proof {
                assert forall|j: int| 0 <= j < self@.len() implies #[trigger] self@[j].pid != pid by {
                    if j >= i {
                        if i < self@.len() {
                            if j > i {
                                assert(self@[i as int].pid < self@[j].pid);
                            }
                        }
                    }
                }
                lemma_lookup_absent_pid(self@, pid);
            }
            None
        }
    }

    /// Record the running task for a process id: a second registration for
    /// the same id replaces the filed ticket without stopping anything.
    pub fn register(&mut self, pid: u32, task_id: u64)
        requires
            sup_wf(old(self)@),
        ensures
            final(self)@ == register_seq(old(self)@, pid, task_id),
            sup_wf(final(self)@),
            lookup_pid(final(self)@, pid) == Some(task_id),
    {
        proof {
            lemma_lookup_after_register(self@, pid, task_id, pid);
        }
        let e = AttachedProcess { pid, task_id };
        let i = self.scan(pid);
        if i < self.procs.len() && self.procs[i].pid == pid {
            proof {
                lemma_register_at_found(self@, pid, task_id, i as int);
                let r = self@.update(i as int, e);
                assert forall|a: int, b: int| 0 <= a < b < r.len() implies #[trigger] r[a].pid
                    < #[trigger] r[b].pid by {
                    assert(self@[a].pid < self@[b].pid);
                }
            }
            self.procs[i] = e;
        } else {
            proof {
                assert forall|j: int| i <= j < self@.len() implies pid < #[trigger] self@[j].pid by {
                    if j > i {
                        assert(self@[i as int].pid < self@[j].pid);
                    }
                }
                lemma_register_at_point(self@, pid, task_id, i as int);
                lemma_register_wf(self@, pid, task_id, i as int);
            }
            self.procs.insert(i, e);
        }
    }

    /// Detach decision: when the process id is attached, remove its entry
    /// and hand back the filed ticket so the daemon can cancel and join the
    /// task; when it is not, report so and change nothing.
    pub fn remove(&mut self, pid: u32) -> (r: Option<u64>)
        requires
            sup_wf(old(self)@),
        ensures
            r == lookup_pid(old(self)@, pid),
            final(self)@ == remove_pid_seq(old(self)@, pid),
            sup_wf(final(self)@),
            r is None ==> final(self)@ == old(self)@,
    {
        let i = self.scan(pid);
        if i < self.procs.len() && self.procs[i].pid == pid {
            proof {
                lemma_lookup_at_pid_index(self@, i as int);
                lemma_remove_at_found(self@, pid, i as int);
                let r = self@.remove(i as int);
                assert forall|a: int, b: int| 0 <= a < b < r.len() implies #[trigger] r[a].pid
                    < #[trigger] r[b].pid by {
                    if a < i {
                        assert(r[a] == self@[a]);
                    } else {
                        assert(r[a] == self@[a + 1]);
                    }
                    if b < i {
                        assert(r[b] == self@[b]);
                    } else {
                        assert(r[b] == self@[b + 1]);
                    }
                }
            }
            let t = self.procs[i].task_id;
            self.procs.remove(i);
            Some(t)
        } else {
            proof {
                assert forall|j: int| 0 <= j < self@.len() implies #[trigger] self@[j].pid != pid by {
                    if j >= i {
                        if i < self@.len() {
                            if j > i {
                                assert(self@[i as int].pid < self@[j].pid);
                            }
                        }
                    }
                }
                lemma_lookup_absent_pid(self@, pid);
                lemma_remove_absent(self@, pid);
            }
            None
        }
    }
}

} // verus!
