//! Sequential install/uninstall orchestration.
//!
//! Producers append tasks; a single worker removes and processes exactly one
//! task at a time in strict arrival order. That strict order is the mechanism
//! keeping two mutations of the shared tools directory from overlapping. The
//! worker's filesystem work is planned here as explicit operation lists —
//! a recursive copy and a recursive delete, children before their directory —
//! which the caller carries out; a handler failure is reported through a
//! status update and never stops the worker.

use vstd::prelude::*;

use crate::path_join;

verus! {

/// What a pending task asks for.
#[derive(Debug, Clone, Copy, PartialEq, Eq, Structural)]
pub enum TaskType {
    InstallCompatibilityTool,
    UninstallCompatibilityTool,
}

/// One pending mutation request, immutable once enqueued.
#[derive(Debug, Clone, PartialEq)]
pub struct Task {
    pub kind: TaskType,
    pub tool_name: String,
}

/// The ordered backlog of pending tasks. Producers only append; only the
/// worker removes, from the front.
pub struct TaskQueue {
    tasks: Vec<Task>,
}

impl View for TaskQueue {
    type V = Seq<Task>;

    closed spec fn view(&self) -> Seq<Task> {
        self.tasks@
    }
}

impl TaskQueue {
    /// An empty backlog.
    pub fn new() -> (r: Self)
        ensures
            r@ == Seq::<Task>::empty(),
    {
        let r = Self { tasks: Vec::new() };
        proof {
            assert(r@ =~= Seq::<Task>::empty());
        }
        r
    }

    /// Appends one task at the back.
    pub fn enqueue(&mut self, t: Task)
        ensures
            final(self)@ == old(self)@.push(t),
    {
        self.tasks.push(t);
    }

    /// Removes and returns the oldest task, if any.
    pub fn dequeue(&mut self) -> (r: Option<Task>)
        ensures
            old(self)@.len() == 0 ==> r is None && final(self)@ == old(self)@,
            old(self)@.len() > 0 ==> r == Some(old(self)@[0]) && final(self)@ == old(
                self,
            )@.drop_first(),
    {
        if self.tasks.len() == 0 {
            None
        } else {
            let t = self.tasks.remove(0);
            proof {
                assert(self.tasks@ =~= old(self)@.drop_first());
            }
            Some(t)
        }
    }

    /// How many tasks wait.
    pub fn len(&self) -> (r: usize)
        ensures
            r == self@.len(),
    {
        self.tasks.len()
    }
}

/// The worker is suspended awaiting a task, or running one to completion.
/// There is no cancelled or paused state.
#[derive(Debug, Clone, Copy, PartialEq, Eq, Structural)]
pub enum WorkerState {
    Idle,
    Processing,
}

/// One status report for the frontend peers: which task finished and how.
#[derive(Debug, Clone, PartialEq)]
pub struct StatusUpdate {
    pub kind: TaskType,
    pub tool_name: String,
    pub success: bool,
}

/// The owned orchestrator state: the backlog and the worker's state. The
/// worker may only pick up a task while idle, so two tasks never overlap.
pub struct Orchestrator {
    pub queue: TaskQueue,
    pub state: WorkerState,
}

impl Orchestrator {
    /// A fresh orchestrator: empty backlog, idle worker.
    pub fn new() -> (r: Self)
        ensures
            r.queue@ == Seq::<Task>::empty(),
            r.state == WorkerState::Idle,
    {
        Self { queue: TaskQueue::new(), state: WorkerState::Idle }
    }

    /// Appends a request; the worker's state is untouched, so a running task
    /// is never disturbed.
    pub fn submit(&mut self, t: Task)
        ensures
            final(self).queue@ == old(self).queue@.push(t),
            final(self).state == old(self).state,
    {
        self.queue.enqueue(t);
    }

    /// Picks up the oldest task. Only an idle worker may pick one up; with an
    /// empty backlog the worker stays idle.
    pub fn begin_next(&mut self) -> (r: Option<Task>)
        requires
            old(self).state == WorkerState::Idle,
        ensures
            old(self).queue@.len() == 0 ==> r is None && final(self).queue@ == old(self).queue@
                && final(self).state == WorkerState::Idle,
            old(self).queue@.len() > 0 ==> r == Some(old(self).queue@[0]) && final(self).queue@
                == old(self).queue@.drop_first() && final(self).state == WorkerState::Processing,
    {
        match self.queue.dequeue() {
            Some(t) => {
                self.state = WorkerState::Processing;
                Some(t)
            },
            None => None,
        }
    }

    /// Finishes the running task, successful or not, and returns the status
    /// update to broadcast: the worker goes back to waiting either way, so a
    /// handler failure never stops the loop.
    pub fn finish(&mut self, task: &Task, success: bool) -> (r: StatusUpdate)
        requires
            old(self).state == WorkerState::Processing,
        ensures
            final(self).state == WorkerState::Idle,
            final(self).queue@ == old(self).queue@,
            r.kind == task.kind,
            r.tool_name == task.tool_name,
            r.success == success,
    {
        self.state = WorkerState::Idle;
        StatusUpdate { kind: task.kind, tool_name: task.tool_name.clone(), success }
    }
}

/// Tasks leave the backlog in strict arrival order: after enqueuing `a` then
/// `b` onto a backlog, the first removal at or past the old length yields `a`
/// and the one after it yields `b`, with nothing between them.
pub proof fn lemma_fifo_order(q: Seq<Task>, a: Task, b: Task)
    requires
        q.len() == 0,
    ensures
        q.push(a).push(b)[0] == a,
        q.push(a).push(b).drop_first()[0] == b,
        q.push(a).push(b).drop_first().drop_first().len() == 0,
{
    assert(q.push(a).push(b).drop_first() =~= seq![b]);
    assert(q.push(a).push(b).drop_first().drop_first() =~= Seq::<Task>::empty());
}

/// Fans one status update out to every connected peer: exactly one copy per
/// peer, in peer order. A peer's delivery failing is the transport's
/// business; the plan itself never skips or doubles a peer.
pub fn broadcast_plan(peers: &Vec<u64>, update: &StatusUpdate) -> (r: Vec<(u64, StatusUpdate)>)
    ensures
        r@.len() == peers@.len(),
        forall|i: int|
            0 <= i < peers@.len() ==> (#[trigger] r@[i]).0 == peers@[i] && r@[i].1.kind
                == update.kind && r@[i].1.tool_name == update.tool_name && r@[i].1.success
                == update.success,
{
    let n = peers.len();
    let mut out: Vec<(u64, StatusUpdate)> = Vec::new();
    let mut i: usize = 0;
    while i < n
        invariant
            0 <= i <= n,
            n == peers@.len(),
            out@.len() == i,
            forall|j: int|
                0 <= j < i ==> (#[trigger] out@[j]).0 == peers@[j] && out@[j].1.kind == update.kind
                    && out@[j].1.tool_name == update.tool_name && out@[j].1.success
                    == update.success,
        decreases n - i,
    {
        out.push(
            (
                peers[i],
                StatusUpdate {
                    kind: update.kind,
                    tool_name: update.tool_name.clone(),
                    success: update.success,
                },
            ),
        );
        i = i + 1;
    }
    out
}

/// One entry of a directory tree, by name.
#[derive(Debug, PartialEq)]
pub enum FsEntry {
    File(String),
    Dir(String, Vec<FsEntry>),
}

/// One filesystem operation of a plan, over full paths.
#[derive(Debug, PartialEq)]
pub enum FsOp {
    RemoveFile(String),
    RemoveDir(String),
    MkDir(String),
    CopyFile(String, String),
}

/// The mathematical shadow of one operation.
pub enum FsOpV {
    RemoveFile(Seq<char>),
    RemoveDir(Seq<char>),
    MkDir(Seq<char>),
    CopyFile(Seq<char>, Seq<char>),
}

/// The shadow of one operation.
pub open spec fn op_view(op: FsOp) -> FsOpV {
    match op {
        FsOp::RemoveFile(p) => FsOpV::RemoveFile(p@),
        FsOp::RemoveDir(p) => FsOpV::RemoveDir(p@),
        FsOp::MkDir(p) => FsOpV::MkDir(p@),
        FsOp::CopyFile(s, d) => FsOpV::CopyFile(s@, d@),
    }
}

/// The shadow of a plan.
pub open spec fn plan_view(ops: Seq<FsOp>) -> Seq<FsOpV> {
    ops.map_values(|op: FsOp| op_view(op))
}

/// One path component appended to a base path.
pub open spec fn child_path(base: Seq<char>, name: Seq<char>) -> Seq<char> {
    base + "/"@ + name
}

/// The operations that delete one entry under `base`: a file is removed; a
/// directory's children are deleted first, then the directory itself.
pub open spec fn spec_delete_plan(base: Seq<char>, e: FsEntry) -> Seq<FsOpV>
    decreases e,
{
    match e {
        FsEntry::File(n) => seq![FsOpV::RemoveFile(child_path(base, n@))],
        FsEntry::Dir(n, children) => spec_delete_children(child_path(base, n@), children@)
            + seq![FsOpV::RemoveDir(child_path(base, n@))],
    }
}

/// The operations that delete every child of a directory, in order.
pub open spec fn spec_delete_children(dir: Seq<char>, cs: Seq<FsEntry>) -> Seq<FsOpV>
    decreases cs,
{
    if cs.len() == 0 {
        Seq::empty()
    } else {
        spec_delete_children(dir, cs.drop_last()) + spec_delete_plan(dir, cs.last())
    }
}

/// Plans the recursive deletion of one directory entry under `base`:
/// children strictly before their directory, every entry exactly once.
pub fn delete_plan(base: &str, e: &FsEntry) -> (r: Vec<FsOp>)
    ensures
        plan_view(r@) == spec_delete_plan(base@, *e),
    decreases *e,
{
    let mut out: Vec<FsOp> = Vec::new();
    delete_into(base, e, &mut out);
    proof {
        assert(plan_view(Seq::<FsOp>::empty()) =~= Seq::<FsOpV>::empty());
        assert(Seq::<FsOpV>::empty() + spec_delete_plan(base@, *e) =~= spec_delete_plan(
            base@,
            *e,
        ));
    }
    out
}

#[verifier::loop_isolation(false)]
fn delete_into(base: &str, e: &FsEntry, out: &mut Vec<FsOp>)
    ensures
        plan_view(final(out)@) == plan_view(old(out)@) + spec_delete_plan(base@, *e),
    decreases *e,
{
    match e {
        FsEntry::File(n) => {
            let p = path_join(base, n.as_str());
            let ghost out0 = out@;
            out.push(FsOp::RemoveFile(p));
            proof {
                assert(plan_view(out@) =~= plan_view(out0) + seq![
                    FsOpV::RemoveFile(child_path(base@, n@)),
                ]);
            }
        },
        FsEntry::Dir(n, children) => {
            let p = path_join(base, n.as_str());
            let m = children.len();
            let ghost dirv = child_path(base@, n@);
            assert(children@.take(0) =~= Seq::<FsEntry>::empty());
            assert(plan_view(out@) =~= plan_view(out@) + spec_delete_children(
                dirv,
                children@.take(0),
            ));
            let mut i: usize = 0;
            while i < m
                invariant
                    0 <= i <= m,
                    m == children@.len(),
                    p@ == dirv,
                    plan_view(out@) == plan_view(old(out)@) + spec_delete_children(
                        dirv,
                        children@.take(i as int),
                    ),
                decreases m - i,
            {
                proof {
                    assert(children@.take(i + 1).drop_last() =~= children@.take(i as int));
                    assert(children@.take(i + 1).last() == children@[i as int]);
                    assert(e->Dir_1 == *children);
                    assert(decreases_to!(*e => children@[i as int])) by {
                        assert(decreases_to!(*e => e->Dir_1));
                        assert(decreases_to!(e->Dir_1 => e->Dir_1@));
                        assert(decreases_to!(e->Dir_1@ => e->Dir_1@[i as int]));
                    }
                }
                delete_into(p.as_str(), &children[i], out);
                proof {
                    assert((plan_view(old(out)@) + spec_delete_children(
                        dirv,
                        children@.take(i as int),
                    )) + spec_delete_plan(dirv, children@[i as int]) =~= plan_view(old(out)@)
                        + spec_delete_children(dirv, children@.take(i + 1)));
                }
                i = i + 1;
            }
            proof {
                assert(children@.take(m as int) =~= children@);
            }
            let ghost out1 = out@;
            out.push(FsOp::RemoveDir(p));
            proof {
                assert(plan_view(out@) =~= plan_view(out1) + seq![FsOpV::RemoveDir(dirv)]);
                assert((plan_view(old(out)@) + spec_delete_children(dirv, children@)) + seq![
                    FsOpV::RemoveDir(dirv),
                ] =~= plan_view(old(out)@) + spec_delete_plan(base@, *e));
            }
        },
    }
}

/// The operations that copy a directory's entries from under `src` to under
/// `dst`: the destination directory is created first, then files are copied
/// and subdirectories recursed into, in order.
pub open spec fn spec_copy_plan(src: Seq<char>, dst: Seq<char>, cs: Seq<FsEntry>) -> Seq<FsOpV>
    decreases cs,
{
    if cs.len() == 0 {
        Seq::empty()
    } else {
        spec_copy_plan(src, dst, cs.drop_last()) + spec_copy_entry(src, dst, cs.last())
    }
}

/// The operations that copy one entry.
pub open spec fn spec_copy_entry(src: Seq<char>, dst: Seq<char>, e: FsEntry) -> Seq<FsOpV>
    decreases e,
{
    match e {
        FsEntry::File(n) => seq![
            FsOpV::CopyFile(child_path(src, n@), child_path(dst, n@)),
        ],
        FsEntry::Dir(n, children) => seq![FsOpV::MkDir(child_path(dst, n@))] + spec_copy_plan(
            child_path(src, n@),
            child_path(dst, n@),
            children@,
        ),
    }
}

/// Plans the recursive copy of a directory's entries: the destination is
/// created before anything is copied into it, byte-for-byte file copies, in
/// scan order.
pub fn copy_plan(src: &str, dst: &str, entries: &Vec<FsEntry>) -> (r: Vec<FsOp>)
    ensures
        plan_view(r@) == seq![FsOpV::MkDir(dst@)] + spec_copy_plan(src@, dst@, entries@),
{
    let mut out: Vec<FsOp> = Vec::new();
    out.push(FsOp::MkDir(dst.to_owned()));
    proof {
        assert(plan_view(out@) =~= seq![FsOpV::MkDir(dst@)]);
    }
    copy_into(src, dst, entries, &mut out);
    proof {
        assert(plan_view(out@) =~= seq![FsOpV::MkDir(dst@)] + spec_copy_plan(
            src@,
            dst@,
            entries@,
        ));
    }
    out
}

#[verifier::loop_isolation(false)]
fn copy_into(src: &str, dst: &str, entries: &Vec<FsEntry>, out: &mut Vec<FsOp>)
    ensures
        plan_view(final(out)@) == plan_view(old(out)@) + spec_copy_plan(src@, dst@, entries@),
    decreases entries@,
{
    let m = entries.len();
    assert(entries@.take(0) =~= Seq::<FsEntry>::empty());
    assert(plan_view(out@) =~= plan_view(out@) + spec_copy_plan(src@, dst@, entries@.take(0)));
    let mut i: usize = 0;
    while i < m
        invariant
            0 <= i <= m,
            m == entries@.len(),
            plan_view(out@) == plan_view(old(out)@) + spec_copy_plan(
                src@,
                dst@,
                entries@.take(i as int),
            ),
        decreases m - i,
    {
        proof {
            assert(entries@.take(i + 1).drop_last() =~= entries@.take(i as int));
            assert(entries@.take(i + 1).last() == entries@[i as int]);
        }
        let ghost mid = plan_view(out@);
        match &entries[i] {
            FsEntry::File(n) => {
                let sp = path_join(src, n.as_str());
                let dp = path_join(dst, n.as_str());
                let ghost out0 = out@;
                out.push(FsOp::CopyFile(sp, dp));
                proof {
                    assert(plan_view(out@) =~= plan_view(out0) + spec_copy_entry(
                        src@,
                        dst@,
                        entries@[i as int],
                    ));
                }
            },
            FsEntry::Dir(n, children) => {
                let sp = path_join(src, n.as_str());
                let dp = path_join(dst, n.as_str());
                let ghost out0 = out@;
                out.push(FsOp::MkDir(dp.clone()));
                proof {
                    assert(plan_view(out@) =~= plan_view(out0) + seq![
                        FsOpV::MkDir(child_path(dst@, n@)),
                    ]);
                    assert(decreases_to!(entries@ => children@));
                }
                copy_into(sp.as_str(), dp.as_str(), children, out);
                proof {
                    assert((plan_view(out0) + seq![FsOpV::MkDir(child_path(dst@, n@))])
                        + spec_copy_plan(child_path(src@, n@), child_path(dst@, n@), children@)
                        =~= plan_view(out0) + spec_copy_entry(src@, dst@, entries@[i as int]));
                }
            },
        }
        proof {
            assert((plan_view(old(out)@) + spec_copy_plan(src@, dst@, entries@.take(i as int)))
                + spec_copy_entry(src@, dst@, entries@[i as int]) =~= plan_view(old(out)@)
                + spec_copy_plan(src@, dst@, entries@.take(i + 1)));
        }
        i = i + 1;
    }
    proof {
        assert(entries@.take(m as int) =~= entries@);
    }
}

/// Renders the descriptor document for a newly installed tool: the fixed
/// descriptor grammar with the internal and display names substituted in.
pub fn generate_compatibility_tool_vdf(internal_name: &str, display_name: &str) -> (r: String)
    ensures
        r@ == "\"compatibilitytools\"\n{\n  \"compat_tools\"\n  {\n    \""@ + internal_name@
            + "\"\n    {\n      \"install_path\" \".\"\n      \"display_name\" \""@ + display_name@
            + "\"\n      \"from_oslist\"  \"windows\"\n      \"to_oslist\"    \"linux\"\n    }\n  }\n}\n"@,
{
    let mut s = "\"compatibilitytools\"\n{\n  \"compat_tools\"\n  {\n    \"".to_owned();
    s.append(internal_name);
    s.append("\"\n    {\n      \"install_path\" \".\"\n      \"display_name\" \"");
    s.append(display_name);
    s.append(
        "\"\n      \"from_oslist\"  \"windows\"\n      \"to_oslist\"    \"linux\"\n    }\n  }\n}\n",
    );
    s
}

} // verus!
