//! The launch that goes well, written out: what the shell asks for, in which
//! order, when the host can do all that it is asked.

use vstd::prelude::*;
use crate::host::{Reply, Request};
use crate::pipeline::{PipelineView, Stage};
use crate::runs::{launch_after, launch_requests, lemma_length};
use crate::stdx::StdXView;

verus! {

/// What a host hands back during a launch that goes well.
pub struct Handout {
    /// The pid of each command's child.
    pub pids: Seq<i32>,
    /// The pipe between each command and the next: its read end and its write
    /// end.
    pub pipes: Seq<(i32, i32)>,
    /// For each child, whether the shell was denied placing it in the group,
    /// because the child had placed itself and become its program.
    pub denied: Seq<bool>,
}

impl Handout {
    /// The handout is one for `n` commands: a positive pid for each, and a
    /// pipe between each and the next.
    pub open spec fn fits(self, n: nat) -> bool {
        &&& n >= 1
        &&& self.pids.len() == n
        &&& self.pipes.len() == n - 1
        &&& self.denied.len() == n
        &&& forall|i: int| 0 <= i < n ==> #[trigger] self.pids[i] > 0
    }

    /// The group that command `i` is forked for: none yet for the first
    /// command, the first child's for the others.
    pub open spec fn group(self, i: int) -> i32 {
        if i == 0 {
            0
        } else {
            self.pids[0]
        }
    }

    /// What the shell asks for to start command `i` of `n`: a pipe, unless the
    /// command is the last; the fork; the child's place in the group; then
    /// the closing of the write end of the new pipe, and of the read end of
    /// the pipe before the command, if there is one.
    pub open spec fn round(self, n: nat, i: int) -> Seq<Request> {
        let pipe = if i + 1 < n {
            seq![Request::Pipe]
        } else {
            Seq::empty()
        };
        let child = seq![
            Request::Fork { index: i as usize, pgid: self.group(i) },
            Request::SetGroup { pid: self.pids[i], pgid: self.group(i) },
        ];
        let write = if i + 1 < n {
            seq![Request::Close(self.pipes[i].1)]
        } else {
            Seq::empty()
        };
        let carried = if i > 0 {
            seq![Request::Close(self.pipes[i - 1].0)]
        } else {
            Seq::empty()
        };
        pipe + child + write + carried
    }

    /// The host's reply to the request for a pipe after command `i`, if there
    /// is such a request.
    pub open spec fn pipe_made(self, n: nat, i: int) -> Seq<Reply> {
        if i + 1 < n {
            seq![Reply::Pipe { read: self.pipes[i].0, write: self.pipes[i].1 }]
        } else {
            Seq::empty()
        }
    }

    /// The host's replies to the requests for the fork of command `i` and for
    /// the child's place in the group.
    pub open spec fn child_made(self, i: int) -> Seq<Reply> {
        seq![
            Reply::Child(self.pids[i]),
            if self.denied[i] {
                Reply::Denied
            } else {
                Reply::Done
            },
        ]
    }

    /// The host's reply to the request to close the write end of the pipe
    /// after command `i`, if there is such a request.
    pub open spec fn write_closed(self, n: nat, i: int) -> Seq<Reply> {
        if i + 1 < n {
            seq![Reply::Done]
        } else {
            Seq::empty()
        }
    }

    /// The host's reply to the request to close the read end of the pipe
    /// before command `i`, if there is such a request.
    pub open spec fn carried_closed(self, i: int) -> Seq<Reply> {
        if i > 0 {
            seq![Reply::Done]
        } else {
            Seq::empty()
        }
    }

    /// What the host replies to the requests of [`round`](Self::round), one
    /// for one.
    pub open spec fn answers(self, n: nat, i: int) -> Seq<Reply> {
        self.pipe_made(n, i) + self.child_made(i) + self.write_closed(n, i) + self.carried_closed(i)
    }

    /// All that the shell asks for from command `i` on, up to the end of the
    /// launch.
    pub open spec fn script(self, n: nat, i: int) -> Seq<Request>
        decreases n - i,
    {
        if i < 0 || i >= n {
            seq![Request::Spawned]
        } else {
            self.round(n, i) + self.script(n, i + 1)
        }
    }

    /// All that the host replies from command `i` on.
    pub open spec fn replies(self, n: nat, i: int) -> Seq<Reply>
        decreases n - i,
    {
        if i < 0 || i >= n {
            Seq::empty()
        } else {
            self.answers(n, i) + self.replies(n, i + 1)
        }
    }
}

/// What the launch asks for first when it turns to command `i`, or at the
/// end.
spec fn opening(h: Handout, n: nat, i: int) -> Request {
    if i >= n {
        Request::Spawned
    } else if i + 1 < n {
        Request::Pipe
    } else {
        Request::Fork { index: i as usize, pgid: h.group(i) }
    }
}

/// What the launch asks for once the child of command `i` is placed, or a
/// descriptor is closed: the closing of the write end if `w` says that it is
/// still open, else that of the carried read end if `c` says so, else what
/// the next command needs first.
spec fn next_request(h: Handout, n: nat, i: int, w: bool, c: bool) -> Request {
    if w && i + 1 < n {
        Request::Close(h.pipes[i].1)
    } else if c && i > 0 {
        Request::Close(h.pipes[i - 1].0)
    } else {
        opening(h, n, i + 1)
    }
}

/// What the launch asks for in answer to the pipe.
spec fn after_pipe_made(h: Handout, n: nat, i: int) -> Seq<Request> {
    if i + 1 < n {
        seq![Request::Fork { index: i as usize, pgid: h.group(i) }]
    } else {
        Seq::empty()
    }
}

/// What the launch asks for in answer to the child and its place.
spec fn after_child_made(h: Handout, n: nat, i: int) -> Seq<Request> {
    seq![
        Request::SetGroup { pid: h.pids[i], pgid: h.group(i) },
        next_request(h, n, i, true, true),
    ]
}

/// What the launch asks for in answer to the closing of the write end.
spec fn after_write_closed(h: Handout, n: nat, i: int) -> Seq<Request> {
    if i + 1 < n {
        seq![next_request(h, n, i, false, true)]
    } else {
        Seq::empty()
    }
}

/// What the launch asks for in answer to the closing of the carried read
/// end.
spec fn after_carried_closed(h: Handout, n: nat, i: int) -> Seq<Request> {
    if i > 0 {
        seq![next_request(h, n, i, false, false)]
    } else {
        Seq::empty()
    }
}

/// What is asked in answer to the replies of a round is the round without its
/// first request, and then what the next round starts with.
proof fn lemma_answered(h: Handout, n: nat, i: int)
    requires
        0 <= i < n,
    ensures
        after_pipe_made(h, n, i) + after_child_made(h, n, i) + after_write_closed(h, n, i)
            + after_carried_closed(h, n, i) == h.round(n, i).drop_first().push(
            opening(h, n, i + 1),
        ),
{
    let fork = Request::Fork { index: i as usize, pgid: h.group(i) };
    let place = Request::SetGroup { pid: h.pids[i], pgid: h.group(i) };
    let open = opening(h, n, i + 1);
    let left = after_pipe_made(h, n, i) + after_child_made(h, n, i) + after_write_closed(h, n, i)
        + after_carried_closed(h, n, i);
    let right = h.round(n, i).drop_first().push(open);
    if i + 1 < n {
        let w = Request::Close(h.pipes[i].1);
        if i > 0 {
            let c = Request::Close(h.pipes[i - 1].0);
            assert(h.round(n, i) =~= seq![Request::Pipe, fork, place, w, c]);
            assert(left =~= seq![fork, place, w, c, open]);
            assert(right =~= seq![fork, place, w, c, open]);
        } else {
            assert(h.round(n, i) =~= seq![Request::Pipe, fork, place, w]);
            assert(left =~= seq![fork, place, w, open]);
            assert(right =~= seq![fork, place, w, open]);
        }
    } else {
        if i > 0 {
            let c = Request::Close(h.pipes[i - 1].0);
            assert(h.round(n, i) =~= seq![fork, place, c]);
            assert(left =~= seq![place, c, open]);
            assert(right =~= seq![place, c, open]);
        } else {
            assert(h.round(n, i) =~= seq![fork, place]);
            assert(left =~= seq![place, open]);
            assert(right =~= seq![place, open]);
        }
    }
}

/// The script from a command on is its round and then the script from the
/// next command on, which starts with what the next command needs first.
proof fn lemma_script_parts(h: Handout, n: nat, i: int)
    requires
        0 <= i < n,
    ensures
        h.round(n, i).drop_first().push(opening(h, n, i + 1)) + h.script(n, i + 1).drop_first()
            == h.script(n, i).drop_first(),
        h.script(n, i).len() > 0,
        h.script(n, i)[0] == opening(h, n, i),
{
    let rest = h.script(n, i + 1);
    lemma_script_opens(h, n, i + 1);
    assert(seq![rest[0]] + rest.drop_first() =~= rest);
    assert(h.round(n, i).len() >= 2);
    assert(h.round(n, i).drop_first().push(rest[0]) + rest.drop_first() =~= (h.round(n, i)
        + rest).drop_first());
    lemma_script_opens(h, n, i);
}

/// The script from a command on starts with what the command needs first.
proof fn lemma_script_opens(h: Handout, n: nat, i: int)
    requires
        0 <= i <= n,
    ensures
        h.script(n, i).len() > 0,
        h.script(n, i)[0] == opening(h, n, i),
{
    if i < n {
        assert(h.round(n, i).len() >= 2);
        assert(h.script(n, i)[0] == h.round(n, i)[0]);
    }
}

/// The commands before `upto` have their pids, and those before `bound` are
/// chained to their successors by the pipes of the handout.
spec fn done_so_far(q: PipelineView, h: Handout, upto: int, bound: int) -> bool {
    let n = q.commands.len();
    &&& forall|j: int| 0 <= j < upto ==> (#[trigger] q.commands[j]).pid == h.pids[j]
    &&& forall|j: int|
        0 <= j < bound && j + 1 < n ==> (#[trigger] q.commands[j]).stdout == StdXView::Pipe(
            h.pipes[j].1,
        )
    &&& forall|j: int|
        1 <= j <= bound && j < n ==> (#[trigger] q.commands[j]).stdin == StdXView::Pipe(
            h.pipes[j - 1].0,
        )
}

/// The read end that is carried into the start of command `i`, if it is still
/// open.
spec fn carried_into(h: Handout, i: int, open: bool) -> Option<i32> {
    if open && i > 0 {
        Some(h.pipes[i - 1].0)
    } else {
        None
    }
}

/// The state of a launch that has asked for the first thing that command `i`
/// needs, or that is over if there is no command `i`: the commands before `i`
/// have their pids and are chained by their pipes.
#[verifier::opaque]
spec fn poised(q: PipelineView, h: Handout, i: int) -> bool {
    let n = q.commands.len();
    let l = q.launch;
    &&& l.failure is None
    &&& l.read is None
    &&& l.write is None
    &&& i < n ==> l.next == i && q.pgid == h.group(i) && l.carried == carried_into(h, i, true)
        && l.stage == (if i + 1 < n {
        Stage::Piping
    } else {
        Stage::Forking
    })
    &&& i >= n ==> l.stage == Stage::Over && l.carried is None && q.pgid == h.pids[0]
    &&& done_so_far(q, h, i, i)
}

/// The state of a launch that has bound the pipe after command `i`, if there
/// is one, and has asked for the fork of the command.
#[verifier::opaque]
spec fn bound(q: PipelineView, h: Handout, i: int) -> bool {
    let n = q.commands.len();
    let l = q.launch;
    &&& l.stage == Stage::Forking
    &&& l.next == i
    &&& l.failure is None
    &&& q.pgid == h.group(i)
    &&& l.carried == carried_into(h, i, true)
    &&& i + 1 < n ==> l.read == Some(h.pipes[i].0) && l.write == Some(h.pipes[i].1)
    &&& i + 1 >= n ==> l.read is None && l.write is None
    &&& done_so_far(q, h, i, i + 1)
}

/// The state of a launch that has the pid of command `i` and is placing the
/// child or closing what the child has taken; `w` and `c` say whether the
/// write end of the pipe after the command and the read end of the pipe
/// before it are still to be closed.
#[verifier::opaque]
spec fn within(q: PipelineView, h: Handout, i: int, w: bool, c: bool) -> bool {
    let n = q.commands.len();
    let l = q.launch;
    &&& l.stage == (if w {
        Stage::Grouping
    } else {
        Stage::Closing
    })
    &&& w ==> c
    &&& l.next == i
    &&& l.failure is None
    &&& q.pgid == h.pids[0]
    &&& l.carried == carried_into(h, i, c)
    &&& l.read == (if i + 1 < n {
        Some(h.pipes[i].0)
    } else {
        None
    })
    &&& l.write == (if w && i + 1 < n {
        Some(h.pipes[i].1)
    } else {
        None
    })
    &&& done_so_far(q, h, i + 1, i + 1)
}

/// Where a launch stands after its books were settled in the round of command
/// `i`: still within the round, if something is left to close, else poised at
/// the next command.
spec fn settled(q: PipelineView, h: Handout, i: int, w: bool, c: bool) -> bool {
    let n = q.commands.len();
    if w && i + 1 < n {
        within(q, h, i, false, c)
    } else if c && i > 0 {
        within(q, h, i, false, false)
    } else {
        poised(q, h, i + 1)
    }
}

/// The pipeline is one that the handout is for, and `i` is one of its
/// commands.
spec fn at(q: PipelineView, h: Handout, i: int) -> bool {
    &&& h.fits(q.commands.len())
    &&& q.commands.len() <= usize::MAX
    &&& 0 <= i < q.commands.len()
}

/// The pipe that the host hands over is bound, and the fork is asked for.
proof fn lemma_script_pipe(q: PipelineView, h: Handout, i: int)
    requires
        at(q, h, i),
        poised(q, h, i),
        i + 1 < q.commands.len(),
    ensures
        ({
            let reply = Reply::Pipe { read: h.pipes[i].0, write: h.pipes[i].1 };
            &&& q.spawn_step(reply).0.commands.len() == q.commands.len()
            &&& bound(q.spawn_step(reply).0, h, i)
            &&& q.spawn_step(reply).1 == Request::Fork { index: i as usize, pgid: h.group(i) }
        }),
{
    reveal(poised);
    reveal(bound);
    let reply = Reply::Pipe { read: h.pipes[i].0, write: h.pipes[i].1 };
    let after = q.spawn_step(reply).0;
    assert(after == q.piped(h.pipes[i].0, h.pipes[i].1).0);
    assert forall|j: int| 0 <= j < i implies (#[trigger] after.commands[j]).pid == h.pids[j] by {
        assert(q.commands[j].pid == h.pids[j]);
    }
    assert forall|j: int| 0 <= j < i + 1 && j + 1 < q.commands.len() implies (
    #[trigger] after.commands[j]).stdout == StdXView::Pipe(h.pipes[j].1) by {
        if j < i {
            assert(q.commands[j].stdout == StdXView::Pipe(h.pipes[j].1));
        }
    }
    assert forall|j: int| 1 <= j <= i + 1 && j < q.commands.len() implies (
    #[trigger] after.commands[j]).stdin == StdXView::Pipe(h.pipes[j - 1].0) by {
        if j <= i {
            assert(q.commands[j].stdin == StdXView::Pipe(h.pipes[j - 1].0));
        }
    }
}

/// A launch that is poised at its last command has nothing to bind.
proof fn lemma_last_is_bound(q: PipelineView, h: Handout, i: int)
    requires
        at(q, h, i),
        poised(q, h, i),
        i + 1 == q.commands.len(),
    ensures
        bound(q, h, i),
{
    reveal(poised);
    reveal(bound);
}

/// The pid that the host hands over is recorded, the first child's pid is the
/// group, and the child's place in the group is asked for.
proof fn lemma_script_fork(q: PipelineView, h: Handout, i: int)
    requires
        at(q, h, i),
        bound(q, h, i),
    ensures
        ({
            let reply = Reply::Child(h.pids[i]);
            &&& q.spawn_step(reply).0.commands.len() == q.commands.len()
            &&& within(q.spawn_step(reply).0, h, i, true, true)
            &&& q.spawn_step(reply).1 == Request::SetGroup { pid: h.pids[i], pgid: h.group(i) }
        }),
{
    reveal(bound);
    reveal(within);
    let reply = Reply::Child(h.pids[i]);
    let after = q.spawn_step(reply).0;
    assert(h.pids[i] > 0);
    assert(h.pids[0] > 0);
    assert(after == q.forked(h.pids[i]).0);
    assert forall|j: int| 0 <= j < i + 1 implies (#[trigger] after.commands[j]).pid == h.pids[j] by {
        if j < i {
            assert(q.commands[j].pid == h.pids[j]);
        }
    }
    assert forall|j: int| 0 <= j < i + 1 && j + 1 < q.commands.len() implies (
    #[trigger] after.commands[j]).stdout == StdXView::Pipe(h.pipes[j].1) by {
        assert(q.commands[j].stdout == StdXView::Pipe(h.pipes[j].1));
    }
    assert forall|j: int| 1 <= j <= i + 1 && j < q.commands.len() implies (
    #[trigger] after.commands[j]).stdin == StdXView::Pipe(h.pipes[j - 1].0) by {
        assert(q.commands[j].stdin == StdXView::Pipe(h.pipes[j - 1].0));
    }
}

/// Once the child is placed, or a descriptor is closed, the launch closes
/// what is still to be closed and then turns to the next command.
proof fn lemma_script_settle(q: PipelineView, h: Handout, i: int, w: bool, c: bool, reply: Reply)
    requires
        at(q, h, i),
        within(q, h, i, w, c),
        reply == Reply::Done || (reply == Reply::Denied && w),
    ensures
        q.spawn_step(reply).0.commands.len() == q.commands.len(),
        q.spawn_step(reply).1 == next_request(h, q.commands.len(), i, w, c),
        settled(q.spawn_step(reply).0, h, i, w, c),
{
    reveal(poised);
    reveal(within);
    let after = q.spawn_step(reply).0;
    assert(after == q.settle().0);
    assert(after.commands == q.commands);
}

/// The first part of a round: the pipe, if the command is not the last.
proof fn lemma_part_pipe(q: PipelineView, h: Handout, i: int)
    requires
        at(q, h, i),
        poised(q, h, i),
    ensures
        launch_after(q, h.pipe_made(q.commands.len(), i)).commands.len() == q.commands.len(),
        bound(launch_after(q, h.pipe_made(q.commands.len(), i)), h, i),
        launch_requests(q, h.pipe_made(q.commands.len(), i)) == after_pipe_made(
            h,
            q.commands.len(),
            i,
        ),
{
    let n = q.commands.len();
    if i + 1 < n {
        lemma_launch_one(q, Reply::Pipe { read: h.pipes[i].0, write: h.pipes[i].1 });
        lemma_script_pipe(q, h, i);
    } else {
        lemma_last_is_bound(q, h, i);
        assert(launch_requests(q, Seq::<Reply>::empty()) =~= Seq::<Request>::empty());
    }
}

/// The second part of a round: the fork and the child's place in the group.
proof fn lemma_part_child(q: PipelineView, h: Handout, i: int)
    requires
        at(q, h, i),
        bound(q, h, i),
    ensures
        launch_after(q, h.child_made(i)).commands.len() == q.commands.len(),
        settled(launch_after(q, h.child_made(i)), h, i, true, true),
        launch_requests(q, h.child_made(i)) == after_child_made(h, q.commands.len(), i),
{
    let n = q.commands.len();
    let forked = Reply::Child(h.pids[i]);
    let placed = h.child_made(i)[1];
    let one = seq![forked];
    lemma_launch_one(q, forked);
    lemma_script_fork(q, h, i);
    let q1 = q.spawn_step(forked).0;
    lemma_launch_then(q, one, placed);
    lemma_script_settle(q1, h, i, true, true, placed);
    assert(one.push(placed) =~= h.child_made(i));
    assert(seq![q.spawn_step(forked).1].push(q1.spawn_step(placed).1) =~= after_child_made(
        h,
        n,
        i,
    ));
}

/// The third part of a round: the closing of the write end, if the command
/// is not the last.
proof fn lemma_part_write(q: PipelineView, h: Handout, i: int)
    requires
        at(q, h, i),
        settled(q, h, i, true, true),
    ensures
        launch_after(q, h.write_closed(q.commands.len(), i)).commands.len() == q.commands.len(),
        settled(launch_after(q, h.write_closed(q.commands.len(), i)), h, i, false, true),
        launch_requests(q, h.write_closed(q.commands.len(), i)) == after_write_closed(
            h,
            q.commands.len(),
            i,
        ),
{
    let n = q.commands.len();
    if i + 1 < n {
        lemma_launch_one(q, Reply::Done);
        lemma_script_settle(q, h, i, false, true, Reply::Done);
    } else {
        assert(launch_requests(q, Seq::<Reply>::empty()) =~= Seq::<Request>::empty());
    }
}

/// The last part of a round: the closing of the read end of the pipe before
/// the command, if the command is not the first.
proof fn lemma_part_carried(q: PipelineView, h: Handout, i: int)
    requires
        at(q, h, i),
        settled(q, h, i, false, true),
    ensures
        launch_after(q, h.carried_closed(i)).commands.len() == q.commands.len(),
        poised(launch_after(q, h.carried_closed(i)), h, i + 1),
        launch_requests(q, h.carried_closed(i)) == after_carried_closed(h, q.commands.len(), i),
{
    if i > 0 {
        lemma_launch_one(q, Reply::Done);
        lemma_script_settle(q, h, i, false, false, Reply::Done);
    } else {
        assert(launch_requests(q, Seq::<Reply>::empty()) =~= Seq::<Request>::empty());
    }
}

/// Giving a launch replies in two parts is giving it all of them.
pub proof fn lemma_launch_in_parts(p: PipelineView, a: Seq<Reply>, b: Seq<Reply>)
    ensures
        launch_after(p, a + b) == launch_after(launch_after(p, a), b),
        launch_requests(p, a + b) == launch_requests(p, a) + launch_requests(
            launch_after(p, a),
            b,
        ),
    decreases b.len(),
{
    if b.len() == 0 {
        assert(a + b =~= a);
        assert(launch_requests(p, a) + launch_requests(launch_after(p, a), b) =~= launch_requests(
            p,
            a,
        ));
    } else {
        lemma_launch_in_parts(p, a, b.drop_last());
        assert((a + b).drop_last() =~= a + b.drop_last());
        assert((a + b).last() == b.last());
        let q = launch_after(p, a);
        assert(launch_requests(p, a + b) =~= launch_requests(p, a) + launch_requests(q, b));
    }
}

/// One reply is one step.
proof fn lemma_launch_one(q: PipelineView, reply: Reply)
    ensures
        launch_after(q, seq![reply]) == q.spawn_step(reply).0,
        launch_requests(q, seq![reply]) == seq![q.spawn_step(reply).1],
{
    let one = seq![reply];
    assert(one.drop_last() =~= Seq::<Reply>::empty());
    assert(launch_after(q, one.drop_last()) == q);
    assert(launch_requests(q, one.drop_last()) =~= Seq::<Request>::empty());
    assert(launch_requests(q, one) =~= seq![q.spawn_step(reply).1]);
}

/// A reply after others is a step after theirs.
proof fn lemma_launch_then(q: PipelineView, before: Seq<Reply>, reply: Reply)
    ensures
        launch_after(q, before.push(reply)) == launch_after(q, before).spawn_step(reply).0,
        launch_requests(q, before.push(reply)) == launch_requests(q, before).push(
            launch_after(q, before).spawn_step(reply).1,
        ),
{
    assert(before.push(reply).drop_last() =~= before);
}

/// Given the host's answers for command `i`, a launch that is poised at the
/// command asks for the rest of what the command needs, in its order, and
/// then is poised at the next command.
proof fn lemma_round(q: PipelineView, h: Handout, i: int)
    requires
        at(q, h, i),
        poised(q, h, i),
    ensures
        launch_after(q, h.answers(q.commands.len(), i)).commands.len() == q.commands.len(),
        poised(launch_after(q, h.answers(q.commands.len(), i)), h, i + 1),
        launch_requests(q, h.answers(q.commands.len(), i)) == h.round(
            q.commands.len(),
            i,
        ).drop_first().push(opening(h, q.commands.len(), i + 1)),
{
    let n = q.commands.len();
    let a = h.pipe_made(n, i);
    let b = h.child_made(i);
    let c = h.write_closed(n, i);
    let d = h.carried_closed(i);
    lemma_part_pipe(q, h, i);
    let q1 = launch_after(q, a);
    lemma_part_child(q1, h, i);
    let q2 = launch_after(q1, b);
    lemma_part_write(q2, h, i);
    let q3 = launch_after(q2, c);
    lemma_part_carried(q3, h, i);
    lemma_launch_in_parts(q, a, b);
    lemma_launch_in_parts(q, a + b, c);
    lemma_launch_in_parts(q, a + b + c, d);
    lemma_answered(h, n, i);
}

/// Given the host's answers from command `i` on, a launch that is poised at
/// the command asks for all the rest of the script, and then is over.
proof fn lemma_rounds(q: PipelineView, h: Handout, i: int)
    requires
        h.fits(q.commands.len()),
        q.commands.len() <= usize::MAX,
        0 <= i <= q.commands.len(),
        poised(q, h, i),
    ensures
        launch_after(q, h.replies(q.commands.len(), i)).commands.len() == q.commands.len(),
        poised(launch_after(q, h.replies(q.commands.len(), i)), h, q.commands.len() as int),
        launch_requests(q, h.replies(q.commands.len(), i)) == h.script(
            q.commands.len(),
            i,
        ).drop_first(),
    decreases q.commands.len() - i,
{
    let n = q.commands.len();
    if i >= n {
        assert(launch_requests(q, h.replies(n, i)) =~= h.script(n, i).drop_first());
    } else {
        lemma_round(q, h, i);
        let next = launch_after(q, h.answers(n, i));
        lemma_rounds(next, h, i + 1);
        lemma_launch_in_parts(q, h.answers(n, i), h.replies(n, i + 1));
        lemma_script_parts(h, n, i);
    }
}

/// What holds of a launch that is poised after its last command.
proof fn lemma_over(q: PipelineView, h: Handout)
    requires
        h.fits(q.commands.len()),
        poised(q, h, q.commands.len() as int),
    ensures
        q.launch.stage == Stage::Over,
        q.launch.failure is None,
        q.pgid == h.pids[0],
        q.pids() == h.pids,
        forall|j: int|
            0 <= j < q.commands.len() - 1 ==> (#[trigger] q.commands[j]).stdout == StdXView::Pipe(
                h.pipes[j].1,
            ),
        forall|j: int|
            1 <= j < q.commands.len() ==> (#[trigger] q.commands[j]).stdin == StdXView::Pipe(
                h.pipes[j - 1].0,
            ),
{
    reveal(poised);
    assert(q.pids() =~= h.pids);
}

/// The launch goes by the script. If no program name or argument holds a NUL
/// character, and the host makes every pipe and every child that it is asked
/// for, then the launch asks, command by command, for the pipe to the next
/// command, the fork, the child's place in the group, the closing of the
/// write end that the child has taken and the closing of the read end that it
/// has taken, and after the last command it says that it has spawned. By then
/// every command has the pid that the host gave for it, the pipeline's group
/// is the first of these, and each pipe chains a command to the next.
pub proof fn lemma_launch_by_the_script(p: PipelineView, h: Handout)
    requires
        p.wf(),
        p.launch.stage == Stage::Idle,
        !p.has_nul(),
        h.fits(p.commands.len()),
    ensures
        ({
            let n = p.commands.len();
            let replies = seq![Reply::Start] + h.replies(n, 0);
            let q = launch_after(p, replies);
            &&& launch_requests(p, replies) == h.script(n, 0)
            &&& q.launch.stage == Stage::Over
            &&& q.launch.failure is None
            &&& q.commands.len() == n
            &&& q.pids() == h.pids
            &&& q.pgid == h.pids[0]
            &&& forall|j: int|
                0 <= j < n - 1 ==> (#[trigger] q.commands[j]).stdout == StdXView::Pipe(
                    h.pipes[j].1,
                )
            &&& forall|j: int|
                1 <= j < n ==> (#[trigger] q.commands[j]).stdin == StdXView::Pipe(h.pipes[j - 1].0)
        }),
{
    let n = p.commands.len();
    let start = seq![Reply::Start];
    lemma_launch_one(p, Reply::Start);
    let q0 = launch_after(p, start);
    assert(q0.commands == p.commands);
    assert(poised(q0, h, 0)) by {
        reveal(poised);
    }
    lemma_rounds(q0, h, 0);
    lemma_over(launch_after(q0, h.replies(n, 0)), h);
    lemma_launch_in_parts(p, start, h.replies(n, 0));
    lemma_script_opens(h, n, 0);
    let script = h.script(n, 0);
    assert(seq![script[0]] + script.drop_first() =~= script);
}

} // verus!
