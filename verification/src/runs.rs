//! What holds of whole runs of the step functions, whatever the host replies.

use vstd::multiset::Multiset;
use vstd::prelude::*;
use crate::error::Error;
use crate::host::{Reply, Request};
use crate::command::CommandView;
use crate::pipeline::{Front, Launch, PipelineView, Stage};
use crate::stdx::StdXView;

verus! {

/// The pipeline after its launch has been given `replies`, one after the
/// other.
pub open spec fn launch_after(p: PipelineView, replies: Seq<Reply>) -> PipelineView
    decreases replies.len(),
{
    if replies.len() == 0 {
        p
    } else {
        launch_after(p, replies.drop_last()).spawn_step(replies.last()).0
    }
}

/// The requests that the launch has made in answer to `replies`.
pub open spec fn launch_requests(p: PipelineView, replies: Seq<Reply>) -> Seq<Request>
    decreases replies.len(),
{
    if replies.len() == 0 {
        Seq::empty()
    } else {
        launch_requests(p, replies.drop_last()).push(
            launch_after(p, replies.drop_last()).spawn_step(replies.last()).1,
        )
    }
}

/// The first `n` commands have their processes, and the pipeline's group is
/// that of the first of them.
pub open spec fn started(p: PipelineView, n: int) -> bool {
    &&& forall|i: int| 0 <= i < n ==> (#[trigger] p.commands[i]).pid > 0
    &&& n > 0 ==> p.pgid == p.commands[0].pid
    &&& n == 0 ==> p.pgid == 0
}

/// The books of a launch are in order.
pub open spec fn orderly(p: PipelineView) -> bool {
    let l = p.launch;
    let last = l.next + 1 == p.commands.len();
    &&& p.wf()
    &&& match l.stage {
        Stage::Idle => l == Launch::idle(),
        Stage::Piping => l.failure is None && started(p, l.next as int) && l.read is None
            && l.write is None,
        Stage::Forking => l.failure is None && started(p, l.next as int) && (last ==> l.read is None
            && l.write is None),
        Stage::Grouping => l.failure is None && started(p, l.next + 1) && (last ==> l.read is None
            && l.write is None),
        Stage::Closing => l.failure is Some || (started(p, l.next + 1) && (last ==> l.read
            is None)),
        Stage::Over => l.carried is None && l.read is None && l.write is None && (l.failure
            is None ==> started(p, p.commands.len() as int)),
    }
}

/// The descriptor in a slot of the books, if there is one.
pub open spec fn one(slot: Option<i32>) -> Multiset<i32> {
    match slot {
        Some(fd) => Multiset::singleton(fd),
        None => Multiset::empty(),
    }
}

/// The descriptors of pipes that the shell holds, by the books.
pub open spec fn held(l: Launch) -> Multiset<i32> {
    one(l.carried).add(one(l.read)).add(one(l.write))
}

/// The descriptors that a reply hands to a launch at this stage: the two
/// ends of a pipe that was asked for.
pub open spec fn handed(stage: Stage, reply: Reply) -> Multiset<i32> {
    match reply {
        Reply::Pipe { read, write } => if stage == Stage::Piping {
            Multiset::singleton(read).add(Multiset::singleton(write))
        } else {
            Multiset::empty()
        },
        _ => Multiset::empty(),
    }
}

/// The descriptor that a request gives up.
pub open spec fn given_up(request: Request) -> Multiset<i32> {
    match request {
        Request::Close(fd) => Multiset::singleton(fd),
        _ => Multiset::empty(),
    }
}

/// All the descriptors that the host has handed to the launch.
pub open spec fn opened(p: PipelineView, replies: Seq<Reply>) -> Multiset<i32>
    decreases replies.len(),
{
    if replies.len() == 0 {
        Multiset::empty()
    } else {
        opened(p, replies.drop_last()).add(
            handed(launch_after(p, replies.drop_last()).launch.stage, replies.last()),
        )
    }
}

/// All the descriptors that the launch has asked the host to close.
pub open spec fn closed(p: PipelineView, replies: Seq<Reply>) -> Multiset<i32>
    decreases replies.len(),
{
    if replies.len() == 0 {
        Multiset::empty()
    } else {
        closed(p, replies.drop_last()).add(
            given_up(launch_after(p, replies.drop_last()).spawn_step(replies.last()).1),
        )
    }
}

/// Asking for what the next command needs keeps the books in order, and
/// neither takes nor gives up a descriptor.
proof fn lemma_advance(p: PipelineView)
    requires
        p.commands.len() <= usize::MAX,
        p.launch.next < p.commands.len(),
        p.launch.failure is None,
        p.launch.write is None,
        p.launch.read is None,
        started(p, p.launch.next as int),
    ensures
        orderly(p.advance().0),
        held(p.advance().0.launch) == held(p.launch),
        given_up(p.advance().1) == Multiset::<i32>::empty(),
{
}

/// Going on after a close keeps the books in order, and gives up at most the
/// one descriptor that it asks to close.
proof fn lemma_settle(p: PipelineView)
    requires
        p.wf(),
        p.launch.next < p.commands.len(),
        p.launch.failure is Some || (started(p, p.launch.next + 1) && (p.launch.next + 1
            == p.commands.len() ==> p.launch.read is None)),
    ensures
        orderly(p.settle().0),
        held(p.settle().0.launch).add(given_up(p.settle().1)) == held(p.launch),
{
    let l = p.launch;
    let q = p.settle().0;
    assert(held(q.launch).add(given_up(p.settle().1)) =~= held(l));
    if l.failure is None && l.write is None && l.carried is None {
        let moved = Launch { carried: l.read, read: None, next: (l.next + 1) as usize, ..l };
        if l.next + 1 < p.commands.len() {
            lemma_advance(p.with_launch(moved));
        }
    }
}

/// Giving up keeps the books in order, and gives up at most the one
/// descriptor that it asks to close.
proof fn lemma_fail(p: PipelineView, e: Error)
    requires
        p.wf(),
        p.launch.next < p.commands.len(),
    ensures
        orderly(p.fail(e).0),
        held(p.fail(e).0.launch).add(given_up(p.fail(e).1)) == held(p.launch),
{
    let failure = match p.launch.failure {
        Some(first) => first,
        None => e,
    };
    lemma_settle(p.with_launch(Launch { failure: Some(failure), ..p.launch }));
}

/// A step of a launch keeps the books in order, and the books account for
/// every descriptor: what the shell holds after the step, together with what
/// the step asks to close, is what it held before together with what the
/// reply handed over.
pub proof fn lemma_step(p: PipelineView, reply: Reply)
    requires
        orderly(p),
    ensures
        orderly(p.spawn_step(reply).0),
        held(p.spawn_step(reply).0.launch).add(given_up(p.spawn_step(reply).1)) == held(
            p.launch,
        ).add(handed(p.launch.stage, reply)),
{
    let l = p.launch;
    let q = p.spawn_step(reply).0;
    let request = p.spawn_step(reply).1;
    match l.stage {
        Stage::Idle => {
            if !p.has_nul() {
                lemma_advance(PipelineView { pgid: 0, launch: Launch::idle(), ..p });
            }
            assert(held(q.launch).add(given_up(request)) =~= held(l).add(handed(l.stage, reply)));
        },
        Stage::Piping => {
            match reply {
                Reply::Pipe { read, write } => {
                    assert(held(q.launch).add(given_up(request)) =~= held(l).add(
                        handed(l.stage, reply),
                    ));
                },
                _ => {
                    lemma_fail(p, Error::PipeFailed);
                    assert(held(l).add(handed(l.stage, reply)) =~= held(l));
                },
            }
        },
        Stage::Forking => {
            assert(held(l).add(handed(l.stage, reply)) =~= held(l));
            match reply {
                Reply::Child(pid) => {
                    if pid > 0 {
                        assert(held(q.launch).add(given_up(request)) =~= held(l));
                    } else {
                        lemma_fail(p, Error::ForkFailed);
                    }
                },
                _ => {
                    lemma_fail(p, Error::ForkFailed);
                },
            }
        },
        Stage::Grouping => {
            assert(held(l).add(handed(l.stage, reply)) =~= held(l));
            match reply {
                Reply::Done => {
                    lemma_settle(p);
                },
                Reply::Denied => {
                    lemma_settle(p);
                },
                _ => {
                    lemma_fail(p, Error::SetpgidFailed);
                },
            }
        },
        Stage::Closing => {
            assert(held(l).add(handed(l.stage, reply)) =~= held(l));
            match reply {
                Reply::Done => {
                    lemma_settle(p);
                },
                _ => {
                    lemma_fail(p, Error::CloseFailed);
                },
            }
        },
        Stage::Over => {
            assert(held(q.launch).add(given_up(request)) =~= held(l).add(handed(l.stage, reply)));
        },
    }
}

/// Throughout a launch the books are in order and account for every
/// descriptor.
pub proof fn lemma_launch(p: PipelineView, replies: Seq<Reply>)
    requires
        p.wf(),
        p.launch == Launch::idle(),
    ensures
        orderly(launch_after(p, replies)),
        opened(p, replies) == closed(p, replies).add(held(launch_after(p, replies).launch)),
    decreases replies.len(),
{
    if replies.len() == 0 {
        assert(opened(p, replies) =~= closed(p, replies).add(held(p.launch)));
    } else {
        let before = launch_after(p, replies.drop_last());
        lemma_launch(p, replies.drop_last());
        lemma_step(before, replies.last());
        let after = launch_after(p, replies);
        let request = before.spawn_step(replies.last()).1;
        assert(opened(p, replies) =~= closed(p, replies).add(held(after.launch))) by {
            let o = opened(p, replies.drop_last());
            let c = closed(p, replies.drop_last());
            let h = handed(before.launch.stage, replies.last());
            let g = given_up(request);
            assert(o == c.add(held(before.launch)));
            assert(held(after.launch).add(g) == held(before.launch).add(h));
            assert(o.add(h) =~= c.add(held(before.launch).add(h)));
            assert(c.add(g).add(held(after.launch)) =~= c.add(held(after.launch).add(g)));
        }
    }
}

/// After a launch that has succeeded, every command has its process, with a
/// positive pid, and the pipeline's group is the pid of the first command.
pub proof fn lemma_spawned(p: PipelineView, replies: Seq<Reply>)
    requires
        p.wf(),
        p.launch == Launch::idle(),
        replies.len() > 0,
        launch_requests(p, replies).last() == Request::Spawned,
    ensures
        forall|i: int|
            0 <= i < launch_after(p, replies).commands.len() ==> (#[trigger] launch_after(
                p,
                replies,
            ).commands[i]).pid > 0,
        launch_after(p, replies).pgid == launch_after(p, replies).commands[0].pid,
        launch_after(p, replies).commands.len() == p.commands.len(),
{
    let before = launch_after(p, replies.drop_last());
    lemma_launch(p, replies.drop_last());
    lemma_launch(p, replies);
    lemma_spawned_is_over(before, replies.last());
    lemma_length(p, replies);
}

/// A launch neither adds nor drops a command.
pub proof fn lemma_length(p: PipelineView, replies: Seq<Reply>)
    requires
        p.wf(),
    ensures
        launch_after(p, replies).commands.len() == p.commands.len(),
        launch_after(p, replies).wf(),
    decreases replies.len(),
{
    if replies.len() > 0 {
        lemma_length(p, replies.drop_last());
        lemma_step_length(launch_after(p, replies.drop_last()), replies.last());
    }
}

/// A step of a launch neither adds nor drops a command.
proof fn lemma_step_length(p: PipelineView, reply: Reply)
    requires
        p.wf(),
    ensures
        p.spawn_step(reply).0.commands.len() == p.commands.len(),
        p.spawn_step(reply).0.wf(),
{
}

/// Only a launch that is over without a failure says that it has spawned.
proof fn lemma_spawned_is_over(p: PipelineView, reply: Reply)
    requires
        orderly(p),
        p.spawn_step(reply).1 == Request::Spawned,
    ensures
        p.spawn_step(reply).0.launch.stage == Stage::Over,
        p.spawn_step(reply).0.launch.failure is None,
{
}

/// No descriptor leaks: once a launch is over, with success or with a
/// failure, every descriptor of a pipe that the host has handed to it has
/// been given back to be closed, as often as it was handed over.
pub proof fn lemma_no_leak(p: PipelineView, replies: Seq<Reply>)
    requires
        p.wf(),
        p.launch == Launch::idle(),
        launch_after(p, replies).launch.stage == Stage::Over,
    ensures
        opened(p, replies) == closed(p, replies),
{
    lemma_launch(p, replies);
    let l = launch_after(p, replies).launch;
    assert(held(l) =~= Multiset::empty());
    assert(closed(p, replies).add(held(l)) =~= closed(p, replies));
}

/// The pipeline after its stay in the foreground has been given `replies`,
/// one after the other.
pub open spec fn fg_after(p: PipelineView, replies: Seq<Reply>) -> PipelineView
    decreases replies.len(),
{
    if replies.len() == 0 {
        p
    } else {
        fg_after(p, replies.drop_last()).fg_step(replies.last()).0
    }
}

/// The requests that the stay in the foreground has made in answer to
/// `replies`.
pub open spec fn fg_requests(p: PipelineView, replies: Seq<Reply>) -> Seq<Request>
    decreases replies.len(),
{
    if replies.len() == 0 {
        Seq::empty()
    } else {
        fg_requests(p, replies.drop_last()).push(
            fg_after(p, replies.drop_last()).fg_step(replies.last()).1,
        )
    }
}

/// The state of a stay in the foreground goes with the request made last.
spec fn attended(p: PipelineView, requests: Seq<Request>) -> bool {
    match p.front {
        Front::Idle => requests.len() == 0 || requests.last().is_final(),
        Front::Handing => requests.len() > 0 && requests.last() is Foreground,
        Front::Waiting => requests.len() > 0 && requests.last() is Reap,
        Front::Restoring(failure) => requests.len() > 0 && requests.last() == Request::Reclaim && (
        failure is None ==> !p.running()),
    }
}

/// Throughout a stay in the foreground the state goes with the request made
/// last.
proof fn lemma_fg(p: PipelineView, replies: Seq<Reply>)
    requires
        p.front == Front::Idle,
    ensures
        fg_requests(p, replies).len() == replies.len(),
        attended(fg_after(p, replies), fg_requests(p, replies)),
    decreases replies.len(),
{
    if replies.len() > 0 {
        lemma_fg(p, replies.drop_last());
    }
}

/// The terminal always comes back: a stay in the foreground ends only right
/// after the shell has asked for the terminal again, whether the wait went
/// well or not. And where the stay ends well, no command is running any more.
pub proof fn lemma_terminal_returns(p: PipelineView, replies: Seq<Reply>)
    requires
        p.front == Front::Idle,
        replies.len() > 0,
        fg_requests(p, replies).last().is_final(),
    ensures
        replies.len() >= 2,
        fg_requests(p, replies)[replies.len() - 2] == Request::Reclaim,
        fg_requests(p, replies).last() == Request::Settled ==> !fg_after(p, replies).running(),
{
    lemma_fg(p, replies.drop_last());
    lemma_fg(p, replies);
    let before = fg_after(p, replies.drop_last());
    let asked = fg_requests(p, replies.drop_last());
    assert(before.front is Restoring);
    assert(fg_requests(p, replies)[replies.len() - 2] == asked.last());
}

/// None of the requests but the last ends an operation.
pub open spec fn unfinished_before_last(requests: Seq<Request>) -> bool {
    forall|k: int| 0 <= k < requests.len() - 1 ==> !(#[trigger] requests[k]).is_final()
}

/// The requests of a stay in the foreground that has not ended yet: first the
/// terminal for the group `g`, then reports on the group's children, then,
/// once the state is that of restoring, the terminal for the shell.
spec fn in_stay(q: PipelineView, requests: Seq<Request>, g: i32) -> bool {
    let n = requests.len() as int;
    &&& q.pgid == g
    &&& match q.front {
        Front::Idle => n == 0,
        Front::Handing => n == 1 && requests[0] == Request::Foreground(g),
        Front::Waiting => n >= 2 && requests[0] == Request::Foreground(g) && forall|k: int|
            1 <= k < n ==> #[trigger] requests[k] == Request::Reap(g),
        Front::Restoring(_) => n >= 2 && requests[0] == Request::Foreground(g)
            && requests[n - 1] == Request::Reclaim && forall|k: int|
            1 <= k < n - 1 ==> #[trigger] requests[k] == Request::Reap(g),
    }
}

/// As long as a stay in the foreground has not ended, its requests have the
/// shape of a stay.
proof fn lemma_in_stay(p: PipelineView, replies: Seq<Reply>)
    requires
        p.front == Front::Idle,
        forall|k: int|
            0 <= k < replies.len() ==> !(#[trigger] fg_requests(p, replies)[k]).is_final(),
    ensures
        fg_requests(p, replies).len() == replies.len(),
        in_stay(fg_after(p, replies), fg_requests(p, replies), p.pgid),
    decreases replies.len(),
{
    lemma_fg(p, replies);
    if replies.len() > 0 {
        let earlier = replies.drop_last();
        let asked = fg_requests(p, earlier);
        let now = fg_requests(p, replies);
        lemma_fg(p, earlier);
        assert(now.drop_last() =~= asked);
        assert forall|k: int| 0 <= k < earlier.len() implies !(#[trigger] asked[k]).is_final() by {
            assert(asked[k] == now[k]);
        }
        lemma_in_stay(p, earlier);
        assert(!now[replies.len() - 1].is_final());
    }
}

/// A stay in the foreground, from its start to its end, asks for the
/// terminal for the pipeline's group first, then for nothing but reports on
/// children of that group, then for the terminal for the shell, and then
/// ends. So from the first request to the last but one the terminal is the
/// pipeline's, and at no other time.
pub proof fn lemma_stay(p: PipelineView, replies: Seq<Reply>)
    requires
        p.front == Front::Idle,
        replies.len() > 0,
        fg_requests(p, replies).last().is_final(),
        unfinished_before_last(fg_requests(p, replies)),
    ensures
        ({
            let requests = fg_requests(p, replies);
            let n = replies.len() as int;
            &&& requests.len() == n
            &&& n >= 3
            &&& requests[0] == Request::Foreground(p.pgid)
            &&& forall|k: int| 1 <= k < n - 2 ==> #[trigger] requests[k] == Request::Reap(p.pgid)
            &&& requests[n - 2] == Request::Reclaim
            &&& fg_after(p, replies).front == Front::Idle
        }),
{
    let earlier = replies.drop_last();
    let asked = fg_requests(p, earlier);
    let now = fg_requests(p, replies);
    lemma_fg(p, replies);
    lemma_fg(p, earlier);
    assert(now.drop_last() =~= asked);
    assert forall|k: int| 0 <= k < earlier.len() implies !(#[trigger] asked[k]).is_final() by {
        assert(asked[k] == now[k]);
    }
    lemma_in_stay(p, earlier);
    let before = fg_after(p, earlier);
    assert(before.front is Restoring);
    assert forall|k: int| 1 <= k < replies.len() - 2 implies #[trigger] now[k] == Request::Reap(
        p.pgid,
    ) by {
        assert(now[k] == asked[k]);
    }
    assert(now[0] == asked[0]);
    assert(now[replies.len() - 2] == asked[asked.len() - 1]);
}

/// The pipeline after a wait has been given `replies`, one after the other.
pub open spec fn wait_after(p: PipelineView, replies: Seq<Reply>) -> PipelineView
    decreases replies.len(),
{
    if replies.len() == 0 {
        p
    } else {
        wait_after(p, replies.drop_last()).wait_step(replies.last()).0
    }
}

/// A wait that ends well leaves no command running, and all that a wait ever
/// changes is the status of commands: their number, their pids and the
/// pipeline's group stay.
pub proof fn lemma_waited(p: PipelineView, replies: Seq<Reply>)
    requires
        replies.len() > 0,
    ensures
        wait_after(p, replies.drop_last()).wait_step(replies.last()).1 == Request::Settled
            ==> !wait_after(p, replies).running(),
        wait_after(p, replies).pids() == p.pids(),
        wait_after(p, replies).pgid == p.pgid,
{
    lemma_wait_keeps(p, replies);
}

/// A wait keeps the pids of the commands and the pipeline's group.
proof fn lemma_wait_keeps(p: PipelineView, replies: Seq<Reply>)
    ensures
        wait_after(p, replies).pids() == p.pids(),
        wait_after(p, replies).pgid == p.pgid,
    decreases replies.len(),
{
    if replies.len() > 0 {
        lemma_wait_keeps(p, replies.drop_last());
        let before = wait_after(p, replies.drop_last());
        assert(before.wait_step(replies.last()).0.pids() =~= before.pids());
    }
}

/// The indices of the commands that the requests ask to fork, in the order of
/// the requests.
pub open spec fn forks(requests: Seq<Request>) -> Seq<usize>
    decreases requests.len(),
{
    if requests.len() == 0 {
        Seq::empty()
    } else {
        match requests.last() {
            Request::Fork { index, pgid } => forks(requests.drop_last()).push(index),
            _ => forks(requests.drop_last()),
        }
    }
}

/// The first `n` indices, in rising order.
pub open spec fn first_indices(n: nat) -> Seq<usize> {
    Seq::new(n, |i: int| i as usize)
}

/// How many forks a launch in order has asked for by now; after a failure, at
/// least how many.
spec fn forks_asked(p: PipelineView) -> nat {
    match p.launch.stage {
        Stage::Idle => 0,
        Stage::Piping => p.launch.next as nat,
        Stage::Forking => (p.launch.next + 1) as nat,
        Stage::Grouping => (p.launch.next + 1) as nat,
        Stage::Closing => (p.launch.next + 1) as nat,
        Stage::Over => p.commands.len(),
    }
}

/// The forks asked for so far are those of the first commands, in order.
spec fn in_turn(p: PipelineView, requests: Seq<Request>) -> bool {
    if p.launch.failure is None {
        forks(requests) == first_indices(forks_asked(p))
    } else {
        exists|m: nat| m <= p.commands.len() && forks(requests) == first_indices(m)
    }
}

/// Throughout a launch the forks asked for are those of the first commands,
/// in order.
proof fn lemma_in_turn(p: PipelineView, replies: Seq<Reply>)
    requires
        p.wf(),
        p.launch == Launch::idle(),
    ensures
        launch_requests(p, replies).len() == replies.len(),
        in_turn(launch_after(p, replies), launch_requests(p, replies)),
    decreases replies.len(),
{
    if replies.len() == 0 {
        assert(forks(launch_requests(p, replies)) =~= first_indices(0));
    } else {
        let earlier = replies.drop_last();
        lemma_in_turn(p, earlier);
        lemma_launch(p, earlier);
        let before = launch_after(p, earlier);
        let asked = launch_requests(p, earlier);
        let after = launch_after(p, replies);
        let request = before.spawn_step(replies.last()).1;
        let now = launch_requests(p, replies);
        assert(now.drop_last() =~= asked);
        lemma_step(before, replies.last());
        lemma_step_forks(before, replies.last());
        if before.launch.failure is Some {
            let m = choose|m: nat| m <= before.commands.len() && forks(asked) == first_indices(m);
            assert(forks(now) == first_indices(m));
        } else {
            let m = forks_asked(before);
            match request {
                Request::Fork { index, pgid } => {
                    assert(first_indices(m).push(index) =~= first_indices(m + 1));
                    assert(forks(now) == first_indices(m + 1));
                },
                _ => {
                    assert(forks(now) == first_indices(m));
                },
            }
        }
    }
}

/// What a step of a launch in order asks to fork, if anything, is the command
/// that comes next, and a step after a failure asks for no fork.
proof fn lemma_step_forks(p: PipelineView, reply: Reply)
    requires
        orderly(p),
    ensures
        ({
            let after = p.spawn_step(reply).0;
            let request = p.spawn_step(reply).1;
            &&& p.launch.failure is Some ==> !(request is Fork) && after.launch.failure is Some
            &&& p.launch.failure is None ==> match request {
                Request::Fork { index, pgid } => index == forks_asked(p) && after.launch.failure
                    is None && forks_asked(after) == forks_asked(p) + 1,
                _ => after.launch.failure is None ==> forks_asked(after) == forks_asked(p),
            }
            &&& forks_asked(p) <= p.commands.len()
        }),
{
}

/// Commands are forked in their order: by the time a launch has succeeded,
/// it has asked for the fork of every command exactly once, the first command
/// first and the last one last.
pub proof fn lemma_forked_in_order(p: PipelineView, replies: Seq<Reply>)
    requires
        p.wf(),
        p.launch == Launch::idle(),
        replies.len() > 0,
        launch_requests(p, replies).last() == Request::Spawned,
    ensures
        forks(launch_requests(p, replies)) == first_indices(p.commands.len()),
{
    lemma_in_turn(p, replies);
    lemma_launch(p, replies.drop_last());
    lemma_spawned_is_over(launch_after(p, replies.drop_last()), replies.last());
    lemma_length(p, replies);
}

/// The pipes that the host has made for the launch, each as its read end and
/// its write end, in the order in which they were made.
pub open spec fn pipes(p: PipelineView, replies: Seq<Reply>) -> Seq<(i32, i32)>
    decreases replies.len(),
{
    if replies.len() == 0 {
        Seq::empty()
    } else {
        let earlier = pipes(p, replies.drop_last());
        match replies.last() {
            Reply::Pipe { read, write } => if launch_after(p, replies.drop_last()).launch.stage
                == Stage::Piping {
                earlier.push((read, write))
            } else {
                earlier
            },
            _ => earlier,
        }
    }
}

/// Two commands are the same invocation: the same program with the same
/// arguments, in the same state.
pub open spec fn same_invocation(a: CommandView, b: CommandView) -> bool {
    a.program == b.program && a.args == b.args && a.status == b.status
}

/// How many pipes a launch in order has bound by now.
spec fn pipes_bound(p: PipelineView) -> int {
    match p.launch.stage {
        Stage::Idle => 0,
        Stage::Piping => p.launch.next as int,
        Stage::Over => p.commands.len() - 1,
        _ => if p.launch.next + 1 < p.commands.len() {
            p.launch.next + 1
        } else {
            p.launch.next as int
        },
    }
}

/// A launch leaves of a pipeline what it has no business with.
spec fn kept(p: PipelineView, q: PipelineView) -> bool {
    &&& q.commands.len() == p.commands.len()
    &&& q.background == p.background
    &&& q.jobid == p.jobid
    &&& q.front == p.front
    &&& forall|i: int|
        0 <= i < q.commands.len() ==> same_invocation(#[trigger] q.commands[i], p.commands[i])
}

/// The first `k` pipes of `made` chain the first commands of `q`, and the
/// other endpoints are those of `p`.
spec fn chained_to(p: PipelineView, q: PipelineView, made: Seq<(i32, i32)>, k: int) -> bool {
    &&& made.len() == k
    &&& forall|i: int| 0 <= i < k ==> (#[trigger] q.commands[i]).stdout == StdXView::Pipe(made[i].1)
    &&& forall|i: int|
        1 <= i <= k ==> (#[trigger] q.commands[i]).stdin == StdXView::Pipe(made[i - 1].0)
    &&& q.commands[0].stdin == p.commands[0].stdin
    &&& forall|j: int|
        k <= j < q.commands.len() ==> (#[trigger] q.commands[j]).stdout == p.commands[j].stdout
    &&& forall|j: int|
        k < j < q.commands.len() ==> (#[trigger] q.commands[j]).stdin == p.commands[j].stdin
}

/// The commands of `q` are those of `p`, chained by the pipes `made` as far as
/// the launch has come.
spec fn chained(p: PipelineView, q: PipelineView, made: Seq<(i32, i32)>) -> bool {
    kept(p, q) && (q.launch.failure is None ==> chained_to(p, q, made, pipes_bound(q)))
}

/// Neither asking for the next thing, nor going on after a close, nor giving
/// up touches a command.
proof fn lemma_commands_stay(q: PipelineView, e: Error)
    ensures
        q.advance().0 == q.with_launch(q.advance().0.launch),
        q.settle().0 == q.with_launch(q.settle().0.launch),
        q.fail(e).0 == q.with_launch(q.fail(e).0.launch),
        q.fail(e).0.launch.failure is Some,
{
    let failure = match q.launch.failure {
        Some(first) => first,
        None => e,
    };
    let failed = q.with_launch(Launch { failure: Some(failure), ..q.launch });
    assert(failed.settle().0.launch.failure is Some);
    let l = q.launch;
    let moved = Launch { carried: l.read, read: None, next: (l.next + 1) as usize, ..l };
    assert(q.with_launch(moved).advance().0 == q.with_launch(
        q.with_launch(moved).advance().0.launch,
    ));
}

/// Going on after a close does not change how many pipes are bound.
proof fn lemma_settle_bound(q: PipelineView)
    requires
        q.commands.len() <= usize::MAX,
        q.launch.next < q.commands.len(),
        q.launch.stage == Stage::Grouping || q.launch.stage == Stage::Closing,
    ensures
        q.settle().0.launch.failure is None ==> pipes_bound(q.settle().0) == pipes_bound(q)
            && q.launch.failure is None,
{
}

/// Binding a new pipe chains one more command.
proof fn lemma_piped_chained(
    p: PipelineView,
    q: PipelineView,
    made: Seq<(i32, i32)>,
    read: i32,
    write: i32,
)
    requires
        q.launch.stage == Stage::Piping,
        q.launch.failure is None,
        q.launch.next + 1 < q.commands.len(),
        kept(p, q),
        chained_to(p, q, made, q.launch.next as int),
    ensures
        kept(p, q.piped(read, write).0),
        chained_to(p, q.piped(read, write).0, made.push((read, write)), q.launch.next + 1),
{
    let k = q.launch.next as int;
    let after = q.piped(read, write).0;
    let longer = made.push((read, write));
    assert forall|i: int| 0 <= i < after.commands.len() implies same_invocation(
        #[trigger] after.commands[i],
        p.commands[i],
    ) by {
        assert(same_invocation(q.commands[i], p.commands[i]));
    }
    assert forall|i: int| 0 <= i < k + 1 implies (#[trigger] after.commands[i]).stdout
        == StdXView::Pipe(longer[i].1) by {
        if i < k {
            assert(q.commands[i].stdout == StdXView::Pipe(made[i].1));
        }
    }
    assert forall|i: int| 1 <= i <= k + 1 implies (#[trigger] after.commands[i]).stdin
        == StdXView::Pipe(longer[i - 1].0) by {
        if i <= k {
            assert(q.commands[i].stdin == StdXView::Pipe(made[i - 1].0));
        }
    }
    assert forall|j: int| k + 1 <= j < after.commands.len() implies (#[trigger] after.commands[j]).stdout
        == p.commands[j].stdout by {
        assert(q.commands[j].stdout == p.commands[j].stdout);
    }
    assert forall|j: int| k + 1 < j < after.commands.len() implies (#[trigger] after.commands[j]).stdin
        == p.commands[j].stdin by {
        assert(q.commands[j].stdin == p.commands[j].stdin);
    }
}

/// Recording a pid leaves the chain as it is.
proof fn lemma_forked_chained(
    p: PipelineView,
    q: PipelineView,
    made: Seq<(i32, i32)>,
    pid: i32,
    k: int,
)
    requires
        q.launch.next < q.commands.len(),
        kept(p, q),
        chained_to(p, q, made, k),
        0 <= k < q.commands.len(),
    ensures
        kept(p, q.forked(pid).0),
        chained_to(p, q.forked(pid).0, made, k),
{
    let after = q.forked(pid).0;
    assert forall|i: int| 0 <= i < after.commands.len() implies same_invocation(
        #[trigger] after.commands[i],
        p.commands[i],
    ) by {
        assert(same_invocation(q.commands[i], p.commands[i]));
    }
    assert forall|i: int| 0 <= i < k implies (#[trigger] after.commands[i]).stdout
        == StdXView::Pipe(made[i].1) by {
        assert(q.commands[i].stdout == StdXView::Pipe(made[i].1));
    }
    assert forall|i: int| 1 <= i <= k implies (#[trigger] after.commands[i]).stdin
        == StdXView::Pipe(made[i - 1].0) by {
        assert(q.commands[i].stdin == StdXView::Pipe(made[i - 1].0));
    }
    assert forall|j: int| k <= j < after.commands.len() implies (#[trigger] after.commands[j]).stdout
        == p.commands[j].stdout by {
        assert(q.commands[j].stdout == p.commands[j].stdout);
    }
    assert forall|j: int| k < j < after.commands.len() implies (#[trigger] after.commands[j]).stdin
        == p.commands[j].stdin by {
        assert(q.commands[j].stdin == p.commands[j].stdin);
    }
}

/// The pipes that the host has made, after one more reply.
spec fn made_after(q: PipelineView, made: Seq<(i32, i32)>, reply: Reply) -> Seq<(i32, i32)> {
    match reply {
        Reply::Pipe { read, write } => if q.launch.stage == Stage::Piping {
            made.push((read, write))
        } else {
            made
        },
        _ => made,
    }
}

/// A step of a launch in order keeps the commands chained as far as the launch
/// has come.
proof fn lemma_step_chained(p: PipelineView, q: PipelineView, made: Seq<(i32, i32)>, reply: Reply)
    requires
        orderly(q),
        chained(p, q, made),
    ensures
        chained(p, q.spawn_step(reply).0, made_after(q, made, reply)),
{
    let after = q.spawn_step(reply).0;
    let l = q.launch;
    match l.stage {
        Stage::Idle => {
            let reset = PipelineView { pgid: 0, launch: Launch::idle(), ..q };
            lemma_commands_stay(reset, Error::PipeFailed);
            if !q.has_nul() {
                assert(after.commands == q.commands);
                assert(pipes_bound(after) == 0);
            }
        },
        Stage::Piping => {
            match reply {
                Reply::Pipe { read, write } => {
                    lemma_piped_chained(p, q, made, read, write);
                },
                _ => {
                    lemma_commands_stay(q, Error::PipeFailed);
                },
            }
        },
        Stage::Forking => {
            lemma_commands_stay(q, Error::ForkFailed);
            match reply {
                Reply::Child(pid) => {
                    if pid > 0 {
                        lemma_forked_chained(p, q, made, pid, pipes_bound(q));
                        assert(pipes_bound(after) == pipes_bound(q));
                    }
                },
                _ => {},
            }
        },
        Stage::Grouping => {
            lemma_commands_stay(q, Error::SetpgidFailed);
            lemma_settle_bound(q);
            match reply {
                Reply::Done => {
                    assert(after == q.with_launch(after.launch));
                },
                Reply::Denied => {
                    assert(after == q.with_launch(after.launch));
                },
                _ => {},
            }
        },
        Stage::Closing => {
            lemma_commands_stay(q, Error::CloseFailed);
            lemma_settle_bound(q);
            match reply {
                Reply::Done => {
                    assert(after == q.with_launch(after.launch));
                },
                _ => {},
            }
        },
        Stage::Over => {},
    }
}

/// Throughout a launch the commands are chained as far as the launch has come.
proof fn lemma_chained(p: PipelineView, replies: Seq<Reply>)
    requires
        p.wf(),
        p.launch == Launch::idle(),
    ensures
        chained(p, launch_after(p, replies), pipes(p, replies)),
    decreases replies.len(),
{
    if replies.len() > 0 {
        lemma_chained(p, replies.drop_last());
        lemma_launch(p, replies.drop_last());
        lemma_step_chained(
            p,
            launch_after(p, replies.drop_last()),
            pipes(p, replies.drop_last()),
            replies.last(),
        );
    }
}

/// A launch that has succeeded has chained the commands: between each command
/// and the next the host has made one pipe, whose write end is the standard
/// output of the first of the two and whose read end is the standard input of
/// the second. The standard input of the first command and the standard
/// output of the last are as they were, and so are the program, the arguments
/// and the status of every command.
pub proof fn lemma_chain(p: PipelineView, replies: Seq<Reply>)
    requires
        p.wf(),
        p.launch == Launch::idle(),
        replies.len() > 0,
        launch_requests(p, replies).last() == Request::Spawned,
    ensures
        ({
            let q = launch_after(p, replies);
            let made = pipes(p, replies);
            let n = p.commands.len() as int;
            &&& q.commands.len() == n
            &&& made.len() == n - 1
            &&& forall|i: int|
                0 <= i < n - 1 ==> (#[trigger] q.commands[i]).stdout == StdXView::Pipe(made[i].1)
            &&& forall|i: int|
                1 <= i < n ==> (#[trigger] q.commands[i]).stdin == StdXView::Pipe(made[i - 1].0)
            &&& q.commands[0].stdin == p.commands[0].stdin
            &&& q.commands[n - 1].stdout == p.commands[n - 1].stdout
            &&& forall|i: int|
                0 <= i < n ==> same_invocation(#[trigger] q.commands[i], p.commands[i])
        }),
{
    lemma_chained(p, replies);
    lemma_launch(p, replies.drop_last());
    lemma_spawned_is_over(launch_after(p, replies.drop_last()), replies.last());
}

} // verus!
