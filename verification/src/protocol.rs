//! The protocol between the dispatcher and its workers, as a transition
//! system, and what holds of every run of it.
//!
//! The workers run in the background at their own pace; the dispatcher takes
//! its steps one after the other. A run is any interleaving of their moves.
//! Nothing here is executable: the moves are the ones that `Worker` and
//! `Dispatcher` make, and the laws below hold however they interleave.

use crate::dispatcher::{first_step, step_after, step_in_range, Step};
use crate::filter::{kept, lemma_kept_concat, lemma_kept_push};
use crate::message::{rendered, rendered_all, MessageView};
use crate::worker::WorkerModel;
use vstd::prelude::*;

verus! {

/// A source: its label and its timeline, a finite sequence of batches.
pub struct Source {
    pub label: Seq<char>,
    pub timeline: Seq<Seq<MessageView>>,
}

impl Source {
    /// The messages of the timeline in one sequence, batch after batch.
    pub open spec fn messages(self) -> Seq<MessageView> {
        self.timeline.flatten()
    }
}

/// The background side of one source: its worker and how far it has come.
pub struct Lane {
    /// The worker has been started.
    pub started: bool,
    /// How many messages of the timeline the worker has taken so far.
    pub consumed: nat,
    /// The worker's state.
    pub worker: WorkerModel,
    /// The release signal has been sent.
    pub released: bool,
    /// The worker has returned.
    pub returned: bool,
}

/// A run at one moment.
pub struct Run {
    pub sources: Seq<Source>,
    /// The bodies that the filter lets through.
    pub accepted: Set<Seq<char>>,
    /// The dispatcher's next step.
    pub pending: Step,
    pub lanes: Seq<Lane>,
    /// The lines printed so far.
    pub output: Seq<Seq<char>>,
}

/// One move of a run.
pub enum Event {
    /// The dispatcher carries out its pending step.
    Dispatch,
    /// The worker of the given source takes the next message of its timeline.
    Consume(int),
    /// The worker of the given source receives its release signal.
    Receive(int),
    /// The worker of the given source returns.
    Return(int),
}

/// All that one source contributes to the output: its label line, the lines
/// of its messages that pass the filter, in timeline order, and a blank line.
pub open spec fn block(source: Source, accepted: Set<Seq<char>>) -> Seq<Seq<char>> {
    seq![source.label] + rendered_all(kept(source.messages(), accepted)) + seq![Seq::<char>::empty()]
}

/// The output of a whole run: the blocks of the sources, in their order.
pub open spec fn transcript(sources: Seq<Source>, accepted: Set<Seq<char>>) -> Seq<Seq<char>>
    decreases sources.len(),
{
    if sources.len() == 0 {
        Seq::empty()
    } else {
        transcript(sources.drop_last(), accepted) + block(sources.last(), accepted)
    }
}

/// A lane before its worker is started.
pub open spec fn idle_lane() -> Lane {
    Lane {
        started: false,
        consumed: 0,
        worker: WorkerModel::start(),
        released: false,
        returned: false,
    }
}

/// The run before its first move.
pub open spec fn initial(sources: Seq<Source>, accepted: Set<Seq<char>>) -> Run {
    Run {
        sources,
        accepted,
        pending: first_step(sources.len()),
        lanes: Seq::new(sources.len(), |i: int| idle_lane()),
        output: Seq::empty(),
    }
}

/// Whether `event` can happen in `run`. The dispatcher can always take its
/// step, except that it joins a worker only once that worker has returned. A
/// worker takes messages while it runs and has some left; it receives its
/// release only after the signal was sent and only once; and it returns once
/// its timeline is exhausted and it has been released.
pub open spec fn enabled(run: Run, event: Event) -> bool {
    match event {
        Event::Dispatch => match run.pending {
            Step::Join(i) => run.lanes[i as int].returned,
            Step::Finished => false,
            _ => true,
        },
        Event::Consume(i) => {
            &&& 0 <= i < run.lanes.len()
            &&& run.lanes[i].started
            &&& !run.lanes[i].returned
            &&& run.lanes[i].consumed < run.sources[i].messages().len()
        },
        Event::Receive(i) => {
            &&& 0 <= i < run.lanes.len()
            &&& run.lanes[i].started
            &&& !run.lanes[i].returned
            &&& run.lanes[i].released
            &&& run.lanes[i].worker is Buffering
        },
        Event::Return(i) => {
            &&& 0 <= i < run.lanes.len()
            &&& run.lanes[i].started
            &&& !run.lanes[i].returned
            &&& run.lanes[i].consumed == run.sources[i].messages().len()
            &&& run.lanes[i].worker is Live
        },
    }
}

/// The run after the dispatcher carried out its pending step.
pub open spec fn dispatch(run: Run) -> Run {
    let following = step_after(run.sources.len(), run.pending);
    match run.pending {
        Step::Start(i) => Run {
            pending: following,
            lanes: run.lanes.update(i as int, Lane { started: true, ..run.lanes[i as int] }),
            ..run
        },
        Step::Announce(i) => Run {
            pending: following,
            output: run.output.push(run.sources[i as int].label),
            ..run
        },
        Step::Release(i) => Run {
            pending: following,
            lanes: run.lanes.update(i as int, Lane { released: true, ..run.lanes[i as int] }),
            ..run
        },
        Step::Join(i) => Run { pending: following, ..run },
        Step::Separate(i) => Run {
            pending: following,
            output: run.output.push(Seq::<char>::empty()),
            ..run
        },
        Step::Finished => run,
    }
}

/// The run after the worker of source `i` took its next message: a message
/// that the filter rejects is dropped; one that passes is printed at once by
/// a live worker and held back by a buffering one.
pub open spec fn consume(run: Run, i: int) -> Run {
    let lane = run.lanes[i];
    let message = run.sources[i].messages()[lane.consumed as int];
    if run.accepted.contains(message.body) {
        Run {
            lanes: run.lanes.update(
                i,
                Lane { consumed: lane.consumed + 1, worker: lane.worker.accept(message), ..lane },
            ),
            output: run.output + lane.worker.lines_on_accept(message),
            ..run
        }
    } else {
        Run { lanes: run.lanes.update(i, Lane { consumed: lane.consumed + 1, ..lane }), ..run }
    }
}

/// The run after the worker of source `i` received its release signal: it
/// prints all it holds and is live.
pub open spec fn receive(run: Run, i: int) -> Run {
    let lane = run.lanes[i];
    Run {
        lanes: run.lanes.update(i, Lane { worker: lane.worker.release(), ..lane }),
        output: run.output + lane.worker.lines_on_release(),
        ..run
    }
}

/// The run after `event`.
pub open spec fn next(run: Run, event: Event) -> Run {
    match event {
        Event::Dispatch => dispatch(run),
        Event::Consume(i) => consume(run, i),
        Event::Receive(i) => receive(run, i),
        Event::Return(i) => Run {
            lanes: run.lanes.update(i, Lane { returned: true, ..run.lanes[i] }),
            ..run
        },
    }
}

/// The run after the moves `events`, taken in order.
pub open spec fn after(run: Run, events: Seq<Event>) -> Run
    decreases events.len(),
{
    if events.len() == 0 {
        run
    } else {
        next(after(run, events.drop_last()), events.last())
    }
}

/// Whether the moves `events` can be taken in order, starting from `run`.
pub open spec fn possible(run: Run, events: Seq<Event>) -> bool
    decreases events.len(),
{
    if events.len() == 0 {
        true
    } else {
        possible(run, events.drop_last()) && enabled(
            after(run, events.drop_last()),
            events.last(),
        )
    }
}

/// Whether the worker of source `i` has been started when `pending` is next.
pub open spec fn started_by(pending: Step, i: int) -> bool {
    match pending {
        Step::Start(j) => i < j,
        _ => true,
    }
}

/// Whether the label of source `i` has been printed when `pending` is next.
pub open spec fn announced_by(pending: Step, i: int) -> bool {
    match pending {
        Step::Start(_) => false,
        Step::Announce(j) => i < j,
        Step::Release(j) => i <= j,
        Step::Join(j) => i <= j,
        Step::Separate(j) => i <= j,
        Step::Finished => true,
    }
}

/// Whether the release of source `i` has been sent when `pending` is next.
pub open spec fn released_by(pending: Step, i: int) -> bool {
    match pending {
        Step::Start(_) => false,
        Step::Announce(j) => i < j,
        Step::Release(j) => i < j,
        Step::Join(j) => i <= j,
        Step::Separate(j) => i <= j,
        Step::Finished => true,
    }
}

/// Whether the worker of source `i` has been joined when `pending` is next.
pub open spec fn joined_by(pending: Step, i: int) -> bool {
    match pending {
        Step::Start(_) => false,
        Step::Announce(j) => i < j,
        Step::Release(j) => i < j,
        Step::Join(j) => i < j,
        Step::Separate(j) => i <= j,
        Step::Finished => true,
    }
}

/// The message lines that the worker of a source has printed: none while it
/// buffers; once it is live, those of the survivors among the messages that
/// it has taken.
pub open spec fn shown(source: Source, accepted: Set<Seq<char>>, lane: Lane) -> Seq<Seq<char>> {
    if lane.worker is Live {
        rendered_all(kept(source.messages().take(lane.consumed as int), accepted))
    } else {
        Seq::empty()
    }
}

/// What has been printed once the label of source `j` is out and before its
/// blank line: the blocks of the sources before it, its label, and what its
/// worker has printed.
pub open spec fn turn_output(run: Run, j: int) -> Seq<Seq<char>> {
    transcript(run.sources.take(j), run.accepted) + seq![run.sources[j].label] + shown(
        run.sources[j],
        run.accepted,
        run.lanes[j],
    )
}

/// What has been printed by the time `run` is reached: the blocks of the
/// sources whose turn is over, and of the source whose turn it is the label
/// and what its worker has printed.
pub open spec fn progress(run: Run) -> Seq<Seq<char>> {
    match run.pending {
        Step::Start(_) => Seq::empty(),
        Step::Announce(j) => transcript(run.sources.take(j as int), run.accepted),
        Step::Release(j) | Step::Join(j) | Step::Separate(j) => turn_output(run, j as int),
        Step::Finished => transcript(run.sources, run.accepted),
    }
}

/// What holds of the lane of source `i` at every moment of a run.
pub open spec fn lane_consistent(run: Run, i: int) -> bool {
    let lane = run.lanes[i];
    let all = run.sources[i].messages();
    &&& lane.started == started_by(run.pending, i)
    &&& lane.released == released_by(run.pending, i)
    &&& (joined_by(run.pending, i) ==> lane.returned)
    &&& lane.consumed <= all.len()
    &&& (!lane.started ==> lane.consumed == 0 && !lane.returned)
    &&& (lane.worker is Buffering ==> lane.worker == WorkerModel::Buffering(
        kept(all.take(lane.consumed as int), run.accepted),
    ))
    &&& (lane.worker is Live ==> lane.released)
    &&& (lane.returned ==> lane.worker is Live && lane.consumed == all.len())
}

/// What holds at every moment of a run.
pub open spec fn consistent(run: Run) -> bool {
    &&& run.lanes.len() == run.sources.len()
    &&& run.sources.len() <= usize::MAX
    &&& step_in_range(run.sources.len(), run.pending)
    &&& forall|i: int| 0 <= i < run.sources.len() ==> #[trigger] lane_consistent(run, i)
    &&& run.output == progress(run)
}

/// The transcript of the first `j + 1` sources is that of the first `j`
/// followed by the block of source `j`.
pub proof fn lemma_transcript_take(sources: Seq<Source>, accepted: Set<Seq<char>>, j: int)
    requires
        0 <= j < sources.len(),
    ensures
        transcript(sources.take(j + 1), accepted) == transcript(sources.take(j), accepted) + block(
            sources[j],
            accepted,
        ),
{
    assert(sources.take(j + 1).drop_last() =~= sources.take(j));
    assert(sources.take(j + 1).last() == sources[j]);
}

proof fn lemma_initial_consistent(sources: Seq<Source>, accepted: Set<Seq<char>>)
    requires
        sources.len() <= usize::MAX,
    ensures
        consistent(initial(sources, accepted)),
{
    let run = initial(sources, accepted);
    assert forall|i: int| 0 <= i < sources.len() implies #[trigger] lane_consistent(run, i) by {
        let all = sources[i].messages();
        assert(all.take(0) =~= Seq::<MessageView>::empty());
        assert(kept(all.take(0), accepted) =~= Seq::<MessageView>::empty()) by {
            reveal(Seq::filter);
        }
    }
    if sources.len() == 0 {
        assert(run.output =~= transcript(sources, accepted));
    }
}

proof fn lemma_dispatch_consistent(run: Run)
    requires
        consistent(run),
        enabled(run, Event::Dispatch),
    ensures
        consistent(dispatch(run)),
{
    let after = dispatch(run);
    let n = run.sources.len();
    match run.pending {
        Step::Start(j) => {
            assert forall|i: int| 0 <= i < n implies #[trigger] lane_consistent(after, i) by {
                assert(lane_consistent(run, i));
            }
            if j + 1 >= n {
                assert(run.sources.take(0) =~= Seq::<Source>::empty());
                assert(after.output =~= progress(after));
            }
        },
        Step::Announce(j) => {
            assert forall|i: int| 0 <= i < n implies #[trigger] lane_consistent(after, i) by {
                assert(lane_consistent(run, i));
            }
            assert(lane_consistent(run, j as int));
            assert(after.output =~= progress(after));
        },
        Step::Release(j) => {
            assert forall|i: int| 0 <= i < n implies #[trigger] lane_consistent(after, i) by {
                assert(lane_consistent(run, i));
            }
            assert(lane_consistent(run, j as int));
            assert(after.output =~= progress(after));
        },
        Step::Join(j) => {
            assert forall|i: int| 0 <= i < n implies #[trigger] lane_consistent(after, i) by {
                assert(lane_consistent(run, i));
            }
        },
        Step::Separate(j) => {
            assert forall|i: int| 0 <= i < n implies #[trigger] lane_consistent(after, i) by {
                assert(lane_consistent(run, i));
            }
            assert(lane_consistent(run, j as int));
            let all = run.sources[j as int].messages();
            assert(all.take(all.len() as int) =~= all);
            lemma_transcript_take(run.sources, run.accepted, j as int);
            if j + 1 >= n {
                assert(run.sources.take(n as int) =~= run.sources);
            }
            assert(after.output =~= progress(after));
        },
        Step::Finished => {},
    }
}

/// A worker that is released and has not returned belongs to the source
/// that the dispatcher is waiting to join.
proof fn lemma_released_and_running(run: Run, i: int)
    requires
        consistent(run),
        0 <= i < run.lanes.len(),
        run.lanes[i].released,
        !run.lanes[i].returned,
    ensures
        run.pending == Step::Join(i as usize),
{
    assert(lane_consistent(run, i));
}

proof fn lemma_consume_consistent(run: Run, i: int)
    requires
        consistent(run),
        enabled(run, Event::Consume(i)),
    ensures
        consistent(consume(run, i)),
{
    let after = consume(run, i);
    let n = run.sources.len();
    let lane = run.lanes[i];
    let all = run.sources[i].messages();
    let message = all[lane.consumed as int];
    let taken = all.take(lane.consumed as int);
    assert(lane_consistent(run, i));
    assert(all.take(lane.consumed as int + 1) =~= taken.push(message));
    lemma_kept_push(taken, message, run.accepted);
    assert forall|k: int| 0 <= k < n implies #[trigger] lane_consistent(after, k) by {
        assert(lane_consistent(run, k));
    }
    if lane.worker is Live {
        lemma_released_and_running(run, i);
        if run.accepted.contains(message.body) {
            assert(rendered_all(kept(taken, run.accepted).push(message)) =~= rendered_all(
                kept(taken, run.accepted),
            ).push(rendered(message)));
        }
        assert(after.output =~= progress(after));
    } else {
        assert(lane.worker.lines_on_accept(message) =~= Seq::<Seq<char>>::empty());
        assert(after.output =~= run.output);
        assert(progress(after) =~= progress(run));
    }
}

proof fn lemma_receive_consistent(run: Run, i: int)
    requires
        consistent(run),
        enabled(run, Event::Receive(i)),
    ensures
        consistent(receive(run, i)),
{
    let after = receive(run, i);
    let n = run.sources.len();
    assert(lane_consistent(run, i));
    lemma_released_and_running(run, i);
    assert forall|k: int| 0 <= k < n implies #[trigger] lane_consistent(after, k) by {
        assert(lane_consistent(run, k));
    }
    assert(after.output =~= progress(after));
}

proof fn lemma_return_consistent(run: Run, i: int)
    requires
        consistent(run),
        enabled(run, Event::Return(i)),
    ensures
        consistent(next(run, Event::Return(i))),
{
    let after = next(run, Event::Return(i));
    let n = run.sources.len();
    assert(lane_consistent(run, i));
    lemma_released_and_running(run, i);
    assert forall|k: int| 0 <= k < n implies #[trigger] lane_consistent(after, k) by {
        assert(lane_consistent(run, k));
    }
    assert(after.output =~= progress(after));
}

/// Every move keeps a consistent run consistent.
pub proof fn lemma_next_consistent(run: Run, event: Event)
    requires
        consistent(run),
        enabled(run, event),
    ensures
        consistent(next(run, event)),
{
    match event {
        Event::Dispatch => lemma_dispatch_consistent(run),
        Event::Consume(i) => lemma_consume_consistent(run, i),
        Event::Receive(i) => lemma_receive_consistent(run, i),
        Event::Return(i) => lemma_return_consistent(run, i),
    }
}

/// Every run that starts at the beginning is consistent at every moment.
pub proof fn lemma_run_consistent(
    sources: Seq<Source>,
    accepted: Set<Seq<char>>,
    events: Seq<Event>,
)
    requires
        sources.len() <= usize::MAX,
        possible(initial(sources, accepted), events),
    ensures
        consistent(after(initial(sources, accepted), events)),
    decreases events.len(),
{
    if events.len() == 0 {
        lemma_initial_consistent(sources, accepted);
    } else {
        lemma_run_consistent(sources, accepted, events.drop_last());
        lemma_next_consistent(after(initial(sources, accepted), events.drop_last()), events.last());
    }
}

/// The lines of a stretch of messages followed by those of a second stretch
/// are the lines of the two stretches joined.
proof fn lemma_rendered_concat(first: Seq<MessageView>, second: Seq<MessageView>)
    ensures
        rendered_all(first + second) == rendered_all(first) + rendered_all(second),
{
    assert(rendered_all(first + second) =~= rendered_all(first) + rendered_all(second));
}

/// The transcript of the first `j` sources opens the transcript of the first
/// `k`, for `j <= k`.
proof fn lemma_transcript_grows(sources: Seq<Source>, accepted: Set<Seq<char>>, j: int, k: int)
    requires
        0 <= j <= k <= sources.len(),
    ensures
        transcript(sources.take(j), accepted).is_prefix_of(transcript(sources.take(k), accepted)),
    decreases k - j,
{
    if j < k {
        lemma_transcript_grows(sources, accepted, j, k - 1);
        lemma_transcript_take(sources, accepted, k - 1);
        let short = transcript(sources.take(j), accepted);
        let middle = transcript(sources.take(k - 1), accepted);
        let long = transcript(sources.take(k), accepted);
        assert(short =~= long.subrange(0, short.len() as int));
    }
}

/// What the worker of a source has printed opens the message lines of the
/// source's block.
proof fn lemma_shown_opens_block(source: Source, accepted: Set<Seq<char>>, lane: Lane)
    requires
        lane.consumed <= source.messages().len(),
    ensures
        shown(source, accepted, lane).is_prefix_of(
            rendered_all(kept(source.messages(), accepted)),
        ),
{
    let all = source.messages();
    let taken = all.take(lane.consumed as int);
    let rest = all.skip(lane.consumed as int);
    assert(all =~= taken + rest);
    lemma_kept_concat(taken, rest, accepted);
    lemma_rendered_concat(kept(taken, accepted), kept(rest, accepted));
    let whole = rendered_all(kept(all, accepted));
    let part = shown(source, accepted, lane);
    assert(part =~= whole.subrange(0, part.len() as int));
}

/// What has been printed while source `k` is not yet announced opens the
/// transcript of the sources before `k`; with `k` the number of sources,
/// what has been printed at any moment opens the whole transcript.
proof fn lemma_progress_within(run: Run, k: int)
    requires
        consistent(run),
        0 <= k <= run.sources.len(),
        !announced_by(run.pending, k) || k == run.sources.len(),
    ensures
        run.output.is_prefix_of(transcript(run.sources.take(k), run.accepted)),
{
    let goal = transcript(run.sources.take(k), run.accepted);
    match run.pending {
        Step::Start(_) => {},
        Step::Announce(j) => {
            lemma_transcript_grows(run.sources, run.accepted, j as int, k);
        },
        Step::Finished => {
            assert(run.sources.take(k) =~= run.sources);
            assert(run.output =~= goal.subrange(0, run.output.len() as int));
        },
        Step::Release(turn) | Step::Join(turn) | Step::Separate(turn) => {
            let j = turn as int;
            assert(lane_consistent(run, j));
            let source = run.sources[j];
            let before = transcript(run.sources.take(j), run.accepted);
            let through = transcript(run.sources.take(j + 1), run.accepted);
            let part = shown(source, run.accepted, run.lanes[j]);
            let whole = rendered_all(kept(source.messages(), run.accepted));
            lemma_shown_opens_block(source, run.accepted, run.lanes[j]);
            lemma_transcript_take(run.sources, run.accepted, j);
            lemma_transcript_grows(run.sources, run.accepted, j + 1, k);
            assert(run.output == before + seq![source.label] + part);
            assert(through == before + (seq![source.label] + whole + seq![Seq::<char>::empty()]));
            assert(run.output =~= through.subrange(0, run.output.len() as int));
            assert(run.output =~= goal.subrange(0, run.output.len() as int));
        },
    }
}

/// Ordering. However the moves of the dispatcher and of the workers
/// interleave, once the dispatcher has finished the printed output is the
/// label of the first source, its filtered messages in timeline order and a
/// blank line, then the same for the second source, and so on.
pub proof fn theorem_ordering(sources: Seq<Source>, accepted: Set<Seq<char>>, events: Seq<Event>)
    requires
        sources.len() <= usize::MAX,
        possible(initial(sources, accepted), events),
        after(initial(sources, accepted), events).pending is Finished,
    ensures
        after(initial(sources, accepted), events).output == transcript(sources, accepted),
{
    lemma_run_consistent(sources, accepted, events);
    lemma_sources_fixed(initial(sources, accepted), events);
}

/// Ordering at every moment: what has been printed so far opens the output
/// of the whole run, so no line ever comes out of its place.
pub proof fn theorem_output_in_order(
    sources: Seq<Source>,
    accepted: Set<Seq<char>>,
    events: Seq<Event>,
)
    requires
        sources.len() <= usize::MAX,
        possible(initial(sources, accepted), events),
    ensures
        after(initial(sources, accepted), events).output.is_prefix_of(
            transcript(sources, accepted),
        ),
{
    let run = after(initial(sources, accepted), events);
    lemma_run_consistent(sources, accepted, events);
    lemma_sources_fixed(initial(sources, accepted), events);
    lemma_progress_within(run, sources.len() as int);
    assert(sources.take(sources.len() as int) =~= sources);
}

/// No move changes the list of sources or the filter.
proof fn lemma_sources_fixed(run: Run, events: Seq<Event>)
    ensures
        after(run, events).sources == run.sources,
        after(run, events).accepted == run.accepted,
    decreases events.len(),
{
    if events.len() > 0 {
        lemma_sources_fixed(run, events.drop_last());
    }
}

/// No premature printing. As long as the label of source `i` has not been
/// printed, its worker is still buffering, however much of its timeline it
/// has taken, and all that has been printed belongs to the sources before
/// it: no line of source `i` is out.
pub proof fn theorem_nothing_before_label(
    sources: Seq<Source>,
    accepted: Set<Seq<char>>,
    events: Seq<Event>,
    i: int,
)
    requires
        sources.len() <= usize::MAX,
        possible(initial(sources, accepted), events),
        0 <= i < sources.len(),
        !announced_by(after(initial(sources, accepted), events).pending, i),
    ensures
        after(initial(sources, accepted), events).lanes[i].worker is Buffering,
        after(initial(sources, accepted), events).output.is_prefix_of(
            transcript(sources.take(i), accepted),
        ),
{
    let run = after(initial(sources, accepted), events);
    lemma_run_consistent(sources, accepted, events);
    lemma_sources_fixed(initial(sources, accepted), events);
    assert(lane_consistent(run, i));
    lemma_progress_within(run, i);
}

/// Late release. A worker that has taken its whole timeline while it was
/// buffering prints, when its release reaches it, the lines of all its
/// filtered messages in timeline order, once, and nothing else.
pub proof fn theorem_late_release(
    sources: Seq<Source>,
    accepted: Set<Seq<char>>,
    events: Seq<Event>,
    i: int,
)
    requires
        sources.len() <= usize::MAX,
        possible(initial(sources, accepted), events),
        enabled(after(initial(sources, accepted), events), Event::Receive(i)),
        after(initial(sources, accepted), events).lanes[i].consumed == sources[i].messages().len(),
    ensures
        ({
            let run = after(initial(sources, accepted), events);
            let released = next(run, Event::Receive(i));
            &&& released.output == run.output + rendered_all(
                kept(sources[i].messages(), accepted),
            )
            &&& released.lanes[i].worker is Live
            &&& enabled(released, Event::Return(i))
        }),
{
    let run = after(initial(sources, accepted), events);
    lemma_run_consistent(sources, accepted, events);
    lemma_sources_fixed(initial(sources, accepted), events);
    assert(lane_consistent(run, i));
    let all = sources[i].messages();
    assert(all.take(all.len() as int) =~= all);
}

/// Single consumption. A worker takes the messages of its timeline one
/// after the other and never goes back; when the dispatcher has finished,
/// every worker has taken its whole timeline, has returned, and takes
/// nothing more.
pub proof fn theorem_timelines_drained(
    sources: Seq<Source>,
    accepted: Set<Seq<char>>,
    events: Seq<Event>,
    i: int,
)
    requires
        sources.len() <= usize::MAX,
        possible(initial(sources, accepted), events),
        after(initial(sources, accepted), events).pending is Finished,
        0 <= i < sources.len(),
    ensures
        after(initial(sources, accepted), events).lanes[i].consumed == sources[i].messages().len(),
        after(initial(sources, accepted), events).lanes[i].returned,
        !enabled(after(initial(sources, accepted), events), Event::Consume(i)),
{
    let run = after(initial(sources, accepted), events);
    lemma_run_consistent(sources, accepted, events);
    lemma_sources_fixed(initial(sources, accepted), events);
    assert(lane_consistent(run, i));
}

/// A run never gets stuck. As long as the dispatcher has not finished, some
/// move is possible: the dispatcher can take its step, or the worker that it
/// waits for can take a message, receive its release, or return. A source
/// with an empty timeline holds nobody up.
pub proof fn theorem_never_stuck(sources: Seq<Source>, accepted: Set<Seq<char>>, events: Seq<Event>)
    requires
        sources.len() <= usize::MAX,
        possible(initial(sources, accepted), events),
        !(after(initial(sources, accepted), events).pending is Finished),
    ensures
        exists|event: Event| enabled(after(initial(sources, accepted), events), event),
{
    let run = after(initial(sources, accepted), events);
    lemma_run_consistent(sources, accepted, events);
    match run.pending {
        Step::Join(j) => {
            let lane = run.lanes[j as int];
            assert(lane_consistent(run, j as int));
            if lane.returned {
                assert(enabled(run, Event::Dispatch));
            } else if lane.worker is Buffering {
                assert(enabled(run, Event::Receive(j as int)));
            } else if lane.consumed < run.sources[j as int].messages().len() {
                assert(enabled(run, Event::Consume(j as int)));
            } else {
                assert(enabled(run, Event::Return(j as int)));
            }
        },
        _ => {
            assert(enabled(run, Event::Dispatch));
        },
    }
}

/// How many steps the dispatcher has taken when `pending` is next.
pub open spec fn place(sources: nat, pending: Step) -> int {
    match pending {
        Step::Start(j) => j as int,
        Step::Announce(j) => sources + 4 * j,
        Step::Release(j) => sources + 4 * j + 1,
        Step::Join(j) => sources + 4 * j + 2,
        Step::Separate(j) => sources + 4 * j + 3,
        Step::Finished => 5 * (sources as int),
    }
}

/// How many moves the worker of a source still has to make: one for each
/// message that it has not taken, one to receive its release, one to return.
pub open spec fn lane_work(source: Source, lane: Lane) -> nat {
    let untaken = if lane.consumed <= source.messages().len() {
        (source.messages().len() - lane.consumed) as nat
    } else {
        0
    };
    untaken + if lane.worker is Buffering {
        1nat
    } else {
        0nat
    } + if lane.returned {
        0nat
    } else {
        1nat
    }
}

/// How many moves the workers still have to make, all together.
pub open spec fn work_left(sources: Seq<Source>, lanes: Seq<Lane>) -> nat
    decreases sources.len(),
{
    if sources.len() == 0 {
        0
    } else {
        work_left(sources.drop_last(), lanes.drop_last()) + lane_work(sources.last(), lanes.last())
    }
}

/// How many moves are left in a run before nothing more can happen.
pub open spec fn moves_left(run: Run) -> nat {
    let steps = if place(run.sources.len(), run.pending) <= 5 * run.sources.len() {
        (5 * run.sources.len() - place(run.sources.len(), run.pending)) as nat
    } else {
        0
    };
    steps + work_left(run.sources, run.lanes)
}

/// A change to one lane changes the work that is left by what it changes
/// for that lane.
proof fn lemma_work_left_update(sources: Seq<Source>, lanes: Seq<Lane>, i: int, lane: Lane)
    requires
        lanes.len() == sources.len(),
        0 <= i < sources.len(),
    ensures
        work_left(sources, lanes.update(i, lane)) + lane_work(sources[i], lanes[i]) == work_left(
            sources,
            lanes,
        ) + lane_work(sources[i], lane),
    decreases sources.len(),
{
    let last = sources.len() - 1;
    if i == last {
        assert(lanes.update(i, lane).drop_last() =~= lanes.drop_last());
    } else {
        lemma_work_left_update(sources.drop_last(), lanes.drop_last(), i, lane);
        assert(lanes.update(i, lane).drop_last() =~= lanes.drop_last().update(i, lane));
    }
}

/// Every move brings a run one move closer to its end.
pub proof fn lemma_next_uses_a_move(run: Run, event: Event)
    requires
        consistent(run),
        enabled(run, event),
    ensures
        moves_left(next(run, event)) + 1 == moves_left(run),
{
    let n = run.sources.len();
    match event {
        Event::Dispatch => {
            match run.pending {
                Step::Start(j) => {
                    let lane = Lane { started: true, ..run.lanes[j as int] };
                    lemma_work_left_update(run.sources, run.lanes, j as int, lane);
                },
                Step::Release(j) => {
                    let lane = Lane { released: true, ..run.lanes[j as int] };
                    lemma_work_left_update(run.sources, run.lanes, j as int, lane);
                },
                _ => {},
            }
        },
        Event::Consume(i) => {
            assert(lane_consistent(run, i));
            lemma_work_left_update(run.sources, run.lanes, i, next(run, event).lanes[i]);
        },
        Event::Receive(i) => {
            assert(lane_consistent(run, i));
            lemma_work_left_update(run.sources, run.lanes, i, next(run, event).lanes[i]);
        },
        Event::Return(i) => {
            assert(lane_consistent(run, i));
            lemma_work_left_update(run.sources, run.lanes, i, next(run, event).lanes[i]);
        },
    }
}

/// No run goes on for ever: the moves made and the moves left add up to the
/// moves that were left at the beginning, which are five steps of the
/// dispatcher for each source and, for each worker, one move for each message
/// of its timeline and two more.
pub proof fn theorem_runs_end(sources: Seq<Source>, accepted: Set<Seq<char>>, events: Seq<Event>)
    requires
        sources.len() <= usize::MAX,
        possible(initial(sources, accepted), events),
    ensures
        events.len() + moves_left(after(initial(sources, accepted), events)) == moves_left(
            initial(sources, accepted),
        ),
    decreases events.len(),
{
    if events.len() > 0 {
        theorem_runs_end(sources, accepted, events.drop_last());
        lemma_run_consistent(sources, accepted, events.drop_last());
        lemma_next_uses_a_move(
            after(initial(sources, accepted), events.drop_last()),
            events.last(),
        );
    }
}

/// Every run can be brought to its end: whatever has happened so far, there
/// are moves that take the run on to the point where the dispatcher has
/// finished. With the run never stuck and never endless, a run in which
/// moves keep being made does finish.
pub proof fn theorem_every_run_can_finish(
    sources: Seq<Source>,
    accepted: Set<Seq<char>>,
    events: Seq<Event>,
)
    requires
        sources.len() <= usize::MAX,
        possible(initial(sources, accepted), events),
    ensures
        exists|more: Seq<Event>|
            #![trigger events + more]
            possible(initial(sources, accepted), events + more) && after(
                initial(sources, accepted),
                events + more,
            ).pending is Finished,
    decreases moves_left(after(initial(sources, accepted), events)),
{
    let start = initial(sources, accepted);
    let run = after(start, events);
    if run.pending is Finished {
        let more = Seq::<Event>::empty();
        assert(events + more =~= events);
    } else {
        theorem_never_stuck(sources, accepted, events);
        lemma_run_consistent(sources, accepted, events);
        let event = choose|event: Event| enabled(run, event);
        let longer = events.push(event);
        assert(longer.drop_last() =~= events);
        assert(possible(start, longer));
        lemma_next_uses_a_move(run, event);
        theorem_every_run_can_finish(sources, accepted, longer);
        let rest = choose|rest: Seq<Event>|
            #![trigger longer + rest]
            possible(start, longer + rest) && after(start, longer + rest).pending is Finished;
        let more = seq![event] + rest;
        assert(events + more =~= longer + rest);
    }
}

} // verus!
