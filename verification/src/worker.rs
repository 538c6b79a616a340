//! The worker of one source: it holds filtered messages back until it is
//! released, then hands them out as lines to print, and from then on hands out
//! every further message at once.

use crate::filter::{keep_matching, kept, language, lemma_kept_concat};
use crate::message::{rendered, rendered_all, texts, views, Message, MessageView};
use std::sync::mpsc::Receiver;
use vstd::prelude::*;

verus! {

/// The receiving end of a channel of the standard library. A worker is given
/// the one on which its release arrives, and only ever looks into it.
#[verifier::external_type_specification]
#[verifier::external_body]
#[verifier::reject_recursive_types(T)]
pub struct ExReceiver<T>(Receiver<T>);

/// A worker is in one of two states, and goes from the first to the second
/// once and never back.
pub enum Worker {
    /// Not yet released: the surviving messages so far, in arrival order,
    /// none of them printed.
    Buffering(Vec<Message>),
    /// Released: everything that survived so far has been handed out.
    Live,
}

/// The mathematical content of a [`Worker`].
pub enum WorkerModel {
    Buffering(Seq<MessageView>),
    Live,
}

impl WorkerModel {
    /// A worker as it starts: buffering, with nothing held.
    pub open spec fn start() -> WorkerModel {
        WorkerModel::Buffering(Seq::empty())
    }

    /// The messages held back.
    pub open spec fn held(self) -> Seq<MessageView> {
        match self {
            WorkerModel::Buffering(held) => held,
            WorkerModel::Live => Seq::empty(),
        }
    }

    /// The state after a surviving message came in.
    pub open spec fn accept(self, message: MessageView) -> WorkerModel {
        match self {
            WorkerModel::Buffering(held) => WorkerModel::Buffering(held.push(message)),
            WorkerModel::Live => WorkerModel::Live,
        }
    }

    /// The lines to print when a surviving message comes in: its own line if
    /// the worker is live, nothing while it buffers.
    pub open spec fn lines_on_accept(self, message: MessageView) -> Seq<Seq<char>> {
        match self {
            WorkerModel::Buffering(_) => Seq::empty(),
            WorkerModel::Live => seq![rendered(message)],
        }
    }

    /// The state after the release signal was received.
    pub open spec fn release(self) -> WorkerModel {
        WorkerModel::Live
    }

    /// The lines to print when the release signal is received: everything
    /// held back, in arrival order.
    pub open spec fn lines_on_release(self) -> Seq<Seq<char>> {
        rendered_all(self.held())
    }

    /// The state after the `survivors` of a batch came in one by one, where
    /// `released` says whether the release signal was seen along the way.
    pub open spec fn absorb(self, survivors: Seq<MessageView>, released: bool) -> WorkerModel {
        match self {
            WorkerModel::Buffering(held) => if released {
                WorkerModel::Live
            } else {
                WorkerModel::Buffering(held + survivors)
            },
            WorkerModel::Live => WorkerModel::Live,
        }
    }

    /// The lines to print for such a batch. A live worker prints the
    /// survivors. A buffering worker prints nothing unless it is released on
    /// the way, and then everything it held followed by the survivors,
    /// wherever in the batch the signal was seen.
    pub open spec fn lines_on_absorb(
        self,
        survivors: Seq<MessageView>,
        released: bool,
    ) -> Seq<Seq<char>> {
        match self {
            WorkerModel::Buffering(held) => if released {
                rendered_all(held + survivors)
            } else {
                Seq::empty()
            },
            WorkerModel::Live => rendered_all(survivors),
        }
    }
}

impl WorkerModel {
    /// The state after the `survivors` came in one by one and no release was
    /// received meanwhile.
    pub open spec fn accept_all(self, survivors: Seq<MessageView>) -> WorkerModel
        decreases survivors.len(),
    {
        if survivors.len() == 0 {
            self
        } else {
            self.accept_all(survivors.drop_last()).accept(survivors.last())
        }
    }

    /// The lines to print while the `survivors` come in one by one and no
    /// release is received meanwhile.
    pub open spec fn lines_on_accept_all(self, survivors: Seq<MessageView>) -> Seq<Seq<char>>
        decreases survivors.len(),
    {
        if survivors.len() == 0 {
            Seq::empty()
        } else {
            self.lines_on_accept_all(survivors.drop_last()) + self.accept_all(
                survivors.drop_last(),
            ).lines_on_accept(survivors.last())
        }
    }
}

/// Taking survivors in one by one without a release is taking them in as a
/// batch without a release: a buffering worker holds them in addition and
/// prints nothing, a live worker prints each.
pub proof fn lemma_accept_all(model: WorkerModel, survivors: Seq<MessageView>)
    ensures
        model.accept_all(survivors) == model.absorb(survivors, false),
        model.lines_on_accept_all(survivors) == model.lines_on_absorb(survivors, false),
    decreases survivors.len(),
{
    if survivors.len() == 0 {
        assert(model.held() + survivors =~= model.held());
        assert(rendered_all(survivors) =~= Seq::<Seq<char>>::empty());
    } else {
        let front = survivors.drop_last();
        let last = survivors.last();
        lemma_accept_all(model, front);
        assert(survivors =~= front.push(last));
        assert(model.held() + survivors =~= (model.held() + front).push(last));
        assert(rendered_all(survivors) =~= rendered_all(front).push(rendered(last)));
        assert(model.lines_on_accept_all(survivors) =~= model.lines_on_absorb(survivors, false));
    }
}

/// Every surviving message is printed exactly once and in order, wherever the
/// release falls. Let the release reach the worker after `point` of the
/// `survivors` came in: before the first, between two, or after the last,
/// when the timeline is already exhausted. Then the worker ends up live, and
/// what it prints before, at and after the release is, put together, the
/// lines of what it held at the start followed by the lines of all the
/// survivors: what a batch in which the release is seen comes to.
pub proof fn lemma_release_anywhere(model: WorkerModel, survivors: Seq<MessageView>, point: int)
    requires
        0 <= point <= survivors.len(),
    ensures
        ({
            let first = survivors.take(point);
            let rest = survivors.skip(point);
            let waiting = model.accept_all(first);
            let printed = model.lines_on_accept_all(first) + waiting.lines_on_release()
                + waiting.release().lines_on_accept_all(rest);
            &&& waiting.release().accept_all(rest) == model.absorb(survivors, true)
            &&& printed == model.lines_on_absorb(survivors, true)
            &&& printed == rendered_all(model.held() + survivors)
        }),
{
    let first = survivors.take(point);
    let rest = survivors.skip(point);
    let waiting = model.accept_all(first);
    lemma_accept_all(model, first);
    lemma_accept_all(waiting.release(), rest);
    assert(survivors =~= first + rest);
    let printed = model.lines_on_accept_all(first) + waiting.lines_on_release()
        + waiting.release().lines_on_accept_all(rest);
    assert(printed =~= rendered_all(model.held() + survivors));
    if model is Live {
        assert(model.held() + survivors =~= survivors);
    }
}

impl WorkerModel {
    /// The state after the batches of `timeline` were fed in order, where
    /// `seen[i]` says whether the release was seen during batch `i`.
    pub open spec fn feed_all(
        self,
        timeline: Seq<Seq<MessageView>>,
        accepted: Set<Seq<char>>,
        seen: Seq<bool>,
    ) -> WorkerModel
        decreases timeline.len(),
    {
        if timeline.len() == 0 {
            self
        } else {
            self.feed_all(timeline.drop_last(), accepted, seen.drop_last()).absorb(
                kept(timeline.last(), accepted),
                seen.last(),
            )
        }
    }

    /// The lines printed while the batches of `timeline` are fed in order.
    pub open spec fn lines_on_feed_all(
        self,
        timeline: Seq<Seq<MessageView>>,
        accepted: Set<Seq<char>>,
        seen: Seq<bool>,
    ) -> Seq<Seq<char>>
        decreases timeline.len(),
    {
        if timeline.len() == 0 {
            Seq::empty()
        } else {
            self.lines_on_feed_all(timeline.drop_last(), accepted, seen.drop_last())
                + self.feed_all(timeline.drop_last(), accepted, seen.drop_last()).lines_on_absorb(
                kept(timeline.last(), accepted),
                seen.last(),
            )
        }
    }
}

/// A worker that is fed a whole timeline, batch by batch, and released in the
/// end if it was not released on the way, has printed the lines of what it
/// held at the start and then the line of every message of the timeline
/// whose body is accepted: each once, in timeline order, whatever the batches
/// are and whenever the release came.
pub proof fn lemma_timeline_printed_once(
    model: WorkerModel,
    timeline: Seq<Seq<MessageView>>,
    accepted: Set<Seq<char>>,
    seen: Seq<bool>,
)
    requires
        seen.len() == timeline.len(),
    ensures
        model.lines_on_feed_all(timeline, accepted, seen) + model.feed_all(
            timeline,
            accepted,
            seen,
        ).lines_on_release() == rendered_all(model.held() + kept(timeline.flatten(), accepted)),
        model.feed_all(timeline, accepted, seen) is Buffering ==> model.lines_on_feed_all(
            timeline,
            accepted,
            seen,
        ) == Seq::<Seq<char>>::empty(),
    decreases timeline.len(),
{
    let survivors = kept(timeline.flatten(), accepted);
    if timeline.len() == 0 {
        assert(survivors =~= Seq::<MessageView>::empty()) by {
            reveal(Seq::filter);
        }
        assert(model.held() + survivors =~= model.held());
        assert(rendered_all(Seq::<MessageView>::empty()) =~= Seq::<Seq<char>>::empty());
    } else {
        let front = timeline.drop_last();
        let last = timeline.last();
        let flags = seen.drop_last();
        lemma_timeline_printed_once(model, front, accepted, flags);
        assert(timeline =~= front.push(last));
        front.lemma_flatten_push(last);
        lemma_kept_concat(front.flatten(), last, accepted);
        let earlier = kept(front.flatten(), accepted);
        let fresh = kept(last, accepted);
        let before = model.feed_all(front, accepted, flags);
        let printed = model.lines_on_feed_all(front, accepted, flags);
        assert(model.held() + (earlier + fresh) =~= (model.held() + earlier) + fresh);
        assert(rendered_all((model.held() + earlier) + fresh) =~= rendered_all(
            model.held() + earlier,
        ) + rendered_all(fresh));
        match before {
            WorkerModel::Buffering(held) => {
                assert(printed + rendered_all(held) == rendered_all(model.held() + earlier));
                assert(printed =~= Seq::<Seq<char>>::empty());
                assert(rendered_all(held + fresh) =~= rendered_all(held) + rendered_all(fresh));
                if seen.last() {
                    assert(rendered_all(Seq::<MessageView>::empty()) =~= Seq::<Seq<char>>::empty());
                }
                assert(model.lines_on_feed_all(timeline, accepted, seen) + model.feed_all(
                    timeline,
                    accepted,
                    seen,
                ).lines_on_release() =~= rendered_all(model.held() + survivors));
            },
            WorkerModel::Live => {
                assert(rendered_all(Seq::<MessageView>::empty()) =~= Seq::<Seq<char>>::empty());
                assert(model.lines_on_feed_all(timeline, accepted, seen) + model.feed_all(
                    timeline,
                    accepted,
                    seen,
                ).lines_on_release() =~= rendered_all(model.held() + survivors));
            },
        }
    }
}

impl View for Worker {
    type V = WorkerModel;

    open spec fn view(&self) -> WorkerModel {
        match self {
            Worker::Buffering(held) => WorkerModel::Buffering(views(held@)),
            Worker::Live => WorkerModel::Live,
        }
    }
}

/// Calls `std::sync::mpsc::Receiver::try_recv`, which never blocks, and says
/// whether it got a value: it gets none while the channel is empty, and none
/// once the sender is gone. Whether one is there depends on what the sending
/// side has done by now, so nothing is claimed of the answer.
#[verifier::external_body]
fn release_arrived(signal: &Receiver<()>) -> (arrived: bool) {
    signal.try_recv().is_ok()
}

/// The canonical lines of `messages`, in the same order.
pub fn render_all(messages: &Vec<Message>) -> (lines: Vec<String>)
    ensures
        texts(lines@) == rendered_all(views(messages@)),
        lines@.len() == messages@.len(),
{
    let mut lines: Vec<String> = Vec::new();
    let mut i: usize = 0;
    while i < messages.len()
        invariant
            i <= messages.len(),
            texts(lines@) == rendered_all(views(messages@.take(i as int))),
            lines@.len() == i,
        decreases messages.len() - i,
    {
        let line = messages[i].render();
        proof {
            let done = messages@.take(i as int);
            assert(messages@.take(i + 1) =~= done.push(messages@[i as int]));
            assert(views(done.push(messages@[i as int])) =~= views(done).push(
                messages@[i as int]@,
            ));
            assert(rendered_all(views(done).push(messages@[i as int]@)) =~= rendered_all(
                views(done),
            ).push(line@));
            assert(texts(lines@.push(line)) =~= texts(lines@).push(line@));
        }
        lines.push(line);
        i += 1;
    }
    assert(messages@.take(messages.len() as int) =~= messages@);
    lines
}

impl Worker {
    /// A worker as it starts: buffering, with nothing held.
    pub fn new() -> (worker: Worker)
        ensures
            worker@ == WorkerModel::start(),
    {
        let worker = Worker::Buffering(Vec::new());
        assert(views(Seq::<Message>::empty()) =~= Seq::<MessageView>::empty());
        worker
    }

    /// Whether the worker has been released.
    pub fn is_live(&self) -> (live: bool)
        ensures
            live == (self@ is Live),
    {
        match self {
            Worker::Buffering(_) => false,
            Worker::Live => true,
        }
    }

    /// Whether the worker, its timeline exhausted, still has to wait for its
    /// release before it may print what it holds and return.
    pub fn awaits_release(&self) -> (waiting: bool)
        ensures
            waiting == (self@ is Buffering),
    {
        !self.is_live()
    }

    /// Takes in one message that survived the filter. A live worker hands its
    /// line out at once; a buffering worker appends it to what it holds and
    /// hands out nothing.
    pub fn accept(&mut self, message: Message) -> (lines: Vec<String>)
        ensures
            final(self)@ == old(self)@.accept(message@),
            texts(lines@) == old(self)@.lines_on_accept(message@),
            lines@.len() == old(self)@.lines_on_accept(message@).len(),
    {
        let mut lines: Vec<String> = Vec::new();
        match self {
            Worker::Buffering(held) => {
                proof {
                    assert(views(held@.push(message)) =~= views(held@).push(message@));
                }
                held.push(message);
                assert(texts(lines@) =~= Seq::<Seq<char>>::empty());
            },
            Worker::Live => {
                let line = message.render();
                lines.push(line);
                assert(texts(lines@) =~= seq![rendered(message@)]);
            },
        }
        lines
    }

    /// Receives the release signal: the worker becomes live and hands out all
    /// that it held, in arrival order, and holds nothing any more. On a live
    /// worker this changes nothing and hands out nothing.
    pub fn release(&mut self) -> (lines: Vec<String>)
        ensures
            final(self)@ == old(self)@.release(),
            texts(lines@) == old(self)@.lines_on_release(),
            lines@.len() == old(self)@.held().len(),
    {
        let mut before = Worker::Live;
        std::mem::swap(self, &mut before);
        match before {
            Worker::Buffering(held) => render_all(&held),
            Worker::Live => {
                let lines: Vec<String> = Vec::new();
                assert(texts(lines@) =~= rendered_all(Seq::<MessageView>::empty()));
                lines
            },
        }
    }

    /// Takes in the messages of a batch that survived the filter, one by one
    /// and in their order. A live worker hands out the line of each. A
    /// buffering worker appends each to what it holds and, after each, looks
    /// for its release without waiting; if the signal is there it becomes
    /// live and hands out all it holds. The lines that come back are to be
    /// printed in order.
    ///
    /// Whether the signal is seen is not for this function to decide, so the
    /// contract says what holds either way, by the state the worker is left
    /// in: still buffering, it holds the survivors in addition and nothing is
    /// to be printed; live, everything it held and every survivor is handed
    /// out exactly once, in order. A worker is never released by a batch
    /// without survivors, since it looks for the signal only after it has
    /// appended one.
    pub fn absorb(&mut self, survivors: Vec<Message>, signal: &Receiver<()>) -> (lines: Vec<String>)
        ensures
            final(self)@ == old(self)@.absorb(views(survivors@), final(self)@ is Live),
            texts(lines@) == old(self)@.lines_on_absorb(views(survivors@), final(self)@ is Live),
            lines@.len() == old(self)@.lines_on_absorb(
                views(survivors@),
                final(self)@ is Live,
            ).len(),
            old(self)@ is Live ==> final(self)@ is Live,
            old(self)@ is Buffering && final(self)@ is Live ==> survivors@.len() > 0,
    {
        let ghost all = views(survivors@);
        let ghost before = self@;
        let mut lines: Vec<String> = Vec::new();
        proof {
            assert(all.take(0) =~= Seq::<MessageView>::empty());
            assert(texts(lines@) =~= Seq::<Seq<char>>::empty());
            assert(before.held() + Seq::<MessageView>::empty() =~= before.held());
            assert(rendered_all(Seq::<MessageView>::empty()) =~= Seq::<Seq<char>>::empty());
        }
        for message in it: survivors
            invariant
                all == views(it.seq()),
                before is Live ==> self@ is Live,
                self@ == before.absorb(all.take(it.index() as int), self@ is Live),
                texts(lines@) == before.lines_on_absorb(
                    all.take(it.index() as int),
                    self@ is Live,
                ),
                before is Buffering && self@ is Live ==> it.index() > 0,
        {
            let ghost seen = all.take(it.index() as int);
            proof {
                assert(all.take(it.index() + 1) =~= seen.push(message@));
                assert(rendered_all(seen.push(message@)) =~= rendered_all(seen).push(
                    rendered(message@),
                ));
                assert(before.held() + seen.push(message@) =~= (before.held() + seen).push(
                    message@,
                ));
                assert(rendered_all((before.held() + seen).push(message@)) =~= rendered_all(
                    before.held() + seen,
                ).push(rendered(message@)));
            }
            let mut fresh = self.accept(message);
            proof {
                assert(texts(lines@ + fresh@) =~= texts(lines@) + texts(fresh@));
            }
            lines.append(&mut fresh);
            if self.awaits_release() {
                if release_arrived(signal) {
                    let mut flushed = self.release();
                    proof {
                        assert(texts(lines@ + flushed@) =~= texts(lines@) + texts(flushed@));
                    }
                    lines.append(&mut flushed);
                }
            }
        }
        proof {
            assert(all.take(all.len() as int) =~= all);
            assert(texts(lines@).len() == lines@.len());
        }
        lines
    }

    /// Takes in one batch of a timeline: the messages whose body matches
    /// `filter` are absorbed, in their order, and the others are dropped. The
    /// lines that come back are to be printed in order.
    pub fn feed(
        &mut self,
        batch: Vec<Message>,
        filter: &regex::Regex,
        signal: &Receiver<()>,
    ) -> (lines: Vec<String>)
        ensures
            final(self)@ == old(self)@.absorb(
                kept(views(batch@), language(*filter)),
                final(self)@ is Live,
            ),
            texts(lines@) == old(self)@.lines_on_absorb(
                kept(views(batch@), language(*filter)),
                final(self)@ is Live,
            ),
            lines@.len() == old(self)@.lines_on_absorb(
                kept(views(batch@), language(*filter)),
                final(self)@ is Live,
            ).len(),
            old(self)@ is Live ==> final(self)@ is Live,
            old(self)@ is Buffering && final(self)@ is Live ==> kept(
                views(batch@),
                language(*filter),
            ).len() > 0,
    {
        let survivors = keep_matching(batch, filter);
        self.absorb(survivors, signal)
    }
}

} // verus!
