//! The enrichment worker: the single consumer of the enrichment queue and
//! the sole owner of the one browser session.
//!
//! The worker is a state machine driven from outside: [`Worker::next_step`]
//! consumes at most one buffered item and says what to do next, and
//! [`finish_fetch`] persists the outcome of the fetch that was asked for.
//! A shutdown request travels through the queue like any other message, so
//! in-flight work drains before it is seen: that is the protocol's
//! draining stage. After the acknowledgment the worker processes nothing
//! further and still holds the session open — releasing the external
//! browser is the caller's subsequent, separate action.

use vstd::prelude::*;
use crate::extractor::detect_language;
use crate::extractor::lang_class_of;
use crate::extractor::lang_name;
use crate::queue::Message;
use crate::queue::Queue;
use crate::store::LinkStore;
use crate::store::LinkUrl;
use crate::store::LinkUrlModel;
use crate::store::enrich_if;

verus! {

/// The lifecycle phase of the worker.
#[derive(Clone, Copy, PartialEq, Eq, Structural, Debug)]
pub enum Phase {
    Running,
    Stopped,
}

/// Mathematical model of the worker.
pub struct WorkerModel {
    pub phase: Phase,
    pub batch: Seq<LinkUrlModel>,
    pub session_open: bool,
}

/// What the driving loop must do next.
pub enum Step {
    /// Navigate the browser session to this pending link (row id, URL) and
    /// hand the outcome to [`finish_fetch`].
    Fetch(i32, String),
    /// A message was consumed; ask again.
    Continue,
    /// The shutdown was acknowledged: the loop is over, the caller may now
    /// release the browser session.
    Ack,
    /// Nothing buffered: wait for new messages.
    Idle,
}

/// The outcome of one browser fetch of a link target.
pub enum FetchOutcome {
    /// The rendered page: its title, its visible text, a screenshot.
    Success { title: String, content: String, screenshot: Vec<u8> },
    /// Navigation or extraction failed.
    Failure,
}

/// The singleton consumer of the enrichment queue.
pub struct Worker {
    phase: Phase,
    batch: Vec<LinkUrl>,
    session_open: bool,
}

impl View for Worker {
    type V = WorkerModel;

    closed spec fn view(&self) -> WorkerModel {
        WorkerModel {
            phase: self.phase,
            batch: self.batch@.map_values(|l: LinkUrl| l@),
            session_open: self.session_open,
        }
    }
}

impl Worker {
    /// A fresh worker that has just taken ownership of a started session.
    pub fn new() -> (w: Self)
        ensures
            w@.phase is Running,
            w@.batch =~= Seq::<LinkUrlModel>::empty(),
            w@.session_open,
    {
        let w = Worker { phase: Phase::Running, batch: Vec::new(), session_open: true };
        proof {
            assert(w@.batch =~= Seq::<LinkUrlModel>::empty());
        }
        w
    }

    pub fn phase(&self) -> (p: Phase)
        ensures
            p == self@.phase,
    {
        self.phase
    }

    pub fn session_open(&self) -> (s: bool)
        ensures
            s == self@.session_open,
    {
        self.session_open
    }

    /// One turn of the worker loop: finish the buffered batch first, then
    /// consume the oldest message. A stopped worker consumes nothing.
    pub fn next_step(&mut self, queue: &mut Queue, store: &LinkStore) -> (step: Step)
        ensures
            // the worker never gives up the session by itself
            final(self)@.session_open == old(self)@.session_open,
            // a stopped worker processes nothing further, queued or not
            old(self)@.phase is Stopped ==> {
                &&& step is Idle
                &&& final(self)@ == old(self)@
                &&& final(queue)@ == old(queue)@
            },
            // in-flight work first: fetch the oldest link of the batch
            old(self)@.phase is Running && old(self)@.batch.len() > 0 ==> {
                &&& step matches Step::Fetch(id, url) && id as int == old(self)@.batch[0].id
                    && url@ == old(self)@.batch[0].url
                &&& final(self)@.phase is Running
                &&& final(self)@.batch =~= old(self)@.batch.drop_first()
                &&& final(queue)@ == old(queue)@
            },
            // nothing buffered anywhere: wait
            old(self)@.phase is Running && old(self)@.batch.len() == 0 && old(queue)@.msgs.len() == 0 ==> {
                &&& step is Idle
                &&& final(self)@ == old(self)@
                &&& final(queue)@ == old(queue)@
            },
            // an enrichment request loads the article's pending links as
            // they are at dequeue time, not at submission time
            old(self)@.phase is Running && old(self)@.batch.len() == 0 && old(queue)@.msgs.len()
                > 0 ==> (old(queue)@.msgs[0] matches Message::Enrich(a) ==> {
                &&& step is Continue
                &&& final(self)@.phase is Running
                &&& final(self)@.batch =~= store@.pending_rows(a as int)
                &&& final(queue)@.msgs =~= old(queue)@.msgs.drop_first()
                &&& final(queue)@.cap == old(queue)@.cap
                &&& final(queue)@.closed == old(queue)@.closed
            }),
            // shutdown: acknowledge, stop, close the queue, keep the session
            old(self)@.phase is Running && old(self)@.batch.len() == 0 && old(queue)@.msgs.len() > 0 && old(queue)@.msgs[0] is Shutdown ==> {
                &&& step is Ack
                &&& final(self)@.phase is Stopped
                &&& final(self)@.batch =~= old(self)@.batch
                &&& final(self)@.session_open == old(self)@.session_open
                &&& final(queue)@.msgs =~= old(queue)@.msgs.drop_first()
                &&& final(queue)@.cap == old(queue)@.cap
                &&& final(queue)@.closed
            },
    {
        match self.phase {
            Phase::Stopped => Step::Idle,
            Phase::Running => {
                if self.batch.len() > 0 {
                    let l = self.batch.remove(0);
                    proof {
                        assert(self@.batch =~= old(self)@.batch.drop_first());
                    }
                    Step::Fetch(l.id, l.url)
                } else {
                    match queue.dequeue() {
                        None => Step::Idle,
                        Some(Message::Enrich(a)) => {
                            self.batch = store.get_link_urls(a);
                            Step::Continue
                        },
                        Some(Message::Shutdown) => {
                            self.phase = Phase::Stopped;
                            queue.close();
                            Step::Ack
                        },
                    }
                }
            },
        }
    }

    /// Release the browser session. This is the caller's action after the
    /// shutdown acknowledgment, never the worker's own: it demands that
    /// the worker has already stopped.
    pub fn release_session(&mut self)
        requires
            old(self)@.phase is Stopped,
        ensures
            final(self)@.phase == old(self)@.phase,
            final(self)@.batch == old(self)@.batch,
            !final(self)@.session_open,
    {
        self.session_open = false;
    }
}

/// Persist the outcome of one fetch. A failure leaves the store alone —
/// logged and skipped, no retry, no failure state, the row stays pending —
/// and a success stores title, text, detected language and screenshot on
/// the fetched row and clears its pending flag.
pub fn finish_fetch(store: &mut LinkStore, link_id: i32, outcome: FetchOutcome)
    requires
        old(store).wf(),
    ensures
        final(store).wf(),
        final(store)@.next_id == old(store)@.next_id,
        outcome is Failure ==> final(store)@ == old(store)@,
        outcome matches FetchOutcome::Success { title, content, screenshot }
            ==> final(store)@.rows =~= old(store)@.rows.map_values(
            enrich_if(
                link_id as int,
                title@,
                content@,
                lang_name(lang_class_of(content@)),
                screenshot@,
            ),
        ),
{
    match outcome {
        FetchOutcome::Failure => {},
        FetchOutcome::Success { title, content, screenshot } => {
            let language = detect_language(content.as_str());
            let language_name = language.to_owned();
            store.persist_enrichment(link_id, title, content, language_name, screenshot);
        },
    }
}

} // verus!
