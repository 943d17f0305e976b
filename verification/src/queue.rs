//! The bounded, best-effort enrichment queue.
//!
//! Producers submit article ids fire-and-forget: a full or closed queue
//! silently drops the submission ([`submit_spec`]), and the caller is never
//! told. Messages that were accepted are handed to the worker strictly in
//! submission order ([`lemma_fifo_order`]).

use vstd::prelude::*;

verus! {

/// A request consumed by the enrichment worker.
#[derive(Clone, Copy, PartialEq, Eq, Structural, Debug)]
pub enum Message {
    /// Process the pending links of this article.
    Enrich(i32),
    /// Stop the worker loop; the caller waits for the acknowledgment.
    Shutdown,
}

/// Mathematical model of the queue: buffered messages (oldest first),
/// capacity, and whether the receiving side is gone.
pub struct QueueModel {
    pub msgs: Seq<Message>,
    pub cap: nat,
    pub closed: bool,
}

/// Best-effort submission: a full or closed queue drops the message and
/// reports nothing.
pub open spec fn submit_spec(q: QueueModel, m: Message) -> QueueModel {
    if q.closed || q.msgs.len() >= q.cap {
        q
    } else {
        QueueModel { msgs: q.msgs.push(m), cap: q.cap, closed: q.closed }
    }
}

/// Successive best-effort submissions of a batch, oldest first.
pub open spec fn submit_all(q: QueueModel, ms: Seq<Message>) -> QueueModel
    decreases ms.len(),
{
    if ms.len() == 0 {
        q
    } else {
        submit_all(submit_spec(q, ms[0]), ms.drop_first())
    }
}

/// The enrichment message for an article id.
pub open spec fn enrich_msg() -> spec_fn(i32) -> Message {
    |x: i32| Message::Enrich(x)
}

/// Submitting a batch and then one more message is the batch followed by
/// that message.
pub proof fn lemma_submit_all_push(q: QueueModel, ms: Seq<Message>, m: Message)
    ensures
        submit_all(q, ms.push(m)) == submit_spec(submit_all(q, ms), m),
    decreases ms.len(),
{
    if ms.len() == 0 {
        assert(ms.push(m)[0] == m);
        assert(ms.push(m).drop_first() =~= Seq::<Message>::empty());
        assert(submit_all(q, ms.push(m)) == submit_all(
            submit_spec(q, m),
            Seq::<Message>::empty(),
        ));
        assert(submit_all(submit_spec(q, m), Seq::<Message>::empty()) == submit_spec(q, m));
        assert(submit_all(q, ms) == q);
    } else {
        assert(ms.push(m)[0] == ms[0]);
        assert(ms.push(m).drop_first() =~= ms.drop_first().push(m));
        lemma_submit_all_push(submit_spec(q, ms[0]), ms.drop_first(), m);
        assert(submit_all(q, ms.push(m)) == submit_all(
            submit_spec(q, ms[0]),
            ms.drop_first().push(m),
        ));
        assert(submit_all(q, ms) == submit_all(submit_spec(q, ms[0]), ms.drop_first()));
    }
}

/// The delivery channel between producers and the enrichment worker.
pub struct Queue {
    msgs: Vec<Message>,
    cap: usize,
    closed: bool,
}

impl View for Queue {
    type V = QueueModel;

    closed spec fn view(&self) -> QueueModel {
        QueueModel { msgs: self.msgs@, cap: self.cap as nat, closed: self.closed }
    }
}

impl Queue {
    pub fn new(capacity: usize) -> (q: Self)
        ensures
            q@.msgs =~= Seq::<Message>::empty(),
            q@.cap == capacity as nat,
            !q@.closed,
    {
        Queue { msgs: Vec::new(), cap: capacity, closed: false }
    }

    pub fn len(&self) -> (n: usize)
        ensures
            n as nat == self@.msgs.len(),
    {
        self.msgs.len()
    }

    pub fn capacity(&self) -> (n: usize)
        ensures
            n as nat == self@.cap,
    {
        self.cap
    }

    pub fn is_closed(&self) -> (c: bool)
        ensures
            c == self@.closed,
    {
        self.closed
    }

    /// Fire-and-forget submission of an enrichment request for an article.
    /// Never blocks and never reports failure: excess is dropped.
    pub fn submit(&mut self, article_id: i32)
        ensures
            final(self)@ == submit_spec(old(self)@, Message::Enrich(article_id)),
    {
        self.push_message(Message::Enrich(article_id));
    }

    /// Best-effort submission of the shutdown request; dropped like any
    /// other message when the queue is full or already closed.
    pub fn submit_shutdown(&mut self)
        ensures
            final(self)@ == submit_spec(old(self)@, Message::Shutdown),
    {
        self.push_message(Message::Shutdown);
    }

    fn push_message(&mut self, m: Message)
        ensures
            final(self)@ == submit_spec(old(self)@, m),
    {
        if !self.closed && self.msgs.len() < self.cap {
            self.msgs.push(m);
        }
    }

    /// Remove and return the oldest buffered message, if any.
    pub fn dequeue(&mut self) -> (m: Option<Message>)
        ensures
            old(self)@.msgs.len() == 0 ==> m is None && final(self)@ == old(self)@,
            old(self)@.msgs.len() > 0 ==> {
                &&& m == Some(old(self)@.msgs[0])
                &&& final(self)@.msgs =~= old(self)@.msgs.drop_first()
                &&& final(self)@.cap == old(self)@.cap
                &&& final(self)@.closed == old(self)@.closed
            },
    {
        if self.msgs.len() == 0 {
            None
        } else {
            let m = self.msgs.remove(0);
            Some(m)
        }
    }

    /// Close the queue: the receiver is gone, later submissions are dropped.
    pub fn close(&mut self)
        ensures
            final(self)@.closed,
            final(self)@.msgs == old(self)@.msgs,
            final(self)@.cap == old(self)@.cap,
    {
        self.closed = true;
    }
}

/// FIFO delivery: a batch submitted to an open queue with enough room is
/// appended behind the already buffered messages in submission order, so
/// the front-removing dequeue hands it back in exactly that order.
pub proof fn lemma_fifo_order(q: QueueModel, ms: Seq<Message>)
    requires
        !q.closed,
        q.msgs.len() + ms.len() <= q.cap,
    ensures
        submit_all(q, ms).msgs =~= q.msgs + ms,
        submit_all(q, ms).cap == q.cap,
        !submit_all(q, ms).closed,
    decreases ms.len(),
{
    if ms.len() == 0 {
        assert(q.msgs + ms =~= q.msgs);
    } else {
        let q1 = submit_spec(q, ms[0]);
        lemma_fifo_order(q1, ms.drop_first());
        assert(q.msgs.push(ms[0]) + ms.drop_first() =~= q.msgs + ms);
    }
}

} // verus!
