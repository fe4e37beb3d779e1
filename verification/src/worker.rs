//! The worker: one engine, many callers, one request at a time.
//!
//! Callers put messages into the worker's mailbox and get a ticket for each.
//! Whoever runs the engine takes one job after the other out of the mailbox,
//! oldest first, and gives the outcome of each generation back before taking
//! the next. The worker keeps the answers until their callers collect them.

use crate::engine::LlmManager;
use crate::error::ErrorKind;
use std::collections::VecDeque;
use vstd::prelude::*;
use vstd::string::*;

verus! {

/// What a caller can ask of the worker.
#[derive(Debug, PartialEq, Eq)]
pub enum WorkerMessage {
    /// Generate a text from the prompt.
    Generate { prompt: String },
    /// Say whether the engine is ready.
    CheckHealth,
    /// Stop taking messages.
    Shutdown,
}

/// [`WorkerMessage`] as a mathematical value.
pub enum MessageModel {
    Generate { prompt: Seq<char> },
    CheckHealth,
    Shutdown,
}

impl View for WorkerMessage {
    type V = MessageModel;

    open spec fn view(&self) -> MessageModel {
        match *self {
            WorkerMessage::Generate { prompt } => MessageModel::Generate { prompt: prompt@ },
            WorkerMessage::CheckHealth => MessageModel::CheckHealth,
            WorkerMessage::Shutdown => MessageModel::Shutdown,
        }
    }
}

/// Where the worker stands.
#[derive(Debug, Clone, Copy, PartialEq, Eq, Structural)]
pub enum WorkerStatus {
    /// The model is still loading; messages queue up.
    Starting,
    /// The engine is there, and messages are served.
    Running,
    /// The mailbox is closed for good.
    Closed,
}

/// What whoever runs the engine has to do next.
#[derive(Debug, PartialEq, Eq)]
pub enum Job {
    /// Run the engine on the prompt, then hand the outcome to `complete`.
    Generate { ticket: u64, prompt: String },
    /// Nothing is left to do: a health check was answered.
    Health { ticket: u64, ready: bool },
    /// Leave: the worker was shut down.
    Stop { ticket: u64 },
}

/// [`Job`] as a mathematical value.
pub enum JobModel {
    Generate { ticket: u64, prompt: Seq<char> },
    Health { ticket: u64, ready: bool },
    Stop { ticket: u64 },
}

impl View for Job {
    type V = JobModel;

    open spec fn view(&self) -> JobModel {
        match *self {
            Job::Generate { ticket, prompt } => JobModel::Generate { ticket, prompt: prompt@ },
            Job::Health { ticket, ready } => JobModel::Health { ticket, ready },
            Job::Stop { ticket } => JobModel::Stop { ticket },
        }
    }
}

/// One entry of the worker's record of what it served.
pub enum Served {
    /// The generation for this ticket began.
    Began { ticket: u64 },
    /// The generation for this ticket ended, and its reply was produced.
    Ended { ticket: u64 },
    /// The health check for this ticket was answered.
    Health { ticket: u64 },
    /// The shutdown with this ticket took effect.
    Stopped { ticket: u64 },
}

impl Served {
    /// The ticket of the message served.
    pub open spec fn ticket(self) -> u64 {
        match self {
            Served::Began { ticket } => ticket,
            Served::Ended { ticket } => ticket,
            Served::Health { ticket } => ticket,
            Served::Stopped { ticket } => ticket,
        }
    }

    /// Where the entry stands in time: tickets in their order, and the end
    /// of a generation after its beginning.
    pub open spec fn instant(self) -> int {
        2 * self.ticket() + if self is Ended {
            1int
        } else {
            0int
        }
    }

    /// Whether a reply is produced at this entry.
    pub open spec fn replies(self) -> bool {
        self is Ended || self is Health
    }
}

/// The text of a generation as a mathematical value.
pub open spec fn outcome_view(result: Result<String, ErrorKind>) -> Result<Seq<char>, ErrorKind> {
    match result {
        Ok(text) => Ok(text@),
        Err(kind) => Err(kind),
    }
}

/// An engine's outcome as the worker passes it on: a text as it is, a
/// failure wrapped as `Generation`.
pub open spec fn wrapped(result: Result<Seq<char>, ErrorKind>) -> Result<Seq<char>, ErrorKind> {
    match result {
        Ok(text) => Ok(text),
        Err(kind) => Err(ErrorKind::Generation(Box::new(kind))),
    }
}

/// Computes [`wrapped`].
pub fn wrap_outcome(result: Result<String, ErrorKind>) -> (r: Result<String, ErrorKind>)
    ensures
        outcome_view(r) == wrapped(outcome_view(result)),
{
    match result {
        Ok(text) => Ok(text),
        Err(kind) => Err(ErrorKind::Generation(Box::new(kind))),
    }
}

/// The place of the reply for `ticket` among `replies`.
pub open spec fn place_of<R>(replies: Seq<(u64, R)>, ticket: u64) -> Option<int> {
    if exists|i: int| 0 <= i < replies.len() && (#[trigger] replies[i]).0 == ticket {
        Some(choose|i: int| 0 <= i < replies.len() && (#[trigger] replies[i]).0 == ticket)
    } else {
        None
    }
}

/// A worker as a mathematical value.
pub struct WorkerModel {
    /// Where the worker stands.
    pub status: WorkerStatus,
    /// The engine, once the model has loaded.
    pub engine: Option<LlmManager>,
    /// The messages accepted and not yet served, oldest first.
    pub queue: Seq<MessageModel>,
    /// The number of messages accepted so far: the next ticket.
    pub accepted: u64,
    /// The ticket of the generation under way.
    pub current: Option<u64>,
    /// The texts not yet collected, each with its ticket.
    pub texts: Seq<(u64, Result<Seq<char>, ErrorKind>)>,
    /// The health answers not yet collected, each with its ticket.
    pub healths: Seq<(u64, bool)>,
    /// The tickets whose callers gave up before their reply was there.
    pub abandoned: Seq<u64>,
    /// What was served, in the order in which it was served.
    pub history: Seq<Served>,
}

impl WorkerModel {
    /// A worker whose model is about to load.
    pub open spec fn fresh() -> Self {
        WorkerModel {
            status: WorkerStatus::Starting,
            engine: None,
            queue: Seq::empty(),
            accepted: 0,
            current: None,
            texts: Seq::empty(),
            healths: Seq::empty(),
            abandoned: Seq::empty(),
            history: Seq::empty(),
        }
    }

    /// The ticket of the oldest message in the mailbox: tickets are handed
    /// out in the order of arrival, so the mailbox holds the latest ones.
    pub open spec fn head(self) -> int {
        self.accepted - self.queue.len()
    }

    /// Whether the message with this ticket still waits or is being served.
    pub open spec fn outstanding(self, ticket: u64) -> bool {
        self.head() <= ticket < self.accepted || self.current == Some(ticket)
    }

    /// Whether the worker has nothing under way.
    pub open spec fn idle(self) -> bool {
        self.current is None
    }

    /// What holds of every worker that `fresh` and the steps below lead to.
    pub open spec fn inv(self) -> bool {
        &&& self.queue.len() <= self.accepted
        &&& (self.status is Running <==> self.engine is Some)
        &&& (self.status is Starting ==> self.history.len() == 0 && self.head() == 0)
        &&& (!(self.status is Running) ==> self.current is None)
        &&& (self.status is Closed ==> self.queue.len() == 0 && self.abandoned.len() == 0)
        &&& (self.current matches Some(ticket) ==> self.history.len() > 0 && self.history.last()
            == (Served::Began { ticket }))
        &&& (self.current is None && self.history.len() > 0 ==> !(self.history.last() is Began))
        &&& (forall|i: int|
            0 <= i < self.history.len() ==> (#[trigger] self.history[i]).ticket() < self.head())
        &&& (forall|i: int, j: int|
            0 <= i < j < self.history.len() ==> (#[trigger] self.history[i]).instant() < (
            #[trigger] self.history[j]).instant())
        &&& (forall|i: int|
            0 <= i < self.history.len() - 1 && (#[trigger] self.history[i]) is Began
                ==> self.history[i + 1] == (Served::Ended { ticket: self.history[i].ticket() }))
        &&& (forall|i: int|
            0 <= i < self.history.len() && (#[trigger] self.history[i]) is Ended ==> i > 0
                && self.history[i - 1] == (Served::Began { ticket: self.history[i].ticket() }))
        &&& (forall|i: int|
            0 <= i < self.texts.len() ==> (#[trigger] self.texts[i]).0 < self.head() && Some(
                self.texts[i].0,
            ) != self.current)
        &&& (forall|i: int, j: int|
            0 <= i < j < self.texts.len() ==> (#[trigger] self.texts[i]).0 != (
            #[trigger] self.texts[j]).0)
        &&& (forall|i: int|
            0 <= i < self.healths.len() ==> (#[trigger] self.healths[i]).0 < self.head() && Some(
                self.healths[i].0,
            ) != self.current)
        &&& (forall|i: int, j: int|
            0 <= i < j < self.healths.len() ==> (#[trigger] self.healths[i]).0 != (
            #[trigger] self.healths[j]).0)
        &&& (forall|i: int|
            0 <= i < self.abandoned.len() ==> self.outstanding(#[trigger] self.abandoned[i]))
        &&& self.abandoned.no_duplicates()
    }

    /// The worker after the model's load: running with the engine, or closed
    /// without having served anything where there is none.
    pub open spec fn start(self, engine: Option<LlmManager>) -> Self {
        match engine {
            Some(_) => WorkerModel { status: WorkerStatus::Running, engine, ..self },
            None => self.close(),
        }
    }

    /// The worker once its mailbox is closed: what waited in it is gone.
    pub open spec fn close(self) -> Self {
        WorkerModel {
            status: WorkerStatus::Closed,
            engine: None,
            queue: Seq::empty(),
            abandoned: Seq::empty(),
            ..self
        }
    }

    /// The worker after a caller has sent `message`: a closed worker takes
    /// nothing, any other puts the message last.
    pub open spec fn submit(self, message: MessageModel) -> Self {
        if self.status is Closed {
            self
        } else {
            WorkerModel {
                queue: self.queue.push(message),
                accepted: (self.accepted + 1) as u64,
                ..self
            }
        }
    }

    /// Whether the worker can serve its oldest message now.
    pub open spec fn can_serve(self) -> bool {
        self.status is Running && self.current is None && self.queue.len() > 0
    }

    /// What serving the oldest message asks of whoever runs the engine.
    pub open spec fn job(self) -> JobModel {
        let ticket = self.head() as u64;
        match self.queue.first() {
            MessageModel::Generate { prompt } => JobModel::Generate { ticket, prompt },
            MessageModel::CheckHealth => JobModel::Health { ticket, ready: true },
            MessageModel::Shutdown => JobModel::Stop { ticket },
        }
    }

    /// The worker after it has taken its oldest message.
    pub open spec fn serve(self) -> Self {
        let ticket = self.head() as u64;
        let taken = WorkerModel {
            queue: self.queue.drop_first(),
            abandoned: self.abandoned.remove_value(ticket),
            ..self
        };
        match self.queue.first() {
            MessageModel::Generate { prompt } => WorkerModel {
                current: Some(ticket),
                abandoned: self.abandoned,
                history: self.history.push(Served::Began { ticket }),
                ..taken
            },
            MessageModel::CheckHealth => WorkerModel {
                healths: if self.abandoned.contains(ticket) {
                    self.healths
                } else {
                    self.healths.push((ticket, true))
                },
                history: self.history.push(Served::Health { ticket }),
                ..taken
            },
            MessageModel::Shutdown => WorkerModel {
                history: self.history.push(Served::Stopped { ticket }),
                ..taken.close()
            },
        }
    }

    /// The worker after the generation under way has come to `result`: the
    /// reply is kept for its caller, unless the caller gave up.
    pub open spec fn complete(self, result: Result<Seq<char>, ErrorKind>) -> Self {
        let ticket = self.current->0;
        WorkerModel {
            current: None,
            texts: if self.abandoned.contains(ticket) {
                self.texts
            } else {
                self.texts.push((ticket, wrapped(result)))
            },
            abandoned: self.abandoned.remove_value(ticket),
            history: self.history.push(Served::Ended { ticket }),
            ..self
        }
    }

    /// What the caller of a generation sees: nothing yet, the reply, or that
    /// the worker dropped the request.
    pub open spec fn seen_text(self, ticket: u64) -> Option<Result<Seq<char>, ErrorKind>> {
        match place_of(self.texts, ticket) {
            Some(i) => Some(self.texts[i].1),
            None => if self.outstanding(ticket) {
                None
            } else {
                Some(Err(ErrorKind::WorkerDisconnected))
            },
        }
    }

    /// The worker after the caller of a generation has looked: a reply is
    /// collected once.
    pub open spec fn collect_text(self, ticket: u64) -> Self {
        match place_of(self.texts, ticket) {
            Some(i) => WorkerModel { texts: self.texts.remove(i), ..self },
            None => self,
        }
    }

    /// What the caller of a health check sees: nothing yet, the answer, or
    /// that the worker dropped the request.
    pub open spec fn seen_health(self, ticket: u64) -> Option<Result<bool, ErrorKind>> {
        match place_of(self.healths, ticket) {
            Some(i) => Some(Ok(self.healths[i].1)),
            None => if self.outstanding(ticket) {
                None
            } else {
                Some(Err(ErrorKind::WorkerDisconnected))
            },
        }
    }

    /// The worker after the caller of a health check has looked.
    pub open spec fn collect_health(self, ticket: u64) -> Self {
        match place_of(self.healths, ticket) {
            Some(i) => WorkerModel { healths: self.healths.remove(i), ..self },
            None => self,
        }
    }

    /// The worker after the caller with this ticket has given up: a reply
    /// that is there is thrown away, one still to come will be.
    pub open spec fn abandon(self, ticket: u64) -> Self {
        let texts = match place_of(self.texts, ticket) {
            Some(i) => self.texts.remove(i),
            None => self.texts,
        };
        let healths = match place_of(self.healths, ticket) {
            Some(i) => self.healths.remove(i),
            None => self.healths,
        };
        WorkerModel {
            texts,
            healths,
            abandoned: if self.outstanding(ticket) && !self.abandoned.contains(ticket) {
                self.abandoned.push(ticket)
            } else {
                self.abandoned
            },
            ..self
        }
    }
}

/// A reply of the engine that waits for its caller.
#[derive(Debug)]
struct TextReply {
    ticket: u64,
    result: Result<String, ErrorKind>,
}

/// An answer to a health check that waits for its caller.
#[derive(Debug, Clone, Copy)]
struct HealthReply {
    ticket: u64,
    ready: bool,
}

/// The mailbox of one engine, and the answers that wait for their callers.
pub struct Worker {
    status: WorkerStatus,
    engine: Option<LlmManager>,
    queue: VecDeque<WorkerMessage>,
    accepted: u64,
    current: Option<u64>,
    texts: Vec<TextReply>,
    healths: Vec<HealthReply>,
    abandoned: Vec<u64>,
    history: Ghost<Seq<Served>>,
}

impl View for Worker {
    type V = WorkerModel;

    closed spec fn view(&self) -> WorkerModel {
        WorkerModel {
            status: self.status,
            engine: self.engine,
            queue: Seq::new(self.queue@.len(), |i: int| self.queue@[i]@),
            accepted: self.accepted,
            current: self.current,
            texts: Seq::new(
                self.texts@.len(),
                |i: int| (self.texts@[i].ticket, outcome_view(self.texts@[i].result)),
            ),
            healths: Seq::new(
                self.healths@.len(),
                |i: int| (self.healths@[i].ticket, self.healths@[i].ready),
            ),
            abandoned: self.abandoned@,
            history: self.history@,
        }
    }
}

/// Takes the first `ticket` out of `list` and says whether there was one.
fn strike(list: &mut Vec<u64>, ticket: u64) -> (found: bool)
    ensures
        found == old(list)@.contains(ticket),
        final(list)@ == old(list)@.remove_value(ticket),
{
    let mut i: usize = 0;
    while i < list.len()
        invariant
            list@ == old(list)@,
            i <= list.len(),
            forall|k: int| 0 <= k < i ==> list@[k] != ticket,
        decreases list.len() - i,
    {
        if list[i] == ticket {
            proof {
                list@.index_of_first_ensures(ticket);
                assert(list@[i as int] == ticket);
                assert(list@.index_of_first(ticket) == Some(i as int));
            }
            list.remove(i);
            return true;
        }
        i = i + 1;
    }
    proof {
        list@.index_of_first_ensures(ticket);
    }
    false
}

impl Worker {
    /// The worker is one that `new` and the steps below lead to.
    pub open spec fn wf(&self) -> bool {
        self@.inv()
    }

    /// A worker whose model is about to load: it takes messages and serves
    /// none yet.
    pub fn new() -> (worker: Self)
        ensures
            worker.wf(),
            worker@ == WorkerModel::fresh(),
    {
        let worker = Worker {
            status: WorkerStatus::Starting,
            engine: None,
            queue: VecDeque::new(),
            accepted: 0,
            current: None,
            texts: Vec::new(),
            healths: Vec::new(),
            abandoned: Vec::new(),
            history: Ghost(Seq::empty()),
        };
        assert(worker@.queue == Seq::<MessageModel>::empty());
        assert(worker@.texts == Seq::<(u64, Result<Seq<char>, ErrorKind>)>::empty());
        assert(worker@.healths == Seq::<(u64, bool)>::empty());
        worker
    }

    /// Where the worker stands.
    pub fn status(&self) -> (r: WorkerStatus)
        ensures
            r == self@.status,
    {
        self.status
    }

    /// The engine, once the model has loaded.
    pub fn engine(&self) -> (r: Option<LlmManager>)
        ensures
            r == self@.engine,
    {
        self.engine
    }

    /// The number of messages accepted so far.
    pub fn accepted(&self) -> (r: u64)
        ensures
            r == self@.accepted,
    {
        self.accepted
    }

    /// The number of messages that wait.
    pub fn queued(&self) -> (r: usize)
        ensures
            r == self@.queue.len(),
    {
        self.queue.len()
    }

    /// Whether a generation is under way.
    pub fn is_busy(&self) -> (r: bool)
        ensures
            r == !self@.idle(),
    {
        self.current.is_some()
    }

    /// Takes the outcome of the model's load. With an engine the worker
    /// starts to serve. Without one it closes and never serves: what waits in
    /// the mailbox is dropped, and nothing more is accepted.
    pub fn start(&mut self, engine: Result<LlmManager, ErrorKind>)
        requires
            old(self).wf(),
            old(self)@.status is Starting,
        ensures
            final(self).wf(),
            final(self)@ == old(self)@.start(engine.ok()),
    {
        match engine {
            Ok(ready) => {
                self.status = WorkerStatus::Running;
                self.engine = Some(ready);
                assert(self@.queue == old(self)@.queue);
                assert(self@.texts == old(self)@.texts);
                assert(self@.healths == old(self)@.healths);
            },
            Err(_) => {
                self.shut();
            },
        }
    }

    fn shut(&mut self)
        requires
            old(self).wf(),
            old(self)@.current is None,
        ensures
            final(self).wf(),
            final(self)@ == old(self)@.close(),
    {
        self.status = WorkerStatus::Closed;
        self.engine = None;
        self.queue.clear();
        self.abandoned.clear();
        assert(self@.queue == Seq::<MessageModel>::empty());
        assert(self@.texts == old(self)@.texts);
        assert(self@.healths == old(self)@.healths);
    }

    /// Puts `message` into the mailbox and returns its ticket. This never
    /// waits. A closed worker takes nothing: the caller gets
    /// `WorkerUnavailable`.
    pub fn submit(&mut self, message: WorkerMessage) -> (r: Result<u64, ErrorKind>)
        requires
            old(self).wf(),
            old(self)@.accepted < u64::MAX,
        ensures
            final(self).wf(),
            final(self)@ == old(self)@.submit(message@),
            old(self)@.status is Closed ==> r == Err::<u64, ErrorKind>(
                ErrorKind::WorkerUnavailable,
            ),
            !(old(self)@.status is Closed) ==> r == Ok::<u64, ErrorKind>(old(self)@.accepted),
    {
        match self.status {
            WorkerStatus::Closed => Err(ErrorKind::WorkerUnavailable),
            _ => {
                let ticket = self.accepted;
                self.queue.push_back(message);
                self.accepted = ticket + 1;
                proof {
                    assert(self@.queue == old(self)@.queue.push(message@));
                    assert(self@.texts == old(self)@.texts);
                    assert(self@.healths == old(self)@.healths);
                    assert(self@.head() == old(self)@.head());
                }
                Ok(ticket)
            },
        }
    }

    /// Asks for a text: `submit` with a `Generate` message.
    pub fn submit_generation(&mut self, prompt: &str) -> (r: Result<u64, ErrorKind>)
        requires
            old(self).wf(),
            old(self)@.accepted < u64::MAX,
        ensures
            final(self).wf(),
            final(self)@ == old(self)@.submit(MessageModel::Generate { prompt: prompt@ }),
            old(self)@.status is Closed ==> r == Err::<u64, ErrorKind>(
                ErrorKind::WorkerUnavailable,
            ),
            !(old(self)@.status is Closed) ==> r == Ok::<u64, ErrorKind>(old(self)@.accepted),
    {
        self.submit(WorkerMessage::Generate { prompt: prompt.to_owned() })
    }

    /// Asks whether the engine is ready: `submit` with a `CheckHealth`
    /// message.
    pub fn check_health(&mut self) -> (r: Result<u64, ErrorKind>)
        requires
            old(self).wf(),
            old(self)@.accepted < u64::MAX,
        ensures
            final(self).wf(),
            final(self)@ == old(self)@.submit(MessageModel::CheckHealth),
            old(self)@.status is Closed ==> r == Err::<u64, ErrorKind>(
                ErrorKind::WorkerUnavailable,
            ),
            !(old(self)@.status is Closed) ==> r == Ok::<u64, ErrorKind>(old(self)@.accepted),
    {
        self.submit(WorkerMessage::CheckHealth)
    }

    /// Asks the worker to stop: `submit` with a `Shutdown` message.
    pub fn shutdown(&mut self) -> (r: Result<u64, ErrorKind>)
        requires
            old(self).wf(),
            old(self)@.accepted < u64::MAX,
        ensures
            final(self).wf(),
            final(self)@ == old(self)@.submit(MessageModel::Shutdown),
            old(self)@.status is Closed ==> r == Err::<u64, ErrorKind>(
                ErrorKind::WorkerUnavailable,
            ),
            !(old(self)@.status is Closed) ==> r == Ok::<u64, ErrorKind>(old(self)@.accepted),
    {
        self.submit(WorkerMessage::Shutdown)
    }

    /// Takes the oldest message out of the mailbox and says what it asks
    /// for. There is nothing to take while the model loads, while a
    /// generation is under way, when the mailbox is empty, and once the
    /// worker is closed.
    ///
    /// A health check is answered on the spot. A shutdown closes the worker:
    /// what waits behind it is dropped.
    pub fn next_job(&mut self) -> (job: Option<Job>)
        requires
            old(self).wf(),
        ensures
            final(self).wf(),
            !old(self)@.can_serve() ==> job is None && final(self)@ == old(self)@,
            old(self)@.can_serve() ==> final(self)@ == old(self)@.serve() && (job matches Some(j)
                && j@ == old(self)@.job()),
    {
        match self.status {
            WorkerStatus::Running => {},
            _ => {
                return None;
            },
        }
        if self.current.is_some() || self.queue.len() == 0 {
            return None;
        }
        let ticket = self.accepted - self.queue.len() as u64;
        let ghost before = self@;
        let message = self.queue.pop_front().unwrap();
        assert(message@ == before.queue.first());
        assert(self@.queue == before.queue.drop_first());
        assert(self@.texts == before.texts);
        assert(self@.healths == before.healths);
        match message {
            WorkerMessage::Generate { prompt } => {
                self.current = Some(ticket);
                proof {
                    self.history@ = self.history@.push(Served::Began { ticket });
                    assert(self@.queue == before.queue.drop_first());
                    assert(self@.texts == before.texts);
                    assert(self@.healths == before.healths);
                }
                Some(Job::Generate { ticket, prompt })
            },
            WorkerMessage::CheckHealth => {
                let ready = match &self.engine {
                    Some(engine) => engine.is_ready(),
                    None => false,
                };
                let gone = strike(&mut self.abandoned, ticket);
                if !gone {
                    self.healths.push(HealthReply { ticket, ready });
                }
                proof {
                    self.history@ = self.history@.push(Served::Health { ticket });
                    assert(self@.queue == before.queue.drop_first());
                    assert(self@.texts == before.texts);
                    if gone {
                        assert(self@.healths == before.healths);
                    } else {
                        assert(self@.healths == before.healths.push((ticket, true)));
                    }
                    lemma_without(before.abandoned, ticket);
                }
                Some(Job::Health { ticket, ready })
            },
            WorkerMessage::Shutdown => {
                proof {
                    lemma_without(before.abandoned, ticket);
                }
                self.status = WorkerStatus::Closed;
                self.engine = None;
                self.queue.clear();
                self.abandoned.clear();
                proof {
                    self.history@ = self.history@.push(Served::Stopped { ticket });
                    assert(self@.queue == Seq::<MessageModel>::empty());
                    assert(self@.texts == before.texts);
                    assert(self@.healths == before.healths);
                }
                Some(Job::Stop { ticket })
            },
        }
    }

    /// Takes the outcome of the generation under way. A text is kept for the
    /// caller as it is, a failure wrapped as `Generation`; where the caller
    /// has given up, the reply is dropped, which is no error. The worker is
    /// free for the next message.
    pub fn complete(&mut self, result: Result<String, ErrorKind>)
        requires
            old(self).wf(),
            !old(self)@.idle(),
        ensures
            final(self).wf(),
            final(self)@ == old(self)@.complete(outcome_view(result)),
    {
        let ghost before = self@;
        let ticket = self.current.unwrap();
        let gone = strike(&mut self.abandoned, ticket);
        let reply = wrap_outcome(result);
        if !gone {
            self.texts.push(TextReply { ticket, result: reply });
        }
        self.current = None;
        proof {
            self.history@ = self.history@.push(Served::Ended { ticket });
            assert(self@.queue == before.queue);
            assert(self@.healths == before.healths);
            if gone {
                assert(self@.texts == before.texts);
            } else {
                assert(self@.texts == before.texts.push((ticket, wrapped(outcome_view(result)))));
            }
            lemma_without(before.abandoned, ticket);
        }
    }

    /// Looks for the reply to a generation, and takes it if it is there.
    /// `None` says that the request still waits or is being served. A request
    /// that the worker dropped, or never had, gives `WorkerDisconnected`.
    pub fn poll_generation(&mut self, ticket: u64) -> (r: Option<Result<String, ErrorKind>>)
        requires
            old(self).wf(),
        ensures
            final(self).wf(),
            final(self)@ == old(self)@.collect_text(ticket),
            match r {
                Some(result) => Some(outcome_view(result)),
                None => None,
            } == old(self)@.seen_text(ticket),
    {
        let ghost before = self@;
        let mut i: usize = 0;
        while i < self.texts.len()
            invariant
                *self == *old(self),
                before == self@,
                before.inv(),
                i <= self.texts.len(),
                forall|k: int| 0 <= k < i ==> self.texts@[k].ticket != ticket,
            decreases self.texts.len() - i,
        {
            if self.texts[i].ticket == ticket {
                proof {
                    assert(before.texts[i as int].0 == ticket);
                    lemma_place_of(before.texts, ticket, i as int);
                }
                let reply = self.texts.remove(i);
                proof {
                    assert(self@.texts == before.texts.remove(i as int));
                    assert(self@.queue == before.queue);
                    assert(self@.healths == before.healths);
                }
                return Some(reply.result);
            }
            i = i + 1;
        }
        proof {
            assert(place_of(before.texts, ticket) is None) by {
                if place_of(before.texts, ticket) is Some {
                    let k = place_of(before.texts, ticket)->0;
                    assert(before.texts[k].0 == ticket);
                    assert(self.texts@[k].ticket == ticket);
                }
            }
        }
        if self.is_outstanding(ticket) {
            None
        } else {
            Some(Err(ErrorKind::WorkerDisconnected))
        }
    }

    /// Looks for the answer to a health check, and takes it if it is there.
    /// `None` says that the request still waits. A request that the worker
    /// dropped, or never had, gives `WorkerDisconnected`.
    pub fn poll_health(&mut self, ticket: u64) -> (r: Option<Result<bool, ErrorKind>>)
        requires
            old(self).wf(),
        ensures
            final(self).wf(),
            final(self)@ == old(self)@.collect_health(ticket),
            r == old(self)@.seen_health(ticket),
    {
        let ghost before = self@;
        let mut i: usize = 0;
        while i < self.healths.len()
            invariant
                *self == *old(self),
                before == self@,
                before.inv(),
                i <= self.healths.len(),
                forall|k: int| 0 <= k < i ==> self.healths@[k].ticket != ticket,
            decreases self.healths.len() - i,
        {
            if self.healths[i].ticket == ticket {
                proof {
                    assert(before.healths[i as int].0 == ticket);
                    lemma_place_of(before.healths, ticket, i as int);
                }
                let reply = self.healths.remove(i);
                proof {
                    assert(self@.healths == before.healths.remove(i as int));
                    assert(self@.queue == before.queue);
                    assert(self@.texts == before.texts);
                }
                return Some(Ok(reply.ready));
            }
            i = i + 1;
        }
        proof {
            assert(place_of(before.healths, ticket) is None) by {
                if place_of(before.healths, ticket) is Some {
                    let k = place_of(before.healths, ticket)->0;
                    assert(before.healths[k].0 == ticket);
                    assert(self.healths@[k].ticket == ticket);
                }
            }
        }
        if self.is_outstanding(ticket) {
            None
        } else {
            Some(Err(ErrorKind::WorkerDisconnected))
        }
    }

    /// Whether the message with this ticket still waits or is being served.
    pub fn is_outstanding(&self, ticket: u64) -> (r: bool)
        requires
            self.wf(),
        ensures
            r == self@.outstanding(ticket),
    {
        let head = self.accepted - self.queue.len() as u64;
        (head <= ticket && ticket < self.accepted) || match self.current {
            Some(current) => current == ticket,
            None => false,
        }
    }

    /// Notes that the caller with this ticket has given up. Its request is
    /// served all the same when its turn comes; only the reply goes nowhere.
    pub fn abandon(&mut self, ticket: u64)
        requires
            old(self).wf(),
        ensures
            final(self).wf(),
            final(self)@ == old(self)@.abandon(ticket),
    {
        let ghost before = self@;
        let _ = self.poll_generation(ticket);
        let _ = self.poll_health(ticket);
        assert(self@.texts == before.abandon(ticket).texts);
        assert(self@.healths == before.abandon(ticket).healths);
        if self.is_outstanding(ticket) {
            let mut known = false;
            let mut i: usize = 0;
            while i < self.abandoned.len()
                invariant
                    i <= self.abandoned.len(),
                    known == self.abandoned@.take(i as int).contains(ticket),
                decreases self.abandoned.len() - i,
            {
                if self.abandoned[i] == ticket {
                    known = true;
                }
                proof {
                    let a = self.abandoned@.take(i as int);
                    let b = self.abandoned@.take(i + 1);
                    assert(b == a.push(self.abandoned@[i as int]));
                    if a.contains(ticket) {
                        let k = choose|k: int| 0 <= k < a.len() && a[k] == ticket;
                        assert(b[k] == ticket);
                    }
                    if b.contains(ticket) && self.abandoned@[i as int] != ticket {
                        let k = choose|k: int| 0 <= k < b.len() && b[k] == ticket;
                        assert(a[k] == ticket);
                    }
                    if self.abandoned@[i as int] == ticket {
                        assert(b[i as int] == ticket);
                    }
                }
                i = i + 1;
            }
            assert(self.abandoned@.take(self.abandoned@.len() as int) == self.abandoned@);
            if !known {
                self.abandoned.push(ticket);
                proof {
                    assert(self@.queue == before.queue);
                    assert(self@.texts == before.abandon(ticket).texts);
                    assert(self@.healths == before.abandon(ticket).healths);
                }
            }
        }
    }
}

/// The reply with a ticket stands where that ticket is found.
proof fn lemma_place_of<R>(replies: Seq<(u64, R)>, ticket: u64, i: int)
    requires
        0 <= i < replies.len(),
        replies[i].0 == ticket,
        forall|a: int, b: int|
            0 <= a < b < replies.len() ==> (#[trigger] replies[a]).0 != (#[trigger] replies[b]).0,
    ensures
        place_of(replies, ticket) == Some(i),
{
    let found = choose|k: int| 0 <= k < replies.len() && (#[trigger] replies[k]).0 == ticket;
    if found < i {
        assert(replies[found].0 != replies[i].0);
    }
    if i < found {
        assert(replies[i].0 != replies[found].0);
    }
}

/// A list without duplicates that loses one ticket keeps all the others, and
/// has no duplicates.
proof fn lemma_without(list: Seq<u64>, ticket: u64)
    requires
        list.no_duplicates(),
    ensures
        list.remove_value(ticket).no_duplicates(),
        !list.remove_value(ticket).contains(ticket),
        forall|other: u64|
            other != ticket ==> (#[trigger] list.remove_value(ticket).contains(other)
                <==> list.contains(other)),
        forall|i: int|
            0 <= i < list.remove_value(ticket).len() ==> list.contains(
                #[trigger] list.remove_value(ticket)[i],
            ),
{
    list.index_of_first_ensures(ticket);
    if list.contains(ticket) {
        let at = list.index_of_first(ticket)->0;
        let rest = list.remove(at);
        assert forall|i: int| 0 <= i < rest.len() implies list.contains(#[trigger] rest[i])
            && rest[i] != ticket by {
            if i < at {
                assert(rest[i] == list[i]);
            } else {
                assert(rest[i] == list[i + 1]);
            }
        }
        assert forall|other: u64| other != ticket && list.contains(other) implies rest.contains(
            other,
        ) by {
            let k = choose|k: int| 0 <= k < list.len() && list[k] == other;
            if k < at {
                assert(rest[k] == other);
            } else {
                assert(rest[k - 1] == other);
            }
        }
        assert forall|i: int, j: int| 0 <= i < j < rest.len() implies rest[i] != rest[j] by {
            let a = if i < at {
                i
            } else {
                i + 1
            };
            let b = if j < at {
                j
            } else {
                j + 1
            };
            assert(rest[i] == list[a] && rest[j] == list[b]);
        }
    }
}

/// Replies come in the order in which their requests were accepted: of two
/// replies, the one produced first belongs to the lower ticket.
pub proof fn law_fifo(worker: WorkerModel, first: int, second: int)
    requires
        worker.inv(),
        0 <= first < second < worker.history.len(),
        worker.history[first].replies(),
        worker.history[second].replies(),
    ensures
        worker.history[first].ticket() < worker.history[second].ticket(),
{
    let a = worker.history[first];
    let b = worker.history[second];
    assert(a.instant() < b.instant());
    if a.ticket() == b.ticket() {
        assert(b is Ended);
        assert(worker.history[second - 1] is Began);
        if first < second - 1 {
            assert(worker.history[first].instant() < worker.history[second - 1].instant());
        }
    }
}

/// No two generations overlap: one that began has ended before the next
/// begins.
pub proof fn law_exclusion(worker: WorkerModel, first: int, second: int)
    requires
        worker.inv(),
        0 <= first < second < worker.history.len(),
        worker.history[first] is Began,
        worker.history[second] is Began,
    ensures
        first + 1 < second,
        worker.history[first + 1] == (Served::Ended { ticket: worker.history[first].ticket() }),
{
    assert(worker.history[first + 1] is Ended);
}

/// At most one generation is under way, and it is the one that began last.
pub proof fn law_one_at_a_time(worker: WorkerModel)
    requires
        worker.inv(),
    ensures
        forall|i: int|
            0 <= i < worker.history.len() && (#[trigger] worker.history[i]) is Began ==> (
            worker.current == Some(worker.history[i].ticket()) && i == worker.history.len() - 1)
                || (i + 1 < worker.history.len() && worker.history[i + 1] is Ended),
{
    assert forall|i: int|
        0 <= i < worker.history.len() && (#[trigger] worker.history[i]) is Began implies (
    worker.current == Some(worker.history[i].ticket()) && i == worker.history.len() - 1) || (i + 1
        < worker.history.len() && worker.history[i + 1] is Ended) by {
        if i == worker.history.len() - 1 {
            assert(worker.history.last() is Began);
        }
    }
}

/// Every step leads from a worker as it should be to another: the laws
/// above hold of every worker that the steps can lead to.
pub proof fn law_invariant(
    worker: WorkerModel,
    engine: Option<LlmManager>,
    message: MessageModel,
    result: Result<Seq<char>, ErrorKind>,
    ticket: u64,
)
    requires
        worker.inv(),
    ensures
        WorkerModel::fresh().inv(),
        worker.status is Starting ==> worker.start(engine).inv(),
        worker.accepted < u64::MAX ==> worker.submit(message).inv(),
        worker.can_serve() ==> worker.serve().inv(),
        !worker.idle() ==> worker.complete(result).inv(),
        worker.collect_text(ticket).inv(),
        worker.collect_health(ticket).inv(),
        worker.abandon(ticket).inv(),
{
    if worker.accepted < u64::MAX {
        assert(worker.submit(message).head() == worker.head() || worker.status is Closed);
    }
    if worker.can_serve() {
        lemma_without(worker.abandoned, worker.head() as u64);
    }
    if !worker.idle() {
        lemma_without(worker.abandoned, worker.current->0);
    }
    lemma_collect(worker.texts, ticket);
    lemma_collect(worker.healths, ticket);
}

/// Replies that differ in their tickets still do once one is taken out.
proof fn lemma_collect<R>(replies: Seq<(u64, R)>, ticket: u64)
    requires
        forall|a: int, b: int|
            0 <= a < b < replies.len() ==> (#[trigger] replies[a]).0 != (#[trigger] replies[b]).0,
    ensures
        place_of(replies, ticket) matches Some(i) ==> {
            let rest = replies.remove(i);
            &&& 0 <= i < replies.len()
            &&& rest.len() == replies.len() - 1
            &&& forall|k: int| 0 <= k < rest.len() ==> replies.contains(#[trigger] rest[k])
            &&& forall|a: int, b: int|
                0 <= a < b < rest.len() ==> (#[trigger] rest[a]).0 != (#[trigger] rest[b]).0
        },
{
    if place_of(replies, ticket) is Some {
        let i = place_of(replies, ticket)->0;
        let rest = replies.remove(i);
        assert forall|k: int| 0 <= k < rest.len() implies replies.contains(#[trigger] rest[k]) by {
            if k < i {
                assert(rest[k] == replies[k]);
            } else {
                assert(rest[k] == replies[k + 1]);
            }
        }
        assert forall|a: int, b: int| 0 <= a < b < rest.len() implies (#[trigger] rest[a]).0 != (
        #[trigger] rest[b]).0 by {
            let x = if a < i {
                a
            } else {
                a + 1
            };
            let y = if b < i {
                b
            } else {
                b + 1
            };
            assert(rest[a] == replies[x] && rest[b] == replies[y]);
        }
    }
}

} // verus!
