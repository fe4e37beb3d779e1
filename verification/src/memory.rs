//! The conversation as the assistant remembers it: the latest messages,
//! and no more than fit.

use crate::clock::timestamp_now;
use std::collections::VecDeque;
use vstd::prelude::*;
use vstd::string::*;

verus! {

/// The messages that are kept at most.
pub const MAX_MESSAGES: usize = 50;

/// One message of the conversation.
#[derive(Debug)]
struct Message {
    role: String,
    content: String,
    timestamp: String,
}

/// The latest `n` of `messages`, or all of them where there are fewer.
pub open spec fn latest<T>(messages: Seq<T>, n: nat) -> Seq<T> {
    if messages.len() > n {
        messages.skip(messages.len() - n)
    } else {
        messages
    }
}

/// A message as a line: who spoke, a colon and a blank, and what was said.
pub open spec fn line(message: (Seq<char>, Seq<char>)) -> Seq<char> {
    message.0 + seq![':', ' '] + message.1
}

/// Messages as lines, a line break between any two.
pub open spec fn transcript(messages: Seq<(Seq<char>, Seq<char>)>) -> Seq<char>
    decreases messages.len(),
{
    if messages.len() == 0 {
        Seq::empty()
    } else if messages.len() == 1 {
        line(messages.first())
    } else {
        transcript(messages.drop_last()) + seq!['\n'] + line(messages.last())
    }
}

/// The latest messages of a conversation, oldest first.
#[derive(Debug)]
pub struct MemoryManager {
    messages: VecDeque<Message>,
    max_messages: usize,
}

impl View for MemoryManager {
    /// Who spoke and what was said, for each message, oldest first.
    type V = Seq<(Seq<char>, Seq<char>)>;

    closed spec fn view(&self) -> Seq<(Seq<char>, Seq<char>)> {
        Seq::new(
            self.messages@.len(),
            |i: int| (self.messages@[i].role@, self.messages@[i].content@),
        )
    }
}

impl MemoryManager {
    /// The messages that are kept at most.
    pub closed spec fn capacity(&self) -> nat {
        self.max_messages as nat
    }

    /// The times at which the messages were added, as they were given.
    pub closed spec fn times(&self) -> Seq<Seq<char>> {
        Seq::new(self.messages@.len(), |i: int| self.messages@[i].timestamp@)
    }

    /// No more messages are kept than fit.
    pub open spec fn wf(&self) -> bool {
        self@.len() <= self.capacity() && self.times().len() == self@.len()
    }

    /// A memory without messages, for the latest fifty.
    pub fn new() -> (r: Self)
        ensures
            r.wf(),
            r@.len() == 0,
            r.capacity() == MAX_MESSAGES,
    {
        MemoryManager { messages: VecDeque::new(), max_messages: MAX_MESSAGES }
    }

    /// Adds a message with the time at which it came: it is the latest now,
    /// and the oldest ones leave where more are there than fit.
    pub fn add_message_at(&mut self, role: &str, content: &str, timestamp: &str)
        requires
            old(self).wf(),
        ensures
            final(self).wf(),
            final(self).capacity() == old(self).capacity(),
            final(self)@ == latest(old(self)@.push((role@, content@)), old(self).capacity()),
            final(self).times() == latest(old(self).times().push(timestamp@), old(self).capacity()),
    {
        let message = Message {
            role: role.to_owned(),
            content: content.to_owned(),
            timestamp: timestamp.to_owned(),
        };
        self.messages.push_back(message);
        assert(self@ == old(self)@.push((role@, content@)));
        assert(self.times() == old(self).times().push(timestamp@));
        while self.messages.len() > self.max_messages
            invariant
                self.max_messages == old(self).max_messages,
                self@.len() <= old(self)@.len() + 1,
                latest(self@, self.capacity()) == latest(
                    old(self)@.push((role@, content@)),
                    self.capacity(),
                ),
                latest(self.times(), self.capacity()) == latest(
                    old(self).times().push(timestamp@),
                    self.capacity(),
                ),
                self.times().len() == self@.len(),
            decreases self.messages.len(),
        {
            let ghost before = self@;
            let ghost times = self.times();
            self.messages.pop_front();
            assert(self@ == before.drop_first());
            assert(self.times() == times.drop_first());
            assert(latest(self@, self.capacity()) == latest(before, self.capacity()));
            assert(latest(self.times(), self.capacity()) == latest(times, self.capacity()));
        }
    }

    /// Adds a message that comes now.
    pub fn add_message(&mut self, role: &str, content: &str)
        requires
            old(self).wf(),
        ensures
            final(self).wf(),
            final(self).capacity() == old(self).capacity(),
            final(self)@ == latest(old(self)@.push((role@, content@)), old(self).capacity()),
    {
        let timestamp = timestamp_now();
        self.add_message_at(role, content, timestamp.as_str());
    }

    /// The latest `n` messages as lines, oldest first.
    pub fn get_recent_context(&self, n: usize) -> (r: String)
        ensures
            r@ == transcript(latest(self@, n as nat)),
    {
        let len = self.messages.len();
        let start = if len > n {
            len - n
        } else {
            0
        };
        let ghost wanted = latest(self@, n as nat);
        assert(wanted == self@.skip(start as int));
        let mut text = String::new();
        let mut i = start;
        while i < len
            invariant
                len == self.messages.len(),
                start <= i <= len,
                wanted == self@.skip(start as int),
                text@ == transcript(wanted.take(i - start)),
            decreases len - i,
        {
            let ghost done = wanted.take(i - start);
            let ghost next = wanted.take(i - start + 1);
            assert(next.drop_last() == done);
            assert(next.last() == self@[i as int]);
            if i > start {
                text.append("\n");
            }
            let message = &self.messages[i];
            text.append(message.role.as_str());
            text.append(": ");
            text.append(message.content.as_str());
            assert(text@ =~= transcript(next)) by {
                reveal_strlit(": ");
                reveal_strlit("\n");
                assert(": "@ =~= seq![':', ' ']);
                assert("\n"@ =~= seq!['\n']);
                assert(line(next.last()) =~= message.role@ + ": "@ + message.content@);
                if i > start {
                    assert(next.len() > 1);
                    assert(text@ =~= transcript(done) + seq!['\n'] + line(next.last()));
                } else {
                    assert(next.len() == 1);
                    assert(next.first() == next.last());
                    assert(done.len() == 0);
                }
            }
            i = i + 1;
        }
        assert(wanted.take(len - start) == wanted);
        text
    }

    /// Forgets every message.
    pub fn clear(&mut self)
        requires
            old(self).wf(),
        ensures
            final(self).wf(),
            final(self)@.len() == 0,
            final(self).capacity() == old(self).capacity(),
    {
        self.messages.clear();
    }

    /// The number of messages kept.
    pub fn message_count(&self) -> (r: usize)
        ensures
            r == self@.len(),
    {
        self.messages.len()
    }
}

/// A memory never holds more than fits, and what it holds are the latest
/// messages in the order in which they came.
pub proof fn lemma_latest<T>(messages: Seq<T>, n: nat)
    ensures
        latest(messages, n).len() <= n,
        latest(messages, n).len() <= messages.len(),
        forall|i: int|
            0 <= i < latest(messages, n).len() ==> #[trigger] latest(messages, n)[i]
                == messages[messages.len() - latest(messages, n).len() + i],
{
}

} // verus!
