//! The single running chat transcript.
//!
//! Appends and snapshots take `&self` / `&mut self`; whoever shares the store
//! between tasks wraps it in one mutual-exclusion region, so each call is one
//! atomic step on the sequence described by `view`.
use vstd::prelude::*;

verus! {

/// Who wrote a message.
#[derive(Clone, Copy, Debug, PartialEq, Eq, Structural)]
pub enum Role {
    User,
    Assistant,
    System,
}

/// One message of the conversation.
#[derive(Clone, Debug, PartialEq, Eq)]
pub struct ChatMessage {
    pub role: Role,
    pub content: String,
}

/// A message as the contracts see it.
pub type MessageView = (Role, Seq<char>);

impl View for ChatMessage {
    type V = MessageView;

    open spec fn view(&self) -> MessageView {
        (self.role, self.content@)
    }
}

/// The views of a sequence of messages, in order.
pub open spec fn messages_view(v: Seq<ChatMessage>) -> Seq<MessageView> {
    v.map_values(|m: ChatMessage| m@)
}

impl ChatMessage {
    pub fn new(role: Role, content: String) -> (r: ChatMessage)
        ensures
            r@ == (role, content@),
    {
        ChatMessage { role, content }
    }

    /// A copy that shares nothing with `self`.
    pub fn duplicate(&self) -> (r: ChatMessage)
        ensures
            r@ == self@,
    {
        ChatMessage { role: self.role, content: self.content.clone() }
    }
}

/// Copies a sequence of messages, one by one and in order.
pub fn copy_messages(v: &Vec<ChatMessage>) -> (r: Vec<ChatMessage>)
    ensures
        messages_view(r@) == messages_view(v@),
{
    let mut r: Vec<ChatMessage> = Vec::new();
    let mut i: usize = 0;
    while i < v.len()
        invariant
            i <= v.len(),
            r@.len() == i,
            forall|j: int| 0 <= j < i ==> #[trigger] r@[j]@ == v@[j]@,
        decreases v.len() - i,
    {
        r.push(v[i].duplicate());
        i = i + 1;
    }
    assert(messages_view(r@) =~= messages_view(v@));
    r
}

/// The conversation after one more message is appended.
pub open spec fn appended(s: Seq<MessageView>, role: Role, text: Seq<char>) -> Seq<MessageView> {
    s.push((role, text))
}

/// The shared chat history: an ordered, append-only sequence of messages.
pub struct Transcript {
    messages: Vec<ChatMessage>,
}

impl View for Transcript {
    type V = Seq<MessageView>;

    closed spec fn view(&self) -> Seq<MessageView> {
        messages_view(self.messages@)
    }
}

impl Transcript {
    /// An empty conversation.
    pub fn new() -> (r: Transcript)
        ensures
            r@ == Seq::<MessageView>::empty(),
    {
        let r = Transcript { messages: Vec::new() };
        assert(r@ =~= Seq::<MessageView>::empty());
        r
    }

    pub fn len(&self) -> (r: usize)
        ensures
            r == self@.len(),
    {
        self.messages.len()
    }

    fn append(&mut self, role: Role, text: String)
        ensures
            final(self)@ == appended(old(self)@, role, text@),
    {
        let m = ChatMessage::new(role, text);
        self.messages.push(m);
        assert(self@ =~= appended(old(self)@, role, text@));
    }

    /// Appends a message of the user and hands back a copy of the whole
    /// conversation, the new message included.
    pub fn append_user(&mut self, text: String) -> (r: Vec<ChatMessage>)
        ensures
            final(self)@ == appended(old(self)@, Role::User, text@),
            messages_view(r@) == final(self)@,
    {
        self.append(Role::User, text);
        self.snapshot()
    }

    /// Appends the model's reply to the conversation.
    pub fn append_assistant(&mut self, text: String)
        ensures
            final(self)@ == appended(old(self)@, Role::Assistant, text@),
    {
        self.append(Role::Assistant, text);
    }

    /// A copy of the conversation as it stands; later appends do not reach it.
    pub fn snapshot(&self) -> (r: Vec<ChatMessage>)
        ensures
            messages_view(r@) == self@,
    {
        copy_messages(&self.messages)
    }
}

/// Two appends by concurrent callers, taken in the order in which they won
/// the exclusion, leave the conversation as it was followed by both messages,
/// each exactly once, in that order; nothing before them is touched.
pub proof fn lemma_two_appends_serialize(t: Seq<MessageView>, first: Seq<char>, second: Seq<char>)
    ensures
        appended(appended(t, Role::User, first), Role::User, second) == t + seq![
            (Role::User, first),
            (Role::User, second),
        ],
        appended(appended(t, Role::User, first), Role::User, second).len() == t.len() + 2,
        appended(appended(t, Role::User, first), Role::User, second).subrange(0, t.len() as int)
            == t,
{
    let r = appended(appended(t, Role::User, first), Role::User, second);
    assert(r =~= t + seq![(Role::User, first), (Role::User, second)]);
    assert(r.subrange(0, t.len() as int) =~= t);
}

} // verus!
