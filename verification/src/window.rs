//! The sliding window itself and its eviction rule.

use vstd::prelude::*;

use std::collections::VecDeque;

use crate::eviction::{evict_to_fit, lemma_trim_conserves, lemma_trim_fits, trim};
use crate::json::{Json, trees};

verus! {

/// Why a window refused a request.
#[derive(Debug, Clone, Copy, PartialEq, Eq, Structural)]
pub enum WindowError {
    /// A message handed to [`MessageWindow::add`] is not a JSON object.
    NotAnObject,
    /// A window was asked for with room for no message at all.
    MaxTurnsMustBePositive,
}

impl WindowError {
    /// The human-readable text of the error.
    pub open spec fn text(self) -> Seq<char> {
        match self {
            WindowError::NotAnObject => "message must be a JSON object"@,
            WindowError::MaxTurnsMustBePositive => "max_turns must be >= 1"@,
        }
    }

    /// The human-readable text of the error.
    pub fn message(&self) -> (s: String)
        ensures
            s@ == self.text(),
    {
        match self {
            WindowError::NotAnObject => "message must be a JSON object".to_owned(),
            WindowError::MaxTurnsMustBePositive => "max_turns must be >= 1".to_owned(),
        }
    }
}

/// The abstract state of a [`MessageWindow`].
pub struct WindowState {
    /// The messages held, oldest first.
    pub messages: Seq<Json>,
    pub max_turns: nat,
    pub paired_protect: bool,
    /// How many messages were evicted since the window was made, cleared or
    /// reset.
    pub evicted_count: nat,
}

/// A call that changes a window, as [`WindowState::apply`] reads it.
pub enum Request {
    Add(Json),
    Push(Json),
    Extend(Seq<Json>),
    Reset(Seq<Json>),
    Clear,
}

impl WindowState {
    pub open spec fn wf(self) -> bool {
        &&& 1 <= self.max_turns <= usize::MAX
        &&& self.messages.len() <= self.max_turns
        &&& self.evicted_count <= usize::MAX
    }

    /// The state after evicting to fit.
    pub open spec fn trimmed(self) -> WindowState {
        let t = trim(self.messages, self.max_turns, self.paired_protect);
        WindowState {
            messages: t.0,
            max_turns: self.max_turns,
            paired_protect: self.paired_protect,
            evicted_count: self.evicted_count + t.1,
        }
    }

    /// The state after appending `m` and evicting to fit.
    pub open spec fn pushed(self, m: Json) -> WindowState {
        WindowState { messages: self.messages.push(m), ..self }.trimmed()
    }

    /// The state after pushing each of `msgs` in order.
    pub open spec fn pushed_all(self, msgs: Seq<Json>) -> WindowState
        decreases msgs.len(),
    {
        if msgs.len() == 0 {
            self
        } else {
            self.pushed_all(msgs.drop_last()).pushed(msgs.last())
        }
    }

    /// The state after replacing the messages with `msgs`, counting from
    /// zero again, and evicting to fit.
    pub open spec fn reloaded(self, msgs: Seq<Json>) -> WindowState {
        WindowState { messages: msgs, evicted_count: 0, ..self }.trimmed()
    }

    /// The state with no message and nothing counted.
    pub open spec fn cleared(self) -> WindowState {
        WindowState { messages: Seq::empty(), evicted_count: 0, ..self }
    }

    /// The state after the call `r` returns.
    pub open spec fn apply(self, r: Request) -> WindowState {
        match r {
            Request::Add(m) => if m is Object {
                self.pushed(m)
            } else {
                self
            },
            Request::Push(m) => self.pushed(m),
            Request::Extend(msgs) => self.pushed_all(msgs.take(object_prefix_len(msgs) as int)),
            Request::Reset(msgs) => self.reloaded(msgs),
            Request::Clear => self.cleared(),
        }
    }

    /// The state after the calls `rs`, in order.
    pub open spec fn run(self, rs: Seq<Request>) -> WindowState
        decreases rs.len(),
    {
        if rs.len() == 0 {
            self
        } else {
            self.run(rs.drop_last()).apply(rs.last())
        }
    }
}

/// How many of `msgs`, counted from the first, are JSON objects before the
/// first one that is not.
pub open spec fn object_prefix_len(msgs: Seq<Json>) -> nat
    decreases msgs.len(),
{
    if msgs.len() == 0 {
        0
    } else if msgs[0] is Object {
        1 + object_prefix_len(msgs.drop_first())
    } else {
        0
    }
}

proof fn lemma_object_prefix_len(msgs: Seq<Json>, i: int)
    requires
        0 <= i <= msgs.len(),
        forall|j: int| 0 <= j < i ==> #[trigger] msgs[j] is Object,
        i == msgs.len() || !(msgs[i] is Object),
    ensures
        object_prefix_len(msgs) == i,
    decreases i,
{
    if i > 0 {
        assert(msgs[0] is Object);
        let rest = msgs.drop_first();
        assert forall|j: int| 0 <= j < i - 1 implies #[trigger] rest[j] is Object by {
            assert(rest[j] == msgs[j + 1]);
        }
        lemma_object_prefix_len(rest, i - 1);
    }
}

proof fn lemma_object_prefix_at_least(msgs: Seq<Json>, i: int)
    requires
        0 <= i <= msgs.len(),
        forall|j: int| 0 <= j < i ==> #[trigger] msgs[j] is Object,
    ensures
        object_prefix_len(msgs) >= i,
    decreases i,
{
    if i > 0 {
        assert(msgs[0] is Object);
        let rest = msgs.drop_first();
        assert forall|j: int| 0 <= j < i - 1 implies #[trigger] rest[j] is Object by {
            assert(rest[j] == msgs[j + 1]);
        }
        lemma_object_prefix_at_least(rest, i - 1);
    }
}

/// Sliding window over LLM conversation messages.
///
/// `max_turns` controls how many messages are kept. When adding a new
/// message causes overflow, the oldest is evicted first. With
/// `paired_protect = true`, evicting a message evicts with it every message
/// tied to it by a tool call: the answers to its calls, the calls that it
/// answers, and so on.
pub struct MessageWindow {
    max_turns: usize,
    paired_protect: bool,
    buf: VecDeque<Json>,
    evicted_count: usize,
}

impl View for MessageWindow {
    type V = WindowState;

    closed spec fn view(&self) -> WindowState {
        WindowState {
            messages: self.buf@,
            max_turns: self.max_turns as nat,
            paired_protect: self.paired_protect,
            evicted_count: self.evicted_count as nat,
        }
    }
}

/// The elements of `v` in a queue, in the same order.
fn into_queue(v: Vec<Json>) -> (q: VecDeque<Json>)
    ensures
        q@ == v@,
        q@.len() <= usize::MAX,
{
    let _ = v.len();
    let ghost all = v@;
    let mut rest = v;
    let mut q: VecDeque<Json> = VecDeque::new();
    while rest.len() > 0
        invariant
            rest@ == all.take(rest@.len() as int),
            q@ == all.skip(rest@.len() as int),
            rest@.len() <= all.len(),
        decreases rest@.len(),
    {
        let k = rest.len();
        let m = rest.pop().unwrap();
        assert(all.skip(k - 1) =~= seq![m] + all.skip(k as int));
        assert(all.take(k as int).subrange(0, k - 1) =~= all.take(k - 1));
        q.push_front(m);
    }
    assert(all.skip(0) =~= all);
    q
}

impl MessageWindow {
    #[verifier::type_invariant]
    spec fn fits(self) -> bool {
        &&& self.max_turns >= 1
        &&& self.buf@.len() <= self.max_turns
    }

    /// Creates a window that keeps at most `max_turns` messages; a request
    /// for none is taken as a request for one.
    pub fn new(max_turns: usize, paired_protect: bool) -> (w: Self)
        ensures
            w@.wf(),
            w@.messages == Seq::<Json>::empty(),
            w@.max_turns == (if max_turns == 0 { 1 } else { max_turns as nat }),
            w@.paired_protect == paired_protect,
            w@.evicted_count == 0,
    {
        MessageWindow {
            max_turns: if max_turns == 0 { 1 } else { max_turns },
            paired_protect,
            buf: VecDeque::new(),
            evicted_count: 0,
        }
    }

    /// Creates a window; refuses `max_turns == 0`.
    pub fn try_new(max_turns: usize, paired_protect: bool) -> (r: Result<Self, WindowError>)
        ensures
            r is Err <==> max_turns < 1,
            r matches Err(e) ==> e == WindowError::MaxTurnsMustBePositive,
            r matches Ok(w) ==> {
                &&& w@.wf()
                &&& w@.messages == Seq::<Json>::empty()
                &&& w@.max_turns == max_turns
                &&& w@.paired_protect == paired_protect
                &&& w@.evicted_count == 0
            },
    {
        if max_turns < 1 {
            return Err(WindowError::MaxTurnsMustBePositive);
        }
        Ok(Self::new(max_turns, paired_protect))
    }

    pub fn max_turns(&self) -> (n: usize)
        ensures
            n == self@.max_turns,
            self@.wf(),
    {
        proof {
            use_type_invariant(self);
        }
        self.max_turns
    }

    pub fn len(&self) -> (n: usize)
        ensures
            n == self@.messages.len(),
            self@.wf(),
    {
        proof {
            use_type_invariant(self);
        }
        self.buf.len()
    }

    pub fn is_empty(&self) -> (b: bool)
        ensures
            b == (self@.messages.len() == 0),
    {
        self.buf.len() == 0
    }

    pub fn evicted_count(&self) -> (n: usize)
        ensures
            n == self@.evicted_count,
    {
        self.evicted_count
    }

    /// The current messages, oldest first.
    pub fn messages(&self) -> (r: Vec<&Json>)
        ensures
            r@.len() == self@.messages.len(),
            forall|i: int| 0 <= i < r@.len() ==> *r@[i] == self@.messages[i],
    {
        let mut out: Vec<&Json> = Vec::new();
        let mut i: usize = 0;
        while i < self.buf.len()
            invariant
                i <= self.buf@.len(),
                out@.len() == i,
                forall|j: int| 0 <= j < i ==> *out@[j] == self.buf@[j],
            decreases self.buf@.len() - i,
        {
            out.push(&self.buf[i]);
            i = i + 1;
        }
        out
    }

    /// A copy of the current messages, oldest first.
    pub fn messages_owned(&self) -> (r: Vec<Json>)
        ensures
            trees(r@) == trees(self@.messages),
    {
        let mut out: Vec<Json> = Vec::new();
        let mut i: usize = 0;
        while i < self.buf.len()
            invariant
                i <= self.buf@.len(),
                trees(out@) == trees(self.buf@.take(i as int)),
            decreases self.buf@.len() - i,
        {
            let copy = self.buf[i].clone();
            proof {
                crate::json::lemma_trees_push(out@, copy);
                crate::json::lemma_trees_push(self.buf@.take(i as int), self.buf@[i as int]);
                assert(self.buf@.take(i + 1) =~= self.buf@.take(i as int).push(self.buf@[i as int]));
            }
            out.push(copy);
            i = i + 1;
        }
        assert(self.buf@.take(i as int) =~= self.buf@);
        out
    }

    /// Removes every message and resets the eviction count.
    pub fn clear(&mut self)
        ensures
            final(self)@ == old(self)@.cleared(),
            final(self)@ == old(self)@.apply(Request::Clear),
            final(self)@.wf(),
    {
        proof {
            use_type_invariant(&*self);
        }
        self.buf = VecDeque::new();
        self.evicted_count = 0;
    }

    /// Appends a message, whatever its shape, and evicts to fit.
    pub fn push(&mut self, message: Json)
        requires
            old(self)@.evicted_count + old(self)@.messages.len() < usize::MAX,
        ensures
            final(self)@ == old(self)@.pushed(message),
            final(self)@ == old(self)@.apply(Request::Push(message)),
            final(self)@.wf(),
    {
        proof {
            use_type_invariant(&*self);
        }
        let mut buf: VecDeque<Json> = VecDeque::new();
        std::mem::swap(&mut buf, &mut self.buf);
        buf.push_back(message);
        let mut count = self.evicted_count;
        evict_to_fit(&mut buf, &mut count, self.max_turns, self.paired_protect);
        proof {
            lemma_trim_fits(old(self)@.messages.push(message), self.max_turns as nat, self.paired_protect);
            lemma_trim_conserves(old(self)@.messages.push(message), self.max_turns as nat, self.paired_protect);
        }
        self.buf = buf;
        self.evicted_count = count;
    }

    /// Appends a message and evicts to fit; refuses a message that is not a
    /// JSON object.
    pub fn add(&mut self, message: Json) -> (r: Result<(), WindowError>)
        requires
            message is Object ==> old(self)@.evicted_count + old(self)@.messages.len() < usize::MAX,
        ensures
            r is Err <==> !(message is Object),
            r matches Err(e) ==> e == WindowError::NotAnObject && final(self)@ == old(self)@,
            r is Ok ==> final(self)@ == old(self)@.pushed(message),
            final(self)@ == old(self)@.apply(Request::Add(message)),
            final(self)@.wf(),
    {
        proof {
            use_type_invariant(&*self);
        }
        if !message.is_object() {
            return Err(WindowError::NotAnObject);
        }
        self.push(message);
        Ok(())
    }

    /// Adds messages in order with [`MessageWindow::add`], stopping at the
    /// first one that is not a JSON object; those before it stay added.
    pub fn extend(&mut self, messages: Vec<Json>) -> (r: Result<(), WindowError>)
        requires
            old(self)@.evicted_count + old(self)@.messages.len() + object_prefix_len(messages@) <= usize::MAX,
        ensures
            r is Err <==> object_prefix_len(messages@) < messages@.len(),
            r matches Err(e) ==> e == WindowError::NotAnObject,
            final(self)@ == old(self)@.pushed_all(messages@.take(object_prefix_len(messages@) as int)),
            final(self)@ == old(self)@.apply(Request::Extend(messages@)),
            final(self)@.wf(),
    {
        proof {
            use_type_invariant(&*self);
        }
        let ghost all = messages@;
        let mut queue = into_queue(messages);
        let n = queue.len();
        let mut i: usize = 0;
        assert(all.skip(0) =~= all);
        assert(all.take(0) =~= Seq::<Json>::empty());
        while i < n
            invariant
                all == messages@,
                n == all.len(),
                i <= n,
                queue@ == all.skip(i as int),
                forall|j: int| 0 <= j < i ==> #[trigger] all[j] is Object,
                self@ == old(self)@.pushed_all(all.take(i as int)),
                self@.wf(),
                self@.evicted_count + self@.messages.len() == old(self)@.evicted_count + old(self)@.messages.len() + i,
                old(self)@.evicted_count + old(self)@.messages.len() + object_prefix_len(all) <= usize::MAX,
            decreases n - i,
        {
            let m = queue.pop_front().unwrap();
            assert(m == all[i as int]);
            assert(all.skip(i as int).drop_first() =~= all.skip(i + 1));
            assert(all.take(i + 1).drop_last() =~= all.take(i as int));
            proof {
                if m is Object {
                    lemma_object_prefix_at_least(all, i + 1);
                }
            }
            let ghost before = self@;
            match self.add(m) {
                Err(e) => {
                    proof {
                        lemma_object_prefix_len(all, i as int);
                    }
                    return Err(e);
                },
                Ok(()) => {
                    proof {
                        lemma_trim_conserves(before.messages.push(all[i as int]), before.max_turns, before.paired_protect);
                    }
                },
            }
            i = i + 1;
        }
        proof {
            lemma_object_prefix_len(all, n as int);
            assert(all.take(n as int) =~= all);
        }
        Ok(())
    }

    /// Replaces every message with `messages`, then evicts to fit; the
    /// eviction count starts again from zero.
    pub fn reset(&mut self, messages: Vec<Json>)
        ensures
            final(self)@ == old(self)@.reloaded(messages@),
            final(self)@ == old(self)@.apply(Request::Reset(messages@)),
            final(self)@.wf(),
    {
        proof {
            use_type_invariant(&*self);
        }
        let ghost all = messages@;
        let mut buf = into_queue(messages);
        let mut count: usize = 0;
        evict_to_fit(&mut buf, &mut count, self.max_turns, self.paired_protect);
        proof {
            lemma_trim_fits(all, self.max_turns as nat, self.paired_protect);
            lemma_trim_conserves(all, self.max_turns as nat, self.paired_protect);
        }
        self.buf = buf;
        self.evicted_count = count;
    }
}

} // verus!
