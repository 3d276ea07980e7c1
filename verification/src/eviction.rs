//! The eviction rule. The oldest message goes first; with paired
//! protection, every message tied to what has gone goes too — one that
//! answers a call of a gone message, or makes a call that a gone message
//! answers — until nothing left is tied to anything gone.

use vstd::prelude::*;

use std::collections::VecDeque;

use crate::json::Json;
use crate::pairing::{is_tied, result_refs, texts, tied_to, tool_result_refs, tool_use_ids, use_ids};

verus! {

/// The messages of `msgs` not tied to `calls` / `answers`, in order.
pub open spec fn untied(msgs: Seq<Json>, calls: Seq<Seq<char>>, answers: Seq<Seq<char>>) -> Seq<Json>
    decreases msgs.len(),
{
    if msgs.len() == 0 {
        msgs
    } else {
        let earlier = untied(msgs.drop_last(), calls, answers);
        if tied_to(msgs.last(), calls, answers) {
            earlier
        } else {
            earlier.push(msgs.last())
        }
    }
}

/// The messages of `msgs` tied to `calls` / `answers`, in order.
pub open spec fn tied(msgs: Seq<Json>, calls: Seq<Seq<char>>, answers: Seq<Seq<char>>) -> Seq<Json>
    decreases msgs.len(),
{
    if msgs.len() == 0 {
        msgs
    } else {
        let earlier = tied(msgs.drop_last(), calls, answers);
        if tied_to(msgs.last(), calls, answers) {
            earlier.push(msgs.last())
        } else {
            earlier
        }
    }
}

/// The ids of every call that the messages of `msgs` make.
pub open spec fn calls_of(msgs: Seq<Json>) -> Seq<Seq<char>>
    decreases msgs.len(),
{
    if msgs.len() == 0 {
        Seq::empty()
    } else {
        calls_of(msgs.drop_last()) + use_ids(msgs.last())
    }
}

/// The ids of every call that the messages of `msgs` answer.
pub open spec fn answers_of(msgs: Seq<Json>) -> Seq<Seq<char>>
    decreases msgs.len(),
{
    if msgs.len() == 0 {
        Seq::empty()
    } else {
        answers_of(msgs.drop_last()) + result_refs(msgs.last())
    }
}

pub proof fn lemma_split(msgs: Seq<Json>, calls: Seq<Seq<char>>, answers: Seq<Seq<char>>)
    ensures
        untied(msgs, calls, answers).len() + tied(msgs, calls, answers).len() == msgs.len(),
    decreases msgs.len(),
{
    if msgs.len() > 0 {
        lemma_split(msgs.drop_last(), calls, answers);
    }
}

/// When nothing is tied, everything stays.
pub proof fn lemma_nothing_tied(msgs: Seq<Json>, calls: Seq<Seq<char>>, answers: Seq<Seq<char>>)
    requires
        tied(msgs, calls, answers).len() == 0,
    ensures
        untied(msgs, calls, answers) == msgs,
    decreases msgs.len(),
{
    if msgs.len() > 0 {
        lemma_split(msgs.drop_last(), calls, answers);
        lemma_split(msgs, calls, answers);
        if !tied_to(msgs.last(), calls, answers) {
            lemma_nothing_tied(msgs.drop_last(), calls, answers);
        } else {
            assert(tied(msgs, calls, answers).len() > 0);
        }
        assert(msgs.drop_last().push(msgs.last()) =~= msgs);
    }
}

/// Removes, round after round, the messages of `msgs` tied to the calls and
/// answers of what has gone, adding the calls and answers of each removed
/// message, until a round removes nothing. Returns what stays and the calls
/// and answers of everything gone.
pub open spec fn settle(msgs: Seq<Json>, calls: Seq<Seq<char>>, answers: Seq<Seq<char>>) -> (
    Seq<Json>,
    Seq<Seq<char>>,
    Seq<Seq<char>>,
)
    decreases msgs.len(),
{
    let gone = tied(msgs, calls, answers);
    if gone.len() == 0 {
        (msgs, calls, answers)
    } else {
        proof {
            lemma_split(msgs, calls, answers);
        }
        settle(untied(msgs, calls, answers), calls + calls_of(gone), answers + answers_of(gone))
    }
}

pub proof fn lemma_settle_len(msgs: Seq<Json>, calls: Seq<Seq<char>>, answers: Seq<Seq<char>>)
    ensures
        settle(msgs, calls, answers).0.len() <= msgs.len(),
    decreases msgs.len(),
{
    let gone = tied(msgs, calls, answers);
    lemma_split(msgs, calls, answers);
    if gone.len() > 0 {
        lemma_settle_len(untied(msgs, calls, answers), calls + calls_of(gone), answers + answers_of(gone));
    }
}

/// Evicts from `msgs` until at most `max_turns` messages are left: the
/// oldest message goes first and, with `paired`, everything tied to it (see
/// [`settle`]) goes with it. Returns what is left and how many messages
/// were evicted.
pub open spec fn trim(msgs: Seq<Json>, max_turns: nat, paired: bool) -> (Seq<Json>, nat)
    decreases msgs.len(),
{
    if msgs.len() <= max_turns {
        (msgs, 0)
    } else {
        let rest = msgs.drop_first();
        let kept = if paired {
            settle(rest, use_ids(msgs[0]), result_refs(msgs[0])).0
        } else {
            rest
        };
        proof {
            lemma_settle_len(rest, use_ids(msgs[0]), result_refs(msgs[0]));
        }
        let after = trim(kept, max_turns, paired);
        (after.0, after.1 + 1 + (rest.len() - kept.len()) as nat)
    }
}

/// What trimming keeps never exceeds `max_turns` messages.
pub proof fn lemma_trim_fits(msgs: Seq<Json>, max_turns: nat, paired: bool)
    ensures
        trim(msgs, max_turns, paired).0.len() <= max_turns,
    decreases msgs.len(),
{
    if msgs.len() > max_turns {
        let rest = msgs.drop_first();
        let kept = if paired { settle(rest, use_ids(msgs[0]), result_refs(msgs[0])).0 } else { rest };
        lemma_settle_len(rest, use_ids(msgs[0]), result_refs(msgs[0]));
        lemma_trim_fits(kept, max_turns, paired);
    }
}

/// Every message that goes in is either kept or counted as evicted.
pub proof fn lemma_trim_conserves(msgs: Seq<Json>, max_turns: nat, paired: bool)
    ensures
        trim(msgs, max_turns, paired).0.len() + trim(msgs, max_turns, paired).1 == msgs.len(),
    decreases msgs.len(),
{
    if msgs.len() > max_turns {
        let rest = msgs.drop_first();
        let kept = if paired { settle(rest, use_ids(msgs[0]), result_refs(msgs[0])).0 } else { rest };
        lemma_settle_len(rest, use_ids(msgs[0]), result_refs(msgs[0]));
        lemma_trim_conserves(kept, max_turns, paired);
    }
}

proof fn lemma_texts_append(a: Seq<String>, b: Seq<String>)
    ensures
        texts(a + b) == texts(a) + texts(b),
{
    assert(texts(a + b) =~= texts(a) + texts(b));
}

/// One round: removes from `buf` the messages tied to `calls` / `answers`,
/// counts them, and returns how many went together with their calls and
/// answers.
fn remove_tied(
    buf: &mut VecDeque<Json>,
    evicted: &mut usize,
    calls: &Vec<String>,
    answers: &Vec<String>,
) -> (r: (usize, Vec<String>, Vec<String>))
    requires
        *old(evicted) + old(buf)@.len() <= usize::MAX,
    ensures
        final(buf)@ == untied(old(buf)@, texts(calls@), texts(answers@)),
        r.0 == tied(old(buf)@, texts(calls@), texts(answers@)).len(),
        texts(r.1@) == calls_of(tied(old(buf)@, texts(calls@), texts(answers@))),
        texts(r.2@) == answers_of(tied(old(buf)@, texts(calls@), texts(answers@))),
        *final(evicted) + final(buf)@.len() == *old(evicted) + old(buf)@.len(),
{
    let ghost orig = buf@;
    let ghost c = texts(calls@);
    let ghost a = texts(answers@);
    let mut stay: VecDeque<Json> = VecDeque::new();
    let mut gone: usize = 0;
    let mut gone_calls: Vec<String> = Vec::new();
    let mut gone_answers: Vec<String> = Vec::new();
    let n = buf.len();
    let mut i: usize = 0;
    assert(orig.skip(0) =~= orig);
    while i < n
        invariant
            n == orig.len(),
            i <= n,
            c == texts(calls@),
            a == texts(answers@),
            buf@ == orig.skip(i as int),
            stay@ == untied(orig.take(i as int), c, a),
            gone == tied(orig.take(i as int), c, a).len(),
            texts(gone_calls@) == calls_of(tied(orig.take(i as int), c, a)),
            texts(gone_answers@) == answers_of(tied(orig.take(i as int), c, a)),
            *evicted + buf@.len() + stay@.len() == *old(evicted) + orig.len(),
            *old(evicted) + orig.len() <= usize::MAX,
            gone + stay@.len() == i,
        decreases n - i,
    {
        let msg = buf.pop_front().unwrap();
        assert(orig.take(i + 1).drop_last() =~= orig.take(i as int));
        assert(orig.skip(i as int).drop_first() =~= orig.skip(i + 1));
        let ghost before = tied(orig.take(i as int), c, a);
        if is_tied(&msg, calls, answers) {
            *evicted = *evicted + 1;
            gone = gone + 1;
            let mut uses = tool_use_ids(&msg);
            let mut refs = tool_result_refs(&msg);
            proof {
                lemma_texts_append(gone_calls@, uses@);
                lemma_texts_append(gone_answers@, refs@);
                assert(before.push(msg).drop_last() =~= before);
            }
            gone_calls.append(&mut uses);
            gone_answers.append(&mut refs);
        } else {
            stay.push_back(msg);
        }
        i = i + 1;
    }
    assert(orig.take(n as int) =~= orig);
    *buf = stay;
    (gone, gone_calls, gone_answers)
}

/// Removes from `buf` everything tied, round after round, to the calls and
/// answers of what has gone, and counts what it removes.
fn settle_buf(
    buf: &mut VecDeque<Json>,
    evicted: &mut usize,
    calls: Vec<String>,
    answers: Vec<String>,
)
    requires
        *old(evicted) + old(buf)@.len() <= usize::MAX,
    ensures
        final(buf)@ == settle(old(buf)@, texts(calls@), texts(answers@)).0,
        *final(evicted) + final(buf)@.len() == *old(evicted) + old(buf)@.len(),
{
    let ghost target = settle(buf@, texts(calls@), texts(answers@)).0;
    let mut all_calls = calls;
    let mut all_answers = answers;
    loop
        invariant
            target == settle(old(buf)@, texts(calls@), texts(answers@)).0,
            settle(buf@, texts(all_calls@), texts(all_answers@)).0 == target,
            *evicted + buf@.len() == *old(evicted) + old(buf)@.len(),
            *old(evicted) + old(buf)@.len() <= usize::MAX,
        decreases buf@.len(),
    {
        let ghost before = buf@;
        let (gone, mut more_calls, mut more_answers) = remove_tied(
            buf,
            evicted,
            &all_calls,
            &all_answers,
        );
        proof {
            lemma_split(before, texts(all_calls@), texts(all_answers@));
        }
        if gone == 0 {
            proof {
                lemma_nothing_tied(before, texts(all_calls@), texts(all_answers@));
            }
            return;
        }
        proof {
            lemma_texts_append(all_calls@, more_calls@);
            lemma_texts_append(all_answers@, more_answers@);
        }
        all_calls.append(&mut more_calls);
        all_answers.append(&mut more_answers);
    }
}

/// Evicts from `buf` until it holds at most `max_turns` messages, counting
/// every message it removes.
pub fn evict_to_fit(buf: &mut VecDeque<Json>, evicted: &mut usize, max_turns: usize, paired: bool)
    requires
        *old(evicted) + old(buf)@.len() <= usize::MAX,
    ensures
        final(buf)@ == trim(old(buf)@, max_turns as nat, paired).0,
        *final(evicted) == *old(evicted) + trim(old(buf)@, max_turns as nat, paired).1,
{
    while buf.len() > max_turns
        invariant
            trim(buf@, max_turns as nat, paired).0 == trim(old(buf)@, max_turns as nat, paired).0,
            *evicted + trim(buf@, max_turns as nat, paired).1 == *old(evicted) + trim(old(buf)@, max_turns as nat, paired).1,
            *evicted + buf@.len() <= usize::MAX,
        decreases buf@.len(),
    {
        let ghost before = buf@;
        let oldest = buf.pop_front().unwrap();
        assert(buf@ == before.drop_first());
        *evicted = *evicted + 1;
        if paired {
            let calls = tool_use_ids(&oldest);
            let answers = tool_result_refs(&oldest);
            settle_buf(buf, evicted, calls, answers);
            proof {
                lemma_settle_len(before.drop_first(), use_ids(oldest), result_refs(oldest));
            }
        }
    }
}

} // verus!
