//! What holds of every eviction: the window stays within its capacity, keeps
//! what it keeps in the original order, counts every message it drops, and,
//! with paired protection, evicts tool calls and their results together in
//! both directions, so it never leaves a result whose call is gone nor a
//! call whose result is gone.

use vstd::prelude::*;

use crate::eviction::{
    answers_of, calls_of, lemma_settle_len, lemma_split, lemma_trim_conserves,
    lemma_trim_fits, settle, tied, trim, untied,
};
use crate::json::{member_trees, member_value, trees, Json, JsonTree};
use crate::pairing::{
    answers_any, block_result_ref, block_use_id, calls_any, content_blocks, flat_result_ref,
    result_refs, result_refs_in, text_of, tied_to, use_ids, use_ids_in,
};
use crate::window::{object_prefix_len, Request, WindowState};

verus! {

// ---- sequences ------------------------------------------------------------

proof fn lemma_push_contains(s: Seq<Json>, y: Json, x: Json)
    ensures
        s.push(y).contains(x) <==> (s.contains(x) || x == y),
{
    if s.contains(x) {
        let i = choose|i: int| 0 <= i < s.len() && s[i] == x;
        assert(s.push(y)[i] == x);
    }
    assert(s.push(y)[s.len() as int] == y);
    if s.push(y).contains(x) && x != y {
        let i = choose|i: int| 0 <= i < s.len() + 1 && s.push(y)[i] == x;
        assert(s[i] == x);
    }
}

proof fn lemma_last_contains(s: Seq<Json>, x: Json)
    requires
        s.len() > 0,
    ensures
        s.contains(x) <==> (s.drop_last().contains(x) || x == s.last()),
{
    assert(s =~= s.drop_last().push(s.last()));
    lemma_push_contains(s.drop_last(), s.last(), x);
}

proof fn lemma_first_contains(s: Seq<Json>, x: Json)
    requires
        s.len() > 0,
    ensures
        s.contains(x) <==> (s.drop_first().contains(x) || x == s[0]),
{
    if s.contains(x) && x != s[0] {
        let i = choose|i: int| 0 <= i < s.len() && s[i] == x;
        assert(s.drop_first()[i - 1] == x);
    }
    if s.drop_first().contains(x) {
        let i = choose|i: int| 0 <= i < s.len() - 1 && s.drop_first()[i] == x;
        assert(s[i + 1] == x);
    }
}

proof fn lemma_ids_concat(a: Seq<Seq<char>>, b: Seq<Seq<char>>, id: Seq<char>)
    ensures
        (a + b).contains(id) <==> (a.contains(id) || b.contains(id)),
{
    if a.contains(id) {
        let i = choose|i: int| 0 <= i < a.len() && a[i] == id;
        assert((a + b)[i] == id);
    }
    if b.contains(id) {
        let i = choose|i: int| 0 <= i < b.len() && b[i] == id;
        assert((a + b)[a.len() + i] == id);
    }
    if (a + b).contains(id) {
        let i = choose|i: int| 0 <= i < a.len() + b.len() && (a + b)[i] == id;
        if i < a.len() {
            assert(a[i] == id);
        } else {
            assert(b[i - a.len()] == id);
        }
    }
}

/// `f` places each element of `small` in `big`, in increasing positions.
pub open spec fn embeds(f: spec_fn(int) -> int, small: Seq<Json>, big: Seq<Json>) -> bool {
    &&& forall|i: int| 0 <= i < small.len() ==> 0 <= #[trigger] f(i) < big.len() && small[i] == big[f(i)]
    &&& forall|i: int, j: int| 0 <= i < j < small.len() ==> #[trigger] f(i) < #[trigger] f(j)
}

/// `small` is `big` with some elements left out, the rest in their order.
pub open spec fn is_subsequence(small: Seq<Json>, big: Seq<Json>) -> bool {
    exists|f: spec_fn(int) -> int| embeds(f, small, big)
}

proof fn lemma_subsequence_refl(s: Seq<Json>)
    ensures
        is_subsequence(s, s),
{
    let f = |i: int| i;
    assert(embeds(f, s, s));
}

proof fn lemma_subsequence_trans(a: Seq<Json>, b: Seq<Json>, c: Seq<Json>)
    requires
        is_subsequence(a, b),
        is_subsequence(b, c),
    ensures
        is_subsequence(a, c),
{
    let f = choose|f: spec_fn(int) -> int| embeds(f, a, b);
    let g = choose|g: spec_fn(int) -> int| embeds(g, b, c);
    let h = |i: int| g(f(i));
    assert forall|i: int, j: int| 0 <= i < j < a.len() implies #[trigger] h(i) < #[trigger] h(j) by {
        assert(f(i) < f(j));
    }
    assert(embeds(h, a, c));
}

proof fn lemma_drop_first_subsequence(s: Seq<Json>)
    requires
        s.len() > 0,
    ensures
        is_subsequence(s.drop_first(), s),
{
    let f = |i: int| i + 1;
    assert(embeds(f, s.drop_first(), s));
}

proof fn lemma_subsequence_empty(s: Seq<Json>)
    ensures
        is_subsequence(Seq::empty(), s),
{
    let f = |i: int| i;
    assert(embeds(f, Seq::empty(), s));
}

/// Appending the same element to both sides keeps a subsequence.
proof fn lemma_subsequence_push(a: Seq<Json>, b: Seq<Json>, x: Json)
    requires
        is_subsequence(a, b),
    ensures
        is_subsequence(a.push(x), b.push(x)),
{
    let f = choose|f: spec_fn(int) -> int| embeds(f, a, b);
    let last = b.len() as int;
    let h = |i: int| if i < a.len() { f(i) } else { last };
    let pa = a.push(x);
    let pb = b.push(x);
    assert forall|i: int| 0 <= i < pa.len() implies 0 <= #[trigger] h(i) < pb.len() && pa[i] == pb[h(i)] by {
        if i < a.len() {
            assert(0 <= f(i) < b.len() && a[i] == b[f(i)]);
        }
    }
    assert forall|i: int, j: int| 0 <= i < j < pa.len() implies #[trigger] h(i) < #[trigger] h(j) by {
        if j < a.len() {
            assert(f(i) < f(j));
        } else {
            assert(0 <= f(i) < b.len());
        }
    }
    assert(embeds(h, pa, pb));
}

/// Appending the same sequence to both sides keeps a subsequence.
proof fn lemma_subsequence_append(a: Seq<Json>, b: Seq<Json>, c: Seq<Json>)
    requires
        is_subsequence(a, b),
    ensures
        is_subsequence(a + c, b + c),
    decreases c.len(),
{
    if c.len() == 0 {
        assert(a + c =~= a);
        assert(b + c =~= b);
    } else {
        lemma_subsequence_append(a, b, c.drop_last());
        lemma_subsequence_push(a + c.drop_last(), b + c.drop_last(), c.last());
        assert((a + c.drop_last()).push(c.last()) =~= a + c);
        assert((b + c.drop_last()).push(c.last()) =~= b + c);
    }
}

// ---- one round and a settled removal --------------------------------------

proof fn lemma_round_contains(msgs: Seq<Json>, calls: Seq<Seq<char>>, answers: Seq<Seq<char>>, x: Json)
    ensures
        untied(msgs, calls, answers).contains(x) <==> (msgs.contains(x) && !tied_to(x, calls, answers)),
        tied(msgs, calls, answers).contains(x) <==> (msgs.contains(x) && tied_to(x, calls, answers)),
    decreases msgs.len(),
{
    if msgs.len() > 0 {
        let earlier = msgs.drop_last();
        lemma_round_contains(earlier, calls, answers, x);
        lemma_last_contains(msgs, x);
        lemma_push_contains(untied(earlier, calls, answers), msgs.last(), x);
        lemma_push_contains(tied(earlier, calls, answers), msgs.last(), x);
    }
}

proof fn lemma_untied_subsequence(msgs: Seq<Json>, calls: Seq<Seq<char>>, answers: Seq<Seq<char>>)
    ensures
        is_subsequence(untied(msgs, calls, answers), msgs),
    decreases msgs.len(),
{
    if msgs.len() == 0 {
        lemma_subsequence_refl(msgs);
    } else {
        let earlier = msgs.drop_last();
        let w = untied(earlier, calls, answers);
        lemma_untied_subsequence(earlier, calls, answers);
        assert(msgs =~= earlier.push(msgs.last()));
        if tied_to(msgs.last(), calls, answers) {
            let f = choose|f: spec_fn(int) -> int| embeds(f, w, earlier);
            assert(embeds(f, w, msgs));
        } else {
            lemma_subsequence_push(w, earlier, msgs.last());
        }
    }
}

proof fn lemma_calls_of_contains(msgs: Seq<Json>, id: Seq<char>)
    ensures
        calls_of(msgs).contains(id) <==> exists|x: Json| #[trigger] msgs.contains(x) && use_ids(x).contains(id),
    decreases msgs.len(),
{
    if msgs.len() > 0 {
        let earlier = msgs.drop_last();
        lemma_calls_of_contains(earlier, id);
        lemma_ids_concat(calls_of(earlier), use_ids(msgs.last()), id);
        if calls_of(msgs).contains(id) {
            if use_ids(msgs.last()).contains(id) {
                lemma_last_contains(msgs, msgs.last());
            } else {
                let x = choose|x: Json| earlier.contains(x) && use_ids(x).contains(id);
                lemma_last_contains(msgs, x);
            }
        }
        if exists|x: Json| #[trigger] msgs.contains(x) && use_ids(x).contains(id) {
            let x = choose|x: Json| msgs.contains(x) && use_ids(x).contains(id);
            lemma_last_contains(msgs, x);
        }
    }
}

proof fn lemma_answers_of_contains(msgs: Seq<Json>, id: Seq<char>)
    ensures
        answers_of(msgs).contains(id) <==> exists|x: Json| #[trigger] msgs.contains(x) && result_refs(x).contains(id),
    decreases msgs.len(),
{
    if msgs.len() > 0 {
        let earlier = msgs.drop_last();
        lemma_answers_of_contains(earlier, id);
        lemma_ids_concat(answers_of(earlier), result_refs(msgs.last()), id);
        if answers_of(msgs).contains(id) {
            if result_refs(msgs.last()).contains(id) {
                lemma_last_contains(msgs, msgs.last());
            } else {
                let x = choose|x: Json| earlier.contains(x) && result_refs(x).contains(id);
                lemma_last_contains(msgs, x);
            }
        }
        if exists|x: Json| #[trigger] msgs.contains(x) && result_refs(x).contains(id) {
            let x = choose|x: Json| msgs.contains(x) && result_refs(x).contains(id);
            lemma_last_contains(msgs, x);
        }
    }
}

/// What a settled removal keeps was there before, in the same order.
proof fn lemma_settle_kept(msgs: Seq<Json>, calls: Seq<Seq<char>>, answers: Seq<Seq<char>>)
    ensures
        is_subsequence(settle(msgs, calls, answers).0, msgs),
        forall|x: Json| #[trigger] settle(msgs, calls, answers).0.contains(x) ==> msgs.contains(x),
    decreases msgs.len(),
{
    let gone = tied(msgs, calls, answers);
    if gone.len() == 0 {
        lemma_subsequence_refl(msgs);
    } else {
        lemma_split(msgs, calls, answers);
        let stay = untied(msgs, calls, answers);
        let c2 = calls + calls_of(gone);
        let a2 = answers + answers_of(gone);
        lemma_settle_kept(stay, c2, a2);
        lemma_untied_subsequence(msgs, calls, answers);
        lemma_subsequence_trans(settle(stay, c2, a2).0, stay, msgs);
        assert forall|x: Json| #[trigger] settle(msgs, calls, answers).0.contains(x) implies msgs.contains(x) by {
            lemma_round_contains(msgs, calls, answers, x);
        }
    }
}

/// The calls and answers of a settled removal include those it started from.
proof fn lemma_settle_grows(msgs: Seq<Json>, calls: Seq<Seq<char>>, answers: Seq<Seq<char>>, id: Seq<char>)
    ensures
        calls.contains(id) ==> settle(msgs, calls, answers).1.contains(id),
        answers.contains(id) ==> settle(msgs, calls, answers).2.contains(id),
    decreases msgs.len(),
{
    let gone = tied(msgs, calls, answers);
    if gone.len() > 0 {
        lemma_split(msgs, calls, answers);
        let c2 = calls + calls_of(gone);
        let a2 = answers + answers_of(gone);
        lemma_ids_concat(calls, calls_of(gone), id);
        lemma_ids_concat(answers, answers_of(gone), id);
        lemma_settle_grows(untied(msgs, calls, answers), c2, a2, id);
    }
}

/// Nothing that a settled removal keeps is tied to what it removed.
proof fn lemma_settle_fixpoint(msgs: Seq<Json>, calls: Seq<Seq<char>>, answers: Seq<Seq<char>>, z: Json)
    requires
        settle(msgs, calls, answers).0.contains(z),
    ensures
        !tied_to(z, settle(msgs, calls, answers).1, settle(msgs, calls, answers).2),
    decreases msgs.len(),
{
    let gone = tied(msgs, calls, answers);
    lemma_round_contains(msgs, calls, answers, z);
    if gone.len() == 0 {
        if tied_to(z, calls, answers) {
            assert(gone.contains(z));
        }
    } else {
        lemma_split(msgs, calls, answers);
        lemma_settle_fixpoint(untied(msgs, calls, answers), calls + calls_of(gone), answers + answers_of(gone), z);
    }
}

/// Every call made and every call answered by a removed message is among
/// the calls and answers of the settled removal.
proof fn lemma_settle_gone(
    msgs: Seq<Json>,
    calls: Seq<Seq<char>>,
    answers: Seq<Seq<char>>,
    x: Json,
    id: Seq<char>,
)
    requires
        msgs.contains(x),
        !settle(msgs, calls, answers).0.contains(x),
    ensures
        use_ids(x).contains(id) ==> settle(msgs, calls, answers).1.contains(id),
        result_refs(x).contains(id) ==> settle(msgs, calls, answers).2.contains(id),
    decreases msgs.len(),
{
    let gone = tied(msgs, calls, answers);
    if gone.len() > 0 {
        lemma_split(msgs, calls, answers);
        let stay = untied(msgs, calls, answers);
        let c2 = calls + calls_of(gone);
        let a2 = answers + answers_of(gone);
        lemma_round_contains(msgs, calls, answers, x);
        if stay.contains(x) {
            lemma_settle_gone(stay, c2, a2, x, id);
        } else {
            assert(gone.contains(x));
            lemma_calls_of_contains(gone, id);
            lemma_answers_of_contains(gone, id);
            lemma_ids_concat(calls, calls_of(gone), id);
            lemma_ids_concat(answers, answers_of(gone), id);
            lemma_settle_grows(stay, c2, a2, id);
        }
    }
}

/// An answered call of a settled removal was answered at the start or by a
/// message of `msgs`.
proof fn lemma_settle_answer_origin(msgs: Seq<Json>, calls: Seq<Seq<char>>, answers: Seq<Seq<char>>, id: Seq<char>)
    requires
        settle(msgs, calls, answers).2.contains(id),
    ensures
        answers.contains(id) || exists|x: Json| #[trigger] msgs.contains(x) && result_refs(x).contains(id),
    decreases msgs.len(),
{
    let gone = tied(msgs, calls, answers);
    if gone.len() > 0 {
        lemma_split(msgs, calls, answers);
        let stay = untied(msgs, calls, answers);
        let c2 = calls + calls_of(gone);
        let a2 = answers + answers_of(gone);
        lemma_settle_answer_origin(stay, c2, a2, id);
        lemma_ids_concat(answers, answers_of(gone), id);
        if exists|x: Json| #[trigger] stay.contains(x) && result_refs(x).contains(id) {
            let x = choose|x: Json| stay.contains(x) && result_refs(x).contains(id);
            lemma_round_contains(msgs, calls, answers, x);
        }
        if answers_of(gone).contains(id) {
            lemma_answers_of_contains(gone, id);
            let x = choose|x: Json| gone.contains(x) && result_refs(x).contains(id);
            lemma_round_contains(msgs, calls, answers, x);
        }
    }
}

proof fn lemma_tied_monotone(
    z: Json,
    calls: Seq<Seq<char>>,
    answers: Seq<Seq<char>>,
    calls2: Seq<Seq<char>>,
    answers2: Seq<Seq<char>>,
)
    requires
        forall|id: Seq<char>| calls.contains(id) ==> #[trigger] calls2.contains(id),
        forall|id: Seq<char>| answers.contains(id) ==> #[trigger] answers2.contains(id),
        tied_to(z, calls, answers),
    ensures
        tied_to(z, calls2, answers2),
{
    if answers_any(z, calls) {
        let k = choose|k: int| 0 <= k < result_refs(z).len() && calls.contains(result_refs(z)[k]);
        assert(calls2.contains(result_refs(z)[k]));
    } else {
        let k = choose|k: int| 0 <= k < use_ids(z).len() && answers.contains(use_ids(z)[k]);
        assert(answers2.contains(use_ids(z)[k]));
    }
}

/// A last message that the settled removal leaves untied stays last.
proof fn lemma_settle_keeps_last(msgs: Seq<Json>, calls: Seq<Seq<char>>, answers: Seq<Seq<char>>)
    requires
        msgs.len() > 0,
        !tied_to(msgs.last(), settle(msgs, calls, answers).1, settle(msgs, calls, answers).2),
    ensures
        settle(msgs, calls, answers).0.len() > 0,
        settle(msgs, calls, answers).0.last() == msgs.last(),
    decreases msgs.len(),
{
    let gone = tied(msgs, calls, answers);
    if gone.len() > 0 {
        lemma_split(msgs, calls, answers);
        let stay = untied(msgs, calls, answers);
        let c2 = calls + calls_of(gone);
        let a2 = answers + answers_of(gone);
        assert forall|id: Seq<char>| calls.contains(id) implies #[trigger] settle(msgs, calls, answers).1.contains(id) by {
            lemma_settle_grows(msgs, calls, answers, id);
        }
        assert forall|id: Seq<char>| answers.contains(id) implies #[trigger] settle(msgs, calls, answers).2.contains(id) by {
            lemma_settle_grows(msgs, calls, answers, id);
        }
        if tied_to(msgs.last(), calls, answers) {
            lemma_tied_monotone(msgs.last(), calls, answers, settle(msgs, calls, answers).1, settle(msgs, calls, answers).2);
        }
        assert(stay == untied(msgs.drop_last(), calls, answers).push(msgs.last()));
        lemma_settle_keeps_last(stay, c2, a2);
    }
}

/// Whatever trimming keeps was there before.
proof fn lemma_trim_contains(msgs: Seq<Json>, max_turns: nat, paired: bool, x: Json)
    requires
        trim(msgs, max_turns, paired).0.contains(x),
    ensures
        msgs.contains(x),
    decreases msgs.len(),
{
    if msgs.len() > max_turns {
        let rest = msgs.drop_first();
        let kept = if paired { settle(rest, use_ids(msgs[0]), result_refs(msgs[0])).0 } else { rest };
        lemma_settle_len(rest, use_ids(msgs[0]), result_refs(msgs[0]));
        lemma_trim_contains(kept, max_turns, paired, x);
        lemma_settle_kept(rest, use_ids(msgs[0]), result_refs(msgs[0]));
        lemma_first_contains(msgs, x);
    }
}

// ---- laws -----------------------------------------------------------------

/// Every tool result in `msgs` refers to a call that some message of `msgs`
/// makes.
pub open spec fn orphan_free(msgs: Seq<Json>) -> bool {
    forall|m: Json, id: Seq<char>|
        #![trigger msgs.contains(m), result_refs(m).contains(id)]
        msgs.contains(m) && result_refs(m).contains(id) ==> exists|c: Json|
            #![trigger msgs.contains(c), use_ids(c).contains(id)]
            msgs.contains(c) && use_ids(c).contains(id)
}

/// The window never holds more than `max_turns` messages after an eviction.
pub proof fn law_trim_fits(msgs: Seq<Json>, max_turns: nat, paired: bool)
    ensures
        trim(msgs, max_turns, paired).0.len() <= max_turns,
{
    lemma_trim_fits(msgs, max_turns, paired);
}

/// Every message is either still in the window or counted as evicted.
pub proof fn law_trim_counts_every_eviction(msgs: Seq<Json>, max_turns: nat, paired: bool)
    ensures
        trim(msgs, max_turns, paired).0.len() + trim(msgs, max_turns, paired).1 == msgs.len(),
{
    lemma_trim_conserves(msgs, max_turns, paired);
}

/// Nothing is evicted while the messages fit.
pub proof fn law_no_eviction_within_capacity(msgs: Seq<Json>, max_turns: nat, paired: bool)
    requires
        msgs.len() <= max_turns,
    ensures
        trim(msgs, max_turns, paired) == (msgs, 0nat),
{
}

/// Eviction only leaves messages out: the window keeps the rest in the order
/// in which they came.
pub proof fn law_trim_keeps_order(msgs: Seq<Json>, max_turns: nat, paired: bool)
    ensures
        is_subsequence(trim(msgs, max_turns, paired).0, msgs),
    decreases msgs.len(),
{
    if msgs.len() <= max_turns {
        lemma_subsequence_refl(msgs);
    } else {
        let rest = msgs.drop_first();
        let kept = if paired { settle(rest, use_ids(msgs[0]), result_refs(msgs[0])).0 } else { rest };
        lemma_settle_len(rest, use_ids(msgs[0]), result_refs(msgs[0]));
        law_trim_keeps_order(kept, max_turns, paired);
        if paired {
            lemma_settle_kept(rest, use_ids(msgs[0]), result_refs(msgs[0]));
        } else {
            lemma_subsequence_refl(rest);
        }
        lemma_drop_first_subsequence(msgs);
        lemma_subsequence_trans(kept, rest, msgs);
        lemma_subsequence_trans(trim(kept, max_turns, paired).0, kept, msgs);
    }
}

/// Without paired protection, or when no message makes a tool call, the
/// window keeps exactly the newest `max_turns` messages: the oldest go first.
pub proof fn law_unpaired_keeps_newest(msgs: Seq<Json>, max_turns: nat, paired: bool)
    requires
        !paired || forall|i: int| 0 <= i < msgs.len() ==> #[trigger] use_ids(msgs[i]).len() == 0,
    ensures
        msgs.len() <= max_turns ==> trim(msgs, max_turns, paired).0 == msgs,
        msgs.len() > max_turns ==> trim(msgs, max_turns, paired).0 == msgs.skip(
            msgs.len() - max_turns,
        ),
    decreases msgs.len(),
{
    if msgs.len() > max_turns {
        let rest = msgs.drop_first();
        if paired {
            let calls = use_ids(msgs[0]);
            let answers = result_refs(msgs[0]);
            assert forall|i: int| 0 <= i < rest.len() implies #[trigger] use_ids(rest[i]).len() == 0 by {
                assert(rest[i] == msgs[i + 1]);
            }
            assert forall|x: Json| rest.contains(x) implies !tied_to(x, calls, answers) by {
                let i = choose|i: int| 0 <= i < rest.len() && rest[i] == x;
                assert(use_ids(rest[i]).len() == 0);
                assert(calls.len() == 0);
            }
            if tied(rest, calls, answers).len() > 0 {
                let x = tied(rest, calls, answers)[0];
                assert(tied(rest, calls, answers).contains(x));
                lemma_round_contains(rest, calls, answers, x);
            }
        }
        law_unpaired_keeps_newest(rest, max_turns, paired);
        assert(rest.skip(rest.len() - max_turns) =~= msgs.skip(msgs.len() - max_turns));
    }
}

/// With paired protection, tool calls and their results leave together in
/// both directions: no message that the window keeps answers a call made by
/// a message it evicted, and none makes a call answered by a message it
/// evicted.
pub proof fn law_pairs_leave_together(msgs: Seq<Json>, max_turns: nat, y: Json, k: Json)
    requires
        msgs.contains(y),
        !trim(msgs, max_turns, true).0.contains(y),
        trim(msgs, max_turns, true).0.contains(k),
    ensures
        !answers_any(k, use_ids(y)),
        !answers_any(y, use_ids(k)),
    decreases msgs.len(),
{
    if msgs.len() > max_turns {
        let rest = msgs.drop_first();
        let c0 = use_ids(msgs[0]);
        let a0 = result_refs(msgs[0]);
        let s = settle(rest, c0, a0);
        lemma_settle_len(rest, c0, a0);
        lemma_trim_contains(s.0, max_turns, true, k);
        if s.0.contains(y) {
            law_pairs_leave_together(s.0, max_turns, y, k);
        } else {
            lemma_settle_fixpoint(rest, c0, a0, k);
            lemma_first_contains(msgs, y);
            if answers_any(k, use_ids(y)) {
                let i = choose|i: int| 0 <= i < result_refs(k).len() && use_ids(y).contains(#[trigger] result_refs(k)[i]);
                let id = result_refs(k)[i];
                lemma_settle_grows(rest, c0, a0, id);
                if y != msgs[0] {
                    lemma_settle_gone(rest, c0, a0, y, id);
                }
                assert(s.1.contains(id));
                assert(answers_any(k, s.1));
            }
            if answers_any(y, use_ids(k)) {
                let i = choose|i: int| 0 <= i < result_refs(y).len() && use_ids(k).contains(#[trigger] result_refs(y)[i]);
                let id = result_refs(y)[i];
                assert(result_refs(y).contains(id));
                lemma_settle_grows(rest, c0, a0, id);
                if y != msgs[0] {
                    lemma_settle_gone(rest, c0, a0, y, id);
                }
                assert(s.2.contains(id));
                let j = choose|j: int| 0 <= j < use_ids(k).len() && use_ids(k)[j] == id;
                assert(calls_any(k, s.2));
            }
        }
    }
}

/// With paired protection, a call that the window keeps keeps every answer
/// to it, and an answer that it keeps keeps its call.
pub proof fn law_kept_pairs_stay_whole(msgs: Seq<Json>, max_turns: nat, c: Json, r: Json)
    requires
        msgs.contains(c),
        msgs.contains(r),
        answers_any(r, use_ids(c)),
        trim(msgs, max_turns, true).0.contains(c) || trim(msgs, max_turns, true).0.contains(r),
    ensures
        trim(msgs, max_turns, true).0.contains(c),
        trim(msgs, max_turns, true).0.contains(r),
{
    let kept = trim(msgs, max_turns, true).0;
    if !kept.contains(r) {
        law_pairs_leave_together(msgs, max_turns, r, c);
    }
    if !kept.contains(c) {
        law_pairs_leave_together(msgs, max_turns, c, r);
    }
}

/// With paired protection, eviction never leaves a tool result behind whose
/// call has gone: a window without orphans stays without orphans.
pub proof fn law_trim_leaves_no_orphans(msgs: Seq<Json>, max_turns: nat)
    requires
        orphan_free(msgs),
    ensures
        orphan_free(trim(msgs, max_turns, true).0),
{
    let kept = trim(msgs, max_turns, true).0;
    assert forall|m: Json, id: Seq<char>|
        #![trigger kept.contains(m), result_refs(m).contains(id)]
        kept.contains(m) && result_refs(m).contains(id) implies exists|c: Json|
            #![trigger kept.contains(c), use_ids(c).contains(id)]
            kept.contains(c) && use_ids(c).contains(id) by {
        lemma_trim_contains(msgs, max_turns, true, m);
        let c = choose|c: Json| msgs.contains(c) && use_ids(c).contains(id);
        let k = choose|k: int| 0 <= k < result_refs(m).len() && result_refs(m)[k] == id;
        assert(answers_any(m, use_ids(c)));
        law_kept_pairs_stay_whole(msgs, max_turns, c, m);
        assert(kept.contains(c));
    }
}

/// With paired protection, a pushed message that answers nothing, and whose
/// calls nothing in the window answers, is the newest message afterwards.
pub proof fn law_quiet_newest_stays_last(msgs: Seq<Json>, m: Json, max_turns: nat, paired: bool)
    requires
        max_turns >= 1,
        result_refs(m).len() == 0,
        forall|x: Json| #[trigger] msgs.contains(x) ==> !answers_any(x, use_ids(m)),
    ensures
        trim(msgs.push(m), max_turns, paired).0.len() > 0,
        trim(msgs.push(m), max_turns, paired).0.last() == m,
    decreases msgs.len(),
{
    let all = msgs.push(m);
    if all.len() > max_turns {
        let rest = all.drop_first();
        let c0 = use_ids(all[0]);
        let a0 = result_refs(all[0]);
        let kept = if paired { settle(rest, c0, a0).0 } else { rest };
        lemma_settle_len(rest, c0, a0);
        assert(rest == msgs.drop_first().push(m));
        assert(all[0] == msgs[0]);
        lemma_first_contains(msgs, msgs[0]);
        if paired {
            let s = settle(rest, c0, a0);
            if tied_to(m, s.1, s.2) {
                assert(!answers_any(m, s.1));
                let j = choose|j: int| 0 <= j < use_ids(m).len() && s.2.contains(#[trigger] use_ids(m)[j]);
                let id = use_ids(m)[j];
                lemma_settle_answer_origin(rest, c0, a0, id);
                if a0.contains(id) {
                    let k = choose|k: int| 0 <= k < a0.len() && a0[k] == id;
                    assert(answers_any(msgs[0], use_ids(m)));
                } else {
                    let x = choose|x: Json| #[trigger] rest.contains(x) && result_refs(x).contains(id);
                    lemma_push_contains(msgs.drop_first(), m, x);
                    lemma_first_contains(msgs, x);
                    let k = choose|k: int| 0 <= k < result_refs(x).len() && result_refs(x)[k] == id;
                    assert(answers_any(x, use_ids(m)));
                }
            }
            lemma_settle_keeps_last(rest, c0, a0);
            lemma_settle_kept(rest, c0, a0);
        }
        let before = kept.drop_last();
        assert(kept == before.push(m));
        assert forall|x: Json| #[trigger] before.contains(x) implies !answers_any(x, use_ids(m)) by {
            lemma_push_contains(before, m, x);
            lemma_push_contains(msgs.drop_first(), m, x);
            lemma_first_contains(msgs, x);
            if x == m {
                assert(result_refs(m).len() == 0);
            }
        }
        law_quiet_newest_stays_last(before, m, max_turns, paired);
    }
}

/// A settled removal is stable: settling what it kept, from the calls and
/// answers it ended with, changes nothing; and with no calls and no answers
/// to start from, nothing is removed.
pub proof fn law_settle_is_stable(msgs: Seq<Json>, calls: Seq<Seq<char>>, answers: Seq<Seq<char>>)
    ensures
        ({
            let s = settle(msgs, calls, answers);
            settle(s.0, s.1, s.2) == s
        }),
        settle(msgs, Seq::empty(), Seq::empty()) == (msgs, Seq::<Seq<char>>::empty(), Seq::<Seq<char>>::empty()),
{
    let s = settle(msgs, calls, answers);
    if tied(s.0, s.1, s.2).len() > 0 {
        let x = tied(s.0, s.1, s.2)[0];
        assert(tied(s.0, s.1, s.2).contains(x));
        lemma_round_contains(s.0, s.1, s.2, x);
        lemma_settle_fixpoint(msgs, calls, answers, x);
    }
    let e = Seq::<Seq<char>>::empty();
    if tied(msgs, e, e).len() > 0 {
        let x = tied(msgs, e, e)[0];
        assert(tied(msgs, e, e).contains(x));
        lemma_round_contains(msgs, e, e, x);
    }
}

/// With paired protection, pushing a message into a window without orphans,
/// when every result it carries answers a call in the window or in the
/// message itself, leaves a window without orphans.
pub proof fn law_push_leaves_no_orphans(s: WindowState, m: Json)
    requires
        s.paired_protect,
        orphan_free(s.messages.push(m)),
    ensures
        orphan_free(s.pushed(m).messages),
{
    law_trim_leaves_no_orphans(s.messages.push(m), s.max_turns);
}

/// A push adds one message to the window or to the eviction count:
/// what is held plus what was evicted grows by exactly one.
pub proof fn law_push_counts(s: WindowState, m: Json)
    ensures
        s.pushed(m).messages.len() + s.pushed(m).evicted_count == s.messages.len()
            + s.evicted_count + 1,
        s.pushed(m).messages.len() <= s.max_turns,
{
    lemma_trim_conserves(s.messages.push(m), s.max_turns, s.paired_protect);
    lemma_trim_fits(s.messages.push(m), s.max_turns, s.paired_protect);
}

// ---- laws over runs of calls ------------------------------------------------

/// The messages offered to a window in state `s` by the calls `rs`, in
/// order, forgetting everything before the last clear or reset.
pub open spec fn offered(s: WindowState, rs: Seq<Request>) -> Seq<Json>
    decreases rs.len(),
{
    if rs.len() == 0 {
        s.messages
    } else {
        let before = offered(s, rs.drop_last());
        match rs.last() {
            Request::Add(m) => if m is Object {
                before.push(m)
            } else {
                before
            },
            Request::Push(m) => before.push(m),
            Request::Extend(msgs) => before + msgs.take(object_prefix_len(msgs) as int),
            Request::Reset(msgs) => msgs,
            Request::Clear => Seq::empty(),
        }
    }
}

proof fn lemma_pushed_all_shape(s: WindowState, msgs: Seq<Json>)
    ensures
        s.pushed_all(msgs).max_turns == s.max_turns,
        s.pushed_all(msgs).paired_protect == s.paired_protect,
        msgs.len() > 0 || s.messages.len() <= s.max_turns ==> s.pushed_all(msgs).messages.len()
            <= s.max_turns,
        is_subsequence(s.pushed_all(msgs).messages, s.messages + msgs),
    decreases msgs.len(),
{
    if msgs.len() == 0 {
        assert(s.messages + msgs =~= s.messages);
        lemma_subsequence_refl(s.messages);
    } else {
        let p = s.pushed_all(msgs.drop_last());
        lemma_pushed_all_shape(s, msgs.drop_last());
        lemma_trim_fits(p.messages.push(msgs.last()), p.max_turns, p.paired_protect);
        law_trim_keeps_order(p.messages.push(msgs.last()), p.max_turns, p.paired_protect);
        lemma_subsequence_push(p.messages, s.messages + msgs.drop_last(), msgs.last());
        assert((s.messages + msgs.drop_last()).push(msgs.last()) =~= s.messages + msgs);
        lemma_subsequence_trans(s.pushed_all(msgs).messages, p.messages.push(msgs.last()), s.messages + msgs);
    }
}

/// Over any run of calls the capacity and the protection setting never
/// change, and the window never holds more than its capacity.
pub proof fn law_run_keeps_capacity(s: WindowState, rs: Seq<Request>)
    requires
        s.messages.len() <= s.max_turns,
    ensures
        s.run(rs).max_turns == s.max_turns,
        s.run(rs).paired_protect == s.paired_protect,
        s.run(rs).messages.len() <= s.max_turns,
    decreases rs.len(),
{
    if rs.len() > 0 {
        let p = s.run(rs.drop_last());
        law_run_keeps_capacity(s, rs.drop_last());
        match rs.last() {
            Request::Add(m) => {
                lemma_trim_fits(p.messages.push(m), p.max_turns, p.paired_protect);
            },
            Request::Push(m) => {
                lemma_trim_fits(p.messages.push(m), p.max_turns, p.paired_protect);
            },
            Request::Extend(msgs) => {
                lemma_pushed_all_shape(p, msgs.take(object_prefix_len(msgs) as int));
            },
            Request::Reset(msgs) => {
                lemma_trim_fits(msgs, p.max_turns, p.paired_protect);
            },
            Request::Clear => {},
        }
    }
}

/// Over any run of calls the window holds a subsequence, in order, of the
/// messages offered to it since the last clear or reset.
pub proof fn law_run_keeps_a_subsequence(s: WindowState, rs: Seq<Request>)
    ensures
        is_subsequence(s.run(rs).messages, offered(s, rs)),
    decreases rs.len(),
{
    if rs.len() == 0 {
        lemma_subsequence_refl(s.messages);
    } else {
        let p = s.run(rs.drop_last());
        let before = offered(s, rs.drop_last());
        law_run_keeps_a_subsequence(s, rs.drop_last());
        match rs.last() {
            Request::Add(m) => {
                if m is Object {
                    law_trim_keeps_order(p.messages.push(m), p.max_turns, p.paired_protect);
                    lemma_subsequence_push(p.messages, before, m);
                    lemma_subsequence_trans(s.run(rs).messages, p.messages.push(m), before.push(m));
                }
            },
            Request::Push(m) => {
                law_trim_keeps_order(p.messages.push(m), p.max_turns, p.paired_protect);
                lemma_subsequence_push(p.messages, before, m);
                lemma_subsequence_trans(s.run(rs).messages, p.messages.push(m), before.push(m));
            },
            Request::Extend(msgs) => {
                let prefix = msgs.take(object_prefix_len(msgs) as int);
                lemma_pushed_all_shape(p, prefix);
                lemma_subsequence_append(p.messages, before, prefix);
                lemma_subsequence_trans(s.run(rs).messages, p.messages + prefix, before + prefix);
            },
            Request::Reset(msgs) => {
                law_trim_keeps_order(msgs, p.max_turns, p.paired_protect);
            },
            Request::Clear => {
                lemma_subsequence_empty(Seq::empty());
            },
        }
    }
}

proof fn lemma_pushed_all_counts(s: WindowState, msgs: Seq<Json>)
    ensures
        s.pushed_all(msgs).messages.len() + s.pushed_all(msgs).evicted_count == s.messages.len()
            + s.evicted_count + msgs.len(),
    decreases msgs.len(),
{
    if msgs.len() > 0 {
        let p = s.pushed_all(msgs.drop_last());
        lemma_pushed_all_counts(s, msgs.drop_last());
        lemma_trim_conserves(p.messages.push(msgs.last()), p.max_turns, p.paired_protect);
    }
}

/// Counting from a window that has evicted nothing, the messages held plus
/// the messages evicted are exactly the messages offered since the last
/// clear or reset.
pub proof fn law_run_counts_every_message(s: WindowState, rs: Seq<Request>)
    requires
        s.evicted_count == 0,
    ensures
        s.run(rs).messages.len() + s.run(rs).evicted_count == offered(s, rs).len(),
    decreases rs.len(),
{
    if rs.len() > 0 {
        let p = s.run(rs.drop_last());
        law_run_counts_every_message(s, rs.drop_last());
        match rs.last() {
            Request::Add(m) => {
                lemma_trim_conserves(p.messages.push(m), p.max_turns, p.paired_protect);
            },
            Request::Push(m) => {
                lemma_trim_conserves(p.messages.push(m), p.max_turns, p.paired_protect);
            },
            Request::Extend(msgs) => {
                lemma_pushed_all_counts(p, msgs.take(object_prefix_len(msgs) as int));
            },
            Request::Reset(msgs) => {
                lemma_trim_conserves(msgs, p.max_turns, p.paired_protect);
            },
            Request::Clear => {},
        }
    }
}

/// The calls that add each of `msgs`, in order.
pub open spec fn adds(msgs: Seq<Json>) -> Seq<Request> {
    msgs.map_values(|m: Json| Request::Add(m))
}

/// Adding JSON objects one call at a time leaves the window as one call of
/// `extend` with all of them does; `extend` stops at the first non-object,
/// as the calls of `add` before it would.
pub proof fn law_extend_is_repeated_add(s: WindowState, msgs: Seq<Json>)
    ensures
        s.apply(Request::Extend(msgs)) == s.run(adds(msgs.take(object_prefix_len(msgs) as int))),
{
    let k = object_prefix_len(msgs) as int;
    lemma_object_prefix_objects(msgs);
    lemma_adds_run(s, msgs.take(k));
}

proof fn lemma_object_prefix_objects(msgs: Seq<Json>)
    ensures
        object_prefix_len(msgs) <= msgs.len(),
        forall|j: int| 0 <= j < object_prefix_len(msgs) ==> #[trigger] msgs[j] is Object,
    decreases msgs.len(),
{
    if msgs.len() > 0 && msgs[0] is Object {
        lemma_object_prefix_objects(msgs.drop_first());
        assert forall|j: int| 0 <= j < object_prefix_len(msgs) implies #[trigger] msgs[j] is Object by {
            if j > 0 {
                assert(msgs[j] == msgs.drop_first()[j - 1]);
            }
        }
    }
}

proof fn lemma_adds_run(s: WindowState, msgs: Seq<Json>)
    requires
        forall|j: int| 0 <= j < msgs.len() ==> #[trigger] msgs[j] is Object,
    ensures
        s.pushed_all(msgs) == s.run(adds(msgs)),
    decreases msgs.len(),
{
    if msgs.len() > 0 {
        let front = msgs.drop_last();
        assert forall|j: int| 0 <= j < front.len() implies #[trigger] front[j] is Object by {
            assert(front[j] == msgs[j]);
        }
        lemma_adds_run(s, front);
        assert(adds(msgs).drop_last() =~= adds(front));
        assert(msgs.last() is Object);
    }
}

// ---- what a message says --------------------------------------------------

/// `v` is the JSON string whose text is `t`.
pub open spec fn is_text(v: Option<Json>, t: Seq<char>) -> bool {
    match v {
        Some(Json::String(s)) => s@ == t,
        _ => false,
    }
}

/// `block` is an object `{"type": kind, key: id, ..}`, whatever its other
/// members.
pub open spec fn carries(block: Json, kind: Seq<char>, key: Seq<char>, id: Seq<char>) -> bool {
    is_text(block.field("type"@), kind) && is_text(block.field(key), id)
}

/// `block` carries some string under `key` and has type `kind`.
pub open spec fn carries_some(block: Json, kind: Seq<char>, key: Seq<char>) -> bool {
    exists|id: Seq<char>| carries(block, kind, key, id)
}

/// `ids` lists, in order, the id under `key` of exactly those `blocks` of
/// type `kind` that carry a string there: `f` maps each listed id to its
/// block, in increasing positions, and reaches every such block.
pub open spec fn lists_in_order(
    f: spec_fn(int) -> int,
    ids: Seq<Seq<char>>,
    blocks: Seq<Json>,
    kind: Seq<char>,
    key: Seq<char>,
) -> bool {
    &&& forall|k: int| 0 <= k < ids.len() ==> 0 <= #[trigger] f(k) < blocks.len() && carries(blocks[f(k)], kind, key, ids[k])
    &&& forall|k1: int, k2: int| 0 <= k1 < k2 < ids.len() ==> #[trigger] f(k1) < #[trigger] f(k2)
    &&& forall|j: int| 0 <= j < blocks.len() && #[trigger] carries_some(blocks[j], kind, key) ==> exists|k: int| 0 <= k < ids.len() && #[trigger] f(k) == j
}

proof fn lemma_block_use_id(b: Json)
    ensures
        match block_use_id(b) {
            Some(id) => carries(b, "tool_use"@, "id"@, id),
            None => !carries_some(b, "tool_use"@, "id"@),
        },
{
    if carries_some(b, "tool_use"@, "id"@) {
        let id = choose|id: Seq<char>| carries(b, "tool_use"@, "id"@, id);
        assert(text_of(b, "type"@) == Some("tool_use"@));
        assert(text_of(b, "id"@) == Some(id));
    }
}

proof fn lemma_block_result_ref(b: Json)
    ensures
        match block_result_ref(b) {
            Some(id) => carries(b, "tool_result"@, "tool_use_id"@, id),
            None => !carries_some(b, "tool_result"@, "tool_use_id"@),
        },
{
    if carries_some(b, "tool_result"@, "tool_use_id"@) {
        let id = choose|id: Seq<char>| carries(b, "tool_result"@, "tool_use_id"@, id);
        assert(text_of(b, "type"@) == Some("tool_result"@));
        assert(text_of(b, "tool_use_id"@) == Some(id));
    }
}

proof fn lemma_lists_push_skip(
    f: spec_fn(int) -> int,
    ids: Seq<Seq<char>>,
    blocks: Seq<Json>,
    b: Json,
    kind: Seq<char>,
    key: Seq<char>,
) -> (g: spec_fn(int) -> int)
    requires
        lists_in_order(f, ids, blocks, kind, key),
        !carries_some(b, kind, key),
    ensures
        lists_in_order(g, ids, blocks.push(b), kind, key),
{
    let nb = blocks.push(b);
    assert forall|k: int| 0 <= k < ids.len() implies 0 <= #[trigger] f(k) < nb.len() && carries(nb[f(k)], kind, key, ids[k]) by {
        assert(nb[f(k)] == blocks[f(k)]);
    }
    assert forall|j: int| 0 <= j < nb.len() && #[trigger] carries_some(nb[j], kind, key) implies exists|k: int| 0 <= k < ids.len() && #[trigger] f(k) == j by {
        if j < blocks.len() {
            assert(nb[j] == blocks[j]);
            assert(carries_some(blocks[j], kind, key));
        }
    }
    f
}

proof fn lemma_lists_push_take(
    f: spec_fn(int) -> int,
    ids: Seq<Seq<char>>,
    blocks: Seq<Json>,
    b: Json,
    id: Seq<char>,
    kind: Seq<char>,
    key: Seq<char>,
) -> (g: spec_fn(int) -> int)
    requires
        lists_in_order(f, ids, blocks, kind, key),
        carries(b, kind, key, id),
    ensures
        lists_in_order(g, ids.push(id), blocks.push(b), kind, key),
{
    let nb = blocks.push(b);
    let ni = ids.push(id);
    let n = ids.len() as int;
    let last = blocks.len() as int;
    let g = |k: int| if k < n { f(k) } else { last };
    assert forall|k: int| 0 <= k < ni.len() implies 0 <= #[trigger] g(k) < nb.len() && carries(nb[g(k)], kind, key, ni[k]) by {
        if k < n {
            assert(nb[f(k)] == blocks[f(k)]);
        }
    }
    assert forall|k1: int, k2: int| 0 <= k1 < k2 < ni.len() implies #[trigger] g(k1) < #[trigger] g(k2) by {
        if k2 < n {
            assert(f(k1) < f(k2));
        } else {
            assert(0 <= f(k1) < blocks.len());
        }
    }
    assert forall|j: int| 0 <= j < nb.len() && #[trigger] carries_some(nb[j], kind, key) implies exists|k: int| 0 <= k < ni.len() && #[trigger] g(k) == j by {
        if j < blocks.len() {
            assert(nb[j] == blocks[j]);
            assert(carries_some(blocks[j], kind, key));
            let k = choose|k: int| 0 <= k < ids.len() && #[trigger] f(k) == j;
            assert(g(k) == j);
        } else {
            assert(g(n) == j);
        }
    }
    g
}

proof fn lemma_use_ids_in_lists(blocks: Seq<Json>)
    ensures
        exists|f: spec_fn(int) -> int| lists_in_order(f, use_ids_in(blocks), blocks, "tool_use"@, "id"@),
    decreases blocks.len(),
{
    if blocks.len() == 0 {
        let f = |k: int| k;
        assert forall|j: int| 0 <= j < blocks.len() && #[trigger] carries_some(blocks[j], "tool_use"@, "id"@) implies exists|k: int| 0 <= k < use_ids_in(blocks).len() && #[trigger] f(k) == j by {}
        assert(lists_in_order(f, use_ids_in(blocks), blocks, "tool_use"@, "id"@));
    } else {
        let front = blocks.drop_last();
        lemma_use_ids_in_lists(front);
        let f = choose|f: spec_fn(int) -> int| lists_in_order(f, use_ids_in(front), front, "tool_use"@, "id"@);
        assert(blocks == front.push(blocks.last()));
        lemma_block_use_id(blocks.last());
        match block_use_id(blocks.last()) {
            Some(id) => {
                let g = lemma_lists_push_take(f, use_ids_in(front), front, blocks.last(), id, "tool_use"@, "id"@);
                assert(lists_in_order(g, use_ids_in(blocks), blocks, "tool_use"@, "id"@));
            },
            None => {
                let g = lemma_lists_push_skip(f, use_ids_in(front), front, blocks.last(), "tool_use"@, "id"@);
                assert(lists_in_order(g, use_ids_in(blocks), blocks, "tool_use"@, "id"@));
            },
        }
    }
}

proof fn lemma_result_refs_in_lists(blocks: Seq<Json>)
    ensures
        exists|f: spec_fn(int) -> int| lists_in_order(f, result_refs_in(blocks), blocks, "tool_result"@, "tool_use_id"@),
    decreases blocks.len(),
{
    if blocks.len() == 0 {
        let f = |k: int| k;
        assert forall|j: int| 0 <= j < blocks.len() && #[trigger] carries_some(blocks[j], "tool_result"@, "tool_use_id"@) implies exists|k: int| 0 <= k < result_refs_in(blocks).len() && #[trigger] f(k) == j by {}
        assert(lists_in_order(f, result_refs_in(blocks), blocks, "tool_result"@, "tool_use_id"@));
    } else {
        let front = blocks.drop_last();
        lemma_result_refs_in_lists(front);
        let f = choose|f: spec_fn(int) -> int| lists_in_order(f, result_refs_in(front), front, "tool_result"@, "tool_use_id"@);
        assert(blocks == front.push(blocks.last()));
        lemma_block_result_ref(blocks.last());
        match block_result_ref(blocks.last()) {
            Some(id) => {
                let g = lemma_lists_push_take(f, result_refs_in(front), front, blocks.last(), id, "tool_result"@, "tool_use_id"@);
                assert(lists_in_order(g, result_refs_in(blocks), blocks, "tool_result"@, "tool_use_id"@));
            },
            None => {
                let g = lemma_lists_push_skip(f, result_refs_in(front), front, blocks.last(), "tool_result"@, "tool_use_id"@);
                assert(lists_in_order(g, result_refs_in(blocks), blocks, "tool_result"@, "tool_use_id"@));
            },
        }
    }
}

/// The calls a message makes are exactly the string ids of the blocks of
/// its `content` array whose type is `"tool_use"`, in the order of those
/// blocks, whatever other blocks stand between them and whatever the role;
/// a message without a `content` array makes none.
pub proof fn law_calls_are_the_tool_use_blocks(m: Json)
    ensures
        match m.field("content"@) {
            Some(Json::Array(blocks)) => exists|f: spec_fn(int) -> int|
                lists_in_order(f, use_ids(m), blocks@, "tool_use"@, "id"@),
            _ => use_ids(m).len() == 0,
        },
{
    match m.field("content"@) {
        Some(Json::Array(blocks)) => {
            assert(content_blocks(m) == blocks@);
            lemma_use_ids_in_lists(blocks@);
            let f = choose|f: spec_fn(int) -> int| lists_in_order(f, use_ids_in(blocks@), blocks@, "tool_use"@, "id"@);
            assert(lists_in_order(f, use_ids(m), blocks@, "tool_use"@, "id"@));
        },
        _ => {
            assert(content_blocks(m) == Seq::<Json>::empty());
        },
    }
}

/// The top-level string `tool_use_id` of a `"role": "tool"` message, if it
/// has one.
pub open spec fn own_answer(m: Json) -> Seq<Seq<char>> {
    if is_text(m.field("role"@), "tool"@) && exists|t: Seq<char>| is_text(m.field("tool_use_id"@), t) {
        seq![choose|t: Seq<char>| is_text(m.field("tool_use_id"@), t)]
    } else {
        Seq::empty()
    }
}

/// The results a message carries are the string `tool_use_id`s of the
/// blocks of its `content` array whose type is `"tool_result"`, in order,
/// whatever the blocks' other members (`is_error`, `content`, ..) and
/// whatever the role, followed, for a `"role": "tool"` message, by its own
/// top-level string `tool_use_id`.
pub proof fn law_results_are_the_tool_result_blocks(m: Json)
    ensures
        match m.field("content"@) {
            Some(Json::Array(blocks)) => exists|r: Seq<Seq<char>>, f: spec_fn(int) -> int|
                #[trigger] lists_in_order(f, r, blocks@, "tool_result"@, "tool_use_id"@)
                    && result_refs(m) == r + own_answer(m),
            _ => result_refs(m) == own_answer(m),
        },
{
    let from_blocks = result_refs_in(content_blocks(m));
    if is_text(m.field("role"@), "tool"@) && exists|t: Seq<char>| is_text(m.field("tool_use_id"@), t) {
        let t = choose|t: Seq<char>| is_text(m.field("tool_use_id"@), t);
        assert(text_of(m, "tool_use_id"@) == Some(t));
        assert(text_of(m, "role"@) == Some("tool"@));
    } else {
        if text_of(m, "role"@) == Some("tool"@) {
            assert(is_text(m.field("role"@), "tool"@));
            if let Some(t) = text_of(m, "tool_use_id"@) {
                assert(is_text(m.field("tool_use_id"@), t));
            }
        }
    }
    assert(flat_result_ref(m) == own_answer(m));
    match m.field("content"@) {
        Some(Json::Array(blocks)) => {
            assert(content_blocks(m) == blocks@);
            lemma_result_refs_in_lists(blocks@);
            let f = choose|f: spec_fn(int) -> int| lists_in_order(f, from_blocks, blocks@, "tool_result"@, "tool_use_id"@);
            assert(lists_in_order(f, from_blocks, blocks@, "tool_result"@, "tool_use_id"@));
        },
        _ => {
            assert(content_blocks(m) == Seq::<Json>::empty());
            assert(from_blocks + own_answer(m) =~= own_answer(m));
        },
    }
}

/// Without paired protection a reset keeps exactly the newest `max_turns`
/// of the new messages, and counts every older one as evicted.
pub proof fn law_unprotected_reset_keeps_newest(s: WindowState, msgs: Seq<Json>)
    requires
        !s.paired_protect,
    ensures
        msgs.len() <= s.max_turns ==> s.reloaded(msgs).messages == msgs
            && s.reloaded(msgs).evicted_count == 0,
        msgs.len() > s.max_turns ==> s.reloaded(msgs).messages == msgs.skip(msgs.len() - s.max_turns)
            && s.reloaded(msgs).evicted_count == msgs.len() - s.max_turns,
        s.reloaded(msgs).max_turns == s.max_turns,
        s.reloaded(msgs).paired_protect == s.paired_protect,
{
    law_unpaired_keeps_newest(msgs, s.max_turns, false);
    lemma_trim_conserves(msgs, s.max_turns, false);
}

/// Without paired protection a push keeps exactly the newest `max_turns`
/// messages, and a message leaves only when the window overflows.
pub proof fn law_unprotected_push_keeps_newest(s: WindowState, m: Json)
    requires
        !s.paired_protect,
    ensures
        ({
            let all = s.messages.push(m);
            &&& all.len() <= s.max_turns ==> s.pushed(m).messages == all
                && s.pushed(m).evicted_count == s.evicted_count
            &&& all.len() > s.max_turns ==> s.pushed(m).messages == all.skip(all.len() - s.max_turns)
                && s.pushed(m).evicted_count == s.evicted_count + all.len() - s.max_turns
        }),
{
    law_unpaired_keeps_newest(s.messages.push(m), s.max_turns, false);
    lemma_trim_conserves(s.messages.push(m), s.max_turns, false);
}

/// With paired protection a reset evicts tool calls and their results
/// together in both directions, as a push does.
pub proof fn law_protected_reset_keeps_pairs(s: WindowState, msgs: Seq<Json>, y: Json, k: Json)
    requires
        s.paired_protect,
        msgs.contains(y),
        !s.reloaded(msgs).messages.contains(y),
        s.reloaded(msgs).messages.contains(k),
    ensures
        !answers_any(k, use_ids(y)),
        !answers_any(y, use_ids(k)),
{
    law_pairs_leave_together(msgs, s.max_turns, y, k);
}

proof fn lemma_trees_index(items: Seq<Json>)
    ensures
        trees(items).len() == items.len(),
        forall|i: int| 0 <= i < items.len() ==> #[trigger] trees(items)[i] == items[i].tree(),
    decreases items.len(),
{
    if items.len() > 0 {
        lemma_trees_index(items.drop_last());
    }
}

proof fn lemma_member_trees_index(members: Seq<(String, Json)>)
    ensures
        member_trees(members).len() == members.len(),
        forall|i: int| 0 <= i < members.len() ==> #[trigger] member_trees(members)[i] == (members[i].0@, members[i].1.tree()),
    decreases members.len(),
{
    if members.len() > 0 {
        lemma_member_trees_index(members.drop_last());
    }
}

/// Two values with the same tree are the same JSON value: same kind, same
/// boolean, same text, and, element by element and member by member, the
/// same keys and values with the same trees.
pub proof fn law_tree_is_faithful(a: Json, b: Json)
    requires
        a.tree() == b.tree(),
    ensures
        match (a, b) {
            (Json::Null, Json::Null) => true,
            (Json::Bool(x), Json::Bool(y)) => x == y,
            (Json::Number(x), Json::Number(y)) => x@ == y@,
            (Json::String(x), Json::String(y)) => x@ == y@,
            (Json::Array(u), Json::Array(v)) => u@.len() == v@.len() && forall|i: int|
                0 <= i < u@.len() ==> #[trigger] u@[i].tree() == v@[i].tree(),
            (Json::Object(u), Json::Object(v)) => u@.len() == v@.len() && forall|i: int|
                0 <= i < u@.len() ==> #[trigger] u@[i].0@ == v@[i].0@ && u@[i].1.tree() == v@[i].1.tree(),
            _ => false,
        },
{
    match (a, b) {
        (Json::Array(u), Json::Array(v)) => {
            lemma_trees_index(u@);
            lemma_trees_index(v@);
            assert forall|i: int| 0 <= i < u@.len() implies #[trigger] u@[i].tree() == v@[i].tree() by {
                assert(trees(u@)[i] == trees(v@)[i]);
            }
        },
        (Json::Object(u), Json::Object(v)) => {
            lemma_member_trees_index(u@);
            lemma_member_trees_index(v@);
            assert forall|i: int| 0 <= i < u@.len() implies #[trigger] u@[i].0@ == v@[i].0@ && u@[i].1.tree() == v@[i].1.tree() by {
                assert(member_trees(u@)[i] == member_trees(v@)[i]);
            }
        },
        _ => {},
    }
}

/// Sequences with the same trees hold, position by position, values with
/// the same tree: an owned copy of the window matches it message by message.
pub proof fn law_equal_trees_match_elementwise(a: Seq<Json>, b: Seq<Json>)
    requires
        trees(a) == trees(b),
    ensures
        a.len() == b.len(),
        forall|i: int| 0 <= i < a.len() ==> #[trigger] a[i].tree() == b[i].tree(),
{
    lemma_trees_index(a);
    lemma_trees_index(b);
    assert forall|i: int| 0 <= i < a.len() implies #[trigger] a[i].tree() == b[i].tree() by {
        assert(trees(a)[i] == a[i].tree());
        assert(trees(b)[i] == b[i].tree());
    }
}

/// An object lookup gives the value of the first member with the key, and
/// nothing when no member has it.
pub proof fn law_lookup_finds_first_member(members: Seq<(String, Json)>, key: Seq<char>)
    ensures
        member_value(members, key) is None <==> forall|i: int| 0 <= i < members.len() ==> #[trigger] members[i].0@ != key,
        member_value(members, key) matches Some(v) ==> exists|i: int| 0 <= i < members.len()
            && members[i].0@ == key && members[i].1 == v
            && forall|j: int| 0 <= j < i ==> #[trigger] members[j].0@ != key,
    decreases members.len(),
{
    if members.len() > 0 {
        let rest = members.drop_first();
        law_lookup_finds_first_member(rest, key);
        if members[0].0@ != key {
            assert forall|i: int| 0 <= i < rest.len() implies #[trigger] rest[i] == members[i + 1] by {}
            if member_value(rest, key) is None {
                assert forall|i: int| 0 <= i < members.len() implies #[trigger] members[i].0@ != key by {
                    if i > 0 {
                        assert(rest[i - 1] == members[i]);
                    }
                }
            } else {
                let v = member_value(rest, key)->0;
                let i = choose|i: int| 0 <= i < rest.len() && rest[i].0@ == key && rest[i].1 == v
                    && forall|j: int| 0 <= j < i ==> #[trigger] rest[j].0@ != key;
                assert(members[i + 1] == rest[i]);
                assert forall|j: int| 0 <= j < i + 1 implies #[trigger] members[j].0@ != key by {
                    if j > 0 {
                        assert(members[j] == rest[j - 1]);
                    }
                }
                let w = rest[i].0@;
                assert(!(forall|i2: int| 0 <= i2 < members.len() ==> #[trigger] members[i2].0@ != key)) by {
                    assert(members[i + 1].0@ == key);
                }
            }
        } else {
            assert(!(forall|i2: int| 0 <= i2 < members.len() ==> #[trigger] members[i2].0@ != key)) by {
                assert(members[0].0@ == key);
            }
        }
    }
}

} // verus!
