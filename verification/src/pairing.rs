//! How a message takes part in a tool call: the ids of the calls it makes
//! (`tool_use` blocks of its `content` array) and the ids of the calls it
//! answers (`tool_result` blocks of its `content` array, and the top-level
//! `tool_use_id` of the flat `{"role": "tool", "tool_use_id": ..}` form).

use vstd::prelude::*;

use crate::json::Json;

verus! {

/// The text of `v[key]` when that member exists and is a string.
pub open spec fn text_of(v: Json, key: Seq<char>) -> Option<Seq<char>> {
    match v.field(key) {
        Some(Json::String(s)) => Some(s@),
        _ => None,
    }
}

/// `m["role"]` is the string `role`.
pub open spec fn has_role(m: Json, role: Seq<char>) -> bool {
    text_of(m, "role"@) == Some(role)
}

/// The elements of `m["content"]` when it is an array; none otherwise.
pub open spec fn content_blocks(m: Json) -> Seq<Json> {
    match m.field("content"@) {
        Some(Json::Array(blocks)) => blocks@,
        _ => Seq::empty(),
    }
}

/// The id of a `{"type": "tool_use", "id": ..}` block.
pub open spec fn block_use_id(block: Json) -> Option<Seq<char>> {
    if text_of(block, "type"@) == Some("tool_use"@) {
        text_of(block, "id"@)
    } else {
        None
    }
}

/// The referenced id of a `{"type": "tool_result", "tool_use_id": ..}` block.
pub open spec fn block_result_ref(block: Json) -> Option<Seq<char>> {
    if text_of(block, "type"@) == Some("tool_result"@) {
        text_of(block, "tool_use_id"@)
    } else {
        None
    }
}

/// The `tool_use` ids of `blocks`, in order.
pub open spec fn use_ids_in(blocks: Seq<Json>) -> Seq<Seq<char>>
    decreases blocks.len(),
{
    if blocks.len() == 0 {
        Seq::empty()
    } else {
        let earlier = use_ids_in(blocks.drop_last());
        match block_use_id(blocks.last()) {
            Some(id) => earlier.push(id),
            None => earlier,
        }
    }
}

/// The `tool_result` references of `blocks`, in order.
pub open spec fn result_refs_in(blocks: Seq<Json>) -> Seq<Seq<char>>
    decreases blocks.len(),
{
    if blocks.len() == 0 {
        Seq::empty()
    } else {
        let earlier = result_refs_in(blocks.drop_last());
        match block_result_ref(blocks.last()) {
            Some(id) => earlier.push(id),
            None => earlier,
        }
    }
}

/// The ids of the tool calls that message `m` makes.
pub open spec fn use_ids(m: Json) -> Seq<Seq<char>> {
    use_ids_in(content_blocks(m))
}

/// The top-level `tool_use_id` of a flat `role: "tool"` message.
pub open spec fn flat_result_ref(m: Json) -> Seq<Seq<char>> {
    if has_role(m, "tool"@) {
        match text_of(m, "tool_use_id"@) {
            Some(id) => seq![id],
            None => Seq::empty(),
        }
    } else {
        Seq::empty()
    }
}

/// The ids of the tool calls whose results message `m` carries.
pub open spec fn result_refs(m: Json) -> Seq<Seq<char>> {
    result_refs_in(content_blocks(m)) + flat_result_ref(m)
}

/// Message `m` carries a result for one of the calls in `ids`.
pub open spec fn answers_any(m: Json, ids: Seq<Seq<char>>) -> bool {
    exists|k: int| 0 <= k < result_refs(m).len() && ids.contains(#[trigger] result_refs(m)[k])
}

/// Message `m` makes one of the calls in `ids`.
pub open spec fn calls_any(m: Json, ids: Seq<Seq<char>>) -> bool {
    exists|k: int| 0 <= k < use_ids(m).len() && ids.contains(#[trigger] use_ids(m)[k])
}

/// Message `m` answers one of `calls`, or makes one of the calls that
/// `answers` holds results for.
pub open spec fn tied_to(m: Json, calls: Seq<Seq<char>>, answers: Seq<Seq<char>>) -> bool {
    answers_any(m, calls) || calls_any(m, answers)
}

/// The character sequences of a list of strings.
pub open spec fn texts(strings: Seq<String>) -> Seq<Seq<char>> {
    strings.map_values(|s: String| s@)
}

proof fn lemma_texts_push(strings: Seq<String>, s: String)
    ensures
        texts(strings.push(s)) == texts(strings).push(s@),
{
    assert(texts(strings.push(s)) =~= texts(strings).push(s@));
}

/// The string `v[key]`, if there is one.
fn string_member<'a>(v: &'a Json, key: &str) -> (r: Option<&'a String>)
    ensures
        match r {
            Some(s) => text_of(*v, key@) == Some(s@),
            None => text_of(*v, key@) is None,
        },
{
    match v.get(key) {
        Some(Json::String(s)) => Some(s),
        _ => None,
    }
}

/// `v[key]` is the string `expected`.
fn member_is(v: &Json, key: &str, expected: &str) -> (b: bool)
    ensures
        b == (text_of(*v, key@) == Some(expected@)),
{
    match string_member(v, key) {
        Some(s) => *s == expected.to_owned(),
        None => false,
    }
}

/// The elements of `m["content"]` when it is an array.
fn content_of(m: &Json) -> (r: Option<&Vec<Json>>)
    ensures
        match r {
            Some(blocks) => content_blocks(*m) == blocks@,
            None => content_blocks(*m) == Seq::<Json>::empty(),
        },
{
    match m.get("content") {
        Some(content) => content.as_array(),
        None => None,
    }
}

/// Collects the `tool_use` ids of a message's `content` array.
pub fn tool_use_ids(message: &Json) -> (out: Vec<String>)
    ensures
        texts(out@) == use_ids(*message),
{
    let mut out: Vec<String> = Vec::new();
    if let Some(blocks) = content_of(message) {
        let mut i: usize = 0;
        while i < blocks.len()
            invariant
                i <= blocks@.len(),
                texts(out@) == use_ids_in(blocks@.take(i as int)),
            decreases blocks@.len() - i,
        {
            let block = &blocks[i];
            assert(blocks@.take(i + 1).drop_last() =~= blocks@.take(i as int));
            if member_is(block, "type", "tool_use") {
                if let Some(id) = string_member(block, "id") {
                    proof {
                        lemma_texts_push(out@, *id);
                    }
                    out.push(id.clone());
                }
            }
            i = i + 1;
        }
        assert(blocks@.take(i as int) =~= blocks@);
    }
    out
}

/// Collects the ids that a message answers: the `tool_use_id` of each
/// `tool_result` block of its `content` array, then the top-level
/// `tool_use_id` of a `role: "tool"` message.
pub fn tool_result_refs(message: &Json) -> (out: Vec<String>)
    ensures
        texts(out@) == result_refs(*message),
{
    let mut out: Vec<String> = Vec::new();
    if let Some(blocks) = content_of(message) {
        let mut i: usize = 0;
        while i < blocks.len()
            invariant
                i <= blocks@.len(),
                texts(out@) == result_refs_in(blocks@.take(i as int)),
            decreases blocks@.len() - i,
        {
            let block = &blocks[i];
            assert(blocks@.take(i + 1).drop_last() =~= blocks@.take(i as int));
            if member_is(block, "type", "tool_result") {
                if let Some(id) = string_member(block, "tool_use_id") {
                    proof {
                        lemma_texts_push(out@, *id);
                    }
                    out.push(id.clone());
                }
            }
            i = i + 1;
        }
        assert(blocks@.take(i as int) =~= blocks@);
    }
    let ghost from_blocks = texts(out@);
    assert(from_blocks == result_refs_in(content_blocks(*message)));
    if member_is(message, "role", "tool") {
        if let Some(id) = string_member(message, "tool_use_id") {
            proof {
                lemma_texts_push(out@, *id);
                assert(seq![id@] =~= flat_result_ref(*message));
                assert(from_blocks.push(id@) =~= from_blocks + seq![id@]);
            }
            out.push(id.clone());
            return out;
        }
    }
    assert(from_blocks + flat_result_ref(*message) =~= from_blocks);
    out
}

/// `message` answers one of `calls` or makes a call answered in `answers`.
pub fn is_tied(message: &Json, calls: &Vec<String>, answers: &Vec<String>) -> (b: bool)
    ensures
        b == tied_to(*message, texts(calls@), texts(answers@)),
{
    let refs = tool_result_refs(message);
    if shares_id(&refs, calls) {
        return true;
    }
    let uses = tool_use_ids(message);
    shares_id(&uses, answers)
}

/// Some reference in `refs` is one of `ids`.
pub fn shares_id(refs: &Vec<String>, ids: &Vec<String>) -> (b: bool)
    ensures
        b == exists|k: int| 0 <= k < refs@.len() && texts(ids@).contains(#[trigger] texts(refs@)[k]),
{
    let mut k: usize = 0;
    while k < refs.len()
        invariant
            k <= refs@.len(),
            forall|k2: int| 0 <= k2 < k ==> !texts(ids@).contains(#[trigger] texts(refs@)[k2]),
        decreases refs@.len() - k,
    {
        let mut j: usize = 0;
        while j < ids.len()
            invariant
                k < refs@.len(),
                j <= ids@.len(),
                forall|j2: int| 0 <= j2 < j ==> #[trigger] texts(ids@)[j2] != texts(refs@)[k as int],
            decreases ids@.len() - j,
        {
            if refs[k] == ids[j] {
                assert(texts(ids@)[j as int] == texts(refs@)[k as int]);
                return true;
            }
            j = j + 1;
        }
        assert(!texts(ids@).contains(texts(refs@)[k as int]));
        k = k + 1;
    }
    false
}

} // verus!
