//! A plain model of a JSON document and the few accessors the window reads.

use vstd::prelude::*;

verus! {

/// A JSON value.
///
/// Numbers are kept in their textual form, exactly as they appear in the
/// document; the window never reads them. An object is the list of its
/// members in order; lookups return the first member with the given key.
#[derive(Debug, PartialEq, Eq)]
pub enum Json {
    Null,
    Bool(bool),
    Number(String),
    String(String),
    Array(Vec<Json>),
    Object(Vec<(String, Json)>),
}

/// The value of the first member of `members` whose key is `key`.
pub open spec fn member_value(members: Seq<(String, Json)>, key: Seq<char>) -> Option<Json>
    decreases members.len(),
{
    if members.len() == 0 {
        None
    } else if members[0].0@ == key {
        Some(members[0].1)
    } else {
        member_value(members.drop_first(), key)
    }
}

impl Json {
    /// `self[key]` when `self` is an object holding `key`.
    pub open spec fn field(self, key: Seq<char>) -> Option<Json> {
        match self {
            Json::Object(members) => member_value(members@, key),
            _ => None,
        }
    }

    /// Looks up `key` in an object; `None` for a missing key or a non-object.
    pub fn get(&self, key: &str) -> (r: Option<&Json>)
        ensures
            match r {
                Some(v) => self.field(key@) == Some(*v),
                None => self.field(key@) is None,
            },
    {
        match self {
            Json::Object(members) => {
                let wanted = key.to_owned();
                let mut i: usize = 0;
                assert(members@.skip(0) =~= members@);
                while i < members.len()
                    invariant
                        0 <= i <= members@.len(),
                        wanted@ == key@,
                        self.field(key@) == member_value(members@, key@),
                        member_value(members@.skip(i as int), key@) == member_value(members@, key@),
                    decreases members@.len() - i,
                {
                    assert(members@.skip(i as int).drop_first() =~= members@.skip(i + 1));
                    assert(members@.skip(i as int)[0] == members@[i as int]);
                    if members[i].0 == wanted {
                        return Some(&members[i].1);
                    }
                    i = i + 1;
                }
                None
            },
            _ => None,
        }
    }

    pub fn is_object(&self) -> (b: bool)
        ensures
            b == (self is Object),
    {
        match self {
            Json::Object(_) => true,
            _ => false,
        }
    }

    /// The elements of an array, `None` for any other value.
    pub fn as_array(&self) -> (r: Option<&Vec<Json>>)
        ensures
            match r {
                Some(v) => *self == Json::Array(*v),
                None => !(self is Array),
            },
    {
        match self {
            Json::Array(v) => Some(v),
            _ => None,
        }
    }

    /// The text of a string, `None` for any other value.
    pub fn as_str(&self) -> (r: Option<&str>)
        ensures
            match r {
                Some(s) => self is String && s@ == self->String_0@,
                None => !(self is String),
            },
    {
        match self {
            Json::String(s) => Some(s.as_str()),
            _ => None,
        }
    }
}


/// The mathematical content of a [`Json`] value, with sequences in place of
/// vectors, so that two values with the same content are equal.
pub enum JsonTree {
    Null,
    Bool(bool),
    Number(Seq<char>),
    String(Seq<char>),
    Array(Seq<JsonTree>),
    Object(Seq<(Seq<char>, JsonTree)>),
}

impl Json {
    pub open spec fn tree(self) -> JsonTree
        decreases self,
    {
        match self {
            Json::Null => JsonTree::Null,
            Json::Bool(b) => JsonTree::Bool(b),
            Json::Number(n) => JsonTree::Number(n@),
            Json::String(s) => JsonTree::String(s@),
            Json::Array(items) => JsonTree::Array(trees(items@)),
            Json::Object(members) => JsonTree::Object(member_trees(members@)),
        }
    }
}

/// The trees of a sequence of values, element by element.
pub open spec fn trees(items: Seq<Json>) -> Seq<JsonTree>
    decreases items,
{
    if items.len() == 0 {
        Seq::empty()
    } else {
        trees(items.drop_last()).push(items.last().tree())
    }
}

/// The trees of the members of an object, keys kept as character sequences.
pub open spec fn member_trees(members: Seq<(String, Json)>) -> Seq<(Seq<char>, JsonTree)>
    decreases members,
{
    if members.len() == 0 {
        Seq::empty()
    } else {
        member_trees(members.drop_last()).push((members.last().0@, members.last().1.tree()))
    }
}


pub proof fn lemma_trees_push(items: Seq<Json>, x: Json)
    ensures
        trees(items.push(x)) == trees(items).push(x.tree()),
{
    assert(items.push(x).drop_last() =~= items);
}

proof fn lemma_member_trees_push(members: Seq<(String, Json)>, x: (String, Json))
    ensures
        member_trees(members.push(x)) == member_trees(members).push((x.0@, x.1.tree())),
{
    assert(members.push(x).drop_last() =~= members);
}

impl Clone for Json {
    /// A copy with the same content.
    fn clone(&self) -> (r: Self)
        ensures
            r.tree() == self.tree(),
        decreases self,
    {
        match self {
            Json::Null => Json::Null,
            Json::Bool(b) => Json::Bool(*b),
            Json::Number(n) => Json::Number(n.clone()),
            Json::String(s) => Json::String(s.clone()),
            Json::Array(items) => {
                let mut out: Vec<Json> = Vec::new();
                let mut i: usize = 0;
                while i < items.len()
                    invariant
                        *self == Json::Array(*items),
                        i <= items@.len(),
                        trees(out@) == trees(items@.take(i as int)),
                    decreases items@.len() - i,
                {
                    proof {
                        broadcast use vstd::std_specs::vec::axiom_vec_index_decreases;
                        assert(decreases_to!(*self => self->Array_0));
                    }
                    let copy = items[i].clone();
                    proof {
                        lemma_trees_push(out@, copy);
                        assert(items@.take(i + 1).drop_last() =~= items@.take(i as int));
                    }
                    out.push(copy);
                    i = i + 1;
                }
                assert(items@.take(i as int) =~= items@);
                Json::Array(out)
            },
            Json::Object(members) => {
                let mut out: Vec<(String, Json)> = Vec::new();
                let mut i: usize = 0;
                while i < members.len()
                    invariant
                        *self == Json::Object(*members),
                        i <= members@.len(),
                        member_trees(out@) == member_trees(members@.take(i as int)),
                    decreases members@.len() - i,
                {
                    proof {
                        broadcast use vstd::std_specs::vec::axiom_vec_index_decreases;
                        assert(decreases_to!(*self => self->Object_0));
                    }
                    let member = (members[i].0.clone(), members[i].1.clone());
                    proof {
                        lemma_member_trees_push(out@, member);
                        assert(members@.take(i + 1).drop_last() =~= members@.take(i as int));
                    }
                    out.push(member);
                    i = i + 1;
                }
                assert(members@.take(i as int) =~= members@);
                Json::Object(out)
            },
        }
    }
}

} // verus!
