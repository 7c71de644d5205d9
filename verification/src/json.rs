//! JSON values as the session server holds them, and their deep merge.

use vstd::prelude::*;

verus! {

/// A JSON value. A number is kept as the text that spells it; an object is
/// a list of members.
#[derive(Debug)]
pub enum Json {
    Null,
    Bool(bool),
    Number(String),
    Text(String),
    Array(Vec<Json>),
    Object(Vec<(String, Json)>),
}

/// What a `Json` value means.
pub enum JsonView {
    Null,
    Bool(bool),
    Number(Seq<char>),
    Text(Seq<char>),
    Array(Seq<JsonView>),
    Object(Seq<(Seq<char>, JsonView)>),
}

/// The meanings of the first `len` items.
pub open spec fn items_view(items: Seq<Json>, len: int) -> Seq<JsonView>
    decreases items, len,
{
    if len <= 0 || len > items.len() {
        Seq::empty()
    } else {
        items_view(items, len - 1).push(json_view(items[len - 1]))
    }
}

/// The meanings of the first `len` members.
pub open spec fn members_view(members: Seq<(String, Json)>, len: int) -> Seq<(Seq<char>, JsonView)>
    decreases members, len,
{
    if len <= 0 || len > members.len() {
        Seq::empty()
    } else {
        members_view(members, len - 1).push((members[len - 1].0@, json_view(members[len - 1].1)))
    }
}

/// The meaning of a value.
pub open spec fn json_view(j: Json) -> JsonView
    decreases j, 0int,
{
    match j {
        Json::Null => JsonView::Null,
        Json::Bool(b) => JsonView::Bool(b),
        Json::Number(n) => JsonView::Number(n@),
        Json::Text(t) => JsonView::Text(t@),
        Json::Array(items) => JsonView::Array(items_view(items@, items@.len() as int)),
        Json::Object(members) => JsonView::Object(members_view(members@, members@.len() as int)),
    }
}

impl View for Json {
    type V = JsonView;

    open spec fn view(&self) -> JsonView {
        json_view(*self)
    }
}

/// The position of the last member called `name` among the first `len`
/// members, if there is one.
pub open spec fn member_at(members: Seq<(Seq<char>, JsonView)>, name: Seq<char>, len: int) -> Option<
    int,
>
    decreases len,
{
    if len <= 0 {
        None
    } else if members[len - 1].0 == name {
        Some(len - 1)
    } else {
        member_at(members, name, len - 1)
    }
}

/// The members of `target` after the first `len` members of `source` were
/// merged into them, in order.
pub open spec fn merged_members(
    target: Seq<(Seq<char>, JsonView)>,
    source: Seq<(Seq<char>, JsonView)>,
    len: int,
) -> Seq<(Seq<char>, JsonView)>
    decreases source, len,
{
    if len <= 0 || len > source.len() {
        target
    } else {
        let before = merged_members(target, source, len - 1);
        let (name, value) = source[len - 1];
        match member_at(before, name, before.len() as int) {
            Some(i) => before.update(i, (before[i].0, merged(before[i].1, value))),
            None => before.push((name, value)),
        }
    }
}

/// `source` merged into `target`: where both are objects, each member of
/// `source` is merged into the member of `target` with its name, or added
/// after the others where there is none; anything else is replaced by
/// `source`.
pub open spec fn merged(target: JsonView, source: JsonView) -> JsonView
    decreases source, 0int,
{
    match (target, source) {
        (JsonView::Object(t), JsonView::Object(s)) => JsonView::Object(
            merged_members(t, s, s.len() as int),
        ),
        _ => source,
    }
}

/// The meanings of members are taken one by one.
pub proof fn lemma_members_view(members: Seq<(String, Json)>, len: int)
    requires
        0 <= len <= members.len(),
    ensures
        members_view(members, len).len() == len,
        forall|k: int|
            0 <= k < len ==> #[trigger] members_view(members, len)[k] == (
                members[k].0@,
                json_view(members[k].1),
            ),
    decreases len,
{
    if len > 0 {
        lemma_members_view(members, len - 1);
    }
}

/// The meanings of items are taken one by one.
pub proof fn lemma_items_view(items: Seq<Json>, len: int)
    requires
        0 <= len <= items.len(),
    ensures
        items_view(items, len).len() == len,
        forall|k: int| 0 <= k < len ==> #[trigger] items_view(items, len)[k] == json_view(items[k]),
    decreases len,
{
    if len > 0 {
        lemma_items_view(items, len - 1);
    }
}

/// The position of the last member called `name`.
pub fn find_member(members: &Vec<(String, Json)>, name: &String) -> (r: Option<usize>)
    ensures
        match r {
            Some(i) => i < members.len() && member_at(
                members_view(members@, members@.len() as int),
                name@,
                members@.len() as int,
            ) == Some(i as int),
            None => member_at(
                members_view(members@, members@.len() as int),
                name@,
                members@.len() as int,
            ) is None,
        },
{
    let ghost mv = members_view(members@, members@.len() as int);
    proof {
        lemma_members_view(members@, members@.len() as int);
    }
    let mut i: usize = members.len();
    while i > 0
        invariant
            i <= members.len(),
            mv == members_view(members@, members@.len() as int),
            mv.len() == members.len(),
            forall|k: int| 0 <= k < members.len() ==> (#[trigger] mv[k]).0 == members[k].0@,
            member_at(mv, name@, members@.len() as int) == member_at(mv, name@, i as int),
        decreases i,
    {
        if members[i - 1].0 == *name {
            assert(mv[i - 1].0 == name@);
            return Some(i - 1);
        }
        assert(mv[i - 1].0 != name@);
        i -= 1;
    }
    None
}

/// Merges `source` into `target`.
pub fn merge(target: Json, source: Json) -> (r: Json)
    ensures
        r@ == merged(target@, source@),
    decreases source,
{
    match (target, source) {
        (Json::Object(t), Json::Object(s)) => {
            let ghost tv = members_view(t@, t@.len() as int);
            let ghost sv = members_view(s@, s@.len() as int);
            let ghost all = s@;
            proof {
                lemma_members_view(all, all.len() as int);
            }
            let mut rest = s;
            let mut rev: Vec<(String, Json)> = Vec::new();
            while rest.len() > 0
                invariant
                    rest@.len() + rev@.len() == all.len(),
                    forall|i: int| 0 <= i < rest@.len() ==> rest@[i] == all[i],
                    forall|i: int| 0 <= i < rev@.len() ==> rev@[i] == all[all.len() - 1 - i],
                decreases rest.len(),
            {
                let e = rest.pop().unwrap();
                rev.push(e);
            }
            let mut acc = t;
            while rev.len() > 0
                invariant
                    rev@.len() <= all.len(),
                    source == Json::Object(s),
                    all == s@,
                    sv == members_view(all, all.len() as int),
                    sv.len() == all.len(),
                    forall|k: int|
                        0 <= k < all.len() ==> #[trigger] sv[k] == (all[k].0@, json_view(all[k].1)),
                    forall|i: int| 0 <= i < rev@.len() ==> rev@[i] == all[all.len() - 1 - i],
                    members_view(acc@, acc@.len() as int) == merged_members(
                        tv,
                        sv,
                        all.len() - rev@.len(),
                    ),
                decreases rev.len(),
            {
                let ghost done = all.len() - rev@.len();
                let ghost before = members_view(acc@, acc@.len() as int);
                let ghost was = acc@;
                proof {
                    lemma_members_view(was, was.len() as int);
                }
                let (name, value) = rev.pop().unwrap();
                assert((name, value) == all[done]);
                assert(sv[done] == (name@, json_view(value)));
                match find_member(&acc, &name) {
                    Some(i) => {
                        let (key, old) = acc.remove(i);
                        proof {
                            assert(source matches Json::Object(m) && m == s);
                            assert(decreases_to!(source => s@));
                            assert(decreases_to!(s@ => s@[done]));
                            assert(decreases_to!(s@[done] => s@[done].1));
                            assert(decreases_to!(source => value));
                        }
                        let new = merge(old, value);
                        acc.insert(i, (key, new));
                        proof {
                            lemma_members_view(acc@, acc@.len() as int);
                            assert(acc@ =~= was.update(i as int, (key, new)));
                            assert(members_view(acc@, acc@.len() as int) =~= before.update(
                                i as int,
                                (before[i as int].0, merged(before[i as int].1, json_view(value))),
                            ));
                        }
                    },
                    None => {
                        acc.push((name, value));
                        proof {
                            lemma_members_view(acc@, acc@.len() as int);
                            assert(members_view(acc@, acc@.len() as int) =~= before.push(
                                (name@, json_view(value)),
                            ));
                        }
                    },
                }
            }
            Json::Object(acc)
        },
        (_, source) => source,
    }
}

impl Clone for Json {
    /// A copy with the same meaning.
    fn clone(&self) -> (r: Self)
        ensures
            r@ == self@,
        decreases self,
    {
        match self {
            Json::Null => Json::Null,
            Json::Bool(b) => Json::Bool(*b),
            Json::Number(n) => Json::Number(n.clone()),
            Json::Text(t) => Json::Text(t.clone()),
            Json::Array(items) => {
                let mut copy: Vec<Json> = Vec::new();
                let mut i: usize = 0;
                while i < items.len()
                    invariant
                        *self == Json::Array(*items),
                        i <= items.len(),
                        copy.len() == i,
                        forall|k: int| 0 <= k < i ==> json_view(#[trigger] copy[k]) == json_view(items[k]),
                    decreases items.len() - i,
                {
                    proof {
                        assert(*self matches Json::Array(v) && v == *items);
                        assert(decreases_to!(*self => items@));
                        assert(decreases_to!(items@ => items@[i as int]));
                    }
                    let item = items[i].clone();
                    copy.push(item);
                    i += 1;
                }
                proof {
                    lemma_items_view(copy@, copy@.len() as int);
                    lemma_items_view(items@, items@.len() as int);
                    assert(items_view(copy@, copy@.len() as int) =~= items_view(
                        items@,
                        items@.len() as int,
                    ));
                }
                Json::Array(copy)
            },
            Json::Object(members) => {
                let mut copy: Vec<(String, Json)> = Vec::new();
                let mut i: usize = 0;
                while i < members.len()
                    invariant
                        *self == Json::Object(*members),
                        i <= members.len(),
                        copy.len() == i,
                        forall|k: int|
                            0 <= k < i ==> (#[trigger] copy[k]).0@ == members[k].0@ && json_view(
                                copy[k].1,
                            ) == json_view(members[k].1),
                    decreases members.len() - i,
                {
                    proof {
                        assert(*self matches Json::Object(v) && v == *members);
                        assert(decreases_to!(*self => members@));
                        assert(decreases_to!(members@ => members@[i as int]));
                        assert(decreases_to!(members@[i as int] => members@[i as int].1));
                    }
                    let name = members[i].0.clone();
                    let value = members[i].1.clone();
                    copy.push((name, value));
                    i += 1;
                }
                proof {
                    lemma_members_view(copy@, copy@.len() as int);
                    lemma_members_view(members@, members@.len() as int);
                    assert(members_view(copy@, copy@.len() as int) =~= members_view(
                        members@,
                        members@.len() as int,
                    ));
                }
                Json::Object(copy)
            },
        }
    }
}

} // verus!
