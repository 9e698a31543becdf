//! JSON values as the exporters build them.

use vstd::prelude::*;

verus! {

/// A JSON value. Object members keep the order they were added in; their keys are distinct.
#[derive(Debug)]
pub enum JsonValue {
    Null,
    Bool(bool),
    Number(u64),
    String(String),
    Array(Vec<JsonValue>),
    Object(Vec<(String, JsonValue)>),
}

pub enum JsonView {
    Null,
    Bool(bool),
    Number(u64),
    String(Seq<char>),
    Array(Seq<JsonView>),
    Object(Seq<(Seq<char>, JsonView)>),
}

pub open spec fn json_view(v: JsonValue) -> JsonView
    decreases v, 0nat,
{
    match v {
        JsonValue::Null => JsonView::Null,
        JsonValue::Bool(b) => JsonView::Bool(b),
        JsonValue::Number(n) => JsonView::Number(n),
        JsonValue::String(s) => JsonView::String(s@),
        JsonValue::Array(items) => JsonView::Array(json_seq_view(items@)),
        JsonValue::Object(members) => JsonView::Object(json_members_view(members@)),
    }
}

pub open spec fn json_seq_view(s: Seq<JsonValue>) -> Seq<JsonView>
    decreases s, s.len(),
{
    if s.len() == 0 {
        seq![]
    } else {
        seq![json_view(s[0])] + json_seq_view(s.subrange(1, s.len() as int))
    }
}

pub open spec fn json_members_view(s: Seq<(String, JsonValue)>) -> Seq<(Seq<char>, JsonView)>
    decreases s, s.len(),
{
    if s.len() == 0 {
        seq![]
    } else {
        seq![(s[0].0@, json_view(s[0].1))] + json_members_view(s.subrange(1, s.len() as int))
    }
}

impl View for JsonValue {
    type V = JsonView;

    open spec fn view(&self) -> JsonView {
        json_view(*self)
    }
}


/// JSON strings of the given texts.
pub open spec fn strings_json(s: Seq<Seq<char>>) -> Seq<JsonView> {
    s.map_values(|x: Seq<char>| JsonView::String(x))
}

pub proof fn lemma_seq_view_push(s: Seq<JsonValue>, x: JsonValue)
    ensures
        json_seq_view(s.push(x)) == json_seq_view(s).push(json_view(x)),
    decreases s.len(),
{
    if s.len() == 0 {
        assert(s.push(x).subrange(1, 1) =~= Seq::<JsonValue>::empty());
        assert(json_seq_view(s.push(x).subrange(1, 1)) =~= Seq::<JsonView>::empty());
        assert(s.push(x)[0] == x);
        assert(json_seq_view(s.push(x)) =~= seq![json_view(x)]);
    } else {
        lemma_seq_view_push(s.subrange(1, s.len() as int), x);
        assert(s.push(x).subrange(1, s.len() + 1 as int) =~= s.subrange(1, s.len() as int).push(x));
        assert(json_seq_view(s.push(x)) =~= json_seq_view(s).push(json_view(x)));
    }
}

pub proof fn lemma_members_view_push(s: Seq<(String, JsonValue)>, x: (String, JsonValue))
    ensures
        json_members_view(s.push(x)) == json_members_view(s).push((x.0@, json_view(x.1))),
    decreases s.len(),
{
    if s.len() == 0 {
        assert(s.push(x).subrange(1, 1) =~= Seq::<(String, JsonValue)>::empty());
        assert(json_members_view(s.push(x).subrange(1, 1)) =~= Seq::<(Seq<char>, JsonView)>::empty());
        assert(s.push(x)[0] == x);
        assert(json_members_view(s.push(x)) =~= seq![(x.0@, json_view(x.1))]);
    } else {
        lemma_members_view_push(s.subrange(1, s.len() as int), x);
        assert(s.push(x).subrange(1, s.len() + 1 as int) =~= s.subrange(1, s.len() as int).push(x));
        assert(json_members_view(s.push(x)) =~= json_members_view(s).push((x.0@, json_view(x.1))));
    }
}

/// Adds a member to an object under construction.
pub fn push_member(members: &mut Vec<(String, JsonValue)>, key: &str, value: JsonValue)
    ensures
        json_members_view(final(members)@) == json_members_view(old(members)@).push((key@, value@)),
{
    let ghost before = members@;
    let k = key.to_owned();
    proof {
        lemma_members_view_push(before, (k, value));
    }
    members.push((k, value));
}

/// A JSON array of the given strings.
pub fn string_array(items: &Vec<String>) -> (r: JsonValue)
    ensures
        r@ == JsonView::Array(strings_json(items.deep_view())),
{
    let mut out: Vec<JsonValue> = Vec::new();
    let mut i: usize = 0;
    while i < items.len()
        invariant
            i <= items.len(),
            json_seq_view(out@) == strings_json(items.deep_view()).take(i as int),
        decreases items.len() - i,
    {
        let v = JsonValue::String(items[i].clone());
        proof {
            lemma_seq_view_push(out@, v);
            assert(strings_json(items.deep_view()).take(i + 1) =~= strings_json(items.deep_view()).take(i as int).push(v@));
        }
        out.push(v);
        i = i + 1;
    }
    proof {
        assert(strings_json(items.deep_view()).take(i as int) =~= strings_json(items.deep_view()));
    }
    JsonValue::Array(out)
}

/// The first member of an object with the given key.
pub open spec fn member_value(members: Seq<(Seq<char>, JsonView)>, key: Seq<char>) -> Option<JsonView>
    decreases members.len(),
{
    if members.len() == 0 {
        None
    } else if members[0].0 == key {
        Some(members[0].1)
    } else {
        member_value(members.subrange(1, members.len() as int), key)
    }
}


pub proof fn lemma_members_view_index(s: Seq<(String, JsonValue)>)
    ensures
        json_members_view(s).len() == s.len(),
        forall|i: int| 0 <= i < s.len() ==> #[trigger] json_members_view(s)[i] == (s[i].0@, json_view(s[i].1)),
    decreases s.len(),
{
    if s.len() > 0 {
        lemma_members_view_index(s.subrange(1, s.len() as int));
        assert forall|i: int| 0 <= i < s.len() implies #[trigger] json_members_view(s)[i] == (s[i].0@, json_view(s[i].1)) by {
            if i > 0 {
                assert(json_members_view(s)[i] == json_members_view(s.subrange(1, s.len() as int))[i - 1]);
            }
        }
    }
}

/// The text of the string member with the given key, where the first member with that key
/// is a string.
pub open spec fn string_member(v: JsonView, key: Seq<char>) -> Option<Seq<char>> {
    match v {
        JsonView::Object(members) => match member_value(members, key) {
            Some(JsonView::String(s)) => Some(s),
            _ => None,
        },
        _ => None,
    }
}

/// The text of the string member with the given key.
pub fn get_string_member(v: &JsonValue, key: &str) -> (r: Option<String>)
    ensures
        r.deep_view() == string_member(v@, key@),
{
    match v {
        JsonValue::Object(members) => {
            let ghost mv = json_members_view(members@);
            proof {
                assert(v@ == JsonView::Object(mv));
                lemma_members_view_index(members@);
                assert(mv.subrange(0, mv.len() as int) =~= mv);
            }
            let mut i: usize = 0;
            while i < members.len()
                invariant
                    v@ == JsonView::Object(mv),
                    mv == json_members_view(members@),
                    mv.len() == members@.len(),
                    forall|j: int| 0 <= j < members@.len() ==> #[trigger] mv[j] == (members@[j].0@, json_view(members@[j].1)),
                    i <= members.len(),
                    member_value(mv, key@) == member_value(mv.subrange(i as int, mv.len() as int), key@),
                decreases members.len() - i,
            {
                let ghost rest = mv.subrange(i as int, mv.len() as int);
                proof {
                    assert(rest[0] == mv[i as int]);
                    assert(rest.subrange(1, rest.len() as int) =~= mv.subrange(i + 1, mv.len() as int));
                }
                if crate::text::str_eq(members[i].0.as_str(), key) {
                    proof {
                        assert(member_value(mv, key@) == Some(json_view(members@[i as int].1)));
                    }
                    let found: Option<String> = match &members[i].1 {
                        JsonValue::String(s) => Some(s.clone()),
                        _ => None,
                    };
                    proof {
                        assert(string_member(v@, key@) == match json_view(members@[i as int].1) {
                            JsonView::String(t) => Some(t),
                            _ => None::<Seq<char>>,
                        });
                        match members@[i as int].1 {
                            JsonValue::String(t) => {
                                assert(found.deep_view() == Some(t@));
                            },
                            _ => {},
                        }
                    }
                    return found;
                }
                i = i + 1;
            }
            None
        },
        _ => None,
    }
}

} // verus!
