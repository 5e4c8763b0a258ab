//! JSON documents, and their text.

use serde_json::Value;
use vstd::prelude::*;

verus! {

/// What a JSON document says. The members of an object are in order.
pub enum Tree {
    Text(Seq<char>),
    Number(nat),
    Array(Seq<Tree>),
    Object(Seq<(Seq<char>, Tree)>),
}

/// A JSON document of texts, numbers, arrays and objects.
#[derive(Debug)]
pub enum Json {
    Text(String),
    Number(usize),
    Array(Vec<Json>),
    Object(Vec<(String, Json)>),
}

/// What a document says.
pub open spec fn json_view(j: Json) -> Tree
    decreases j,
{
    match j {
        Json::Text(s) => Tree::Text(s@),
        Json::Number(n) => Tree::Number(n as nat),
        Json::Array(items) => Tree::Array(item_views(items@)),
        Json::Object(members) => Tree::Object(member_views(members@)),
    }
}

/// What the items of an array say.
pub open spec fn item_views(s: Seq<Json>) -> Seq<Tree>
    decreases s,
{
    if s.len() == 0 {
        Seq::empty()
    } else {
        item_views(s.drop_last()).push(json_view(s.last()))
    }
}

/// What the members of an object say.
pub open spec fn member_views(s: Seq<(String, Json)>) -> Seq<(Seq<char>, Tree)>
    decreases s,
{
    if s.len() == 0 {
        Seq::empty()
    } else {
        member_views(s.drop_last()).push((s.last().0@, json_view(s.last().1)))
    }
}

impl View for Json {
    type V = Tree;

    open spec fn view(&self) -> Tree {
        json_view(*self)
    }
}

/// Whether no two members have the same name.
pub open spec fn distinct_names(members: Seq<(Seq<char>, Tree)>) -> bool {
    forall|i: int, j: int|
        0 <= i < j < members.len() ==> (#[trigger] members[i]).0 != (#[trigger] members[j]).0
}

/// Whether in every object of a document the names are distinct.
pub open spec fn well_named(t: Tree) -> bool
    decreases t,
{
    match t {
        Tree::Text(_) => true,
        Tree::Number(_) => true,
        Tree::Array(items) => all_well_named(items),
        Tree::Object(members) => distinct_names(members) && members_well_named(members),
    }
}

/// Whether the items of an array are well named.
pub open spec fn all_well_named(s: Seq<Tree>) -> bool
    decreases s,
{
    s.len() == 0 || (all_well_named(s.drop_last()) && well_named(s.last()))
}

/// Whether the members of an object are well named.
pub open spec fn members_well_named(s: Seq<(Seq<char>, Tree)>) -> bool
    decreases s,
{
    s.len() == 0 || (members_well_named(s.drop_last()) && well_named(s.last().1))
}

proof fn lemma_push_item(s: Seq<Json>, j: Json)
    ensures
        item_views(s.push(j)) == item_views(s).push(json_view(j)),
{
    assert(s.push(j).drop_last() =~= s);
}

proof fn lemma_push_member(s: Seq<(String, Json)>, m: (String, Json))
    ensures
        member_views(s.push(m)) == member_views(s).push((m.0@, json_view(m.1))),
{
    assert(s.push(m).drop_last() =~= s);
}

/// An array of well-named items is well named.
pub proof fn lemma_array(items: Seq<Tree>)
    requires
        forall|i: int| 0 <= i < items.len() ==> well_named(#[trigger] items[i]),
    ensures
        well_named(Tree::Array(items)),
{
    lemma_items(items);
    reveal_with_fuel(well_named, 2);
}

proof fn lemma_items(items: Seq<Tree>)
    requires
        forall|i: int| 0 <= i < items.len() ==> well_named(#[trigger] items[i]),
    ensures
        all_well_named(items),
    decreases items.len(),
{
    if items.len() > 0 {
        assert forall|i: int| 0 <= i < items.len() - 1 implies well_named(
            #[trigger] items.drop_last()[i],
        ) by {
            assert(items.drop_last()[i] == items[i]);
        }
        lemma_items(items.drop_last());
    }
}

/// An object of well-named members under distinct names is well named.
pub proof fn lemma_object(members: Seq<(Seq<char>, Tree)>)
    requires
        distinct_names(members),
        forall|i: int| 0 <= i < members.len() ==> well_named((#[trigger] members[i]).1),
    ensures
        well_named(Tree::Object(members)),
{
    lemma_members(members);
    reveal_with_fuel(well_named, 2);
}

proof fn lemma_members(members: Seq<(Seq<char>, Tree)>)
    requires
        forall|i: int| 0 <= i < members.len() ==> well_named((#[trigger] members[i]).1),
    ensures
        members_well_named(members),
    decreases members.len(),
{
    if members.len() > 0 {
        assert forall|i: int| 0 <= i < members.len() - 1 implies well_named(
            (#[trigger] members.drop_last()[i]).1,
        ) by {
            assert(members.drop_last()[i] == members[i]);
        }
        lemma_members(members.drop_last());
    }
}

/// A text.
pub fn text_of(s: &str) -> (r: Json)
    ensures
        r@ == Tree::Text(s@),
{
    Json::Text(s.to_owned())
}

/// An array of no items yet.
pub fn no_items() -> (r: Vec<Json>)
    ensures
        item_views(r@) == Seq::<Tree>::empty(),
{
    Vec::new()
}

/// An object of no members yet.
pub fn no_members() -> (r: Vec<(String, Json)>)
    ensures
        member_views(r@) == Seq::<(Seq<char>, Tree)>::empty(),
{
    Vec::new()
}

/// An array of the given items.
pub fn array_of(items: Vec<Json>) -> (r: Json)
    ensures
        r@ == Tree::Array(item_views(items@)),
{
    proof {
        reveal_with_fuel(json_view, 2);
    }
    Json::Array(items)
}

/// An object of the given members.
pub fn object_of(members: Vec<(String, Json)>) -> (r: Json)
    ensures
        r@ == Tree::Object(member_views(members@)),
{
    proof {
        reveal_with_fuel(json_view, 2);
    }
    Json::Object(members)
}

/// Appends an item to an array.
pub fn add_item(items: &mut Vec<Json>, value: Json)
    ensures
        item_views(final(items)@) == item_views(old(items)@).push(value@),
{
    proof {
        lemma_push_item(items@, value);
    }
    items.push(value);
}

/// Appends a member to an object.
pub fn add_member(members: &mut Vec<(String, Json)>, name: &str, value: Json)
    ensures
        member_views(final(members)@) == member_views(old(members)@).push((name@, value@)),
{
    let name = name.to_owned();
    proof {
        lemma_push_member(members@, (name, value));
    }
    members.push((name, value));
}

/// A JSON value of `serde_json`.
#[verifier::external_type_specification]
#[verifier::external_body]
pub struct ExValue(serde_json::Value);

/// An error of `serde_json`.
#[verifier::external_type_specification]
#[verifier::external_body]
pub struct ExError(serde_json::Error);

/// What a `serde_json` value holds. With the crate's `preserve_order` feature
/// the members of an object are held in the order in which they were put in.
pub uninterp spec fn value_tree(v: Value) -> Tree;

/// What `serde_json::to_string_pretty` makes of a value that holds the given
/// document.
pub uninterp spec fn pretty_text(t: Tree) -> Seq<char>;

/// What the values of a list hold.
pub open spec fn value_trees(s: Seq<Value>) -> Seq<Tree> {
    s.map_values(|v: Value| value_tree(v))
}

/// What named values hold.
pub open spec fn member_trees(s: Seq<(String, Value)>) -> Seq<(Seq<char>, Tree)> {
    s.map_values(|m: (String, Value)| (m.0@, value_tree(m.1)))
}

/// `Value::from` makes a string value that holds the given text.
#[verifier::external_body]
fn text_value(s: &str) -> (r: Value)
    ensures
        value_tree(r) == Tree::Text(s@),
{
    Value::from(s)
}

/// `Value::from` makes a number value that holds the given number.
#[verifier::external_body]
fn number_value(n: usize) -> (r: Value)
    ensures
        value_tree(r) == Tree::Number(n as nat),
{
    Value::from(n)
}

/// `Value::from` makes an array value that holds the given values in order.
#[verifier::external_body]
fn array_value(items: Vec<Value>) -> (r: Value)
    ensures
        value_tree(r) == Tree::Array(value_trees(items@)),
{
    Value::from(items)
}

/// `Value::from_iter` makes an object value that holds the given members in
/// the given order, where no two of them have the same name.
#[verifier::external_body]
fn object_value(members: Vec<(String, Value)>) -> (r: Value)
    requires
        distinct_names(member_trees(members@)),
    ensures
        value_tree(r) == Tree::Object(member_trees(members@)),
{
    Value::from_iter(members)
}

/// `serde_json::to_string_pretty` writes a value as text. It does not fail: the
/// names in a value are strings, and memory is written to. What it writes
/// depends on what the value holds alone; how the text is laid out is not
/// stated.
#[verifier::external_body]
fn to_string_pretty(value: &Value) -> (r: Result<String, serde_json::Error>)
    ensures
        r is Ok && r->Ok_0@ == pretty_text(value_tree(*value)),
{
    serde_json::to_string_pretty(value)
}

proof fn lemma_item_views(s: Seq<Json>)
    ensures
        item_views(s).len() == s.len(),
        forall|i: int| 0 <= i < s.len() ==> item_views(s)[i] == json_view(#[trigger] s[i]),
    decreases s.len(),
{
    if s.len() > 0 {
        lemma_item_views(s.drop_last());
        assert forall|i: int| 0 <= i < s.len() implies item_views(s)[i] == json_view(
            #[trigger] s[i],
        ) by {
            if i < s.len() - 1 {
                assert(s.drop_last()[i] == s[i]);
            }
        }
    }
}

proof fn lemma_member_views(s: Seq<(String, Json)>)
    ensures
        member_views(s).len() == s.len(),
        forall|i: int|
            0 <= i < s.len() ==> member_views(s)[i] == ((#[trigger] s[i]).0@, json_view(s[i].1)),
    decreases s.len(),
{
    if s.len() > 0 {
        lemma_member_views(s.drop_last());
        assert forall|i: int| 0 <= i < s.len() implies member_views(s)[i] == (
            (#[trigger] s[i]).0@,
            json_view(s[i].1),
        ) by {
            if i < s.len() - 1 {
                assert(s.drop_last()[i] == s[i]);
            }
        }
    }
}

proof fn lemma_all_well_named(s: Seq<Tree>, i: int)
    requires
        all_well_named(s),
        0 <= i < s.len(),
    ensures
        well_named(s[i]),
    decreases s.len(),
{
    if i < s.len() - 1 {
        lemma_all_well_named(s.drop_last(), i);
    }
}

proof fn lemma_members_well_named(s: Seq<(Seq<char>, Tree)>, i: int)
    requires
        members_well_named(s),
        0 <= i < s.len(),
    ensures
        well_named(s[i].1),
    decreases s.len(),
{
    if i < s.len() - 1 {
        lemma_members_well_named(s.drop_last(), i);
    }
}

/// The value that holds a document.
fn to_value(j: &Json) -> (r: Value)
    requires
        well_named(j@),
    ensures
        value_tree(r) == j@,
    decreases j,
{
    match j {
        Json::Text(s) => text_value(s.as_str()),
        Json::Number(n) => number_value(*n),
        Json::Array(items) => array_value(to_values(items)),
        Json::Object(members) => object_value(to_members(members)),
    }
}

/// The values that hold the items of an array.
fn to_values(items: &Vec<Json>) -> (r: Vec<Value>)
    requires
        all_well_named(item_views(items@)),
    ensures
        value_trees(r@) == item_views(items@),
    decreases items,
{
    let ghost iv = item_views(items@);
    let mut values: Vec<Value> = Vec::new();
    let mut i: usize = 0;
    proof {
        lemma_item_views(items@);
        assert(value_trees(values@) =~= iv.take(0));
    }
    while i < items.len()
        invariant
            i <= items@.len(),
            iv.len() == items@.len(),
            forall|k: int| 0 <= k < items@.len() ==> iv[k] == json_view(#[trigger] items@[k]),
            all_well_named(iv),
            value_trees(values@) == iv.take(i as int),
        decreases items@.len() - i,
    {
        proof {
            lemma_all_well_named(iv, i as int);
        }
        let ghost before = value_trees(values@);
        let v = to_value(&items[i]);
        let ghost added = value_tree(v);
        values.push(v);
        assert(value_trees(values@) =~= before.push(added));
        assert(value_trees(values@) =~= iv.take(i + 1));
        i += 1;
    }
    assert(iv.take(i as int) =~= iv);
    values
}

/// The named values that hold the members of an object.
fn to_members(members: &Vec<(String, Json)>) -> (r: Vec<(String, Value)>)
    requires
        members_well_named(member_views(members@)),
    ensures
        member_trees(r@) == member_views(members@),
    decreases members,
{
    let ghost mv = member_views(members@);
    let mut values: Vec<(String, Value)> = Vec::new();
    let mut i: usize = 0;
    proof {
        lemma_member_views(members@);
        assert(member_trees(values@) =~= mv.take(0));
    }
    while i < members.len()
        invariant
            i <= members@.len(),
            mv.len() == members@.len(),
            forall|k: int|
                0 <= k < members@.len() ==> mv[k] == (
                    (#[trigger] members@[k]).0@,
                    json_view(members@[k].1),
                ),
            members_well_named(mv),
            member_trees(values@) == mv.take(i as int),
        decreases members@.len() - i,
    {
        proof {
            lemma_members_well_named(mv, i as int);
        }
        let ghost before = member_trees(values@);
        let v = to_value(&members[i].1);
        let name = members[i].0.clone();
        let ghost added = (name@, value_tree(v));
        values.push((name, v));
        assert(member_trees(values@) =~= before.push(added));
        assert(member_trees(values@) =~= mv.take(i + 1));
        i += 1;
    }
    assert(mv.take(i as int) =~= mv);
    values
}

/// Why a document has no text.
#[derive(Debug)]
pub struct RenderError {
    /// What `serde_json` reported.
    pub error: serde_json::Error,
}

/// The text of a document.
///
/// # Errors
/// Returns an error only if serialization itself fails, which it does not.
pub fn pretty(j: &Json) -> (r: Result<String, RenderError>)
    requires
        well_named(j@),
    ensures
        r is Ok && r->Ok_0@ == pretty_text(j@),
{
    match to_string_pretty(&to_value(j)) {
        Ok(s) => Ok(s),
        Err(error) => Err(RenderError { error }),
    }
}

} // verus!
