//! The JSON-like value tree and its mathematical model.

use vstd::prelude::*;

verus! {

/// A JSON-like value.
///
/// `Float` and `Double` hold the IEEE-754 bit pattern of the number. An object
/// is the sequence of its keys and values; it is well formed where no key
/// occurs twice (see [`well_formed`]).
#[derive(Debug, PartialEq, Eq)]
pub enum Value {
    Null,
    Bool(bool),
    String(String),
    Integer(i32),
    Long(i64),
    Float(u32),
    Double(u64),
    Array(Vec<Value>),
    Object(Vec<(String, Value)>),
}

/// The keys and values of an object, in the order of their first appearance.
pub type Pairs = Seq<(Seq<char>, ValueView)>;

/// A [`Value`] as mathematics: its strings are sequences of characters, its
/// arrays and objects sequences of views.
pub enum ValueView {
    Null,
    Bool(bool),
    Text(Seq<char>),
    Integer(i32),
    Long(i64),
    Float(u32),
    Double(u64),
    Array(Seq<ValueView>),
    Object(Pairs),
}

impl View for Value {
    type V = ValueView;

    open spec fn view(&self) -> ValueView
        decreases self,
    {
        match self {
            Value::Null => ValueView::Null,
            Value::Bool(b) => ValueView::Bool(*b),
            Value::String(s) => ValueView::Text(s@),
            Value::Integer(n) => ValueView::Integer(*n),
            Value::Long(n) => ValueView::Long(*n),
            Value::Float(bits) => ValueView::Float(*bits),
            Value::Double(bits) => ValueView::Double(*bits),
            Value::Array(items) => ValueView::Array(first_views(items@, items@.len())),
            Value::Object(pairs) => ValueView::Object(first_pair_views(pairs@, pairs@.len())),
        }
    }
}

/// The views of the first `n` members of an array.
pub open spec fn first_views(items: Seq<Value>, n: nat) -> Seq<ValueView>
    decreases items, n,
{
    if n == 0 || n > items.len() {
        Seq::empty()
    } else {
        first_views(items, (n - 1) as nat).push(items[n - 1].view())
    }
}

/// The views of the first `n` keys and values of an object.
pub open spec fn first_pair_views(pairs: Seq<(String, Value)>, n: nat) -> Pairs
    decreases pairs, n,
{
    if n == 0 || n > pairs.len() {
        Seq::empty()
    } else {
        first_pair_views(pairs, (n - 1) as nat).push((pairs[n - 1].0@, pairs[n - 1].1.view()))
    }
}

/// The views of the members of an array.
pub open spec fn views(items: Seq<Value>) -> Seq<ValueView> {
    Seq::new(items.len(), |i: int| items[i]@)
}

/// The views of the keys and values of an object.
pub open spec fn pair_views(pairs: Seq<(String, Value)>) -> Pairs {
    Seq::new(pairs.len(), |i: int| (pairs[i].0@, pairs[i].1@))
}

proof fn lemma_first_views(items: Seq<Value>, n: nat)
    requires
        n <= items.len(),
    ensures
        first_views(items, n) == views(items.take(n as int)),
    decreases n,
{
    if n > 0 {
        lemma_first_views(items, (n - 1) as nat);
        assert(views(items.take(n - 1)).push(items[n - 1]@) =~= views(items.take(n as int)));
    } else {
        assert(first_views(items, n) =~= views(items.take(n as int)));
    }
}

proof fn lemma_first_pair_views(pairs: Seq<(String, Value)>, n: nat)
    requires
        n <= pairs.len(),
    ensures
        first_pair_views(pairs, n) == pair_views(pairs.take(n as int)),
    decreases n,
{
    if n > 0 {
        lemma_first_pair_views(pairs, (n - 1) as nat);
        assert(pair_views(pairs.take(n - 1)).push((pairs[n - 1].0@, pairs[n - 1].1@))
            =~= pair_views(pairs.take(n as int)));
    } else {
        assert(first_pair_views(pairs, n) =~= pair_views(pairs.take(n as int)));
    }
}

/// The view of an array is the array of its members' views.
pub proof fn lemma_array_view(items: Vec<Value>)
    ensures
        Value::Array(items)@ == ValueView::Array(views(items@)),
{
    lemma_first_views(items@, items@.len());
    assert(items@.take(items@.len() as int) =~= items@);
}

/// The view of an object is the sequence of its pairs' views.
pub proof fn lemma_object_view(pairs: Vec<(String, Value)>)
    ensures
        Value::Object(pairs)@ == ValueView::Object(pair_views(pairs@)),
{
    lemma_first_pair_views(pairs@, pairs@.len());
    assert(pairs@.take(pairs@.len() as int) =~= pairs@);
}

// ------------------------------------------------------- what holds of a value

/// Whether no key occurs twice.
pub open spec fn distinct_keys(pairs: Pairs) -> bool {
    forall|i: int, j: int| 0 <= i < j < pairs.len() ==> pairs[i].0 != pairs[j].0
}

/// Whether every object in the value binds each of its keys once.
pub open spec fn well_formed(v: ValueView) -> bool
    decreases v,
{
    match v {
        ValueView::Array(items) => forall|i: int|
            0 <= i < items.len() ==> well_formed(#[trigger] items[i]),
        ValueView::Object(pairs) => distinct_keys(pairs) && forall|i: int|
            0 <= i < pairs.len() ==> well_formed((#[trigger] pairs[i]).1),
        _ => true,
    }
}

/// The number `n` in its narrowest kind.
pub open spec fn number(n: int) -> ValueView {
    if i32::MIN <= n <= i32::MAX {
        ValueView::Integer(n as i32)
    } else {
        ValueView::Long(n as i64)
    }
}

/// The value with each number in its narrowest kind: a `Long` that fits 32
/// bits becomes an `Integer`. Nothing else changes.
pub open spec fn canonical(v: ValueView) -> ValueView
    decreases v,
{
    match v {
        ValueView::Long(n) => number(n as int),
        ValueView::Array(items) => ValueView::Array(canonical_items(items, items.len())),
        ValueView::Object(pairs) => ValueView::Object(canonical_pairs(pairs, pairs.len())),
        _ => v,
    }
}

/// The first `n` of `items`, each made canonical.
pub open spec fn canonical_items(items: Seq<ValueView>, n: nat) -> Seq<ValueView>
    decreases items, n,
{
    if n == 0 || n > items.len() {
        Seq::empty()
    } else {
        canonical_items(items, (n - 1) as nat).push(canonical(items[n - 1]))
    }
}

/// The first `n` of `pairs`, each value made canonical.
pub open spec fn canonical_pairs(pairs: Pairs, n: nat) -> Pairs
    decreases pairs, n,
{
    if n == 0 || n > pairs.len() {
        Seq::empty()
    } else {
        canonical_pairs(pairs, (n - 1) as nat).push((pairs[n - 1].0, canonical(pairs[n - 1].1)))
    }
}

/// The pairs with `key` bound to `value`: in the place of the earlier binding
/// of `key` if there is one, else at the end.
pub open spec fn put(pairs: Pairs, key: Seq<char>, value: ValueView) -> Pairs {
    if exists|i: int| 0 <= i < pairs.len() && (#[trigger] pairs[i]).0 == key {
        Seq::new(
            pairs.len(),
            |i: int|
                if pairs[i].0 == key {
                    (key, value)
                } else {
                    pairs[i]
                },
        )
    } else {
        pairs.push((key, value))
    }
}

/// An array is well formed where each of its members is.
pub proof fn lemma_well_formed_array(items: Seq<ValueView>)
    ensures
        well_formed(ValueView::Array(items)) <==> forall|i: int|
            0 <= i < items.len() ==> well_formed(#[trigger] items[i]),
{
    let v = ValueView::Array(items);
    assert(v->Array_0 == items);
    if well_formed(v) {
        assert forall|i: int| 0 <= i < items.len() implies well_formed(#[trigger] items[i]) by {
            assert(well_formed(v->Array_0[i]));
        }
    }
}

/// An object is well formed where it binds each key once and each of its
/// values is well formed.
pub proof fn lemma_well_formed_object(pairs: Pairs)
    ensures
        well_formed(ValueView::Object(pairs)) <==> distinct_keys(pairs) && forall|i: int|
            0 <= i < pairs.len() ==> well_formed((#[trigger] pairs[i]).1),
{
    let v = ValueView::Object(pairs);
    assert(v->Object_0 == pairs);
    if well_formed(v) {
        assert forall|i: int| 0 <= i < pairs.len() implies well_formed(
            (#[trigger] pairs[i]).1,
        ) by {
            assert(well_formed(v->Object_0[i].1));
        }
    }
}

// ------------------------------------------------------------ executable code

impl Clone for Value {
    /// A copy that means the same in every part.
    fn clone(&self) -> (copy: Self)
        ensures
            copy@ == self@,
        decreases self,
    {
        match self {
            Value::Null => Value::Null,
            Value::Bool(b) => Value::Bool(*b),
            Value::String(text) => Value::String(text.clone()),
            Value::Integer(n) => Value::Integer(*n),
            Value::Long(n) => Value::Long(*n),
            Value::Float(bits) => Value::Float(*bits),
            Value::Double(bits) => Value::Double(*bits),
            Value::Array(items) => {
                let copies: Vec<Value> = clone_items(items);
                proof {
                    lemma_array_view(copies);
                    lemma_array_view(*items);
                }
                Value::Array(copies)
            },
            Value::Object(pairs) => {
                let copies: Vec<(String, Value)> = clone_pairs(pairs);
                proof {
                    lemma_object_view(copies);
                    lemma_object_view(*pairs);
                }
                Value::Object(copies)
            },
        }
    }
}

fn clone_items(items: &Vec<Value>) -> (copies: Vec<Value>)
    ensures
        views(copies@) == views(items@),
    decreases items,
{
    let mut copies: Vec<Value> = Vec::new();
    let mut i: usize = 0;
    while i < items.len()
        invariant
            i <= items.len(),
            copies@.len() == i,
            forall|j: int| 0 <= j < i ==> (#[trigger] copies@[j])@ == items@[j]@,
        decreases items.len() - i,
    {
        copies.push(items[i].clone());
        i += 1;
    }
    assert(views(copies@) =~= views(items@));
    copies
}

fn clone_pairs(pairs: &Vec<(String, Value)>) -> (copies: Vec<(String, Value)>)
    ensures
        pair_views(copies@) == pair_views(pairs@),
    decreases pairs,
{
    let mut copies: Vec<(String, Value)> = Vec::new();
    let mut i: usize = 0;
    while i < pairs.len()
        invariant
            i <= pairs.len(),
            copies@.len() == i,
            forall|j: int|
                0 <= j < i ==> (#[trigger] copies@[j]).0@ == pairs@[j].0@ && copies@[j].1@
                    == pairs@[j].1@,
        decreases pairs.len() - i,
    {
        copies.push((pairs[i].0.clone(), pairs[i].1.clone()));
        i += 1;
    }
    assert(pair_views(copies@) =~= pair_views(pairs@));
    copies
}

impl Value {
    /// The value with each number in its narrowest kind: what the value
    /// decodes to once encoded.
    pub fn to_canonical(&self) -> (r: Value)
        ensures
            r@ == canonical(self@),
        decreases self,
    {
        match self {
            Value::Null => Value::Null,
            Value::Bool(b) => Value::Bool(*b),
            Value::String(text) => Value::String(text.clone()),
            Value::Integer(n) => Value::Integer(*n),
            Value::Long(n) => {
                if i32::MIN as i64 <= *n && *n <= i32::MAX as i64 {
                    Value::Integer(*n as i32)
                } else {
                    Value::Long(*n)
                }
            },
            Value::Float(bits) => Value::Float(*bits),
            Value::Double(bits) => Value::Double(*bits),
            Value::Array(items) => {
                let members: Vec<Value> = canonical_members(items);
                proof {
                    lemma_array_view(members);
                    lemma_array_view(*items);
                }
                Value::Array(members)
            },
            Value::Object(pairs) => {
                let members: Vec<(String, Value)> = canonical_bindings(pairs);
                proof {
                    lemma_object_view(members);
                    lemma_object_view(*pairs);
                }
                Value::Object(members)
            },
        }
    }

    /// Whether no object in the value binds a key twice.
    pub fn is_well_formed(&self) -> (r: bool)
        ensures
            r == well_formed(self@),
        decreases self,
    {
        match self {
            Value::Array(items) => {
                proof {
                    lemma_array_view(*items);
                    lemma_well_formed_array(views(items@));
                }
                items_are_well_formed(items)
            },
            Value::Object(pairs) => {
                proof {
                    lemma_object_view(*pairs);
                    lemma_well_formed_object(pair_views(pairs@));
                }
                keys_are_distinct(pairs) && values_are_well_formed(pairs)
            },
            _ => true,
        }
    }
}

fn canonical_members(items: &Vec<Value>) -> (members: Vec<Value>)
    ensures
        views(members@) == canonical_items(views(items@), items@.len()),
    decreases items,
{
    let mut members: Vec<Value> = Vec::new();
    let mut i: usize = 0;
    assert(views(members@) =~= canonical_items(views(items@), 0));
    while i < items.len()
        invariant
            i <= items.len(),
            views(members@) == canonical_items(views(items@), i as nat),
        decreases items.len() - i,
    {
        let ghost done = views(members@);
        let member: Value = items[i].to_canonical();
        members.push(member);
        assert(views(members@) =~= done.push(canonical(views(items@)[i as int])));
        i += 1;
    }
    members
}

fn canonical_bindings(pairs: &Vec<(String, Value)>) -> (members: Vec<(String, Value)>)
    ensures
        pair_views(members@) == canonical_pairs(pair_views(pairs@), pairs@.len()),
    decreases pairs,
{
    let mut members: Vec<(String, Value)> = Vec::new();
    let mut i: usize = 0;
    assert(pair_views(members@) =~= canonical_pairs(pair_views(pairs@), 0));
    while i < pairs.len()
        invariant
            i <= pairs.len(),
            pair_views(members@) == canonical_pairs(pair_views(pairs@), i as nat),
        decreases pairs.len() - i,
    {
        let ghost done = pair_views(members@);
        let key: String = pairs[i].0.clone();
        let member: Value = pairs[i].1.to_canonical();
        members.push((key, member));
        assert(pair_views(members@) =~= done.push(
            (pair_views(pairs@)[i as int].0, canonical(pair_views(pairs@)[i as int].1)),
        ));
        i += 1;
    }
    members
}

fn items_are_well_formed(items: &Vec<Value>) -> (r: bool)
    ensures
        r == forall|i: int| 0 <= i < items@.len() ==> well_formed(#[trigger] views(items@)[i]),
    decreases items,
{
    let mut i: usize = 0;
    while i < items.len()
        invariant
            i <= items.len(),
            forall|j: int| 0 <= j < i ==> well_formed(#[trigger] views(items@)[j]),
        decreases items.len() - i,
    {
        if !items[i].is_well_formed() {
            assert(!well_formed(views(items@)[i as int]));
            return false;
        }
        i += 1;
    }
    true
}

fn values_are_well_formed(pairs: &Vec<(String, Value)>) -> (r: bool)
    ensures
        r == forall|i: int|
            0 <= i < pairs@.len() ==> well_formed((#[trigger] pair_views(pairs@)[i]).1),
    decreases pairs,
{
    let mut i: usize = 0;
    while i < pairs.len()
        invariant
            i <= pairs.len(),
            forall|j: int| 0 <= j < i ==> well_formed((#[trigger] pair_views(pairs@)[j]).1),
        decreases pairs.len() - i,
    {
        if !pairs[i].1.is_well_formed() {
            assert(!well_formed(pair_views(pairs@)[i as int].1));
            return false;
        }
        i += 1;
    }
    true
}

fn keys_are_distinct(pairs: &Vec<(String, Value)>) -> (r: bool)
    ensures
        r == distinct_keys(pair_views(pairs@)),
{
    let ghost keyed = pair_views(pairs@);
    let mut j: usize = 0;
    while j < pairs.len()
        invariant
            j <= pairs.len(),
            keyed == pair_views(pairs@),
            forall|a: int, b: int| 0 <= a < b < j ==> keyed[a].0 != keyed[b].0,
        decreases pairs.len() - j,
    {
        let mut i: usize = 0;
        while i < j
            invariant
                i <= j < pairs.len(),
                keyed == pair_views(pairs@),
                forall|a: int| 0 <= a < i ==> (#[trigger] keyed[a]).0 != keyed[j as int].0,
            decreases j - i,
        {
            if pairs[i].0 == pairs[j].0 {
                assert(keyed[i as int].0 == keyed[j as int].0);
                return false;
            }
            i += 1;
        }
        j += 1;
    }
    true
}

} // verus!
