//! Adnot values, what they hold, and the ordering of map keys.

use vstd::prelude::*;
use crate::chars::{chars_less, int_decimal, int_text, str_debug, str_debug_text, str_less};

verus! {

type Array = Vec<Value>;

/// A representation of an Adnot value.
///
/// A map holds its entries with their keys in ascending order, and no key twice, so
/// that two maps with the same entries are equal.
#[derive(Debug, PartialEq)]
pub enum Value {
    /// A "sum": a string tag plus zero or more payload values, written in parentheses,
    /// such as `(foo 1 2 3)` or `("bar")`.
    Sum(String, Array),
    /// A "map" from string keys to values, written in curly braces with key-value
    /// pairs, such as `{ foo 1 "bar" 2 }`. A repeated key is a parse error.
    Mapping(Vec<(String, Value)>),
    /// A "list" of zero or more values, written in square brackets, such as `[foo 2 {}]`.
    List(Array),
    /// A sixty-four-bit signed integer, written in decimal, or in another base with
    /// a prefix: `0x` (16), `0z` (12), `0d` (10), `0o` (8) or `0b` (2). An `_` inside
    /// the digits is ignored.
    Int(i64),
    /// A string: either bare (an alphabetic character followed by alphanumeric
    /// characters or underscores) or quoted, with backslash escapes.
    String(String),
}

/// What a `Value` holds, as mathematical values.
pub enum ValueModel {
    Sum(Seq<char>, Seq<ValueModel>),
    Mapping(Seq<(Seq<char>, ValueModel)>),
    List(Seq<ValueModel>),
    Int(i64),
    String(Seq<char>),
}

/// The model of a value.
pub open spec fn value_model(v: Value) -> ValueModel
    decreases v,
{
    match v {
        Value::Sum(tag, items) => ValueModel::Sum(tag@, value_models(items@)),
        Value::Mapping(entries) => ValueModel::Mapping(entry_models(entries@)),
        Value::List(items) => ValueModel::List(value_models(items@)),
        Value::Int(n) => ValueModel::Int(n),
        Value::String(s) => ValueModel::String(s@),
    }
}

/// The models of a sequence of values, in order.
pub open spec fn value_models(vs: Seq<Value>) -> Seq<ValueModel>
    decreases vs,
{
    if vs.len() == 0 {
        Seq::empty()
    } else {
        value_models(vs.drop_last()).push(value_model(vs.last()))
    }
}

/// The models of a sequence of map entries, in order.
pub open spec fn entry_models(es: Seq<(String, Value)>) -> Seq<(Seq<char>, ValueModel)>
    decreases es,
{
    if es.len() == 0 {
        Seq::empty()
    } else {
        entry_models(es.drop_last()).push((es.last().0@, value_model(es.last().1)))
    }
}

/// The text of a value, as errors show it: `Int(n)`, `String("..")`, `List([..])`,
/// `Sum("..", [..])` or `Map({"..": .., ..})` with the keys in ascending order, strings
/// quoted and escaped as `Debug` does, items separated by `, `.
pub open spec fn value_text(v: ValueModel) -> Seq<char>
    decreases v,
{
    match v {
        ValueModel::Int(n) => "Int("@ + int_text(n as int) + ")"@,
        ValueModel::String(t) => "String("@ + str_debug_text(t) + ")"@,
        ValueModel::List(items) => "List(["@ + values_text(items) + "])"@,
        ValueModel::Sum(tag, items) => "Sum("@ + str_debug_text(tag) + ", ["@ + values_text(items)
            + "])"@,
        ValueModel::Mapping(es) => "Map({"@ + entries_text(es) + "})"@,
    }
}

/// The texts of `items`, separated by `, `.
pub open spec fn values_text(items: Seq<ValueModel>) -> Seq<char>
    decreases items,
{
    if items.len() == 0 {
        Seq::empty()
    } else if items.len() == 1 {
        value_text(items[0])
    } else {
        values_text(items.drop_last()) + ", "@ + value_text(items.last())
    }
}

/// The texts of the entries `es`, each `key: value`, separated by `, `.
pub open spec fn entries_text(es: Seq<(Seq<char>, ValueModel)>) -> Seq<char>
    decreases es,
{
    if es.len() == 0 {
        Seq::empty()
    } else if es.len() == 1 {
        str_debug_text(es[0].0) + ": "@ + value_text(es[0].1)
    } else {
        entries_text(es.drop_last()) + ", "@ + (str_debug_text(es.last().0) + ": "@
            + value_text(es.last().1))
    }
}

/// The text of `v`, as errors show it.
pub(crate) fn render_value(v: &Value) -> (r: String)
    ensures
        r@ == value_text(v@),
    decreases v,
{
    match v {
        Value::Int(n) => {
            let mut out = String::from_str("Int(");
            let digits = int_decimal(*n);
            out.append(digits.as_str());
            out.append(")");
            out
        },
        Value::String(t) => {
            let mut out = String::from_str("String(");
            let quoted = str_debug(t.as_str());
            out.append(quoted.as_str());
            out.append(")");
            out
        },
        Value::List(items) => {
            let mut out = String::from_str("List([");
            let inner = render_values(items);
            out.append(inner.as_str());
            out.append("])");
            out
        },
        Value::Sum(tag, items) => {
            let mut out = String::from_str("Sum(");
            let quoted = str_debug(tag.as_str());
            out.append(quoted.as_str());
            out.append(", [");
            let inner = render_values(items);
            out.append(inner.as_str());
            out.append("])");
            out
        },
        Value::Mapping(entries) => {
            let mut out = String::from_str("Map({");
            let inner = render_entries(entries);
            out.append(inner.as_str());
            out.append("})");
            out
        },
    }
}

/// The texts of `items`, separated by `, `.
fn render_values(items: &Vec<Value>) -> (r: String)
    ensures
        r@ == values_text(value_models(items@)),
    decreases items,
{
    let ghost ms = value_models(items@);
    proof {
        lemma_value_models(items@);
    }
    let mut out = String::new();
    let mut i: usize = 0;
    while i < items.len()
        invariant
            i <= items.len(),
            ms == value_models(items@),
            ms.len() == items.len(),
            forall|j: int| 0 <= j < items.len() ==> #[trigger] ms[j] == value_model(items@[j]),
            out@ == values_text(ms.take(i as int)),
        decreases items.len() - i,
    {
        proof {
            assert(ms.take(i + 1).drop_last() =~= ms.take(i as int));
            assert(decreases_to!(items => items@[i as int]));
        }
        if i > 0 {
            out.append(", ");
        }
        let t = render_value(&items[i]);
        out.append(t.as_str());
        i = i + 1;
    }
    proof {
        assert(ms.take(i as int) =~= ms);
    }
    out
}

/// The texts of the entries `entries`, each `key: value`, separated by `, `.
fn render_entries(entries: &Vec<(String, Value)>) -> (r: String)
    ensures
        r@ == entries_text(entry_models(entries@)),
    decreases entries,
{
    let ghost es = entry_models(entries@);
    proof {
        lemma_entry_models(entries@);
    }
    let mut out = String::new();
    let mut i: usize = 0;
    while i < entries.len()
        invariant
            i <= entries.len(),
            es == entry_models(entries@),
            es.len() == entries.len(),
            forall|j: int|
                0 <= j < entries.len() ==> #[trigger] es[j] == (entries@[j].0@, value_model(
                    entries@[j].1,
                )),
            out@ == entries_text(es.take(i as int)),
        decreases entries.len() - i,
    {
        proof {
            assert(es.take(i + 1).drop_last() =~= es.take(i as int));
            assert(decreases_to!(entries => entries@[i as int].1));
        }
        if i > 0 {
            out.append(", ");
        }
        let key = str_debug(entries[i].0.as_str());
        out.append(key.as_str());
        out.append(": ");
        let t = render_value(&entries[i].1);
        out.append(t.as_str());
        i = i + 1;
    }
    proof {
        assert(es.take(i as int) =~= es);
    }
    out
}

impl View for Value {
    type V = ValueModel;

    open spec fn view(&self) -> ValueModel {
        value_model(*self)
    }
}

/// Each entry's model is the model of the entry at the same index.
pub proof fn lemma_value_models(vs: Seq<Value>)
    ensures
        value_models(vs).len() == vs.len(),
        forall|j: int| 0 <= j < vs.len() ==> #[trigger] value_models(vs)[j] == value_model(vs[j]),
    decreases vs.len(),
{
    if vs.len() > 0 {
        lemma_value_models(vs.drop_last());
    }
}

/// Each entry's model is the model of the entry at the same index.
pub proof fn lemma_entry_models(es: Seq<(String, Value)>)
    ensures
        entry_models(es).len() == es.len(),
        forall|j: int|
            0 <= j < es.len() ==> #[trigger] entry_models(es)[j] == (es[j].0@, value_model(es[j].1)),
    decreases es.len(),
{
    if es.len() > 0 {
        lemma_entry_models(es.drop_last());
    }
}

/// Models commute with pushing a value.
pub proof fn lemma_value_models_push(vs: Seq<Value>, v: Value)
    ensures
        value_models(vs.push(v)) == value_models(vs).push(value_model(v)),
{
    assert(vs.push(v).drop_last() =~= vs);
}

/// Models commute with inserting an entry.
pub proof fn lemma_entry_models_insert(es: Seq<(String, Value)>, i: int, e: (String, Value))
    requires
        0 <= i <= es.len(),
    ensures
        entry_models(es.insert(i, e)) == entry_models(es).insert(i, (e.0@, value_model(e.1))),
{
    lemma_entry_models(es);
    lemma_entry_models(es.insert(i, e));
    assert(entry_models(es.insert(i, e)) =~= entry_models(es).insert(i, (e.0@, value_model(e.1))));
}

/// No sequence of characters comes before itself.
pub proof fn lemma_chars_less_irreflexive(a: Seq<char>)
    ensures
        !chars_less(a, a),
    decreases a.len(),
{
    if a.len() > 0 {
        lemma_chars_less_irreflexive(a.drop_first());
    }
}

/// The order of character sequences is transitive.
pub proof fn lemma_chars_less_transitive(a: Seq<char>, b: Seq<char>, c: Seq<char>)
    requires
        chars_less(a, b),
        chars_less(b, c),
    ensures
        chars_less(a, c),
    decreases a.len(),
{
    if a.len() > 0 && b.len() > 0 && c.len() > 0 && a[0] == b[0] && b[0] == c[0] {
        lemma_chars_less_transitive(a.drop_first(), b.drop_first(), c.drop_first());
    }
}

/// Of two different character sequences, one comes before the other.
pub proof fn lemma_chars_less_total(a: Seq<char>, b: Seq<char>)
    requires
        a != b,
    ensures
        chars_less(a, b) || chars_less(b, a),
    decreases a.len(),
{
    if a.len() > 0 && b.len() > 0 && a[0] == b[0] {
        if a.drop_first() == b.drop_first() {
            assert(a =~= seq![a[0]] + a.drop_first());
            assert(b =~= seq![b[0]] + b.drop_first());
        }
        lemma_chars_less_total(a.drop_first(), b.drop_first());
    } else if a.len() == 0 && b.len() == 0 {
        assert(a =~= b);
    }
}

/// The keys of `es` are in strictly ascending order.
pub open spec fn keys_ascending(es: Seq<(Seq<char>, ValueModel)>) -> bool {
    forall|i: int, j: int|
        0 <= i < j < es.len() ==> chars_less(#[trigger] es[i].0, #[trigger] es[j].0)
}

/// Whether some entry of `es` has the key `k`.
pub open spec fn has_key(es: Seq<(Seq<char>, ValueModel)>, k: Seq<char>) -> bool {
    exists|i: int| 0 <= i < es.len() && #[trigger] es[i].0 == k
}

/// The index of the first entry of `es` whose key does not come before `k`.
pub open spec fn insertion_index(es: Seq<(Seq<char>, ValueModel)>, k: Seq<char>) -> int
    decreases es.len(),
{
    if es.len() == 0 {
        0
    } else if chars_less(es[0].0, k) {
        1 + insertion_index(es.drop_first(), k)
    } else {
        0
    }
}

/// `es` with the entry `(k, v)` put where its key keeps the keys ascending.
pub open spec fn insert_entry(es: Seq<(Seq<char>, ValueModel)>, k: Seq<char>, v: ValueModel) -> Seq<
    (Seq<char>, ValueModel),
> {
    es.insert(insertion_index(es, k), (k, v))
}

/// A value is well formed when the keys of each map in it ascend strictly, so
/// that no key occurs twice.
pub open spec fn well_formed(v: ValueModel) -> bool
    decreases v,
{
    match v {
        ValueModel::Sum(_, items) => forall|i: int|
            0 <= i < items.len() ==> well_formed(#[trigger] items[i]),
        ValueModel::Mapping(es) => keys_ascending(es) && forall|i: int|
            0 <= i < es.len() ==> well_formed(#[trigger] es[i].1),
        ValueModel::List(items) => forall|i: int|
            0 <= i < items.len() ==> well_formed(#[trigger] items[i]),
        _ => true,
    }
}

/// The first index `i` whose key does not come before `k` is the insertion index.
proof fn lemma_insertion_index(es: Seq<(Seq<char>, ValueModel)>, k: Seq<char>, i: int)
    requires
        0 <= i <= es.len(),
        forall|j: int| 0 <= j < i ==> chars_less(#[trigger] es[j].0, k),
        i == es.len() || !chars_less(es[i].0, k),
    ensures
        insertion_index(es, k) == i,
    decreases i,
{
    if i > 0 {
        assert(chars_less(es[0].0, k));
        assert forall|j: int| 0 <= j < i - 1 implies chars_less(#[trigger] es.drop_first()[j].0, k) by {
            assert(es.drop_first()[j] == es[j + 1]);
        }
        lemma_insertion_index(es.drop_first(), k, i - 1);
    }
}

/// Where to put an entry with key `key` in `entries`, whose keys ascend: `None` when
/// the key is there already, else the index that keeps the keys ascending.
pub(crate) fn entry_slot(entries: &Vec<(String, Value)>, key: &String) -> (r: Option<usize>)
    requires
        keys_ascending(entry_models(entries@)),
    ensures
        r is None <==> has_key(entry_models(entries@), key@),
        r matches Some(i) ==> i == insertion_index(entry_models(entries@), key@) && i <= entries.len(),
{
    let ghost es = entry_models(entries@);
    proof {
        lemma_entry_models(entries@);
    }
    let mut i: usize = 0;
    loop
        invariant
            i <= entries.len(),
            es == entry_models(entries@),
            es.len() == entries.len(),
            forall|j: int| 0 <= j < i ==> chars_less(#[trigger] es[j].0, key@),
        ensures
            i <= entries.len(),
            forall|j: int| 0 <= j < i ==> chars_less(#[trigger] es[j].0, key@),
            i == entries.len() || !chars_less(es[i as int].0, key@),
        decreases entries.len() - i,
    {
        if i == entries.len() {
            break;
        }
        proof {
            lemma_entry_models(entries@);
        }
        if !str_less(entries[i].0.as_str(), key.as_str()) {
            break;
        }
        i = i + 1;
    }
    proof {
        lemma_insertion_index(es, key@, i as int);
    }
    if i < entries.len() && entries[i].0 == *key {
        return None;
    }
    proof {
        assert forall|j: int| 0 <= j < es.len() implies #[trigger] es[j].0 != key@ by {
            if j < i {
                lemma_chars_less_irreflexive(key@);
            } else {
                assert(es[i as int].0 != key@);
                lemma_chars_less_total(es[i as int].0, key@);
                if j > i {
                    lemma_chars_less_transitive(key@, es[i as int].0, es[j].0);
                    lemma_chars_less_irreflexive(key@);
                }
            }
        }
    }
    Some(i)
}

/// Inserting an entry whose key is not there at its insertion index keeps the keys
/// ascending.
pub proof fn lemma_insert_keeps_ascending(es: Seq<(Seq<char>, ValueModel)>, k: Seq<char>, v: ValueModel)
    requires
        keys_ascending(es),
        !has_key(es, k),
    ensures
        keys_ascending(insert_entry(es, k, v)),
        insert_entry(es, k, v).len() == es.len() + 1,
{
    let i = insertion_index(es, k);
    lemma_insertion_index_facts(es, k);
    let r = insert_entry(es, k, v);
    assert forall|a: int, b: int| 0 <= a < b < r.len() implies chars_less(#[trigger] r[a].0, #[trigger] r[b].0) by {
        if b < i {
            assert(r[a] == es[a] && r[b] == es[b]);
        } else if b == i {
            assert(r[a] == es[a]);
        } else if a > i {
            assert(r[a] == es[a - 1] && r[b] == es[b - 1]);
        } else if a == i {
            assert(r[b] == es[b - 1]);
            assert(es[i].0 != k);
            lemma_chars_less_total(es[i].0, k);
            if b - 1 > i {
                lemma_chars_less_transitive(k, es[i].0, es[b - 1].0);
            }
        } else {
            assert(r[a] == es[a] && r[b] == es[b - 1]);
            if b - 1 == i {
            } else {
                assert(a < b - 1);
            }
        }
    }
}

/// The insertion index lies within the entries, and every key before it comes before `k`.
pub proof fn lemma_insertion_index_facts(es: Seq<(Seq<char>, ValueModel)>, k: Seq<char>)
    ensures
        0 <= insertion_index(es, k) <= es.len(),
        forall|j: int| 0 <= j < insertion_index(es, k) ==> chars_less(#[trigger] es[j].0, k),
        insertion_index(es, k) == es.len() || !chars_less(es[insertion_index(es, k)].0, k),
    decreases es.len(),
{
    if es.len() > 0 && chars_less(es[0].0, k) {
        lemma_insertion_index_facts(es.drop_first(), k);
        assert forall|j: int| 0 <= j < insertion_index(es, k) implies chars_less(#[trigger] es[j].0, k) by {
            if j > 0 {
                assert(es[j] == es.drop_first()[j - 1]);
            }
        }
    }
}

} // verus!
