//! The value tree a parse produces, and its mathematical model.

use vstd::prelude::*;

verus! {

/// The output of a successful parse: a rooted tree of scalar and container
/// nodes.  A `Number` carries the exact source run that denotes the value;
/// the scanner has already checked the run against the number grammar, and
/// extracting the 64-bit value it denotes is the caller's floating-point
/// business, not the tree's.  An `Object` holds its members
/// as a vector of key/value pairs in first-occurrence order; insertion keeps
/// keys unique by overwriting the value of a key already present.
#[derive(Debug, PartialEq)]
pub enum JsonValue {
    Null,
    Boolean(bool),
    Number(String),
    String(String),
    Array(Vec<JsonValue>),
    Object(Vec<(String, JsonValue)>),
}

/// Mathematical image of a `JsonValue`: text as character sequences,
/// containers as sequences.
pub enum Node {
    Null,
    Boolean(bool),
    Number(Seq<char>),
    Strng(Seq<char>),
    Array(Seq<Node>),
    Object(Seq<(Seq<char>, Node)>),
}

/// The model of one value: each container is modeled element by element.
pub open spec fn node_of(v: JsonValue) -> Node
    decreases v,
{
    match v {
        JsonValue::Null => Node::Null,
        JsonValue::Boolean(b) => Node::Boolean(b),
        JsonValue::Number(run) => Node::Number(run@),
        JsonValue::String(s) => Node::Strng(s@),
        JsonValue::Array(elems) => Node::Array(elems_model(elems@)),
        JsonValue::Object(entries) => Node::Object(entries_model(entries@)),
    }
}

/// The model of an element list.
pub open spec fn elems_model(es: Seq<JsonValue>) -> Seq<Node>
    decreases es,
{
    if es.len() == 0 {
        Seq::empty()
    } else {
        seq![node_of(es[0])] + elems_model(es.drop_first())
    }
}

/// The model of a member list.
pub open spec fn entries_model(es: Seq<(String, JsonValue)>) -> Seq<(Seq<char>, Node)>
    decreases es,
{
    if es.len() == 0 {
        Seq::empty()
    } else {
        seq![(es[0].0@, node_of(es[0].1))] + entries_model(es.drop_first())
    }
}

impl View for JsonValue {
    type V = Node;

    open spec fn view(&self) -> Node {
        node_of(*self)
    }
}

/// An element list is modeled element by element.
pub proof fn lemma_elems_model(es: Seq<JsonValue>)
    ensures
        elems_model(es).len() == es.len(),
        forall|i: int| 0 <= i < es.len() ==> elems_model(es)[i] == node_of(#[trigger] es[i]),
    decreases es,
{
    if es.len() > 0 {
        lemma_elems_model(es.drop_first());
        assert forall|i: int| 0 <= i < es.len() implies elems_model(es)[i] == node_of(
            #[trigger] es[i],
        ) by {
            if i > 0 {
                assert(es.drop_first()[i - 1] == es[i]);
            }
        }
    }
}

/// A member list is modeled member by member.
pub proof fn lemma_entries_model(es: Seq<(String, JsonValue)>)
    ensures
        entries_model(es).len() == es.len(),
        forall|i: int|
            0 <= i < es.len() ==> entries_model(es)[i] == ((#[trigger] es[i]).0@, node_of(es[i].1)),
    decreases es,
{
    if es.len() > 0 {
        lemma_entries_model(es.drop_first());
        assert forall|i: int| 0 <= i < es.len() implies entries_model(es)[i] == (
            (#[trigger] es[i]).0@,
            node_of(es[i].1),
        ) by {
            if i > 0 {
                assert(es.drop_first()[i - 1] == es[i]);
            }
        }
    }
}

/// No key occurs twice.
pub open spec fn keys_unique(entries: Seq<(Seq<char>, Node)>) -> bool {
    forall|i: int, j: int|
        0 <= i < j < entries.len() ==> entries[i].0 != entries[j].0
}

/// Insertion into a member list: overwrite the value of the first entry
/// whose key matches, or append a new entry.  The last write for a key wins.
pub open spec fn upsert(
    entries: Seq<(Seq<char>, Node)>,
    key: Seq<char>,
    value: Node,
) -> Seq<(Seq<char>, Node)>
    decreases entries.len(),
{
    if entries.len() == 0 {
        seq![(key, value)]
    } else if entries[0].0 == key {
        seq![(key, value)] + entries.drop_first()
    } else {
        seq![entries[0]] + upsert(entries.drop_first(), key, value)
    }
}

/// Where the key already stands at `k` and nowhere earlier, insertion is an
/// update in place.
pub proof fn lemma_upsert_found(
    entries: Seq<(Seq<char>, Node)>,
    key: Seq<char>,
    value: Node,
    k: int,
)
    requires
        0 <= k < entries.len(),
        entries[k].0 == key,
        forall|m: int| 0 <= m < k ==> (#[trigger] entries[m]).0 != key,
    ensures
        upsert(entries, key, value) == entries.update(k, (key, value)),
    decreases entries.len(),
{
    if k == 0 {
        assert(upsert(entries, key, value) =~= entries.update(0, (key, value))) by {
            assert forall|i: int| 0 < i < entries.len() implies (seq![(key, value)]
                + entries.drop_first())[i] == entries[i] by {
                assert(entries.drop_first()[i - 1] == entries[i]);
            }
        }
    } else {
        assert(entries[0].0 != key);
        assert(entries.drop_first()[k - 1] == entries[k]);
        assert forall|m: int| 0 <= m < k - 1 implies (#[trigger] entries.drop_first()[m]).0
            != key by {
            assert(entries.drop_first()[m] == entries[m + 1]);
        }
        lemma_upsert_found(entries.drop_first(), key, value, k - 1);
        assert(upsert(entries, key, value) =~= entries.update(k, (key, value))) by {
            assert forall|i: int| 0 < i < entries.len() implies (seq![entries[0]]
                + entries.drop_first().update(k - 1, (key, value)))[i] == entries.update(
                k,
                (key, value),
            )[i] by {
                if i == k {
                } else {
                    assert(entries.drop_first()[i - 1] == entries[i]);
                }
            }
        }
    }
}

/// Where the key stands nowhere in the list, insertion is an append.
pub proof fn lemma_upsert_missing(entries: Seq<(Seq<char>, Node)>, key: Seq<char>, value: Node)
    requires
        forall|m: int| 0 <= m < entries.len() ==> (#[trigger] entries[m]).0 != key,
    ensures
        upsert(entries, key, value) == entries.push((key, value)),
    decreases entries.len(),
{
    if entries.len() == 0 {
        assert(upsert(entries, key, value) =~= entries.push((key, value)));
    } else {
        assert(entries[0].0 != key);
        assert forall|m: int| 0 <= m < entries.drop_first().len() implies (
        #[trigger] entries.drop_first()[m]).0 != key by {
            assert(entries.drop_first()[m] == entries[m + 1]);
        }
        lemma_upsert_missing(entries.drop_first(), key, value);
        assert(upsert(entries, key, value) =~= entries.push((key, value))) by {
            assert forall|i: int| 0 < i < entries.len() + 1 implies (seq![entries[0]]
                + entries.drop_first().push((key, value)))[i] == entries.push((key, value))[i] by {
                if i < entries.len() {
                    assert(entries.drop_first()[i - 1] == entries[i]);
                }
            }
        }
    }
}

/// Appending a member appends its model.
pub proof fn lemma_entries_model_push(es: Seq<(String, JsonValue)>, key: String, v: JsonValue)
    ensures
        entries_model(es.push((key, v))) == entries_model(es).push((key@, node_of(v))),
{
    lemma_entries_model(es);
    lemma_entries_model(es.push((key, v)));
    assert(entries_model(es.push((key, v))) =~= entries_model(es).push((key@, node_of(v)))) by {
        assert forall|i: int| 0 <= i < es.len() + 1 implies entries_model(es.push((key, v)))[i]
            == entries_model(es).push((key@, node_of(v)))[i] by {
            if i < es.len() {
                assert(es.push((key, v))[i] == es[i]);
            } else {
                assert(es.push((key, v))[i] == (key, v));
            }
        }
    }
}

/// Updating a member in place updates its model in place.
pub proof fn lemma_entries_model_update(
    es: Seq<(String, JsonValue)>,
    k: int,
    key: String,
    v: JsonValue,
)
    requires
        0 <= k < es.len(),
    ensures
        entries_model(es.update(k, (key, v))) == entries_model(es).update(k, (key@, node_of(v))),
{
    lemma_entries_model(es);
    lemma_entries_model(es.update(k, (key, v)));
    assert(entries_model(es.update(k, (key, v))) =~= entries_model(es).update(
        k,
        (key@, node_of(v)),
    )) by {
        assert forall|i: int| 0 <= i < es.len() implies entries_model(es.update(k, (key, v)))[i]
            == entries_model(es).update(k, (key@, node_of(v)))[i] by {
            if i == k {
                assert(es.update(k, (key, v))[i] == (key, v));
            } else {
                assert(es.update(k, (key, v))[i] == es[i]);
            }
        }
    }
}

/// Appending an element appends its model.
pub proof fn lemma_elems_model_push(es: Seq<JsonValue>, v: JsonValue)
    ensures
        elems_model(es.push(v)) == elems_model(es).push(node_of(v)),
{
    lemma_elems_model(es);
    lemma_elems_model(es.push(v));
    assert(elems_model(es.push(v)) =~= elems_model(es).push(node_of(v))) by {
        assert forall|i: int| 0 <= i < es.len() + 1 implies elems_model(es.push(v))[i]
            == elems_model(es).push(node_of(v))[i] by {
            if i < es.len() {
                assert(es.push(v)[i] == es[i]);
            } else {
                assert(es.push(v)[i] == v);
            }
        }
    }
}

/// Every object anywhere in the tree has unique keys.
pub open spec fn node_keys_unique(n: Node) -> bool
    decreases n,
{
    match n {
        Node::Array(elems) => all_keys_unique(elems),
        Node::Object(entries) => keys_unique(entries) && entry_values_keys_unique(entries),
        _ => true,
    }
}

/// `node_keys_unique` for every node of an element list.
pub open spec fn all_keys_unique(es: Seq<Node>) -> bool
    decreases es,
{
    es.len() == 0 || (node_keys_unique(es[0]) && all_keys_unique(es.drop_first()))
}

/// `node_keys_unique` for every value of a member list.
pub open spec fn entry_values_keys_unique(es: Seq<(Seq<char>, Node)>) -> bool
    decreases es,
{
    es.len() == 0 || (node_keys_unique(es[0].1) && entry_values_keys_unique(es.drop_first()))
}

/// An element list is in order exactly when each element is.
pub proof fn lemma_all_keys_unique_pointwise(es: Seq<Node>)
    ensures
        all_keys_unique(es) <==> (forall|i: int|
            0 <= i < es.len() ==> node_keys_unique(#[trigger] es[i])),
    decreases es,
{
    if es.len() > 0 {
        lemma_all_keys_unique_pointwise(es.drop_first());
        if all_keys_unique(es) {
            assert forall|i: int| 0 <= i < es.len() implies node_keys_unique(#[trigger] es[i]) by {
                if i > 0 {
                    assert(es.drop_first()[i - 1] == es[i]);
                    assert(node_keys_unique(es.drop_first()[i - 1]));
                }
            }
        }
        if forall|i: int| 0 <= i < es.len() ==> node_keys_unique(#[trigger] es[i]) {
            assert forall|i: int| 0 <= i < es.drop_first().len() implies node_keys_unique(
                #[trigger] es.drop_first()[i],
            ) by {
                assert(es.drop_first()[i] == es[i + 1]);
            }
            assert(node_keys_unique(es[0]));
        }
    }
}

/// A member list is in order exactly when each member's value is.
pub proof fn lemma_entry_values_pointwise(es: Seq<(Seq<char>, Node)>)
    ensures
        entry_values_keys_unique(es) <==> (forall|i: int|
            0 <= i < es.len() ==> node_keys_unique((#[trigger] es[i]).1)),
    decreases es,
{
    if es.len() > 0 {
        lemma_entry_values_pointwise(es.drop_first());
        if entry_values_keys_unique(es) {
            assert forall|i: int| 0 <= i < es.len() implies node_keys_unique(
                (#[trigger] es[i]).1,
            ) by {
                if i > 0 {
                    assert(es.drop_first()[i - 1] == es[i]);
                    assert(node_keys_unique(es.drop_first()[i - 1].1));
                }
            }
        }
        if forall|i: int| 0 <= i < es.len() ==> node_keys_unique((#[trigger] es[i]).1) {
            assert forall|i: int| 0 <= i < es.drop_first().len() implies node_keys_unique(
                (#[trigger] es.drop_first()[i]).1,
            ) by {
                assert(es.drop_first()[i] == es[i + 1]);
            }
            assert(node_keys_unique(es[0].1));
        }
    }
}

/// Every member of the inserted-into list is the inserted pair or a member
/// already present.
pub proof fn lemma_upsert_elements(entries: Seq<(Seq<char>, Node)>, key: Seq<char>, value: Node)
    ensures
        forall|i: int|
            0 <= i < upsert(entries, key, value).len() ==> #[trigger] upsert(entries, key, value)[i]
                == (key, value) || exists|j: int|
                0 <= j < entries.len() && entries[j] == upsert(entries, key, value)[i],
    decreases entries.len(),
{
    if entries.len() == 0 {
    } else if entries[0].0 == key {
        assert forall|i: int|
            1 <= i < upsert(entries, key, value).len() implies exists|j: int|
            0 <= j < entries.len() && entries[j] == #[trigger] upsert(entries, key, value)[i] by {
            assert(entries[i] == upsert(entries, key, value)[i]);
        }
    } else {
        lemma_upsert_elements(entries.drop_first(), key, value);
        let rest = upsert(entries.drop_first(), key, value);
        assert forall|i: int|
            0 <= i < upsert(entries, key, value).len() && #[trigger] upsert(entries, key, value)[i]
                != (key, value) implies exists|j: int|
            0 <= j < entries.len() && entries[j] == upsert(entries, key, value)[i] by {
            if i == 0 {
                assert(entries[0] == upsert(entries, key, value)[0]);
            } else {
                assert(upsert(entries, key, value)[i] == rest[i - 1]);
                let j0 = choose|j0: int|
                    0 <= j0 < entries.drop_first().len() && entries.drop_first()[j0] == rest[i - 1];
                assert(entries.drop_first()[j0] == entries[j0 + 1]);
            }
        }
    }
}

/// Insertion keeps every value in order: the inserted one and those kept.
pub proof fn lemma_upsert_values_keys_unique(
    entries: Seq<(Seq<char>, Node)>,
    key: Seq<char>,
    value: Node,
)
    requires
        entry_values_keys_unique(entries),
        node_keys_unique(value),
    ensures
        entry_values_keys_unique(upsert(entries, key, value)),
{
    lemma_entry_values_pointwise(entries);
    lemma_entry_values_pointwise(upsert(entries, key, value));
    lemma_upsert_elements(entries, key, value);
    assert forall|i: int| 0 <= i < upsert(entries, key, value).len() implies node_keys_unique(
        (#[trigger] upsert(entries, key, value)[i]).1,
    ) by {
        if upsert(entries, key, value)[i] != (key, value) {
            let j = choose|j: int|
                0 <= j < entries.len() && entries[j] == upsert(entries, key, value)[i];
            assert(node_keys_unique(entries[j].1));
        }
    }
}

/// Insertion keeps keys unique: the documented object invariant.
pub proof fn lemma_upsert_keys_unique(
    entries: Seq<(Seq<char>, Node)>,
    key: Seq<char>,
    value: Node,
)
    requires
        keys_unique(entries),
    ensures
        keys_unique(upsert(entries, key, value)),
    decreases entries.len(),
{
    if entries.len() == 0 {
    } else if entries[0].0 == key {
        assert forall|i: int, j: int|
            0 <= i < j < upsert(entries, key, value).len() implies upsert(entries, key, value)[i].0
            != upsert(entries, key, value)[j].0 by {
            assert(upsert(entries, key, value)[j] == entries[j]);
            if i > 0 {
                assert(upsert(entries, key, value)[i] == entries[i]);
            }
        }
    } else {
        assert(keys_unique(entries.drop_first())) by {
            assert forall|i: int, j: int|
                0 <= i < j < entries.drop_first().len() implies entries.drop_first()[i].0
                != entries.drop_first()[j].0 by {
                assert(entries.drop_first()[i] == entries[i + 1]);
                assert(entries.drop_first()[j] == entries[j + 1]);
            }
        }
        lemma_upsert_keys_unique(entries.drop_first(), key, value);
        lemma_upsert_key_set(entries.drop_first(), key, value);
        assert forall|i: int, j: int|
            0 <= i < j < upsert(entries, key, value).len() implies upsert(entries, key, value)[i].0
            != upsert(entries, key, value)[j].0 by {
            let rest = upsert(entries.drop_first(), key, value);
            if i == 0 {
                assert(upsert(entries, key, value)[j] == rest[j - 1]);
            } else {
                assert(upsert(entries, key, value)[i] == rest[i - 1]);
                assert(upsert(entries, key, value)[j] == rest[j - 1]);
            }
        }
    }
}

/// Every key of the inserted-into list is the inserted key or one already
/// present.
pub proof fn lemma_upsert_key_set(
    entries: Seq<(Seq<char>, Node)>,
    key: Seq<char>,
    value: Node,
)
    ensures
        forall|i: int|
            0 <= i < upsert(entries, key, value).len() ==> upsert(entries, key, value)[i].0 == key
                || exists|j: int| 0 <= j < entries.len() && entries[j].0 == #[trigger] upsert(
                entries,
                key,
                value,
            )[i].0,
    decreases entries.len(),
{
    if entries.len() == 0 {
    } else if entries[0].0 == key {
        assert forall|i: int| 1 <= i < upsert(entries, key, value).len() implies exists|j: int|
            0 <= j < entries.len() && entries[j].0 == #[trigger] upsert(entries, key, value)[i].0 by {
            assert(entries[i].0 == upsert(entries, key, value)[i].0);
        }
    } else {
        lemma_upsert_key_set(entries.drop_first(), key, value);
        let rest = upsert(entries.drop_first(), key, value);
        assert forall|i: int|
            0 <= i < upsert(entries, key, value).len() && upsert(entries, key, value)[i].0
                != key implies exists|j: int|
            0 <= j < entries.len() && entries[j].0 == upsert(entries, key, value)[i].0 by {
            if i == 0 {
                assert(entries[0].0 == upsert(entries, key, value)[0].0);
            } else {
                assert(upsert(entries, key, value)[i] == rest[i - 1]);
                let j0 = choose|j0: int|
                    0 <= j0 < entries.drop_first().len() && entries.drop_first()[j0].0 == rest[i
                        - 1].0;
                assert(entries.drop_first()[j0] == entries[j0 + 1]);
            }
        }
    }
}

} // verus!
