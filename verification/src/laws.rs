//! Laws of selection, proved of the semantics that the evaluator implements.

use crate::model::{FilterExpression, JsonPath, JsonPathIndex};
use crate::number::Number;
use crate::semantics::{
    carried, chain_len, chain_rest, chain_spec, child_count, children, collapsed, descend,
    filter_elements, filter_spec, found, index_match, index_path_spec, index_spec, key_match,
    key_path_spec, select_spec, union_elements, union_fields, values_of, Match,
};
use crate::map::{key_index, lemma_key_index_upto, unique_keys};
use crate::value::{entry_matches, json_eq, Json};
use vstd::prelude::*;

verus! {

/// `$` selects the document itself and nothing else, so a query for `$`
/// returns the document unchanged.
pub proof fn lemma_root_selects_the_document(document: Json, path_so_far: Option<Seq<char>>)
    ensures
        values_of(select_spec(JsonPath::Root, document, document, path_so_far)) == seq![document],
        collapsed(values_of(select_spec(JsonPath::Root, document, document, path_so_far)))
            == document,
{
    let matches = select_spec(JsonPath::Root, document, document, path_so_far);
    assert(values_of(matches) =~= seq![document]);
}

/// A chain without steps selects the value it is applied to and nothing
/// else, under the path that the value has, so a query for it returns the
/// value unchanged.
pub proof fn lemma_empty_chain_selects_its_input(
    path: JsonPath,
    root: Json,
    value: Json,
    path_so_far: Option<Seq<char>>,
)
    requires
        path is Chain,
        chain_len(path) == 0,
    ensures
        select_spec(path, root, value, path_so_far) == seq![found(path_so_far, value)],
        collapsed(values_of(select_spec(path, root, value, path_so_far))) == value,
{
    assert(select_spec(path, root, value, path_so_far) == chain_spec(
        path,
        0,
        root,
        value,
        path_so_far,
    ));
    assert(chain_spec(path, 0, root, value, path_so_far) == seq![found(path_so_far, value)]);
    assert(values_of(seq![found(path_so_far, value)]) =~= seq![value]);
}

/// What a query returns for the values it selected: null for none, the value
/// for one, the array of all of them, in order, for two or more.
pub proof fn lemma_collapse(values: Seq<Json>)
    ensures
        values.len() == 0 ==> collapsed(values) == Json::Null,
        values.len() == 1 ==> collapsed(values) == values[0],
        values.len() >= 2 ==> collapsed(values) == Json::Array(values),
{
}

/// The result of a query tells how many values were selected, unless the one
/// selected value is itself null: null stands for none, an array of two or
/// more values for those values.
pub proof fn lemma_collapse_tells_the_count(values: Seq<Json>)
    requires
        !(values.len() == 1 && values[0] is Null),
    ensures
        collapsed(values) is Null <==> values.len() == 0,
        collapsed(values) == Json::Array(values) <==> values.len() >= 2,
{
    if values.len() == 1 && values[0] == Json::Array(values) {
        assert(decreases_to!(Json::Array(values) => Json::Array(values)->Array_0[0]));
    }
}

/// Whether some entry has the key of `entry` and a value equal to its value.
pub open spec fn has_equal_entry(entry: (Seq<char>, Json), entries: Seq<(Seq<char>, Json)>) -> bool {
    exists|j: int|
        0 <= j < entries.len() && (#[trigger] entries[j]).0 == entry.0 && json_eq(
            entry.1,
            entries[j].1,
        )
}

/// Equality of objects does not look at the order of the entries: an object
/// equals one without repeated keys exactly when both have as many entries
/// and every entry of the first has an equal entry in the second, wherever
/// that stands.
pub proof fn lemma_object_equality_ignores_order(
    x: Seq<(Seq<char>, Json)>,
    y: Seq<(Seq<char>, Json)>,
)
    requires
        unique_keys(y),
    ensures
        json_eq(Json::Object(x), Json::Object(y)) <==> (x.len() == y.len() && forall|i: int|
            0 <= i < x.len() ==> has_equal_entry(#[trigger] x[i], y)),
{
    assert forall|i: int| 0 <= i < x.len() implies (entry_matches(#[trigger] x[i], y)
        <==> has_equal_entry(x[i], y)) by {
        lemma_key_index_upto(y, x[i].0, y.len());
        if has_equal_entry(x[i], y) {
            let j = choose|j: int|
                0 <= j < y.len() && (#[trigger] y[j]).0 == x[i].0 && json_eq(x[i].1, y[j].1);
            let first = key_index(y, x[i].0)->Some_0;
            assert(first == j);
        }
        if entry_matches(x[i], y) {
            let first = key_index(y, x[i].0)->Some_0;
            assert(y[first].0 == x[i].0 && json_eq(x[i].1, y[first].1));
        }
    }
    if x.len() == y.len() {
        if forall|i: int| 0 <= i < x.len() ==> has_equal_entry(#[trigger] x[i], y) {
            assert forall|i: int| 0 <= i < x.len() implies entry_matches(#[trigger] x[i], y) by {
                assert(has_equal_entry(x[i], y));
            }
        }
        if json_eq(Json::Object(x), Json::Object(y)) {
            assert forall|i: int| 0 <= i < x.len() implies has_equal_entry(#[trigger] x[i], y) by {
                assert(entry_matches(x[i], y));
            }
        }
    }
}

/// Every match has a path.
pub open spec fn all_have_paths(matches: Seq<Match>) -> bool {
    forall|i: int| 0 <= i < matches.len() ==> (#[trigger] matches[i]).path is Some
}

proof fn lemma_paths_concat(a: Seq<Match>, b: Seq<Match>)
    requires
        all_have_paths(a),
        all_have_paths(b),
    ensures
        all_have_paths(a + b),
{
    assert forall|i: int| 0 <= i < (a + b).len() implies (#[trigger] (a + b)[i]).path is Some by {
        if i < a.len() {
            assert((a + b)[i] == a[i]);
        } else {
            assert((a + b)[i] == b[i - a.len()]);
        }
    }
}

proof fn lemma_paths_union_elements(
    items: Seq<Json>,
    numbers: Seq<Number>,
    path: Option<Seq<char>>,
    n: nat,
)
    requires
        path is Some,
    ensures
        all_have_paths(union_elements(items, numbers, path, n)),
    decreases n,
{
    if n > 0 {
        lemma_paths_union_elements(items, numbers, path, (n - 1) as nat);
        lemma_paths_concat(
            union_elements(items, numbers, path, (n - 1) as nat),
            index_match(items, numbers[n - 1], path),
        );
    }
}

proof fn lemma_paths_union_fields(
    entries: Seq<(Seq<char>, Json)>,
    keys: Seq<String>,
    path: Option<Seq<char>>,
    n: nat,
)
    requires
        path is Some,
    ensures
        all_have_paths(union_fields(entries, keys, path, n)),
    decreases n,
{
    if n > 0 {
        lemma_paths_union_fields(entries, keys, path, (n - 1) as nat);
        lemma_paths_concat(
            union_fields(entries, keys, path, (n - 1) as nat),
            key_match(entries, keys[n - 1]@, path),
        );
    }
}

proof fn lemma_paths_filter_elements(
    filter: FilterExpression,
    root: Json,
    value: Json,
    path: Option<Seq<char>>,
    n: nat,
)
    requires
        path is Some,
    ensures
        all_have_paths(filter_elements(filter, root, value, path, n)),
    decreases n,
{
    match value {
        Json::Array(items) => {
            if n == 0 || n > items.len() {
                assert(filter_elements(filter, root, value, path, n) == Seq::<Match>::empty());
            } else {
                lemma_paths_filter_elements(filter, root, value, path, (n - 1) as nat);
                let head = filter_elements(filter, root, value, path, (n - 1) as nat);
                let last = if filter_spec(filter, root, items[n - 1]) {
                    seq![found(index_path_spec(path, (n - 1) as nat), items[n - 1])]
                } else {
                    Seq::<Match>::empty()
                };
                assert(filter_elements(filter, root, value, path, n) == head + last);
                lemma_paths_concat(head, last);
            }
        },
        _ => {
            assert(filter_elements(filter, root, value, path, n) == Seq::<Match>::empty());
        },
    }
}

proof fn lemma_paths_index(
    index: JsonPathIndex,
    root: Json,
    value: Json,
    path: Option<Seq<char>>,
)
    requires
        path is Some,
    ensures
        all_have_paths(index_spec(index, root, value, path)),
{
    match index {
        JsonPathIndex::Single(number) => {},
        JsonPathIndex::UnionIndex(numbers) => match value {
            Json::Array(items) => {
                lemma_paths_union_elements(items, numbers@, path, numbers@.len());
            },
            _ => {},
        },
        JsonPathIndex::UnionKeys(keys) => match value {
            Json::Object(entries) => {
                lemma_paths_union_fields(entries, keys@, path, keys@.len());
            },
            _ => {},
        },
        JsonPathIndex::Slice(start, end, step) => {},
        JsonPathIndex::Filter(filter) => match value {
            Json::Array(items) => {
                lemma_paths_filter_elements(filter, root, value, path, items.len());
            },
            _ => {},
        },
    }
}

/// Where the value from which a selection starts has a path, every match of
/// the selection has one.
pub proof fn lemma_matches_have_paths(
    path: JsonPath,
    root: Json,
    value: Json,
    path_so_far: Option<Seq<char>>,
)
    requires
        path_so_far is Some,
    ensures
        all_have_paths(select_spec(path, root, value, path_so_far)),
    decreases path, 2 * chain_len(path) + 2, value, 1nat, 0nat,
{
    let n = child_count(value);
    match path {
        JsonPath::Chain(steps) => {
            lemma_chain_has_paths(path, 0, root, value, path_so_far);
        },
        JsonPath::Descent(name) => {
            lemma_descent_has_paths(path, root, value, path_so_far, n);
            let head = match value {
                Json::Object(entries) => key_match(entries, name@, path_so_far),
                _ => Seq::empty(),
            };
            lemma_paths_concat(head, descend(path, root, value, path_so_far, n));
        },
        JsonPath::DescentW => {
            lemma_descent_has_paths(path, root, value, path_so_far, n);
            lemma_paths_concat(
                children(value, path_so_far, n),
                descend(path, root, value, path_so_far, n),
            );
        },
        JsonPath::Index(index) => {
            lemma_paths_index(index, root, value, path_so_far);
        },
        JsonPath::Current(inner) => match *inner {
            JsonPath::Empty => {},
            _ => {
                lemma_matches_have_paths(*inner, root, value, path_so_far);
            },
        },
        _ => {},
    }
}

proof fn lemma_descent_has_paths(
    path: JsonPath,
    root: Json,
    value: Json,
    path_so_far: Option<Seq<char>>,
    n: nat,
)
    requires
        path_so_far is Some,
    ensures
        all_have_paths(descend(path, root, value, path_so_far, n)),
    decreases path, 2 * chain_len(path) + 2, value, 0nat, n,
{
    match value {
        Json::Array(items) => {
            if n == 0 || n > items.len() {
                assert(descend(path, root, value, path_so_far, n) == Seq::<Match>::empty());
            } else {
                let here = index_path_spec(path_so_far, (n - 1) as nat);
                lemma_descent_has_paths(path, root, value, path_so_far, (n - 1) as nat);
                lemma_matches_have_paths(path, root, items[n - 1], here);
                assert(descend(path, root, value, path_so_far, n) == descend(
                    path,
                    root,
                    value,
                    path_so_far,
                    (n - 1) as nat,
                ) + select_spec(path, root, items[n - 1], here));
                lemma_paths_concat(
                    descend(path, root, value, path_so_far, (n - 1) as nat),
                    select_spec(path, root, items[n - 1], here),
                );
            }
        },
        Json::Object(entries) => {
            if n == 0 || n > entries.len() {
                assert(descend(path, root, value, path_so_far, n) == Seq::<Match>::empty());
            } else {
                let here = key_path_spec(path_so_far, entries[n - 1].0);
                lemma_descent_has_paths(path, root, value, path_so_far, (n - 1) as nat);
                lemma_matches_have_paths(path, root, entries[n - 1].1, here);
                assert(descend(path, root, value, path_so_far, n) == descend(
                    path,
                    root,
                    value,
                    path_so_far,
                    (n - 1) as nat,
                ) + select_spec(path, root, entries[n - 1].1, here));
                lemma_paths_concat(
                    descend(path, root, value, path_so_far, (n - 1) as nat),
                    select_spec(path, root, entries[n - 1].1, here),
                );
            }
        },
        _ => {
            assert(descend(path, root, value, path_so_far, n) == Seq::<Match>::empty());
        },
    }
}

proof fn lemma_chain_has_paths(
    path: JsonPath,
    from: nat,
    root: Json,
    value: Json,
    path_so_far: Option<Seq<char>>,
)
    requires
        path_so_far is Some,
    ensures
        all_have_paths(chain_spec(path, from, root, value, path_so_far)),
    decreases path, 2 * (chain_len(path) - from) + 1, Json::Null, 0nat, 0nat,
{
    match path {
        JsonPath::Chain(steps) => {
            if from >= steps@.len() {
                assert(chain_spec(path, from, root, value, path_so_far) == seq![
                    found(path_so_far, value),
                ]);
            } else {
                let firsts = select_spec(steps@[from as int], root, value, path_so_far);
                lemma_matches_have_paths(steps@[from as int], root, value, path_so_far);
                lemma_chain_rest_has_paths(path, from, root, firsts, firsts.len());
                assert(chain_spec(path, from, root, value, path_so_far) == chain_rest(
                    path,
                    from,
                    root,
                    firsts,
                    firsts.len(),
                ));
            }
        },
        _ => {
            assert(chain_spec(path, from, root, value, path_so_far) == Seq::<Match>::empty());
        },
    }
}

proof fn lemma_chain_rest_has_paths(
    path: JsonPath,
    from: nat,
    root: Json,
    firsts: Seq<Match>,
    n: nat,
)
    requires
        all_have_paths(firsts),
    ensures
        all_have_paths(chain_rest(path, from, root, firsts, n)),
    decreases path, 2 * (chain_len(path) - from), Json::Null, 0nat, n,
{
    if n == 0 || n > firsts.len() || from >= chain_len(path) {
        assert(chain_rest(path, from, root, firsts, n) == Seq::<Match>::empty());
    } else {
        let first = firsts[n - 1];
        let below = chain_spec(path, from + 1, root, first.value, first.path);
        lemma_chain_rest_has_paths(path, from, root, firsts, (n - 1) as nat);
        lemma_chain_has_paths(path, from + 1, root, first.value, first.path);
        assert(chain_rest(path, from, root, firsts, n) == chain_rest(
            path,
            from,
            root,
            firsts,
            (n - 1) as nat,
        ) + carried(first, below));
        lemma_paths_concat(chain_rest(path, from, root, firsts, (n - 1) as nat), carried(first, below));
    }
}

/// The matches without their paths.
pub open spec fn unpathed(matches: Seq<Match>) -> Seq<Match> {
    Seq::new(
        matches.len(),
        |i: int| Match { path: None, value: matches[i].value, fresh: matches[i].fresh },
    )
}

proof fn lemma_unpathed_concat(a: Seq<Match>, b: Seq<Match>)
    ensures
        unpathed(a + b) == unpathed(a) + unpathed(b),
{
    assert(unpathed(a + b) =~= unpathed(a) + unpathed(b));
}

proof fn lemma_unpathed_union_elements(
    items: Seq<Json>,
    numbers: Seq<Number>,
    p: Option<Seq<char>>,
    q: Option<Seq<char>>,
    n: nat,
)
    ensures
        unpathed(union_elements(items, numbers, p, n)) == unpathed(
            union_elements(items, numbers, q, n),
        ),
    decreases n,
{
    if n > 0 {
        lemma_unpathed_union_elements(items, numbers, p, q, (n - 1) as nat);
        lemma_unpathed_concat(
            union_elements(items, numbers, p, (n - 1) as nat),
            index_match(items, numbers[n - 1], p),
        );
        lemma_unpathed_concat(
            union_elements(items, numbers, q, (n - 1) as nat),
            index_match(items, numbers[n - 1], q),
        );
        assert(unpathed(index_match(items, numbers[n - 1], p)) =~= unpathed(
            index_match(items, numbers[n - 1], q),
        ));
    } else {
        assert(unpathed(union_elements(items, numbers, p, n)) =~= unpathed(
            union_elements(items, numbers, q, n),
        ));
    }
}

proof fn lemma_unpathed_union_fields(
    entries: Seq<(Seq<char>, Json)>,
    keys: Seq<String>,
    p: Option<Seq<char>>,
    q: Option<Seq<char>>,
    n: nat,
)
    ensures
        unpathed(union_fields(entries, keys, p, n)) == unpathed(union_fields(entries, keys, q, n)),
    decreases n,
{
    if n > 0 {
        lemma_unpathed_union_fields(entries, keys, p, q, (n - 1) as nat);
        lemma_unpathed_concat(
            union_fields(entries, keys, p, (n - 1) as nat),
            key_match(entries, keys[n - 1]@, p),
        );
        lemma_unpathed_concat(
            union_fields(entries, keys, q, (n - 1) as nat),
            key_match(entries, keys[n - 1]@, q),
        );
        assert(unpathed(key_match(entries, keys[n - 1]@, p)) =~= unpathed(
            key_match(entries, keys[n - 1]@, q),
        ));
    } else {
        assert(unpathed(union_fields(entries, keys, p, n)) =~= unpathed(
            union_fields(entries, keys, q, n),
        ));
    }
}

proof fn lemma_unpathed_filter_elements(
    filter: FilterExpression,
    root: Json,
    value: Json,
    p: Option<Seq<char>>,
    q: Option<Seq<char>>,
    n: nat,
)
    ensures
        unpathed(filter_elements(filter, root, value, p, n)) == unpathed(
            filter_elements(filter, root, value, q, n),
        ),
    decreases n,
{
    match value {
        Json::Array(items) => {
            if n == 0 || n > items.len() {
                assert(filter_elements(filter, root, value, p, n) == Seq::<Match>::empty());
                assert(filter_elements(filter, root, value, q, n) == Seq::<Match>::empty());
            } else {
                lemma_unpathed_filter_elements(filter, root, value, p, q, (n - 1) as nat);
                let holds = filter_spec(filter, root, items[n - 1]);
                let last_p = if holds {
                    seq![found(index_path_spec(p, (n - 1) as nat), items[n - 1])]
                } else {
                    Seq::<Match>::empty()
                };
                let last_q = if holds {
                    seq![found(index_path_spec(q, (n - 1) as nat), items[n - 1])]
                } else {
                    Seq::<Match>::empty()
                };
                assert(filter_elements(filter, root, value, p, n) == filter_elements(
                    filter,
                    root,
                    value,
                    p,
                    (n - 1) as nat,
                ) + last_p);
                assert(filter_elements(filter, root, value, q, n) == filter_elements(
                    filter,
                    root,
                    value,
                    q,
                    (n - 1) as nat,
                ) + last_q);
                lemma_unpathed_concat(
                    filter_elements(filter, root, value, p, (n - 1) as nat),
                    last_p,
                );
                lemma_unpathed_concat(
                    filter_elements(filter, root, value, q, (n - 1) as nat),
                    last_q,
                );
                assert(unpathed(last_p) =~= unpathed(last_q));
            }
        },
        _ => {
            assert(filter_elements(filter, root, value, p, n) == Seq::<Match>::empty());
            assert(filter_elements(filter, root, value, q, n) == Seq::<Match>::empty());
        },
    }
}

proof fn lemma_unpathed_index(
    index: JsonPathIndex,
    root: Json,
    value: Json,
    p: Option<Seq<char>>,
    q: Option<Seq<char>>,
)
    ensures
        unpathed(index_spec(index, root, value, p)) == unpathed(index_spec(index, root, value, q)),
{
    match index {
        JsonPathIndex::UnionIndex(numbers) => match value {
            Json::Array(items) => {
                lemma_unpathed_union_elements(items, numbers@, p, q, numbers@.len());
            },
            _ => {},
        },
        JsonPathIndex::UnionKeys(keys) => match value {
            Json::Object(entries) => {
                lemma_unpathed_union_fields(entries, keys@, p, q, keys@.len());
            },
            _ => {},
        },
        JsonPathIndex::Filter(filter) => match value {
            Json::Array(items) => {
                lemma_unpathed_filter_elements(filter, root, value, p, q, items.len());
            },
            _ => {},
        },
        _ => {},
    }
    assert(unpathed(index_spec(index, root, value, p)) =~= unpathed(
        index_spec(index, root, value, q),
    ));
}

/// Which values a selection finds, and in which order, does not depend on
/// the path that the selection starts with, nor on whether paths are kept
/// at all.
pub proof fn lemma_values_ignore_paths(
    path: JsonPath,
    root: Json,
    value: Json,
    p: Option<Seq<char>>,
    q: Option<Seq<char>>,
)
    ensures
        unpathed(select_spec(path, root, value, p)) == unpathed(select_spec(path, root, value, q)),
        values_of(select_spec(path, root, value, p)) == values_of(
            select_spec(path, root, value, q),
        ),
    decreases path, 2 * chain_len(path) + 2, value, 1nat, 0nat,
{
    let with_p = select_spec(path, root, value, p);
    let with_q = select_spec(path, root, value, q);
    let n = child_count(value);
    match path {
        JsonPath::Chain(steps) => {
            lemma_chain_ignores_paths(path, 0, root, value, p, q);
        },
        JsonPath::Descent(name) => {
            lemma_descent_ignores_paths(path, root, value, p, q, n);
            let head_p = match value {
                Json::Object(entries) => key_match(entries, name@, p),
                _ => Seq::empty(),
            };
            let head_q = match value {
                Json::Object(entries) => key_match(entries, name@, q),
                _ => Seq::empty(),
            };
            lemma_unpathed_concat(head_p, descend(path, root, value, p, n));
            lemma_unpathed_concat(head_q, descend(path, root, value, q, n));
            assert(unpathed(head_p) =~= unpathed(head_q));
        },
        JsonPath::DescentW => {
            lemma_descent_ignores_paths(path, root, value, p, q, n);
            lemma_unpathed_concat(children(value, p, n), descend(path, root, value, p, n));
            lemma_unpathed_concat(children(value, q, n), descend(path, root, value, q, n));
            assert(unpathed(children(value, p, n)) =~= unpathed(children(value, q, n)));
        },
        JsonPath::Index(index) => {
            lemma_unpathed_index(index, root, value, p, q);
        },
        JsonPath::Current(inner) => match *inner {
            JsonPath::Empty => {
                assert(unpathed(with_p) =~= unpathed(with_q));
            },
            _ => {
                lemma_values_ignore_paths(*inner, root, value, p, q);
            },
        },
        _ => {
            assert(unpathed(with_p) =~= unpathed(with_q));
        },
    }
    assert(values_of(with_p) =~= values_of(unpathed(with_p)));
    assert(values_of(with_q) =~= values_of(unpathed(with_q)));
}

proof fn lemma_descent_ignores_paths(
    path: JsonPath,
    root: Json,
    value: Json,
    p: Option<Seq<char>>,
    q: Option<Seq<char>>,
    n: nat,
)
    ensures
        unpathed(descend(path, root, value, p, n)) == unpathed(descend(path, root, value, q, n)),
    decreases path, 2 * chain_len(path) + 2, value, 0nat, n,
{
    match value {
        Json::Array(items) => {
            if n == 0 || n > items.len() {
                assert(descend(path, root, value, p, n) == Seq::<Match>::empty());
                assert(descend(path, root, value, q, n) == Seq::<Match>::empty());
            } else {
                let at_p = index_path_spec(p, (n - 1) as nat);
                let at_q = index_path_spec(q, (n - 1) as nat);
                lemma_descent_ignores_paths(path, root, value, p, q, (n - 1) as nat);
                lemma_values_ignore_paths(path, root, items[n - 1], at_p, at_q);
                assert(descend(path, root, value, p, n) == descend(
                    path,
                    root,
                    value,
                    p,
                    (n - 1) as nat,
                ) + select_spec(path, root, items[n - 1], at_p));
                assert(descend(path, root, value, q, n) == descend(
                    path,
                    root,
                    value,
                    q,
                    (n - 1) as nat,
                ) + select_spec(path, root, items[n - 1], at_q));
                lemma_unpathed_concat(
                    descend(path, root, value, p, (n - 1) as nat),
                    select_spec(path, root, items[n - 1], at_p),
                );
                lemma_unpathed_concat(
                    descend(path, root, value, q, (n - 1) as nat),
                    select_spec(path, root, items[n - 1], at_q),
                );
            }
        },
        Json::Object(entries) => {
            if n == 0 || n > entries.len() {
                assert(descend(path, root, value, p, n) == Seq::<Match>::empty());
                assert(descend(path, root, value, q, n) == Seq::<Match>::empty());
            } else {
                let at_p = key_path_spec(p, entries[n - 1].0);
                let at_q = key_path_spec(q, entries[n - 1].0);
                lemma_descent_ignores_paths(path, root, value, p, q, (n - 1) as nat);
                lemma_values_ignore_paths(path, root, entries[n - 1].1, at_p, at_q);
                assert(descend(path, root, value, p, n) == descend(
                    path,
                    root,
                    value,
                    p,
                    (n - 1) as nat,
                ) + select_spec(path, root, entries[n - 1].1, at_p));
                assert(descend(path, root, value, q, n) == descend(
                    path,
                    root,
                    value,
                    q,
                    (n - 1) as nat,
                ) + select_spec(path, root, entries[n - 1].1, at_q));
                lemma_unpathed_concat(
                    descend(path, root, value, p, (n - 1) as nat),
                    select_spec(path, root, entries[n - 1].1, at_p),
                );
                lemma_unpathed_concat(
                    descend(path, root, value, q, (n - 1) as nat),
                    select_spec(path, root, entries[n - 1].1, at_q),
                );
            }
        },
        _ => {
            assert(descend(path, root, value, p, n) == Seq::<Match>::empty());
            assert(descend(path, root, value, q, n) == Seq::<Match>::empty());
        },
    }
}

proof fn lemma_chain_ignores_paths(
    path: JsonPath,
    from: nat,
    root: Json,
    value: Json,
    p: Option<Seq<char>>,
    q: Option<Seq<char>>,
)
    ensures
        unpathed(chain_spec(path, from, root, value, p)) == unpathed(
            chain_spec(path, from, root, value, q),
        ),
    decreases path, 2 * (chain_len(path) - from) + 1, Json::Null, 0nat, 0nat,
{
    match path {
        JsonPath::Chain(steps) => {
            if from >= steps@.len() {
                assert(chain_spec(path, from, root, value, p) == seq![found(p, value)]);
                assert(chain_spec(path, from, root, value, q) == seq![found(q, value)]);
                assert(unpathed(seq![found(p, value)]) =~= unpathed(seq![found(q, value)]));
            } else {
                let firsts_p = select_spec(steps@[from as int], root, value, p);
                let firsts_q = select_spec(steps@[from as int], root, value, q);
                lemma_values_ignore_paths(steps@[from as int], root, value, p, q);
                assert(firsts_p.len() == unpathed(firsts_p).len());
                assert(firsts_q.len() == unpathed(firsts_q).len());
                lemma_chain_rest_ignores_paths(path, from, root, firsts_p, firsts_q, firsts_p.len());
                assert(chain_spec(path, from, root, value, p) == chain_rest(
                    path,
                    from,
                    root,
                    firsts_p,
                    firsts_p.len(),
                ));
                assert(chain_spec(path, from, root, value, q) == chain_rest(
                    path,
                    from,
                    root,
                    firsts_q,
                    firsts_q.len(),
                ));
            }
        },
        _ => {
            assert(chain_spec(path, from, root, value, p) == Seq::<Match>::empty());
            assert(chain_spec(path, from, root, value, q) == Seq::<Match>::empty());
        },
    }
}

proof fn lemma_chain_rest_ignores_paths(
    path: JsonPath,
    from: nat,
    root: Json,
    firsts_p: Seq<Match>,
    firsts_q: Seq<Match>,
    n: nat,
)
    requires
        unpathed(firsts_p) == unpathed(firsts_q),
    ensures
        unpathed(chain_rest(path, from, root, firsts_p, n)) == unpathed(
            chain_rest(path, from, root, firsts_q, n),
        ),
    decreases path, 2 * (chain_len(path) - from), Json::Null, 0nat, n,
{
    assert(firsts_p.len() == unpathed(firsts_p).len());
    assert(firsts_q.len() == unpathed(firsts_q).len());
    if n == 0 || n > firsts_p.len() || from >= chain_len(path) {
        assert(chain_rest(path, from, root, firsts_p, n) == Seq::<Match>::empty());
        assert(chain_rest(path, from, root, firsts_q, n) == Seq::<Match>::empty());
    } else {
        let first_p = firsts_p[n - 1];
        let first_q = firsts_q[n - 1];
        assert(firsts_p.len() == firsts_q.len());
        assert(unpathed(firsts_p)[n - 1].value == first_p.value);
        assert(unpathed(firsts_q)[n - 1].value == first_q.value);
        assert(unpathed(firsts_p)[n - 1].fresh == first_p.fresh);
        assert(unpathed(firsts_q)[n - 1].fresh == first_q.fresh);
        assert(first_p.value == first_q.value && first_p.fresh == first_q.fresh);
        let below_p = chain_spec(path, from + 1, root, first_p.value, first_p.path);
        let below_q = chain_spec(path, from + 1, root, first_q.value, first_q.path);
        lemma_chain_rest_ignores_paths(path, from, root, firsts_p, firsts_q, (n - 1) as nat);
        lemma_chain_ignores_paths(path, from + 1, root, first_p.value, first_p.path, first_q.path);
        assert(chain_rest(path, from, root, firsts_p, n) == chain_rest(
            path,
            from,
            root,
            firsts_p,
            (n - 1) as nat,
        ) + carried(first_p, below_p));
        assert(chain_rest(path, from, root, firsts_q, n) == chain_rest(
            path,
            from,
            root,
            firsts_q,
            (n - 1) as nat,
        ) + carried(first_q, below_q));
        lemma_unpathed_concat(
            chain_rest(path, from, root, firsts_p, (n - 1) as nat),
            carried(first_p, below_p),
        );
        lemma_unpathed_concat(
            chain_rest(path, from, root, firsts_q, (n - 1) as nat),
            carried(first_q, below_q),
        );
        assert(unpathed(below_p).len() == below_p.len());
        assert(unpathed(below_q).len() == below_q.len());
        assert(unpathed(carried(first_p, below_p)) =~= unpathed(carried(first_q, below_q))) by {
            assert forall|i: int| 0 <= i < below_p.len() implies below_p[i].value
                == below_q[i].value && below_p[i].fresh == below_q[i].fresh by {
                assert(unpathed(below_p)[i] == unpathed(below_q)[i]);
            }
        }
    }
}

} // verus!
