//! The evaluator: what a path expression selects from a JSON value.

use crate::filter::compare;
pub use crate::filter::{any_of, equal, inside, less, less_or_equal, regex, size, sub_set_of};
use crate::laws::{all_have_paths, lemma_matches_have_paths, lemma_values_ignore_paths};
use crate::model::{FilterExpression, Function, JsonPath, JsonPathIndex, Operand};
use crate::number::Number;
use crate::selected::{values, Selected};
use crate::semantics::{
    all_fresh, carried, chain_len, chain_rest, chain_spec, child_count, children, collapsed, decimal,
    digit_char, elements_at, filter_elements, filter_spec, found, index_match, index_path_spec,
    index_spec, key_match, key_path_spec, operand_spec, root_path_spec, select_spec,
    slice_indices, union_elements, union_fields, values_of, Match,
};
use crate::slice::{indices_of, slice_positions};
use crate::value::{views, Json, Value};
use std::sync::Arc;
use vstd::prelude::*;
use vstd::string::StringExecFns;

verus! {

/// The text of a path, when there is one.
pub open spec fn text_of(path: Option<String>) -> Option<Seq<char>> {
    match path {
        Some(s) => Some(s@),
        None => None,
    }
}

/// The match that a pair of a path and a selected value stands for.
pub open spec fn match_of<'a>(item: (Option<String>, Selected<'a>)) -> Match {
    Match { path: text_of(item.0), value: item.1@, fresh: item.1 is Owned }
}

/// The matches that the pairs stand for, in order.
pub open spec fn matches_of<'a>(items: Seq<(Option<String>, Selected<'a>)>) -> Seq<Match> {
    Seq::new(items.len(), |i: int| match_of(items[i]))
}

/// The matches of a sequence of pairs that has grown by one pair.
proof fn lemma_matches_push<'a>(
    items: Seq<(Option<String>, Selected<'a>)>,
    item: (Option<String>, Selected<'a>),
)
    ensures
        matches_of(items.push(item)) == matches_of(items).push(match_of(item)),
{
    assert(matches_of(items.push(item)) =~= matches_of(items).push(match_of(item)));
}

/// The numeral of one decimal digit.
fn digit_str(d: usize) -> (s: &'static str)
    requires
        d < 10,
    ensures
        s@ == seq![digit_char(d as nat)],
{
    proof {
        reveal_strlit("0");
        reveal_strlit("1");
        reveal_strlit("2");
        reveal_strlit("3");
        reveal_strlit("4");
        reveal_strlit("5");
        reveal_strlit("6");
        reveal_strlit("7");
        reveal_strlit("8");
        reveal_strlit("9");
    }
    let s = if d == 0 {
        "0"
    } else if d == 1 {
        "1"
    } else if d == 2 {
        "2"
    } else if d == 3 {
        "3"
    } else if d == 4 {
        "4"
    } else if d == 5 {
        "5"
    } else if d == 6 {
        "6"
    } else if d == 7 {
        "7"
    } else if d == 8 {
        "8"
    } else {
        "9"
    };
    assert(s@ =~= seq![digit_char(d as nat)]);
    s
}

/// The text followed by the decimal numeral of `n`.
fn push_decimal(text: String, n: usize) -> (r: String)
    ensures
        r@ == text@ + decimal(n as nat),
    decreases n,
{
    if n < 10 {
        text.concat(digit_str(n))
    } else {
        let head = push_decimal(text, n / 10);
        let r = head.concat(digit_str(n % 10));
        assert(r@ =~= text@ + decimal(n as nat));
        r
    }
}

/// The path of the root, `$`, when paths are kept.
pub fn root_path(path: &Option<String>) -> (r: Option<String>)
    ensures
        text_of(r) == root_path_spec(text_of(*path)),
{
    match path {
        Some(_) => {
            proof {
                reveal_strlit("$");
            }
            let r = String::from_str("$");
            assert(r@ =~= seq!['$']);
            Some(r)
        },
        None => None,
    }
}

/// The path extended by an index step, `[n]`, when paths are kept.
pub fn index_path(path: &Option<String>, index: usize) -> (r: Option<String>)
    ensures
        text_of(r) == index_path_spec(text_of(*path), index as nat),
{
    match path {
        Some(s) => {
            proof {
                reveal_strlit("[");
                reveal_strlit("]");
            }
            let open = s.clone().concat("[");
            let r = push_decimal(open, index).concat("]");
            assert(r@ =~= s@ + seq!['['] + decimal(index as nat) + seq![']']);
            Some(r)
        },
        None => None,
    }
}

/// The path extended by a key step, `.['key']`, when paths are kept.
pub fn key_path(path: &Option<String>, key: &str) -> (r: Option<String>)
    ensures
        text_of(r) == key_path_spec(text_of(*path), key@),
{
    match path {
        Some(s) => {
            proof {
                reveal_strlit(".['");
                reveal_strlit("']");
            }
            let r = s.clone().concat(".['").concat(key).concat("']");
            assert(r@ =~= s@ + seq!['.', '[', '\''] + key@ + seq!['\'', ']']);
            Some(r)
        },
        None => None,
    }
}

/// Appends the value under `key`, if `value` is an object that has the key.
fn push_field<'value>(
    value: &'value Value,
    key: &str,
    path: &Option<String>,
    out: &mut Vec<(Option<String>, Selected<'value>)>,
)
    ensures
        matches_of(final(out)@) == matches_of(old(out)@) + (match value@ {
            Json::Object(entries) => key_match(entries, key@, text_of(*path)),
            _ => Seq::<Match>::empty(),
        }),
{
    let ghost before = matches_of(out@);
    match value {
        Value::Object(entries) => match entries.get(key) {
            Some(v) => {
                out.push((key_path(path, key), Selected::Borrowed(v)));
                assert(matches_of(out@) =~= before + key_match(entries@, key@, text_of(*path)));
            },
            None => {
                assert(matches_of(out@) =~= before + Seq::<Match>::empty());
            },
        },
        _ => {
            assert(matches_of(out@) =~= before + Seq::<Match>::empty());
        },
    }
}

/// Appends the children of `value`, in order, each with its path.
fn push_children<'value>(
    value: &'value Value,
    path: &Option<String>,
    out: &mut Vec<(Option<String>, Selected<'value>)>,
)
    ensures
        matches_of(final(out)@) == matches_of(old(out)@) + children(
            value@,
            text_of(*path),
            child_count(value@),
        ),
{
    let ghost before = matches_of(out@);
    match value {
        Value::Array(items) => {
            proof {
                Value::lemma_array_view(*items);
            }
            let mut i: usize = 0;
            while i < items.len()
                invariant
                    i <= items@.len(),
                    value@ == Json::Array(views(items@)),
                    matches_of(out@) == before + children(value@, text_of(*path), i as nat),
                decreases items@.len() - i,
            {
                let ghost so_far = out@;
                let item = (index_path(path, i), Selected::Borrowed(&items[i]));
                proof {
                    lemma_matches_push(so_far, item);
                    assert(match_of(item) == found(
                        index_path_spec(text_of(*path), i as nat),
                        views(items@)[i as int],
                    ));
                    assert(children(value@, text_of(*path), (i + 1) as nat) =~= children(
                        value@,
                        text_of(*path),
                        i as nat,
                    ).push(match_of(item)));
                }
                out.push(item);
                i = i + 1;
                assert(matches_of(out@) =~= before + children(value@, text_of(*path), i as nat));
            }
        },
        Value::Object(entries) => {
            let n = entries.len();
            let mut i: usize = 0;
            while i < n
                invariant
                    i <= n == entries@.len(),
                    value@ == Json::Object(entries@),
                    matches_of(out@) == before + children(value@, text_of(*path), i as nat),
                decreases n - i,
            {
                let ghost so_far = out@;
                let item = (
                    key_path(path, entries.key_at(i).as_str()),
                    Selected::Borrowed(entries.value_at(i)),
                );
                proof {
                    lemma_matches_push(so_far, item);
                    assert(match_of(item) == found(
                        key_path_spec(text_of(*path), entries@[i as int].0),
                        entries@[i as int].1,
                    ));
                    assert(children(value@, text_of(*path), (i + 1) as nat) =~= children(
                        value@,
                        text_of(*path),
                        i as nat,
                    ).push(match_of(item)));
                }
                out.push(item);
                i = i + 1;
                assert(matches_of(out@) =~= before + children(value@, text_of(*path), i as nat));
            }
        },
        _ => {
            assert(matches_of(out@) =~= before + Seq::<Match>::empty());
        },
    }
}

/// Appends `more`, each of its values made a value of its own.
fn push_owned<'a, 'b>(
    more: Vec<(Option<String>, Selected<'a>)>,
    out: &mut Vec<(Option<String>, Selected<'b>)>,
)
    ensures
        matches_of(final(out)@) == matches_of(old(out)@) + all_fresh(matches_of(more@)),
{
    let ghost before = matches_of(out@);
    let ghost all = matches_of(more@);
    assert(matches_of(out@) =~= before + all_fresh(all).subrange(0, 0));
    for item in it: more
        invariant
            all == matches_of(it.seq()),
            matches_of(out@) == before + all_fresh(all).subrange(0, it.index() as int),
    {
        assert(match_of(item) == all[it.index() as int]);
        let ghost so_far = out@;
        let made = (item.0, Selected::Owned(item.1.into_owned()));
        proof {
            lemma_matches_push(so_far, made);
            assert(match_of(made) == all_fresh(all)[it.index() as int]);
            assert(all_fresh(all).subrange(0, it.index() + 1) =~= all_fresh(all).subrange(
                0,
                it.index() as int,
            ).push(match_of(made)));
        }
        out.push(made);
        assert(matches_of(out@) =~= before + all_fresh(all).subrange(0, it.index() + 1));
    }
    assert(all_fresh(all).subrange(0, all.len() as int) =~= all_fresh(all));
}

/// What the path selects from `value`, a part of the document `root`, in the
/// order in which the matches are produced. Each match comes with its
/// canonical path when `selected_path` holds the path of `value`, and without
/// one when it holds none.
pub fn select<'value, 'path: 'value>(
    path: &'path JsonPath,
    root: &'path Value,
    value: &'value Value,
    selected_path: Option<String>,
) -> (out: Vec<(Option<String>, Selected<'value>)>)
    ensures
        matches_of(out@) == select_spec(*path, root@, value@, text_of(selected_path)),
    decreases *path, 2 * chain_len(*path) + 2, value@, 1nat, 0nat,
{
    let mut out: Vec<(Option<String>, Selected<'value>)> = Vec::new();
    assert(matches_of(out@) =~= Seq::<Match>::empty());
    match path {
        JsonPath::Root => {
            out.push((root_path(&selected_path), Selected::Borrowed(root)));
            assert(matches_of(out@) =~= seq![found(root_path_spec(text_of(selected_path)), root@)]);
        },
        JsonPath::Empty => {
            out.push((selected_path, Selected::Borrowed(value)));
            assert(matches_of(out@) =~= seq![found(text_of(selected_path), value@)]);
        },
        JsonPath::Field(name) => {
            push_field(value, name.as_str(), &selected_path, &mut out);
            assert(matches_of(out@) =~= select_spec(*path, root@, value@, text_of(selected_path)));
        },
        JsonPath::Chain(_) => {
            return select_chain(path, 0, root, value, selected_path);
        },
        JsonPath::Wildcard => {
            push_children(value, &selected_path, &mut out);
            assert(matches_of(out@) =~= select_spec(*path, root@, value@, text_of(selected_path)));
        },
        JsonPath::Descent(name) => {
            push_field(value, name.as_str(), &selected_path, &mut out);
            descend(path, root, value, &selected_path, &mut out);
            assert(matches_of(out@) =~= select_spec(*path, root@, value@, text_of(selected_path)));
        },
        JsonPath::DescentW => {
            push_children(value, &selected_path, &mut out);
            descend(path, root, value, &selected_path, &mut out);
            assert(matches_of(out@) =~= select_spec(*path, root@, value@, text_of(selected_path)));
        },
        JsonPath::Index(index) => {
            return select_index(index, root, value, selected_path);
        },
        JsonPath::Current(inner) => match &**inner {
            JsonPath::Empty => {
                out.push((root_path(&selected_path), Selected::Borrowed(value)));
                assert(matches_of(out@) =~= seq![
                    found(root_path_spec(text_of(selected_path)), value@),
                ]);
            },
            _ => {
                return select(&**inner, root, value, selected_path);
            },
        },
        JsonPath::Fn(Function::Length) => match value {
            Value::Array(items) => {
                proof {
                    Value::lemma_array_view(*items);
                }
                let length = Value::Number(Number::from_u64(items.len() as u64));
                out.push((selected_path, Selected::Owned(length)));
                assert(matches_of(out@) =~= select_spec(
                    *path,
                    root@,
                    value@,
                    text_of(selected_path),
                ));
            },
            _ => {},
        },
    }
    out
}

/// Appends what the descent `path` selects below the children of `value`: for
/// each child in turn, all that the path selects from it.
fn descend<'value, 'path: 'value>(
    path: &'path JsonPath,
    root: &'path Value,
    value: &'value Value,
    selected_path: &Option<String>,
    out: &mut Vec<(Option<String>, Selected<'value>)>,
)
    ensures
        matches_of(final(out)@) == matches_of(old(out)@) + crate::semantics::descend(
            *path,
            root@,
            value@,
            text_of(*selected_path),
            child_count(value@),
        ),
    decreases *path, 2 * chain_len(*path) + 2, value@, 0nat, 0nat,
{
    let ghost before = matches_of(out@);
    let ghost here = text_of(*selected_path);
    match value {
        Value::Array(items) => {
            proof {
                Value::lemma_array_view(*items);
            }
            let mut i: usize = 0;
            assert(matches_of(out@) =~= before + crate::semantics::descend(
                *path,
                root@,
                value@,
                here,
                0,
            ));
            while i < items.len()
                invariant
                    i <= items@.len(),
                    here == text_of(*selected_path),
                    value@ == Json::Array(views(items@)),
                    matches_of(out@) == before + crate::semantics::descend(
                        *path,
                        root@,
                        value@,
                        here,
                        i as nat,
                    ),
                decreases items@.len() - i,
            {
                assert(decreases_to!(value@ => value@->Array_0[i as int]));
                let ghost so_far = matches_of(out@);
                let mut below = select(path, root, &items[i], index_path(selected_path, i));
                let ghost added = matches_of(below@);
                out.append(&mut below);
                i = i + 1;
                proof {
                    assert(matches_of(out@) =~= so_far + added);
                    assert(crate::semantics::descend(*path, root@, value@, here, i as nat)
                        == crate::semantics::descend(*path, root@, value@, here, (i - 1) as nat)
                        + added);
                    assert(so_far + added =~= before + crate::semantics::descend(
                        *path,
                        root@,
                        value@,
                        here,
                        i as nat,
                    ));
                }
            }
        },
        Value::Object(entries) => {
            let n = entries.len();
            let mut i: usize = 0;
            assert(matches_of(out@) =~= before + crate::semantics::descend(
                *path,
                root@,
                value@,
                here,
                0,
            ));
            while i < n
                invariant
                    i <= n == entries@.len(),
                    here == text_of(*selected_path),
                    value@ == Json::Object(entries@),
                    matches_of(out@) == before + crate::semantics::descend(
                        *path,
                        root@,
                        value@,
                        here,
                        i as nat,
                    ),
                decreases n - i,
            {
                assert(decreases_to!(value@ => value@->Object_0[i as int].1));
                let ghost so_far = matches_of(out@);
                let mut below = select(
                    path,
                    root,
                    entries.value_at(i),
                    key_path(selected_path, entries.key_at(i).as_str()),
                );
                let ghost added = matches_of(below@);
                out.append(&mut below);
                i = i + 1;
                proof {
                    assert(matches_of(out@) =~= so_far + added);
                    assert(crate::semantics::descend(*path, root@, value@, here, i as nat)
                        == crate::semantics::descend(*path, root@, value@, here, (i - 1) as nat)
                        + added);
                    assert(so_far + added =~= before + crate::semantics::descend(
                        *path,
                        root@,
                        value@,
                        here,
                        i as nat,
                    ));
                }
            }
        },
        _ => {
            assert(matches_of(out@) =~= before + Seq::<Match>::empty());
        },
    }
}

/// What the steps of the chain `path` from the one at `from` on select from
/// `value`. Below a computed value every match is a value of its own, since
/// nothing in the document backs it.
pub fn select_chain<'value, 'path: 'value>(
    path: &'path JsonPath,
    from: usize,
    root: &'path Value,
    value: &'value Value,
    selected_path: Option<String>,
) -> (out: Vec<(Option<String>, Selected<'value>)>)
    requires
        from <= chain_len(*path),
    ensures
        matches_of(out@) == chain_spec(*path, from as nat, root@, value@, text_of(selected_path)),
    decreases *path, 2 * (chain_len(*path) - from) + 1, Json::Null, 0nat, 0nat,
{
    let mut out: Vec<(Option<String>, Selected<'value>)> = Vec::new();
    assert(matches_of(out@) =~= Seq::<Match>::empty());
    match path {
        JsonPath::Chain(steps) => {
            if from >= steps.len() {
                out.push((selected_path, Selected::Borrowed(value)));
                assert(matches_of(out@) =~= seq![found(text_of(selected_path), value@)]);
                return out;
            }
            let firsts = select(&steps[from], root, value, selected_path);
            let ghost all = matches_of(firsts@);
            assert(matches_of(out@) =~= chain_rest(*path, from as nat, root@, all, 0));
            for item in it: firsts
                invariant
                    all == matches_of(it.seq()),
                    from < chain_len(*path),
                    from < usize::MAX,
                    matches_of(out@) == chain_rest(
                        *path,
                        from as nat,
                        root@,
                        all,
                        it.index() as nat,
                    ),
            {
                let ghost so_far = matches_of(out@);
                let ghost first = all[it.index() as int];
                assert(match_of(item) == first);
                let ghost below = chain_spec(
                    *path,
                    (from + 1) as nat,
                    root@,
                    first.value,
                    first.path,
                );
                match item.1 {
                    Selected::Borrowed(part) => {
                        let mut more = select_chain(path, from + 1, root, part, item.0);
                        out.append(&mut more);
                        assert(matches_of(out@) =~= so_far + below);
                    },
                    Selected::Owned(made) => {
                        let more = select_chain(path, from + 1, root, &made, item.0);
                        push_owned(more, &mut out);
                        assert(matches_of(out@) =~= so_far + all_fresh(below));
                    },
                }
                assert(chain_rest(*path, from as nat, root@, all, (it.index() + 1) as nat)
                    == chain_rest(*path, from as nat, root@, all, it.index() as nat) + carried(
                    first,
                    below,
                ));
            }
            out
        },
        _ => out,
    }
}

/// What an index step selects from `value`.
pub fn select_index<'value, 'path: 'value>(
    index: &'path JsonPathIndex,
    root: &'path Value,
    value: &'value Value,
    selected_path: Option<String>,
) -> (out: Vec<(Option<String>, Selected<'value>)>)
    ensures
        matches_of(out@) == index_spec(*index, root@, value@, text_of(selected_path)),
    decreases *index, 0nat, value@, 1nat, 0nat,
{
    let mut out: Vec<(Option<String>, Selected<'value>)> = Vec::new();
    let ghost here = text_of(selected_path);
    assert(matches_of(out@) =~= Seq::<Match>::empty());
    match index {
        JsonPathIndex::Single(number) => match value {
            Value::Array(items) => {
                proof {
                    Value::lemma_array_view(*items);
                }
                push_element(items, number, &selected_path, &mut out);
                assert(matches_of(out@) =~= index_match(views(items@), *number, here));
            },
            _ => {},
        },
        JsonPathIndex::UnionIndex(numbers) => match value {
            Value::Array(items) => {
                proof {
                    Value::lemma_array_view(*items);
                }
                let mut k: usize = 0;
                assert(matches_of(out@) =~= union_elements(views(items@), numbers@, here, 0));
                while k < numbers.len()
                    invariant
                        k <= numbers@.len(),
                        here == text_of(selected_path),
                        matches_of(out@) == union_elements(
                            views(items@),
                            numbers@,
                            here,
                            k as nat,
                        ),
                    decreases numbers@.len() - k,
                {
                    push_element(items, &numbers[k], &selected_path, &mut out);
                    k = k + 1;
                }
            },
            _ => {},
        },
        JsonPathIndex::UnionKeys(keys) => match value {
            Value::Object(entries) => {
                let mut k: usize = 0;
                assert(matches_of(out@) =~= union_fields(entries@, keys@, here, 0));
                while k < keys.len()
                    invariant
                        k <= keys@.len(),
                        here == text_of(selected_path),
                        value@ == Json::Object(entries@),
                        matches_of(out@) == union_fields(entries@, keys@, here, k as nat),
                    decreases keys@.len() - k,
                {
                    push_field(value, keys[k].as_str(), &selected_path, &mut out);
                    k = k + 1;
                }
            },
            _ => {},
        },
        JsonPathIndex::Slice(start, end, step) => match value {
            Value::Array(items) => {
                proof {
                    Value::lemma_array_view(*items);
                }
                let positions = slice_positions(*start, *end, *step, items.len());
                let ghost indices = slice_indices(
                    *start as int,
                    *end as int,
                    *step as nat,
                    items@.len(),
                );
                assert(indices.len() == positions@.len());
                let mut k: usize = 0;
                assert(matches_of(out@) =~= elements_at(views(items@), indices, here, 0));
                while k < positions.len()
                    invariant
                        k <= positions@.len() == indices.len(),
                        here == text_of(selected_path),
                        indices_of(positions@) == indices,
                        forall|j: int|
                            0 <= j < positions@.len() ==> #[trigger] positions@[j] < items@.len(),
                        matches_of(out@) == elements_at(views(items@), indices, here, k as nat),
                    decreases positions@.len() - k,
                {
                    let at = positions[k];
                    assert(indices[k as int] == indices_of(positions@)[k as int]);
                    let ghost so_far = out@;
                    let item = (index_path(&selected_path, at), Selected::Borrowed(&items[at]));
                    proof {
                        lemma_matches_push(so_far, item);
                        assert(match_of(item) == found(
                            index_path_spec(here, indices[k as int]),
                            views(items@)[indices[k as int] as int],
                        ));
                        assert(elements_at(views(items@), indices, here, (k + 1) as nat)
                            =~= elements_at(views(items@), indices, here, k as nat).push(
                            match_of(item),
                        ));
                    }
                    out.push(item);
                    k = k + 1;
                    assert(matches_of(out@) =~= elements_at(
                        views(items@),
                        indices,
                        here,
                        k as nat,
                    ));
                }
            },
            _ => {},
        },
        JsonPathIndex::Filter(filter) => match value {
            Value::Array(items) => {
                proof {
                    Value::lemma_array_view(*items);
                }
                let mut i: usize = 0;
                assert(matches_of(out@) =~= filter_elements(*filter, root@, value@, here, 0));
                while i < items.len()
                    invariant
                        i <= items@.len(),
                        here == text_of(selected_path),
                        value@ == Json::Array(views(items@)),
                        *index == JsonPathIndex::Filter(*filter),
                        matches_of(out@) == filter_elements(
                            *filter,
                            root@,
                            value@,
                            here,
                            i as nat,
                        ),
                    decreases items@.len() - i,
                {
                    assert(decreases_to!(*index => index->Filter_0));
                    let ghost so_far = matches_of(out@);
                    if select_filter(filter, root, &items[i]) {
                        out.push((index_path(&selected_path, i), Selected::Borrowed(&items[i])));
                        assert(matches_of(out@) =~= so_far + seq![
                            found(index_path_spec(here, i as nat), views(items@)[i as int]),
                        ]);
                    } else {
                        assert(matches_of(out@) =~= so_far + Seq::<Match>::empty());
                    }
                    i = i + 1;
                }
            },
            _ => {
                if select_filter(filter, root, value) {
                    out.push((selected_path, Selected::Borrowed(value)));
                    assert(matches_of(out@) =~= seq![found(here, value@)]);
                }
            },
        },
    }
    out
}

/// Appends the element that the number names, if it names one of the array.
fn push_element<'value>(
    items: &'value Vec<Value>,
    number: &Number,
    path: &Option<String>,
    out: &mut Vec<(Option<String>, Selected<'value>)>,
)
    ensures
        matches_of(final(out)@) == matches_of(old(out)@) + index_match(
            views(items@),
            *number,
            text_of(*path),
        ),
{
    let ghost before = matches_of(out@);
    match number.as_u64() {
        Some(at) => {
            if at < items.len() as u64 {
                let at = at as usize;
                out.push((index_path(path, at), Selected::Borrowed(&items[at])));
                assert(matches_of(out@) =~= before + seq![
                    found(index_path_spec(text_of(*path), at as nat), views(items@)[at as int]),
                ]);
            } else {
                assert(matches_of(out@) =~= before + Seq::<Match>::empty());
            }
        },
        None => {
            assert(matches_of(out@) =~= before + Seq::<Match>::empty());
        },
    }
}

/// Whether the filter holds of `value`, a part of the document `root`.
pub fn select_filter<'value, 'path: 'value>(
    filter: &'path FilterExpression,
    root: &'path Value,
    value: &'value Value,
) -> (r: bool)
    ensures
        r == filter_spec(*filter, root@, value@),
    decreases *filter, 0nat, value@, 1nat, 0nat,
{
    match filter {
        FilterExpression::And(left, right) => select_filter(&**left, root, value) && select_filter(
            &**right,
            root,
            value,
        ),
        FilterExpression::Or(left, right) => select_filter(&**left, root, value) || select_filter(
            &**right,
            root,
            value,
        ),
        FilterExpression::Not(inner) => !select_filter(&**inner, root, value),
        FilterExpression::Atom(left, sign, right) => {
            let left = select_operand(left, root, value);
            let right = select_operand(right, root, value);
            compare(sign, &left, &right)
        },
    }
}

/// The values of one side of a comparison: the literal, or all that the path
/// selects from the value under test.
pub fn select_operand<'value, 'path: 'value>(
    operand: &'path Operand,
    root: &'path Value,
    value: &'value Value,
) -> (out: Vec<Selected<'value>>)
    ensures
        values(out@) == values_of(operand_spec(*operand, root@, value@)),
    decreases *operand, 0nat, value@, 1nat, 0nat,
{
    let mut out: Vec<Selected<'value>> = Vec::new();
    match operand {
        Operand::Static(literal) => {
            out.push(Selected::Owned(literal.clone()));
            assert(values(out@) =~= values_of(operand_spec(*operand, root@, value@)));
        },
        Operand::Dynamic(path) => {
            let all = select(&**path, root, value, None);
            let ghost matches = matches_of(all@);
            assert(values(out@) =~= values_of(matches).subrange(0, 0));
            for item in it: all
                invariant
                    matches == matches_of(it.seq()),
                    values(out@) == values_of(matches).subrange(0, it.index() as int),
            {
                let ghost so_far = out@;
                assert(match_of(item) == matches[it.index() as int]);
                out.push(item.1);
                proof {
                    assert(values(out@) =~= values(so_far).push(item.1@));
                    assert(values_of(matches).subrange(0, it.index() + 1) =~= values_of(
                        matches,
                    ).subrange(0, it.index() as int).push(matches[it.index() as int].value));
                }
            }
            assert(values_of(matches).subrange(0, matches.len() as int) =~= values_of(matches));
        },
    }
    out
}

/// `Arc::clone` makes another pointer to the same allocation: the clone
/// points to the very value that the pointer it was made from points to.
#[verifier::external_body]
fn share(path: &Arc<JsonPath>) -> (r: Arc<JsonPath>)
    ensures
        r == *path,
{
    Arc::clone(path)
}

/// A path expression, ready to be evaluated against any number of documents.
/// Clones share the parsed expression.
#[derive(Debug)]
pub struct JsonPathInst {
    path: Arc<JsonPath>,
}

impl JsonPathInst {
    /// The parsed expression that the instance evaluates.
    pub closed spec fn expression(&self) -> JsonPath {
        *self.path
    }

    /// What the instance selects from the document `value`: the matches that
    /// the expression selects from it, the document being both the root and
    /// the value from which the selection starts.
    pub open spec fn matches(&self, value: Json, with_paths: bool) -> Seq<Match> {
        select_spec(
            self.expression(),
            value,
            value,
            if with_paths {
                Some(Seq::empty())
            } else {
                None
            },
        )
    }

    /// With and without paths the instance selects the same values, in the
    /// same order.
    pub proof fn lemma_paths_change_no_value(&self, value: Json)
        ensures
            values_of(self.matches(value, true)) == values_of(self.matches(value, false)),
    {
        lemma_values_ignore_paths(self.expression(), value, value, Some(Seq::empty()), None);
    }

    /// An instance for a parsed expression.
    pub fn new(path: JsonPath) -> (r: JsonPathInst)
        ensures
            r.expression() == path,
    {
        JsonPathInst { path: Arc::new(path) }
    }

    /// The values that the expression selects from the document, in the order
    /// in which they are found. A part of the document comes as a reference
    /// into it, a computed value as a value of its own.
    pub fn select<'path: 'value, 'value>(&'path self, value: &'value Value) -> (out: Vec<
        Selected<'value>,
    >)
        ensures
            out@.len() == self.matches(value@, false).len(),
            forall|i: int|
                0 <= i < out@.len() ==> (#[trigger] out@[i])@ == self.matches(value@, false)[i].value
                    && (out@[i] is Owned) == self.matches(value@, false)[i].fresh,
    {
        let all = select(&*self.path, value, value, None);
        let ghost matches = matches_of(all@);
        let mut out: Vec<Selected<'value>> = Vec::new();
        for item in it: all
            invariant
                matches == matches_of(it.seq()),
                out@.len() == it.index(),
                forall|j: int|
                    0 <= j < it.index() ==> (#[trigger] out@[j])@ == matches[j].value && (out@[j]
                        is Owned) == matches[j].fresh,
        {
            assert(match_of(item) == matches[it.index() as int]);
            out.push(item.1);
        }
        out
    }

    /// The values that the expression selects from the document, each with
    /// its canonical path, in the order in which they are found.
    pub fn select_paths_and_values<'path: 'value, 'value>(
        &'path self,
        value: &'value Value,
    ) -> (out: Vec<(String, Selected<'value>)>)
        ensures
            out@.len() == self.matches(value@, true).len(),
            forall|i: int|
                0 <= i < out@.len() ==> Some((#[trigger] out@[i]).0@) == self.matches(
                    value@,
                    true,
                )[i].path && out@[i].1@ == self.matches(value@, true)[i].value && (out@[i].1
                    is Owned) == self.matches(value@, true)[i].fresh,
    {
        let start = String::new();
        assert(text_of(Some(start)) == Some(Seq::<char>::empty()));
        let all = select(&*self.path, value, value, Some(start));
        let ghost matches = matches_of(all@);
        proof {
            lemma_matches_have_paths(self.expression(), value@, value@, Some(Seq::empty()));
        }
        let mut out: Vec<(String, Selected<'value>)> = Vec::new();
        for item in it: all
            invariant
                matches == matches_of(it.seq()),
                all_have_paths(matches),
                out@.len() == it.index(),
                forall|j: int|
                    0 <= j < it.index() ==> Some((#[trigger] out@[j]).0@) == matches[j].path
                        && out@[j].1@ == matches[j].value && (out@[j].1 is Owned)
                        == matches[j].fresh,
        {
            assert(match_of(item) == matches[it.index() as int]);
            let text = match item.0 {
                Some(text) => text,
                None => String::new(),
            };
            out.push((text, item.1));
        }
        out
    }

    /// The result of the query: null when the expression selects nothing,
    /// the value when it selects one, and the array of the values, in the
    /// order in which they are found, when it selects more.
    pub fn find<'path: 'value, 'value>(&'path self, value: &'value Value) -> (r: Value)
        ensures
            r@ == collapsed(values_of(self.matches(value@, false))),
    {
        let all = select(&*self.path, value, value, None);
        let ghost matches = matches_of(all@);
        let mut found: Vec<Value> = Vec::new();
        assert(views(found@) =~= values_of(matches).subrange(0, 0));
        for item in it: all
            invariant
                matches == matches_of(it.seq()),
                found@.len() == it.index(),
                views(found@) == values_of(matches).subrange(0, it.index() as int),
        {
            assert(match_of(item) == matches[it.index() as int]);
            let ghost so_far = found@;
            found.push(item.1.into_owned());
            assert(views(found@) =~= values_of(matches).subrange(0, it.index() + 1)) by {
                assert forall|j: int| 0 <= j <= it.index() implies views(found@)[j] == values_of(
                    matches,
                )[j] by {
                    if j < it.index() {
                        assert(views(so_far)[j] == values_of(matches).subrange(
                            0,
                            it.index() as int,
                        )[j]);
                    }
                }
            }
        }
        assert(values_of(matches).subrange(0, matches.len() as int) =~= values_of(matches));
        if found.len() == 0 {
            Value::Null
        } else if found.len() == 1 {
            let sole = found.pop();
            match sole {
                Some(v) => v,
                None => Value::Null,
            }
        } else {
            proof {
                Value::lemma_array_view(found);
            }
            Value::Array(found)
        }
    }
}

impl Clone for JsonPathInst {
    /// An instance for the same expression. The parsed expression is shared,
    /// not copied.
    fn clone(&self) -> (r: Self)
        ensures
            r.expression() == self.expression(),
    {
        JsonPathInst { path: share(&self.path) }
    }
}

} // verus!
