use vstd::prelude::*;
use crate::keyspace::KeySpace;

verus! {

/// A parsed JSON document, as far as flattening reads it: objects, strings,
/// and every other kind of value (number, bool, null, array) as `Other`.
#[derive(Debug)]
pub enum JsonTree {
    Object(Vec<(String, JsonTree)>),
    Text(String),
    Other,
}

/// The key of a child named `key` under `prefix`: `prefix.key`, or just
/// `key` at the top.
pub open spec fn child_key(prefix: Seq<char>, key: Seq<char>) -> Seq<char> {
    if prefix.len() == 0 {
        key
    } else {
        prefix + seq!['.'] + key
    }
}

/// The flat key space of `t` under `prefix`: one entry per string leaf, at
/// its dot-joined path. Of two leaves at the same path the later one wins.
pub open spec fn flatten_spec(t: JsonTree, prefix: Seq<char>) -> Map<Seq<char>, Seq<char>>
    decreases t, 0int,
{
    match t {
        JsonTree::Object(entries) => flatten_entries(entries@, prefix, entries@.len() as int),
        JsonTree::Text(s) => map![prefix => s@],
        JsonTree::Other => Map::empty(),
    }
}

/// The flat key space of the first `n` children of an object under `prefix`.
pub open spec fn flatten_entries(es: Seq<(String, JsonTree)>, prefix: Seq<char>, n: int) -> Map<
    Seq<char>,
    Seq<char>,
>
    decreases es, 1int, n,
{
    if n <= 0 || n > es.len() {
        Map::empty()
    } else {
        flatten_entries(es, prefix, n - 1).union_prefer_right(
            flatten_spec(es[n - 1].1, child_key(prefix, es[n - 1].0@)),
        )
    }
}

/// `prefix.key`, or `key` alone where `prefix` is empty.
fn join_key(prefix: &String, key: &String) -> (r: String)
    ensures
        r@ == child_key(prefix@, key@),
{
    if prefix.as_str().is_empty() {
        key.clone()
    } else {
        let r = prefix.clone().concat(".").concat(key.as_str());
        proof {
            reveal_strlit(".");
        }
        assert(r@ =~= prefix@ + seq!['.'] + key@);
        r
    }
}

/// Adds the string leaves of `value`, at their dot-joined paths under
/// `prefix`, to `output`; every other kind of leaf is skipped.
pub fn flatten_json(value: &JsonTree, prefix: String, output: &mut KeySpace)
    requires
        old(output).wf(),
    ensures
        final(output).wf(),
        final(output)@ == old(output)@.union_prefer_right(flatten_spec(*value, prefix@)),
    decreases value,
{
    match value {
        JsonTree::Object(entries) => {
            let ghost start = output@;
            let mut i: usize = 0;
            assert(start.union_prefer_right(flatten_entries(entries@, prefix@, 0)) =~= start);
            while i < entries.len()
                invariant
                    *value == JsonTree::Object(*entries),
                    i <= entries.len(),
                    output.wf(),
                    output@ == start.union_prefer_right(
                        flatten_entries(entries@, prefix@, i as int),
                    ),
                decreases entries.len() - i,
            {
                let (key, child) = &entries[i];
                let child_prefix = join_key(&prefix, key);
                let ghost before = output@;
                proof {
                    assert(decreases_to!(*value => value->Object_0));
                    assert(decreases_to!(value->Object_0 => entries[i as int]));
                    assert(decreases_to!(entries[i as int] => entries[i as int].1));
                }
                flatten_json(child, child_prefix, output);
                assert(output@ =~= start.union_prefer_right(
                    flatten_entries(entries@, prefix@, i + 1),
                ));
                i = i + 1;
            }
        },
        JsonTree::Text(text) => {
            output.insert(prefix, text.clone());
            assert(output@ =~= old(output)@.union_prefer_right(flatten_spec(*value, prefix@)));
        },
        JsonTree::Other => {
            assert(output@ =~= old(output)@.union_prefer_right(flatten_spec(*value, prefix@)));
        },
    }
}

/// The flat key space of a whole document.
pub fn flatten_document(document: &JsonTree) -> (r: KeySpace)
    ensures
        r.wf(),
        r@ == flatten_spec(*document, Seq::<char>::empty()),
{
    let mut r = KeySpace::new();
    flatten_json(document, String::new(), &mut r);
    assert(r@ =~= flatten_spec(*document, Seq::<char>::empty()));
    r
}

} // verus!
