use vstd::prelude::*;
use crate::catalog::{Catalog, FileIndex};
use crate::keyspace::{KeySpace, lemma_keys_of, lemma_pairs_map, pairs_map};
use crate::placeholder::placeholders;
use crate::report::{
    FindingView,
    extra_findings,
    language_findings,
    mismatch_findings,
    missing_findings,
    report_entry,
    report_has_errors,
    report_spec,
    unused_findings,
};
use crate::tree::{JsonTree, child_key, flatten_entries, flatten_spec};

verus! {

/// Where no element maps to anything, nothing comes out.
proof fn lemma_filter_map_none<A, B>(s: Seq<A>, f: spec_fn(A) -> Option<B>)
    requires
        forall|i: int| 0 <= i < s.len() ==> f(#[trigger] s[i]) is None,
    ensures
        s.filter_map(f) == Seq::<B>::empty(),
    decreases s.len(),
{
    if s.len() > 0 {
        let t = s.drop_last();
        assert forall|i: int| 0 <= i < t.len() implies f(#[trigger] t[i]) is None by {
            assert(t[i] == s[i]);
        }
        lemma_filter_map_none(t, f);
    }
}

/// What comes out of `filter_map` is exactly the images of the elements.
proof fn lemma_filter_map_elements<A, B>(s: Seq<A>, f: spec_fn(A) -> Option<B>)
    ensures
        forall|x: B| #[trigger]
            s.filter_map(f).contains(x) <==> exists|i: int| 0 <= i < s.len() && f(s[i]) == Some(x),
    decreases s.len(),
{
    if s.len() > 0 {
        let t = s.drop_last();
        lemma_filter_map_elements(t, f);
        assert forall|x: B| #[trigger] s.filter_map(f).contains(x) <==> exists|i: int|
            0 <= i < s.len() && f(s[i]) == Some(x) by {
            let out = s.filter_map(f);
            let rest = t.filter_map(f);
            if out.contains(x) {
                let j = choose|j: int| 0 <= j < out.len() && out[j] == x;
                if j < rest.len() {
                    assert(rest.contains(x));
                    let i = choose|i: int| 0 <= i < t.len() && f(t[i]) == Some(x);
                    assert(s[i] == t[i]);
                } else {
                    assert(f(s[s.len() - 1]) == Some(x));
                }
            }
            if exists|i: int| 0 <= i < s.len() && f(s[i]) == Some(x) {
                let i = choose|i: int| 0 <= i < s.len() && f(s[i]) == Some(x);
                if i < t.len() {
                    assert(t[i] == s[i]);
                    assert(rest.contains(x));
                    let j = choose|j: int| 0 <= j < rest.len() && rest[j] == x;
                    assert(out[j] == x);
                } else {
                    assert(out[out.len() - 1] == x);
                }
            }
        }
    }
}

/// Two sequences with the same elements, mapped by functions that agree,
/// give the same set.
proof fn lemma_filter_map_same_set<A, B>(
    s1: Seq<A>,
    s2: Seq<A>,
    f1: spec_fn(A) -> Option<B>,
    f2: spec_fn(A) -> Option<B>,
)
    requires
        forall|a: A| s1.contains(a) <==> s2.contains(a),
        forall|a: A| #[trigger] f1(a) == f2(a),
    ensures
        s1.filter_map(f1).to_set() == s2.filter_map(f2).to_set(),
{
    lemma_filter_map_elements(s1, f1);
    lemma_filter_map_elements(s2, f2);
    assert forall|x: B| #[trigger] s1.filter_map(f1).contains(x) implies s2.filter_map(f2).contains(
        x,
    ) by {
        let i = choose|i: int| 0 <= i < s1.len() && f1(s1[i]) == Some(x);
        assert(s1.contains(s1[i]));
        let j = choose|j: int| 0 <= j < s2.len() && s2[j] == s1[i];
    }
    assert forall|x: B| #[trigger] s2.filter_map(f2).contains(x) implies s1.filter_map(f1).contains(
        x,
    ) by {
        let i = choose|i: int| 0 <= i < s2.len() && f2(s2[i]) == Some(x);
        assert(s2.contains(s2[i]));
        let j = choose|j: int| 0 <= j < s1.len() && s1[j] == s2[i];
    }
    assert(s1.filter_map(f1).to_set() =~= s2.filter_map(f2).to_set());
}

proof fn lemma_concat_to_set<A>(a: Seq<A>, b: Seq<A>)
    ensures
        (a + b).to_set() == a.to_set().union(b.to_set()),
{
    assert forall|x: A| #[trigger] (a + b).contains(x) <==> a.contains(x) || b.contains(x) by {
        if (a + b).contains(x) {
            let j = choose|j: int| 0 <= j < (a + b).len() && (a + b)[j] == x;
            if j < a.len() {
                assert(a[j] == x);
            } else {
                assert(b[j - a.len()] == x);
            }
        }
        if a.contains(x) {
            let j = choose|j: int| 0 <= j < a.len() && a[j] == x;
            assert((a + b)[j] == x);
        }
        if b.contains(x) {
            let j = choose|j: int| 0 <= j < b.len() && b[j] == x;
            assert((a + b)[j + a.len()] == x);
        }
    }
    assert((a + b).to_set() =~= a.to_set().union(b.to_set()));
}

/// A language whose key space holds exactly what the base's holds has no
/// missing key, no extra key and no placeholder mismatch; where it also
/// defines none of the unused keys, nothing at all is found in it.
pub proof fn lemma_identical_languages_agree(
    base_lang: Seq<char>,
    base: KeySpace,
    lang: Seq<char>,
    target: KeySpace,
    files: FileIndex,
    unused: Seq<Seq<char>>,
)
    requires
        base.wf(),
        target.wf(),
        base@ == target@,
    ensures
        missing_findings(base, target, lang, files) == Seq::<FindingView>::empty(),
        extra_findings(base, target, lang, files) == Seq::<FindingView>::empty(),
        mismatch_findings(base_lang, base, lang, target, files) == Seq::<FindingView>::empty(),
        (forall|i: int| 0 <= i < unused.len() ==> !target@.contains_key(#[trigger] unused[i]))
            ==> language_findings(base_lang, base, lang, target, files, unused) == Seq::<
            FindingView,
        >::empty(),
{
    lemma_keys_of(base.entries());
    lemma_keys_of(target.entries());
    let bk = base.key_seq();
    let tk = target.key_seq();
    assert forall|i: int| 0 <= i < bk.len() implies target@.contains_key(#[trigger] bk[i]) by {
        assert(bk.contains(bk[i]));
    }
    assert forall|i: int| 0 <= i < tk.len() implies base@.contains_key(#[trigger] tk[i]) by {
        assert(tk.contains(tk[i]));
    }
    lemma_filter_map_none(
        bk,
        |k: Seq<char>|
            if !target@.contains_key(k) {
                Some(FindingView::MissingKey { key: k, file: crate::catalog::file_of(files, lang, k) })
            } else {
                None
            },
    );
    lemma_filter_map_none(
        tk,
        |k: Seq<char>|
            if !base@.contains_key(k) {
                Some(FindingView::ExtraKey { key: k, file: crate::catalog::file_of(files, lang, k) })
            } else {
                None
            },
    );
    lemma_filter_map_none(
        bk,
        |k: Seq<char>|
            if target@.contains_key(k) && placeholders(base@[k]) != placeholders(target@[k]) {
                Some(
                    FindingView::VariableMismatch {
                        key: k,
                        expected: placeholders(base@[k]),
                        found: placeholders(target@[k]),
                        expected_file: crate::catalog::file_of(files, base_lang, k),
                        found_file: crate::catalog::file_of(files, lang, k),
                    },
                )
            } else {
                None
            },
    );
    if forall|i: int| 0 <= i < unused.len() ==> !target@.contains_key(#[trigger] unused[i]) {
        lemma_filter_map_none(
            unused,
            |k: Seq<char>|
                if target@.contains_key(k) {
                    Some(
                        FindingView::UnusedKeyStillTranslated {
                            key: k,
                            language: lang,
                            file: crate::catalog::file_of(files, lang, k),
                        },
                    )
                } else {
                    None
                },
        );
        assert(language_findings(base_lang, base, lang, target, files, unused) =~= Seq::<
            FindingView,
        >::empty());
    }
}

/// Findings depend on what the key spaces hold, not on the order in which
/// their keys were added: equal base contents, equal target contents and
/// unused-key lists with the same elements give the same set of findings,
/// whatever order each list comes in.
pub proof fn lemma_findings_order_independent(
    base_lang: Seq<char>,
    lang: Seq<char>,
    base1: KeySpace,
    base2: KeySpace,
    target1: KeySpace,
    target2: KeySpace,
    files: FileIndex,
    unused1: Seq<Seq<char>>,
    unused2: Seq<Seq<char>>,
)
    requires
        base1.wf(),
        base2.wf(),
        target1.wf(),
        target2.wf(),
        base1@ == base2@,
        target1@ == target2@,
        unused1.to_set() == unused2.to_set(),
    ensures
        language_findings(base_lang, base1, lang, target1, files, unused1).to_set()
            == language_findings(base_lang, base2, lang, target2, files, unused2).to_set(),
{
    lemma_keys_of(base1.entries());
    lemma_keys_of(base2.entries());
    lemma_keys_of(target1.entries());
    lemma_keys_of(target2.entries());
    assert forall|k: Seq<char>| base1.key_seq().contains(k) <==> base2.key_seq().contains(k) by {
        assert(pairs_map(base1.entries()).contains_key(k) == base1.key_seq().contains(k));
        assert(pairs_map(base2.entries()).contains_key(k) == base2.key_seq().contains(k));
    }
    assert forall|k: Seq<char>| target1.key_seq().contains(k) <==> target2.key_seq().contains(
        k,
    ) by {
        assert(pairs_map(target1.entries()).contains_key(k) == target1.key_seq().contains(k));
        assert(pairs_map(target2.entries()).contains_key(k) == target2.key_seq().contains(k));
    }
    assert forall|k: Seq<char>| unused1.contains(k) <==> unused2.contains(k) by {
        assert(unused1.to_set().contains(k) == unused1.contains(k));
        assert(unused2.to_set().contains(k) == unused2.contains(k));
    }
    let m1 = missing_findings(base1, target1, lang, files);
    let m2 = missing_findings(base2, target2, lang, files);
    let e1 = extra_findings(base1, target1, lang, files);
    let e2 = extra_findings(base2, target2, lang, files);
    let v1 = mismatch_findings(base_lang, base1, lang, target1, files);
    let v2 = mismatch_findings(base_lang, base2, lang, target2, files);
    let u1 = unused_findings(lang, target1, files, unused1);
    let u2 = unused_findings(lang, target2, files, unused2);
    lemma_filter_map_same_set(
        base1.key_seq(),
        base2.key_seq(),
        |k: Seq<char>|
            if !target1@.contains_key(k) {
                Some(FindingView::MissingKey { key: k, file: crate::catalog::file_of(files, lang, k) })
            } else {
                None
            },
        |k: Seq<char>|
            if !target2@.contains_key(k) {
                Some(FindingView::MissingKey { key: k, file: crate::catalog::file_of(files, lang, k) })
            } else {
                None
            },
    );
    lemma_filter_map_same_set(
        target1.key_seq(),
        target2.key_seq(),
        |k: Seq<char>|
            if !base1@.contains_key(k) {
                Some(FindingView::ExtraKey { key: k, file: crate::catalog::file_of(files, lang, k) })
            } else {
                None
            },
        |k: Seq<char>|
            if !base2@.contains_key(k) {
                Some(FindingView::ExtraKey { key: k, file: crate::catalog::file_of(files, lang, k) })
            } else {
                None
            },
    );
    lemma_filter_map_same_set(
        base1.key_seq(),
        base2.key_seq(),
        |k: Seq<char>|
            if target1@.contains_key(k) && placeholders(base1@[k]) != placeholders(target1@[k]) {
                Some(
                    FindingView::VariableMismatch {
                        key: k,
                        expected: placeholders(base1@[k]),
                        found: placeholders(target1@[k]),
                        expected_file: crate::catalog::file_of(files, base_lang, k),
                        found_file: crate::catalog::file_of(files, lang, k),
                    },
                )
            } else {
                None
            },
        |k: Seq<char>|
            if target2@.contains_key(k) && placeholders(base2@[k]) != placeholders(target2@[k]) {
                Some(
                    FindingView::VariableMismatch {
                        key: k,
                        expected: placeholders(base2@[k]),
                        found: placeholders(target2@[k]),
                        expected_file: crate::catalog::file_of(files, base_lang, k),
                        found_file: crate::catalog::file_of(files, lang, k),
                    },
                )
            } else {
                None
            },
    );
    lemma_filter_map_same_set(
        unused1,
        unused2,
        |k: Seq<char>|
            if target1@.contains_key(k) {
                Some(
                    FindingView::UnusedKeyStillTranslated {
                        key: k,
                        language: lang,
                        file: crate::catalog::file_of(files, lang, k),
                    },
                )
            } else {
                None
            },
        |k: Seq<char>|
            if target2@.contains_key(k) {
                Some(
                    FindingView::UnusedKeyStillTranslated {
                        key: k,
                        language: lang,
                        file: crate::catalog::file_of(files, lang, k),
                    },
                )
            } else {
                None
            },
    );
    lemma_concat_to_set(m1, e1);
    lemma_concat_to_set(m1 + e1, v1);
    lemma_concat_to_set(m1 + e1 + v1, u1);
    lemma_concat_to_set(m2, e2);
    lemma_concat_to_set(m2 + e2, v2);
    lemma_concat_to_set(m2 + e2 + v2, u2);
}

/// `prefix` extended by each name of `path` in turn, joined with dots.
pub open spec fn dotted(prefix: Seq<char>, path: Seq<Seq<char>>) -> Seq<char>
    decreases path.len(),
{
    if path.len() == 0 {
        prefix
    } else {
        dotted(child_key(prefix, path[0]), path.drop_first())
    }
}

/// `t` is a chain of one-entry objects along `path` that ends in the string
/// `v`.
pub open spec fn single_leaf(t: JsonTree, path: Seq<Seq<char>>, v: Seq<char>) -> bool
    decreases path.len(),
{
    if path.len() == 0 {
        t is Text && t->Text_0@ == v
    } else {
        t is Object && t->Object_0@.len() == 1 && t->Object_0@[0].0@ == path[0] && single_leaf(
            t->Object_0@[0].1,
            path.drop_first(),
            v,
        )
    }
}

/// `t` holds no string anywhere.
pub open spec fn no_text(t: JsonTree) -> bool
    decreases t, 0int,
{
    match t {
        JsonTree::Object(entries) => no_text_entries(entries@, entries@.len() as int),
        JsonTree::Text(_) => false,
        JsonTree::Other => true,
    }
}

/// The first `n` children of an object hold no string anywhere.
pub open spec fn no_text_entries(es: Seq<(String, JsonTree)>, n: int) -> bool
    decreases es, 1int, n,
{
    if n <= 0 || n > es.len() {
        true
    } else {
        no_text_entries(es, n - 1) && no_text(es[n - 1].1)
    }
}

/// A string at the end of a path of single-entry objects, say `a.b.c`,
/// flattens to exactly one entry: that path, dot-joined, with that string.
pub proof fn lemma_flatten_single_leaf(
    t: JsonTree,
    path: Seq<Seq<char>>,
    v: Seq<char>,
    prefix: Seq<char>,
)
    requires
        single_leaf(t, path, v),
    ensures
        flatten_spec(t, prefix) == map![dotted(prefix, path) => v],
    decreases path.len(),
{
    if path.len() > 0 {
        let es = t->Object_0@;
        let child = child_key(prefix, es[0].0@);
        lemma_flatten_single_leaf(es[0].1, path.drop_first(), v, child);
        assert(flatten_entries(es, prefix, 0) == Map::<Seq<char>, Seq<char>>::empty());
        assert(flatten_entries(es, prefix, 1) =~= flatten_spec(es[0].1, child));
    }
}

/// A value with no string anywhere flattens to nothing.
pub proof fn lemma_flatten_no_text(t: JsonTree, prefix: Seq<char>)
    requires
        no_text(t),
    ensures
        flatten_spec(t, prefix) == Map::<Seq<char>, Seq<char>>::empty(),
    decreases t, 0int,
{
    match t {
        JsonTree::Object(entries) => {
            lemma_flatten_no_text_entries(entries@, prefix, entries@.len() as int);
        },
        _ => {},
    }
}

/// Children with no string anywhere flatten to nothing.
pub proof fn lemma_flatten_no_text_entries(es: Seq<(String, JsonTree)>, prefix: Seq<char>, n: int)
    requires
        no_text_entries(es, n),
    ensures
        flatten_entries(es, prefix, n) == Map::<Seq<char>, Seq<char>>::empty(),
    decreases es, 1int, n,
{
    if 0 < n <= es.len() {
        lemma_flatten_no_text_entries(es, prefix, n - 1);
        lemma_flatten_no_text(es[n - 1].1, child_key(prefix, es[n - 1].0@));
        assert(flatten_entries(es, prefix, n) =~= Map::<Seq<char>, Seq<char>>::empty());
    }
}

/// A catalog in which every language holds exactly what the base language
/// holds, and defines none of the unused keys, passes: no language has a
/// finding, so the report has no errors.
pub proof fn lemma_consistent_catalog_passes(
    base_lang: Seq<char>,
    catalog: Catalog,
    files: FileIndex,
    unused: Seq<Seq<char>>,
)
    requires
        catalog.wf(),
        catalog@.contains_key(base_lang),
        forall|lang: Seq<char>| #[trigger]
            catalog@.contains_key(lang) ==> catalog@[lang]@ == catalog@[base_lang]@,
        forall|i: int|
            0 <= i < unused.len() ==> !catalog@[base_lang]@.contains_key(#[trigger] unused[i]),
    ensures
        !report_has_errors(report_spec(base_lang, catalog, files, unused)),
{
    let t = catalog.table();
    let base = catalog@[base_lang];
    lemma_pairs_map(t);
    assert(base.wf()) by {
        let j = choose|j: int| 0 <= j < t.len() && t[j].0 == base_lang;
        assert(t[j].1.wf());
    }
    lemma_filter_map_elements(
        catalog.table(),
        |e: (Seq<char>, KeySpace)| report_entry(base_lang, catalog, files, unused, e),
    );
    let r = report_spec(base_lang, catalog, files, unused);
    assert forall|k: int| 0 <= k < r.len() implies (#[trigger] r[k]).1.len() == 0 by {
        assert(r.contains(r[k]));
        let i = choose|i: int|
            0 <= i < t.len() && t[i].0 != base_lang && r[k] == (
                t[i].0,
                language_findings(base_lang, base, t[i].0, t[i].1, files, unused),
            );
        assert(t[i].1.wf());
        assert(catalog@[t[i].0] == t[i].1);
        assert(catalog@.contains_key(t[i].0));
        assert forall|u: int| 0 <= u < unused.len() implies !t[i].1@.contains_key(
            #[trigger] unused[u],
        ) by {
            assert(!base@.contains_key(unused[u]));
        }
        lemma_identical_languages_agree(base_lang, base, t[i].0, t[i].1, files, unused);
    }
}

} // verus!
