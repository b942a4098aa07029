use vstd::prelude::*;
use crate::keyspace::{
    KeySpace,
    keys_distinct,
    keys_of,
    pairs_map,
    lemma_pairs_map,
    lemma_pairs_map_update,
};
use crate::tree::{JsonTree, flatten_document, flatten_spec};

verus! {

/// Per language, a key space. As a catalog it holds each language's strings;
/// as a file index it holds, per language, the file each key came from.
pub struct Catalog {
    langs: Vec<(String, KeySpace)>,
}

/// A catalog whose values are the files that the keys came from.
pub type FileIndex = Catalog;

impl View for Catalog {
    type V = Map<Seq<char>, KeySpace>;

    open spec fn view(&self) -> Map<Seq<char>, KeySpace> {
        pairs_map(self.table())
    }
}

impl Catalog {
    /// The languages with their key spaces, in the order they were first added.
    pub closed spec fn table(self) -> Seq<(Seq<char>, KeySpace)> {
        self.langs@.map_values(|p: (String, KeySpace)| (p.0@, p.1))
    }

    pub open spec fn lang_seq(self) -> Seq<Seq<char>> {
        keys_of(self.table())
    }

    pub open spec fn wf(self) -> bool {
        &&& keys_distinct(self.table())
        &&& forall|i: int| 0 <= i < self.table().len() ==> (#[trigger] self.table()[i]).1.wf()
    }

    pub fn new() -> (r: Catalog)
        ensures
            r.wf(),
            r.table() == Seq::<(Seq<char>, KeySpace)>::empty(),
            r@ == Map::<Seq<char>, KeySpace>::empty(),
    {
        let r = Catalog { langs: Vec::new() };
        assert(r.table() =~= Seq::<(Seq<char>, KeySpace)>::empty());
        r
    }

    pub fn len(&self) -> (r: usize)
        ensures
            r == self.table().len(),
    {
        self.langs.len()
    }

    /// The language and key space at position `i`.
    pub fn language(&self, i: usize) -> (r: (&String, &KeySpace))
        requires
            i < self.table().len(),
        ensures
            (r.0@, *r.1) == self.table()[i as int],
    {
        let p = &self.langs[i];
        (&p.0, &p.1)
    }

    fn position(&self, lang: &String) -> (r: Option<usize>)
        ensures
            match r {
                Some(i) => i < self.table().len() && self.table()[i as int].0 == lang@,
                None => forall|i: int| 0 <= i < self.table().len() ==> self.table()[i].0 != lang@,
            },
    {
        let mut i: usize = 0;
        while i < self.langs.len()
            invariant
                i <= self.langs.len(),
                forall|j: int| 0 <= j < i ==> self.table()[j].0 != lang@,
            decreases self.langs.len() - i,
        {
            if self.langs[i].0 == *lang {
                return Some(i);
            }
            i = i + 1;
        }
        None
    }

    /// The key space of `lang`, if the catalog has that language.
    pub fn get(&self, lang: &String) -> (r: Option<&KeySpace>)
        requires
            self.wf(),
        ensures
            r.is_some() == self@.contains_key(lang@),
            r.is_some() ==> *r.unwrap() == self@[lang@] && r.unwrap().wf(),
    {
        proof {
            lemma_pairs_map(self.table());
        }
        match self.position(lang) {
            Some(i) => {
                assert(self.table()[i as int].1.wf());
                Some(&self.langs[i].1)
            },
            None => None,
        }
    }

    /// Sets the key space of `lang`. A language already present keeps its
    /// place; a new one goes last.
    pub fn insert(&mut self, lang: String, keys: KeySpace)
        requires
            old(self).wf(),
            keys.wf(),
        ensures
            final(self).wf(),
            final(self)@ == old(self)@.insert(lang@, keys),
            old(self)@.contains_key(lang@) ==> final(self).lang_seq() == old(self).lang_seq(),
            !old(self)@.contains_key(lang@) ==> final(self).table() == old(self).table().push(
                (lang@, keys),
            ),
    {
        proof {
            lemma_pairs_map(old(self).table());
        }
        let ghost before = self.table();
        let ghost lv = lang@;
        let ghost kv = keys;
        match self.position(&lang) {
            Some(i) => {
                self.langs.set(i, (lang, keys));
                assert(self.table() =~= before.update(i as int, (lv, kv)));
                assert(self.lang_seq() =~= keys_of(before));
                proof {
                    lemma_pairs_map_update(before, i as int, kv);
                }
            },
            None => {
                self.langs.push((lang, keys));
                assert(self.table() =~= before.push((lv, kv)));
                assert(self.table().drop_last() =~= before);
            },
        }
    }
}

/// The file that `key` of `lang` came from, where the index knows it.
pub open spec fn file_of(index: FileIndex, lang: Seq<char>, key: Seq<char>) -> Option<Seq<char>> {
    if index@.contains_key(lang) && index@[lang]@.contains_key(key) {
        Some(index@[lang]@[key])
    } else {
        None
    }
}

/// The view of an optional string.
pub open spec fn opt_view(o: Option<String>) -> Option<Seq<char>> {
    match o {
        Some(s) => Some(s@),
        None => None,
    }
}

/// Looks up the file that `key` of `lang` came from; `None` where the index
/// has no entry for it.
pub fn get_translation_file(file_index: &FileIndex, lang: &String, key: &String) -> (r: Option<
    String,
>)
    requires
        file_index.wf(),
    ensures
        opt_view(r) == file_of(*file_index, lang@, key@),
{
    match file_index.get(lang) {
        Some(files) => match files.get(key) {
            Some(path) => Some(path.clone()),
            None => None,
        },
        None => None,
    }
}

/// `m` with every value replaced by `v`.
pub open spec fn with_value(m: Map<Seq<char>, Seq<char>>, v: Seq<char>) -> Map<
    Seq<char>,
    Seq<char>,
> {
    Map::new(|k: Seq<char>| m.contains_key(k), |k: Seq<char>| v)
}

/// Adds one document of a language: its flattened strings go into `values`,
/// and each of their keys is attributed to `path` in `paths`. A key that an
/// earlier document also defined takes the new value and the new path.
pub fn add_document(values: &mut KeySpace, paths: &mut KeySpace, path: &String, document: &JsonTree)
    requires
        old(values).wf(),
        old(paths).wf(),
    ensures
        final(values).wf(),
        final(paths).wf(),
        final(values)@ == old(values)@.union_prefer_right(
            flatten_spec(*document, Seq::<char>::empty()),
        ),
        final(paths)@ == old(paths)@.union_prefer_right(
            with_value(flatten_spec(*document, Seq::<char>::empty()), path@),
        ),
{
    let flat = flatten_document(document);
    let ghost values_before = values@;
    let ghost paths_before = paths@;
    let ghost es = flat.entries();
    let mut i: usize = 0;
    assert(values_before.union_prefer_right(pairs_map(es.take(0))) =~= values_before);
    assert(paths_before.union_prefer_right(with_value(pairs_map(es.take(0)), path@)) =~= paths_before);
    while i < flat.len()
        invariant
            es == flat.entries(),
            i <= es.len(),
            values.wf(),
            paths.wf(),
            values@ == values_before.union_prefer_right(pairs_map(es.take(i as int))),
            paths@ == paths_before.union_prefer_right(with_value(pairs_map(es.take(i as int)), path@)),
        decreases es.len() - i,
    {
        let (key, value) = flat.entry(i);
        values.insert(key.clone(), value.clone());
        paths.insert(key.clone(), path.clone());
        assert(es.take(i + 1).drop_last() =~= es.take(i as int));
        assert(values@ =~= values_before.union_prefer_right(pairs_map(es.take(i + 1))));
        assert(paths@ =~= paths_before.union_prefer_right(with_value(pairs_map(es.take(i + 1)), path@)));
        i = i + 1;
    }
    assert(es.take(i as int) =~= es);
}

} // verus!
