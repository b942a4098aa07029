use vstd::prelude::*;
use crate::seqs::{views_of, lemma_filter_step};

verus! {

/// `needle` occurs in `hay` as a run of consecutive characters.
pub open spec fn occurs_in(needle: Seq<char>, hay: Seq<char>) -> bool {
    exists|i: int|
        0 <= i && i + needle.len() <= hay.len() && #[trigger] hay.subrange(i, i + needle.len())
            == needle
}

/// `key` occurs in at least one of `files`.
pub open spec fn used_in(key: Seq<char>, files: Seq<Seq<char>>) -> bool {
    exists|f: int| 0 <= f < files.len() && occurs_in(key, #[trigger] files[f])
}

/// Relies on str::contains with a string pattern: whether `needle` occurs in
/// `hay` as a substring.
#[verifier::external_body]
fn occurs(hay: &str, needle: &str) -> (r: bool)
    ensures
        r == occurs_in(needle@, hay@),
{
    hay.contains(needle)
}

/// The keys that occur, as plain substrings, in `content`, in the order of
/// `base_keys`. A key inside a longer token counts as occurring.
pub fn extract_keys_from_content(content: &str, base_keys: &Vec<String>) -> (r: Vec<String>)
    ensures
        views_of(r@) == views_of(base_keys@).filter(|k: Seq<char>| occurs_in(k, content@)),
{
    let ghost keys = views_of(base_keys@);
    let ghost p = |k: Seq<char>| occurs_in(k, content@);
    let mut r: Vec<String> = Vec::new();
    let mut i: usize = 0;
    assert(keys.take(0).filter(p) =~= Seq::<Seq<char>>::empty()) by {
        reveal(Seq::filter);
    }
    assert(views_of(r@) =~= Seq::<Seq<char>>::empty());
    while i < base_keys.len()
        invariant
            keys == views_of(base_keys@),
            p == (|k: Seq<char>| occurs_in(k, content@)),
            i <= base_keys.len(),
            views_of(r@) == keys.take(i as int).filter(p),
        decreases base_keys.len() - i,
    {
        proof {
            lemma_filter_step(keys, i as int, p);
        }
        if occurs(content, base_keys[i].as_str()) {
            let ghost prev = r@;
            r.push(base_keys[i].clone());
            assert(views_of(r@) =~= views_of(prev).push(keys[i as int]));
        }
        i = i + 1;
    }
    assert(keys.take(i as int) =~= keys);
    r
}

/// Whether `key` occurs in any of `contents`.
fn used_anywhere(key: &String, contents: &Vec<String>) -> (r: bool)
    ensures
        r == used_in(key@, views_of(contents@)),
{
    let mut f: usize = 0;
    while f < contents.len()
        invariant
            f <= contents.len(),
            forall|g: int| 0 <= g < f ==> !occurs_in(key@, #[trigger] views_of(contents@)[g]),
        decreases contents.len() - f,
    {
        if occurs(contents[f].as_str(), key.as_str()) {
            assert(occurs_in(key@, views_of(contents@)[f as int]));
            return true;
        }
        f = f + 1;
    }
    false
}

/// The keys, in the order of `base_keys`, that occur in at least one of
/// the source texts `contents`.
pub fn process_files(contents: &Vec<String>, base_keys: &Vec<String>) -> (r: Vec<String>)
    ensures
        views_of(r@) == views_of(base_keys@).filter(
            |k: Seq<char>| used_in(k, views_of(contents@)),
        ),
{
    let ghost keys = views_of(base_keys@);
    let ghost p = |k: Seq<char>| used_in(k, views_of(contents@));
    let mut r: Vec<String> = Vec::new();
    let mut i: usize = 0;
    assert(keys.take(0).filter(p) =~= Seq::<Seq<char>>::empty()) by {
        reveal(Seq::filter);
    }
    assert(views_of(r@) =~= Seq::<Seq<char>>::empty());
    while i < base_keys.len()
        invariant
            keys == views_of(base_keys@),
            p == (|k: Seq<char>| used_in(k, views_of(contents@))),
            i <= base_keys.len(),
            views_of(r@) == keys.take(i as int).filter(p),
        decreases base_keys.len() - i,
    {
        proof {
            lemma_filter_step(keys, i as int, p);
        }
        if used_anywhere(&base_keys[i], contents) {
            let ghost prev = r@;
            r.push(base_keys[i].clone());
            assert(views_of(r@) =~= views_of(prev).push(keys[i as int]));
        }
        i = i + 1;
    }
    assert(keys.take(i as int) =~= keys);
    r
}

/// The unused keys: those of `base_keys`, in their order, that occur in none
/// of the source texts `contents`.
pub fn check_translations_usage(base_keys: &Vec<String>, contents: &Vec<String>) -> (r: Vec<
    String,
>)
    ensures
        views_of(r@) == views_of(base_keys@).filter(
            |k: Seq<char>| !used_in(k, views_of(contents@)),
        ),
{
    let ghost keys = views_of(base_keys@);
    let ghost p = |k: Seq<char>| !used_in(k, views_of(contents@));
    let mut r: Vec<String> = Vec::new();
    let mut i: usize = 0;
    assert(keys.take(0).filter(p) =~= Seq::<Seq<char>>::empty()) by {
        reveal(Seq::filter);
    }
    assert(views_of(r@) =~= Seq::<Seq<char>>::empty());
    while i < base_keys.len()
        invariant
            keys == views_of(base_keys@),
            p == (|k: Seq<char>| !used_in(k, views_of(contents@))),
            i <= base_keys.len(),
            views_of(r@) == keys.take(i as int).filter(p),
        decreases base_keys.len() - i,
    {
        proof {
            lemma_filter_step(keys, i as int, p);
        }
        if !used_anywhere(&base_keys[i], contents) {
            let ghost prev = r@;
            r.push(base_keys[i].clone());
            assert(views_of(r@) =~= views_of(prev).push(keys[i as int]));
        }
        i = i + 1;
    }
    assert(keys.take(i as int) =~= keys);
    r
}

} // verus!
