use vstd::prelude::*;

verus! {

/// Whether `c` is a Unicode word character, the class that `\w` matches.
pub uninterp spec fn word_char(c: char) -> bool;

/// The ASCII word characters: `[_0-9a-zA-Z]`.
pub open spec fn ascii_word_char(c: char) -> bool {
    let u = c as u32;
    (0x30 <= u <= 0x39) || (0x41 <= u <= 0x5a) || (0x61 <= u <= 0x7a) || u == 0x5f
}

/// Relies on regex_syntax::is_word_character: whether `c` is a Unicode word
/// character (what `\w` matches); on ASCII that class is `[_0-9a-zA-Z]`.
/// It panics only without the crate's `unicode-perl` feature, which is on.
#[verifier::external_body]
fn is_word_char(c: char) -> (r: bool)
    ensures
        r == word_char(c),
        (c as u32) < 128 ==> (r <==> ascii_word_char(c)),
{
    regex_syntax::is_word_character(c)
}

/// Whether each character of `s` is a word character.
pub open spec fn word_flags(s: Seq<char>) -> Seq<bool> {
    s.map_values(|c: char| word_char(c))
}

/// `s[i]` is `{`, `s[j]` is `}`, and between them stand one or more
/// characters that `word` marks: a placeholder whose name is `s[i + 1 .. j]`.
pub open spec fn placeholder_at(s: Seq<char>, word: Seq<bool>, i: int, j: int) -> bool {
    &&& 0 <= i
    &&& i + 1 < j < s.len()
    &&& s[i] == '{'
    &&& s[j] == '}'
    &&& forall|k: int| i < k < j ==> #[trigger] word[k]
}

/// The names of the placeholders that start before position `p`.
pub open spec fn placeholders_before(s: Seq<char>, word: Seq<bool>, p: int) -> Set<Seq<char>> {
    Set::new(
        |name: Seq<char>|
            exists|i: int, j: int|
                i < p && placeholder_at(s, word, i, j) && name == s.subrange(i + 1, j),
    )
}

/// The placeholder names in `s`, where `word` marks its word characters.
pub open spec fn placeholders_by(s: Seq<char>, word: Seq<bool>) -> Set<Seq<char>> {
    placeholders_before(s, word, s.len() as int)
}

/// The set of placeholder names in `s`: every `{name}` where `name` is one or
/// more word characters. Duplicates collapse; order does not matter.
pub open spec fn placeholders(s: Seq<char>) -> Set<Seq<char>> {
    placeholders_by(s, word_flags(s))
}

/// No placeholder starts in `[p, q)`.
pub open spec fn no_start_in(s: Seq<char>, word: Seq<bool>, p: int, q: int) -> bool {
    forall|i: int, j: int| p <= i < q ==> !placeholder_at(s, word, i, j)
}

proof fn lemma_before_skip(s: Seq<char>, word: Seq<bool>, p: int, q: int)
    requires
        p <= q,
        no_start_in(s, word, p, q),
    ensures
        placeholders_before(s, word, q) == placeholders_before(s, word, p),
{
    assert forall|name: Seq<char>| #[trigger]
        placeholders_before(s, word, q).contains(name) implies placeholders_before(
        s,
        word,
        p,
    ).contains(name) by {
        let (i, j) = choose|i: int, j: int|
            i < q && placeholder_at(s, word, i, j) && name == s.subrange(i + 1, j);
        assert(i < p);
    }
    assert(placeholders_before(s, word, q) =~= placeholders_before(s, word, p));
}

proof fn lemma_before_match(s: Seq<char>, word: Seq<bool>, p: int, j: int, q: int)
    requires
        placeholder_at(s, word, p, j),
        !word[j],
        forall|k: int| p < k < j ==> s[k] != '}',
        p < q,
        no_start_in(s, word, p + 1, q),
    ensures
        placeholders_before(s, word, q) == placeholders_before(s, word, p).insert(
            s.subrange(p + 1, j),
        ),
{
    let r = placeholders_before(s, word, p).insert(s.subrange(p + 1, j));
    assert forall|name: Seq<char>| #[trigger]
        placeholders_before(s, word, q).contains(name) implies r.contains(name) by {
        let (a, b) = choose|a: int, b: int|
            a < q && placeholder_at(s, word, a, b) && name == s.subrange(a + 1, b);
        if a == p {
            if b > j {
                assert(word[j]);
            }
        } else {
            assert(a < p);
        }
    }
    assert forall|name: Seq<char>| #[trigger]
        r.contains(name) implies placeholders_before(s, word, q).contains(name) by {
        if name != s.subrange(p + 1, j) {
            let (a, b) = choose|a: int, b: int|
                a < p && placeholder_at(s, word, a, b) && name == s.subrange(a + 1, b);
            assert(a < q);
        }
    }
    assert(placeholders_before(s, word, q) =~= r);
}

/// A set of placeholder names, each held once.
#[derive(Debug, Clone)]
pub struct PlaceholderSet {
    names: Vec<String>,
}

impl View for PlaceholderSet {
    type V = Set<Seq<char>>;

    open spec fn view(&self) -> Set<Seq<char>> {
        self.name_seq().to_set()
    }
}

impl PlaceholderSet {
    /// The names in the order they were first added.
    pub closed spec fn name_seq(self) -> Seq<Seq<char>> {
        self.names@.map_values(|s: String| s@)
    }

    pub fn new() -> (r: PlaceholderSet)
        ensures
            r@ == Set::<Seq<char>>::empty(),
    {
        let r = PlaceholderSet { names: Vec::new() };
        assert(r.name_seq() =~= Seq::<Seq<char>>::empty());
        assert(r@ =~= Set::<Seq<char>>::empty());
        r
    }

    pub fn contains(&self, name: &String) -> (r: bool)
        ensures
            r == self@.contains(name@),
    {
        let mut i: usize = 0;
        while i < self.names.len()
            invariant
                i <= self.names.len(),
                forall|k: int| 0 <= k < i ==> self.name_seq()[k] != name@,
            decreases self.names.len() - i,
        {
            if self.names[i] == *name {
                assert(self.name_seq()[i as int] == name@);
                return true;
            }
            i = i + 1;
        }
        false
    }

    pub fn insert(&mut self, name: String)
        ensures
            final(self)@ == old(self)@.insert(name@),
    {
        if !self.contains(&name) {
            let ghost before = self.name_seq();
            let ghost nv = name@;
            self.names.push(name);
            assert(self.name_seq() =~= before.push(nv));
            assert(self@ =~= before.to_set().insert(nv)) by {
                before.lemma_push_to_set_commute(nv);
            }
        } else {
            assert(old(self)@.insert(name@) =~= old(self)@);
        }
    }

    /// The names, in the order they were first added.
    pub fn names(&self) -> (r: Vec<String>)
        ensures
            r@.map_values(|s: String| s@) == self.name_seq(),
            self.name_seq().to_set() == self@,
    {
        let mut r: Vec<String> = Vec::new();
        let mut i: usize = 0;
        while i < self.names.len()
            invariant
                i <= self.names.len(),
                r@.map_values(|s: String| s@) =~= self.name_seq().take(i as int),
            decreases self.names.len() - i,
        {
            let ghost prev = r@;
            r.push(self.names[i].clone());
            assert(r@ == prev.push(r@.last()));
            assert(self.name_seq().take(i + 1) =~= self.name_seq().take(i as int).push(
                self.name_seq()[i as int],
            ));
            i = i + 1;
        }
        assert(self.name_seq().take(i as int) =~= self.name_seq());
        r
    }

    pub fn is_subset_of(&self, other: &PlaceholderSet) -> (r: bool)
        ensures
            r == self@.subset_of(other@),
    {
        let mut i: usize = 0;
        while i < self.names.len()
            invariant
                i <= self.names.len(),
                forall|k: int| 0 <= k < i ==> other@.contains(#[trigger] self.name_seq()[k]),
            decreases self.names.len() - i,
        {
            if !other.contains(&self.names[i]) {
                assert(self@.contains(self.name_seq()[i as int]));
                return false;
            }
            i = i + 1;
        }
        assert forall|w: Seq<char>| self@.contains(w) implies other@.contains(w) by {
            let k = choose|k: int| 0 <= k < self.name_seq().len() && self.name_seq()[k] == w;
        }
        true
    }
}

impl PartialEq for PlaceholderSet {
    fn eq(&self, other: &PlaceholderSet) -> (r: bool) {
        let r = self.is_subset_of(other) && other.is_subset_of(self);
        assert(r ==> self@ =~= other@);
        r
    }
}

impl vstd::std_specs::cmp::PartialEqSpecImpl for PlaceholderSet {
    open spec fn obeys_eq_spec() -> bool {
        true
    }

    open spec fn eq_spec(&self, other: &PlaceholderSet) -> bool {
        self@ == other@
    }
}

/// The characters of `text`.
fn chars_of(text: &str) -> (r: Vec<char>)
    ensures
        r@ == text@,
{
    let mut r: Vec<char> = Vec::new();
    for c in it: text.chars()
        invariant
            r@ == it.seq().take(it.index() as int),
            it.seq() == text@,
    {
        r.push(c);
    }
    r
}

/// Collects the names of all `{name}` placeholders in `text`, where `word`
/// marks which characters of `text` are word characters and a name is one or
/// more of them; an unmatched brace is no placeholder.
pub fn placeholders_in(text: &str, word: &Vec<bool>) -> (r: PlaceholderSet)
    requires
        word@.len() == text@.len(),
        forall|k: int| 0 <= k < word@.len() && #[trigger] word@[k] ==> text@[k] != '{' && text@[k] != '}',
    ensures
        r@ == placeholders_by(text@, word@),
{
    let cs = chars_of(text);
    let ghost s = text@;
    let ghost w = word@;
    let n = cs.len();
    let mut found = PlaceholderSet::new();
    let mut i: usize = 0;
    while i < n
        invariant
            cs@ == s,
            s == text@,
            w == word@,
            n == s.len(),
            w.len() == n,
            forall|k: int| 0 <= k < n && #[trigger] w[k] ==> s[k] != '{' && s[k] != '}',
            i <= n,
            found@ == placeholders_before(s, w, i as int),
        decreases n - i,
    {
        if cs[i] == '{' {
            let mut j: usize = i + 1;
            while j < n && word[j]
                invariant
                    cs@ == s,
                    s == text@,
                    w == word@,
                    n == s.len(),
                    w.len() == n,
                    forall|k: int| 0 <= k < n && #[trigger] w[k] ==> s[k] != '{' && s[k] != '}',
                    i < j <= n,
                    s[i as int] == '{',
                    forall|k: int| i < k < j ==> #[trigger] w[k],
                decreases n - j,
            {
                j = j + 1;
            }
            if j > i + 1 && j < n && cs[j] == '}' {
                let name = text.substring_char(i + 1, j).to_owned();
                proof {
                    assert forall|k: int| i < k < j implies s[k] != '}' by {
                        assert(w[k]);
                    }
                    assert forall|a: int, b: int| i + 1 <= a < j + 1 implies !placeholder_at(
                        s,
                        w,
                        a,
                        b,
                    ) by {
                        if a < j {
                            assert(w[a]);
                        }
                    }
                    lemma_before_match(s, w, i as int, j as int, j + 1);
                }
                found.insert(name);
                i = j + 1;
            } else {
                proof {
                    assert forall|a: int, b: int| i <= a < j implies !placeholder_at(
                        s,
                        w,
                        a,
                        b,
                    ) by {
                        if a == i && placeholder_at(s, w, a, b) {
                            if b > j {
                                assert(w[j as int]);
                            }
                            if b < j {
                                assert(w[b]);
                            }
                        }
                        if a > i {
                            assert(w[a]);
                        }
                    }
                    lemma_before_skip(s, w, i as int, j as int);
                }
                i = j;
            }
        } else {
            proof {
                lemma_before_skip(s, w, i as int, i + 1);
            }
            i = i + 1;
        }
    }
    found
}

/// Collects the names of all `{name}` placeholders in `text`, where a name is
/// one or more Unicode word characters; an unmatched brace is no placeholder.
pub fn extract_variables(text: &str) -> (r: PlaceholderSet)
    ensures
        r@ == placeholders(text@),
{
    let mut word: Vec<bool> = Vec::new();
    for c in it: text.chars()
        invariant
            it.seq() == text@,
            word@ == word_flags(it.seq().take(it.index() as int)),
            forall|k: int| 0 <= k < word@.len() && #[trigger] word@[k] ==> text@[k] != '{' && text@[k] != '}',
    {
        let ghost prev = word@;
        let ghost done = it.seq().take(it.index() as int);
        word.push(is_word_char(c));
        assert(it.seq().take(it.index() + 1) =~= done.push(c));
        assert(word@ =~= word_flags(done.push(c)));
    }
    assert(text@.take(text@.len() as int) =~= text@);
    placeholders_in(text, &word)
}

} // verus!
