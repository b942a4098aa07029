use vstd::prelude::*;
use crate::catalog::{Catalog, FileIndex, file_of, get_translation_file, opt_view};
use crate::keyspace::{KeySpace, lemma_pairs_map};
use crate::seqs::{views_of, lemma_filter_map_step};
use crate::placeholder::{PlaceholderSet, extract_variables, placeholders};

verus! {

/// What a finding states, over plain values.
pub enum FindingView {
    MissingKey { key: Seq<char>, file: Option<Seq<char>> },
    ExtraKey { key: Seq<char>, file: Option<Seq<char>> },
    VariableMismatch {
        key: Seq<char>,
        expected: Set<Seq<char>>,
        found: Set<Seq<char>>,
        expected_file: Option<Seq<char>>,
        found_file: Option<Seq<char>>,
    },
    UnusedKeyStillTranslated { key: Seq<char>, language: Seq<char>, file: Option<Seq<char>> },
}

/// One problem found in a language, with the file each key came from where
/// the file index knows it.
#[derive(Debug)]
pub enum Finding {
    /// A base key that the language lacks.
    MissingKey { key: String, file: Option<String> },
    /// A key of the language that the base lacks.
    ExtraKey { key: String, file: Option<String> },
    /// A key whose placeholders differ from the base's.
    VariableMismatch {
        key: String,
        expected: PlaceholderSet,
        found: PlaceholderSet,
        expected_file: Option<String>,
        found_file: Option<String>,
    },
    /// A key that no source file uses and that the language still defines.
    UnusedKeyStillTranslated { key: String, language: String, file: Option<String> },
}

impl View for Finding {
    type V = FindingView;

    open spec fn view(&self) -> FindingView {
        match self {
            Finding::MissingKey { key, file } => FindingView::MissingKey {
                key: key@,
                file: opt_view(*file),
            },
            Finding::ExtraKey { key, file } => FindingView::ExtraKey {
                key: key@,
                file: opt_view(*file),
            },
            Finding::VariableMismatch { key, expected, found, expected_file, found_file } =>
                FindingView::VariableMismatch {
                key: key@,
                expected: expected@,
                found: found@,
                expected_file: opt_view(*expected_file),
                found_file: opt_view(*found_file),
            },
            Finding::UnusedKeyStillTranslated { key, language, file } =>
                FindingView::UnusedKeyStillTranslated {
                key: key@,
                language: language@,
                file: opt_view(*file),
            },
        }
    }
}

pub open spec fn findings_view(v: Seq<Finding>) -> Seq<FindingView> {
    v.map_values(|f: Finding| f@)
}

/// A MissingKey for each base key that `target` lacks, in base order.
pub open spec fn missing_findings(
    base: KeySpace,
    target: KeySpace,
    lang: Seq<char>,
    files: FileIndex,
) -> Seq<FindingView> {
    base.key_seq().filter_map(
        |k: Seq<char>|
            if !target@.contains_key(k) {
                Some(FindingView::MissingKey { key: k, file: file_of(files, lang, k) })
            } else {
                None
            },
    )
}

/// An ExtraKey for each key of `target` that the base lacks, in target order.
pub open spec fn extra_findings(
    base: KeySpace,
    target: KeySpace,
    lang: Seq<char>,
    files: FileIndex,
) -> Seq<FindingView> {
    target.key_seq().filter_map(
        |k: Seq<char>|
            if !base@.contains_key(k) {
                Some(FindingView::ExtraKey { key: k, file: file_of(files, lang, k) })
            } else {
                None
            },
    )
}

/// A VariableMismatch for each key of both whose placeholder sets differ, in
/// base order.
pub open spec fn mismatch_findings(
    base_lang: Seq<char>,
    base: KeySpace,
    lang: Seq<char>,
    target: KeySpace,
    files: FileIndex,
) -> Seq<FindingView> {
    base.key_seq().filter_map(
        |k: Seq<char>|
            if target@.contains_key(k) && placeholders(base@[k]) != placeholders(target@[k]) {
                Some(
                    FindingView::VariableMismatch {
                        key: k,
                        expected: placeholders(base@[k]),
                        found: placeholders(target@[k]),
                        expected_file: file_of(files, base_lang, k),
                        found_file: file_of(files, lang, k),
                    },
                )
            } else {
                None
            },
    )
}

/// An UnusedKeyStillTranslated for each unused key that `target` defines, in
/// the order of `unused`.
pub open spec fn unused_findings(
    lang: Seq<char>,
    target: KeySpace,
    files: FileIndex,
    unused: Seq<Seq<char>>,
) -> Seq<FindingView> {
    unused.filter_map(
        |k: Seq<char>|
            if target@.contains_key(k) {
                Some(
                    FindingView::UnusedKeyStillTranslated {
                        key: k,
                        language: lang,
                        file: file_of(files, lang, k),
                    },
                )
            } else {
                None
            },
    )
}

/// Everything found in one language against the base: missing keys, then
/// extra keys, then placeholder mismatches, then unused keys still present.
pub open spec fn language_findings(
    base_lang: Seq<char>,
    base: KeySpace,
    lang: Seq<char>,
    target: KeySpace,
    files: FileIndex,
    unused: Seq<Seq<char>>,
) -> Seq<FindingView> {
    missing_findings(base, target, lang, files) + extra_findings(base, target, lang, files)
        + mismatch_findings(base_lang, base, lang, target, files) + unused_findings(
        lang,
        target,
        files,
        unused,
    )
}

/// The findings of one language.
#[derive(Debug)]
pub struct LanguageReport {
    pub language: String,
    pub findings: Vec<Finding>,
}

impl View for LanguageReport {
    type V = (Seq<char>, Seq<FindingView>);

    open spec fn view(&self) -> (Seq<char>, Seq<FindingView>) {
        (self.language@, findings_view(self.findings@))
    }
}

impl LanguageReport {
    /// Whether anything was found in this language.
    pub fn has_errors(&self) -> (r: bool)
        ensures
            r == (self.findings@.len() > 0),
    {
        self.findings.len() > 0
    }
}

/// Checks one language against the base: `base_lang` and `base` are the base
/// language and its key space, `lang` and `target` the language checked,
/// `unused` the keys that no source file uses.
pub fn check_language(
    base_lang: &String,
    base: &KeySpace,
    lang: &String,
    target: &KeySpace,
    files: &FileIndex,
    unused: &Vec<String>,
) -> (r: LanguageReport)
    requires
        base.wf(),
        target.wf(),
        files.wf(),
    ensures
        r@.0 == lang@,
        r@.1 == language_findings(base_lang@, *base, lang@, *target, *files, views_of(unused@)),
{
    let mut out: Vec<Finding> = Vec::new();
    let ghost bk = base.key_seq();
    let ghost tk = target.key_seq();
    let ghost uk = views_of(unused@);
    let ghost fm = |k: Seq<char>|
        if !target@.contains_key(k) {
            Some(FindingView::MissingKey { key: k, file: file_of(*files, lang@, k) })
        } else {
            None
        };
    let ghost fe = |k: Seq<char>|
        if !base@.contains_key(k) {
            Some(FindingView::ExtraKey { key: k, file: file_of(*files, lang@, k) })
        } else {
            None
        };
    let ghost fv = |k: Seq<char>|
        if target@.contains_key(k) && placeholders(base@[k]) != placeholders(target@[k]) {
            Some(
                FindingView::VariableMismatch {
                    key: k,
                    expected: placeholders(base@[k]),
                    found: placeholders(target@[k]),
                    expected_file: file_of(*files, base_lang@, k),
                    found_file: file_of(*files, lang@, k),
                },
            )
        } else {
            None
        };
    let ghost fu = |k: Seq<char>|
        if target@.contains_key(k) {
            Some(
                FindingView::UnusedKeyStillTranslated {
                    key: k,
                    language: lang@,
                    file: file_of(*files, lang@, k),
                },
            )
        } else {
            None
        };
    proof {
        lemma_pairs_map(base.entries());
        lemma_pairs_map(target.entries());
        assert(bk.take(0) =~= Seq::<Seq<char>>::empty());
        assert(tk.take(0) =~= Seq::<Seq<char>>::empty());
        assert(uk.take(0) =~= Seq::<Seq<char>>::empty());
        assert(findings_view(out@) =~= bk.take(0).filter_map(fm));
    }

    let mut i: usize = 0;
    while i < base.len()
        invariant
            base.wf(),
            target.wf(),
            files.wf(),
            bk == base.key_seq(),
            i <= bk.len(),
            forall|j: int| 0 <= j < bk.len() ==> #[trigger] base@[bk[j]] == base.entries()[j].1,
            fm == (|k: Seq<char>|
                if !target@.contains_key(k) {
                    Some(FindingView::MissingKey { key: k, file: file_of(*files, lang@, k) })
                } else {
                    None
                }),
            findings_view(out@) == bk.take(i as int).filter_map(fm),
        decreases bk.len() - i,
    {
        proof {
            lemma_filter_map_step(bk, i as int, fm);
        }
        let (key, _) = base.entry(i);
        if !target.contains_key(key) {
            let file = get_translation_file(files, lang, key);
            let ghost prev = out@;
            out.push(Finding::MissingKey { key: key.clone(), file });
            assert(findings_view(out@) =~= findings_view(prev).push(fm(bk[i as int]).unwrap()));
        }
        i = i + 1;
    }
    let ghost part1 = findings_view(out@);
    assert(bk.take(i as int) =~= bk);
    assert(part1 + tk.take(0).filter_map(fe) =~= part1);

    let mut i: usize = 0;
    while i < target.len()
        invariant
            base.wf(),
            target.wf(),
            files.wf(),
            tk == target.key_seq(),
            i <= tk.len(),
            fe == (|k: Seq<char>|
                if !base@.contains_key(k) {
                    Some(FindingView::ExtraKey { key: k, file: file_of(*files, lang@, k) })
                } else {
                    None
                }),
            findings_view(out@) == part1 + tk.take(i as int).filter_map(fe),
        decreases tk.len() - i,
    {
        proof {
            lemma_filter_map_step(tk, i as int, fe);
        }
        let (key, _) = target.entry(i);
        if !base.contains_key(key) {
            let file = get_translation_file(files, lang, key);
            let ghost prev = out@;
            out.push(Finding::ExtraKey { key: key.clone(), file });
            assert(findings_view(out@) =~= findings_view(prev).push(fe(tk[i as int]).unwrap()));
        }
        i = i + 1;
    }
    let ghost part2 = findings_view(out@);
    assert(tk.take(i as int) =~= tk);
    assert(part2 + bk.take(0).filter_map(fv) =~= part2);

    let mut i: usize = 0;
    while i < base.len()
        invariant
            base.wf(),
            target.wf(),
            files.wf(),
            bk == base.key_seq(),
            i <= bk.len(),
            forall|j: int| 0 <= j < bk.len() ==> #[trigger] base@[bk[j]] == base.entries()[j].1,
            fv == (|k: Seq<char>|
                if target@.contains_key(k) && placeholders(base@[k]) != placeholders(
                    target@[k],
                ) {
                    Some(
                        FindingView::VariableMismatch {
                            key: k,
                            expected: placeholders(base@[k]),
                            found: placeholders(target@[k]),
                            expected_file: file_of(*files, base_lang@, k),
                            found_file: file_of(*files, lang@, k),
                        },
                    )
                } else {
                    None
                }),
            findings_view(out@) == part2 + bk.take(i as int).filter_map(fv),
        decreases bk.len() - i,
    {
        proof {
            lemma_filter_map_step(bk, i as int, fv);
        }
        let (key, base_value) = base.entry(i);
        assert(bk[i as int] == key@);
        match target.get(key) {
            Some(value) => {
                let expected = extract_variables(base_value.as_str());
                let found = extract_variables(value.as_str());
                if !(expected == found) {
                    let expected_file = get_translation_file(files, base_lang, key);
                    let found_file = get_translation_file(files, lang, key);
                    let ghost prev = out@;
                    out.push(
                        Finding::VariableMismatch {
                            key: key.clone(),
                            expected,
                            found,
                            expected_file,
                            found_file,
                        },
                    );
                    assert(findings_view(out@) =~= findings_view(prev).push(
                        fv(bk[i as int]).unwrap(),
                    ));
                }
            },
            None => {},
        }
        i = i + 1;
    }
    let ghost part3 = findings_view(out@);
    assert(bk.take(i as int) =~= bk);
    assert(part3 + uk.take(0).filter_map(fu) =~= part3);

    let mut i: usize = 0;
    while i < unused.len()
        invariant
            target.wf(),
            files.wf(),
            uk == views_of(unused@),
            i <= uk.len(),
            fu == (|k: Seq<char>|
                if target@.contains_key(k) {
                    Some(
                        FindingView::UnusedKeyStillTranslated {
                            key: k,
                            language: lang@,
                            file: file_of(*files, lang@, k),
                        },
                    )
                } else {
                    None
                }),
            findings_view(out@) == part3 + uk.take(i as int).filter_map(fu),
        decreases uk.len() - i,
    {
        proof {
            lemma_filter_map_step(uk, i as int, fu);
        }
        let key = &unused[i];
        if target.contains_key(key) {
            let file = get_translation_file(files, lang, key);
            let ghost prev = out@;
            out.push(
                Finding::UnusedKeyStillTranslated { key: key.clone(), language: lang.clone(), file },
            );
            assert(findings_view(out@) =~= findings_view(prev).push(fu(uk[i as int]).unwrap()));
        }
        i = i + 1;
    }
    assert(uk.take(i as int) =~= uk);
    assert(findings_view(out@) =~= language_findings(
        base_lang@,
        *base,
        lang@,
        *target,
        *files,
        uk,
    ));
    LanguageReport { language: lang.clone(), findings: out }
}

/// Whether any language of a report has a finding.
pub open spec fn report_has_errors(v: Seq<(Seq<char>, Seq<FindingView>)>) -> bool {
    exists|i: int| 0 <= i < v.len() && (#[trigger] v[i]).1.len() > 0
}

/// The findings of every language but the base, in catalog order.
#[derive(Debug)]
pub struct Report {
    pub languages: Vec<LanguageReport>,
}

impl View for Report {
    type V = Seq<(Seq<char>, Seq<FindingView>)>;

    open spec fn view(&self) -> Seq<(Seq<char>, Seq<FindingView>)> {
        self.languages@.map_values(|l: LanguageReport| l@)
    }
}

impl Report {
    /// Whether any language has a finding: the run's pass/fail signal.
    pub fn has_errors(&self) -> (r: bool)
        ensures
            r == report_has_errors(self@),
    {
        let mut i: usize = 0;
        while i < self.languages.len()
            invariant
                i <= self.languages.len(),
                forall|j: int| 0 <= j < i ==> (#[trigger] self@[j]).1.len() == 0,
            decreases self.languages.len() - i,
        {
            if self.languages[i].has_errors() {
                assert(self@[i as int].1.len() > 0);
                return true;
            }
            i = i + 1;
        }
        false
    }
}

/// Why a catalog could not be checked at all.
#[derive(Debug, Clone, Copy, PartialEq, Eq, Structural)]
pub enum CheckError {
    /// The base language is not in the catalog.
    MissingBaseLanguage,
}

/// The report entry for one language of a catalog: none for the base
/// language itself.
pub open spec fn report_entry(
    base_lang: Seq<char>,
    catalog: Catalog,
    files: FileIndex,
    unused: Seq<Seq<char>>,
    e: (Seq<char>, KeySpace),
) -> Option<(Seq<char>, Seq<FindingView>)> {
    if e.0 != base_lang {
        Some((e.0, language_findings(base_lang, catalog@[base_lang], e.0, e.1, files, unused)))
    } else {
        None
    }
}

/// The report on `catalog` against `base_lang`: one entry per other language,
/// in catalog order.
pub open spec fn report_spec(
    base_lang: Seq<char>,
    catalog: Catalog,
    files: FileIndex,
    unused: Seq<Seq<char>>,
) -> Seq<(Seq<char>, Seq<FindingView>)> {
    catalog.table().filter_map(
        |e: (Seq<char>, KeySpace)| report_entry(base_lang, catalog, files, unused, e),
    )
}

/// Checks every language of `translations` other than `base_lang` against
/// it. `unused_keys` are the base keys that no source file uses; pass none to
/// skip that check.
pub fn check_translations(
    base_lang: &String,
    translations: &Catalog,
    file_mapping: &FileIndex,
    unused_keys: &Vec<String>,
) -> (r: Result<Report, CheckError>)
    requires
        translations.wf(),
        file_mapping.wf(),
    ensures
        r is Err <==> !translations@.contains_key(base_lang@),
        r matches Ok(rep) ==> rep@ == report_spec(
            base_lang@,
            *translations,
            *file_mapping,
            views_of(unused_keys@),
        ),
{
    let base = match translations.get(base_lang) {
        Some(b) => b,
        None => return Err(CheckError::MissingBaseLanguage),
    };
    let ghost t = translations.table();
    let ghost uk = views_of(unused_keys@);
    let ghost f = |e: (Seq<char>, KeySpace)|
        report_entry(base_lang@, *translations, *file_mapping, uk, e);
    let mut out: Vec<LanguageReport> = Vec::new();
    let mut i: usize = 0;
    assert(t.take(0) =~= Seq::<(Seq<char>, KeySpace)>::empty());
    assert(out@.map_values(|l: LanguageReport| l@) =~= t.take(0).filter_map(f));
    while i < translations.len()
        invariant
            translations.wf(),
            file_mapping.wf(),
            base.wf(),
            *base == translations@[base_lang@],
            t == translations.table(),
            uk == views_of(unused_keys@),
            i <= t.len(),
            f == (|e: (Seq<char>, KeySpace)|
                report_entry(base_lang@, *translations, *file_mapping, uk, e)),
            out@.map_values(|l: LanguageReport| l@) == t.take(i as int).filter_map(f),
        decreases t.len() - i,
    {
        proof {
            lemma_filter_map_step(t, i as int, f);
        }
        let (lang, keys) = translations.language(i);
        assert(t[i as int].1.wf());
        if !(*lang == *base_lang) {
            let report = check_language(base_lang, base, lang, keys, file_mapping, unused_keys);
            let ghost prev = out@;
            out.push(report);
            assert(out@.map_values(|l: LanguageReport| l@) =~= prev.map_values(
                |l: LanguageReport| l@,
            ).push(f(t[i as int]).unwrap()));
        }
        i = i + 1;
    }
    assert(t.take(i as int) =~= t);
    Ok(Report { languages: out })
}

} // verus!
