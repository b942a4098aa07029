use i18n_check::catalog::{add_document, get_translation_file, Catalog};
use i18n_check::keyspace::KeySpace;
use i18n_check::placeholder::{extract_variables, placeholders_in};
use i18n_check::report::{check_language, check_translations, CheckError, Finding};
use i18n_check::tree::{flatten_document, flatten_json, JsonTree};
use i18n_check::usage::{check_translations_usage, extract_keys_from_content, process_files};

fn s(x: &str) -> String {
    x.to_string()
}

fn obj(entries: Vec<(&str, JsonTree)>) -> JsonTree {
    JsonTree::Object(entries.into_iter().map(|(k, v)| (s(k), v)).collect())
}

fn text(x: &str) -> JsonTree {
    JsonTree::Text(s(x))
}

fn keyspace(pairs: &[(&str, &str)]) -> KeySpace {
    let mut ks = KeySpace::new();
    for (k, v) in pairs {
        ks.insert(s(k), s(v));
    }
    ks
}

fn sorted_names(text: &str) -> Vec<String> {
    let mut v = extract_variables(text).names();
    v.sort();
    v
}

fn catalog(langs: Vec<(&str, KeySpace)>) -> Catalog {
    let mut c = Catalog::new();
    for (l, ks) in langs {
        c.insert(s(l), ks);
    }
    c
}

#[test]
fn flatten_nested_path_gives_one_dotted_key() {
    let doc = obj(vec![("a", obj(vec![("b", obj(vec![("c", text("value"))]))]))]);
    let ks = flatten_document(&doc);
    assert_eq!(ks.len(), 1);
    assert_eq!(ks.get(&s("a.b.c")), Some(&s("value")));
}

#[test]
fn flatten_without_strings_is_empty() {
    let doc = obj(vec![
        ("n", JsonTree::Other),
        ("inner", obj(vec![("flag", JsonTree::Other), ("empty", obj(vec![]))])),
    ]);
    assert_eq!(flatten_document(&doc).len(), 0);
    assert_eq!(flatten_document(&JsonTree::Other).len(), 0);
}

#[test]
fn flatten_skips_non_string_leaves() {
    let doc = obj(vec![
        ("title", text("Hello")),
        ("count", JsonTree::Other),
        ("menu", obj(vec![("open", text("Open")), ("list", JsonTree::Other)])),
    ]);
    let ks = flatten_document(&doc);
    assert_eq!(ks.len(), 2);
    assert_eq!(ks.get(&s("title")), Some(&s("Hello")));
    assert_eq!(ks.get(&s("menu.open")), Some(&s("Open")));
    assert_eq!(ks.get(&s("count")), None);
}

#[test]
fn flatten_under_prefix() {
    let mut ks = KeySpace::new();
    flatten_json(&obj(vec![("x", text("1"))]), s("root"), &mut ks);
    flatten_json(&text("top"), s("leaf"), &mut ks);
    assert_eq!(ks.get(&s("root.x")), Some(&s("1")));
    assert_eq!(ks.get(&s("leaf")), Some(&s("top")));
    assert_eq!(ks.len(), 2);
}

#[test]
fn extract_two_placeholders() {
    assert_eq!(sorted_names("Hello {name}, you have {count} items"), vec![s("count"), s("name")]);
}

#[test]
fn extract_without_placeholders() {
    assert!(sorted_names("no placeholders").is_empty());
    assert!(sorted_names("").is_empty());
}

#[test]
fn extract_collapses_duplicates() {
    assert_eq!(sorted_names("{a}{a}"), vec![s("a")]);
    assert_eq!(extract_variables("{a} and {a}").names().len(), 1);
}

#[test]
fn extract_ignores_malformed_braces() {
    assert!(sorted_names("{").is_empty());
    assert!(sorted_names("{}").is_empty());
    assert!(sorted_names("{unclosed").is_empty());
    assert!(sorted_names("{two words}").is_empty());
    assert!(sorted_names("{a-b}").is_empty());
    assert_eq!(sorted_names("{{inner}}"), vec![s("inner")]);
    assert_eq!(sorted_names("{x {y}"), vec![s("y")]);
    assert_eq!(sorted_names("{snake_case_1}"), vec![s("snake_case_1")]);
}

#[test]
fn extract_accepts_unicode_word_characters() {
    assert_eq!(sorted_names("Bonjour {prénom}"), vec![s("prénom")]);
    assert_eq!(sorted_names("{名前}"), vec![s("名前")]);
    assert!(sorted_names("{a€}").is_empty());
}

#[test]
fn placeholder_sets_compare_as_sets() {
    assert!(extract_variables("{a} {b}") == extract_variables("{b} then {a} {a}"));
    assert!(extract_variables("{a}") != extract_variables("{A}"));
    assert!(extract_variables("{a}") != extract_variables("{a} {b}"));
}

#[test]
fn identical_languages_have_no_findings() {
    let base = keyspace(&[("greeting", "Hi {name}"), ("bye", "Bye")]);
    let other = keyspace(&[("greeting", "Hi {name}"), ("bye", "Bye")]);
    let c = catalog(vec![("fr", base), ("en", other)]);
    let report = check_translations(&s("fr"), &c, &Catalog::new(), &vec![]).unwrap();
    assert_eq!(report.languages.len(), 1);
    assert!(report.languages[0].findings.is_empty());
    assert!(!report.has_errors());
}

#[test]
fn missing_key_is_reported() {
    let c = catalog(vec![("fr", keyspace(&[("greeting", "Hi {name}")])), ("en", KeySpace::new())]);
    let report = check_translations(&s("fr"), &c, &Catalog::new(), &vec![]).unwrap();
    let findings = &report.languages[0].findings;
    assert_eq!(findings.len(), 1);
    match &findings[0] {
        Finding::MissingKey { key, file } => {
            assert_eq!(key, "greeting");
            assert_eq!(*file, None);
        }
        other => panic!("unexpected finding {:?}", other),
    }
    assert!(report.has_errors());
}

#[test]
fn extra_key_is_reported() {
    let mut files = Catalog::new();
    files.insert(s("en"), keyspace(&[("orphan", "en/common.json")]));
    let c = catalog(vec![("fr", KeySpace::new()), ("en", keyspace(&[("orphan", "x")]))]);
    let report = check_translations(&s("fr"), &c, &files, &vec![]).unwrap();
    let findings = &report.languages[0].findings;
    assert_eq!(findings.len(), 1);
    match &findings[0] {
        Finding::ExtraKey { key, file } => {
            assert_eq!(key, "orphan");
            assert_eq!(file.as_deref(), Some("en/common.json"));
        }
        other => panic!("unexpected finding {:?}", other),
    }
    assert!(report.has_errors());
}

#[test]
fn variable_mismatch_is_reported() {
    let mut files = Catalog::new();
    files.insert(s("fr"), keyspace(&[("welcome.msg", "fr/welcome.json")]));
    files.insert(s("en"), keyspace(&[("welcome.msg", "en/welcome.json")]));
    let c = catalog(vec![
        ("fr", keyspace(&[("welcome.msg", "Hi {name}")])),
        ("en", keyspace(&[("welcome.msg", "Bonjour {nom}")])),
    ]);
    let report = check_translations(&s("fr"), &c, &files, &vec![]).unwrap();
    let findings = &report.languages[0].findings;
    assert_eq!(findings.len(), 1);
    match &findings[0] {
        Finding::VariableMismatch { key, expected, found, expected_file, found_file } => {
            assert_eq!(key, "welcome.msg");
            assert_eq!(expected.names(), vec![s("name")]);
            assert_eq!(found.names(), vec![s("nom")]);
            assert_eq!(expected_file.as_deref(), Some("fr/welcome.json"));
            assert_eq!(found_file.as_deref(), Some("en/welcome.json"));
        }
        other => panic!("unexpected finding {:?}", other),
    }
}

#[test]
fn placeholder_order_does_not_matter() {
    let c = catalog(vec![
        ("fr", keyspace(&[("k", "{a} et {b}")])),
        ("en", keyspace(&[("k", "{b} and {a}")])),
    ]);
    let report = check_translations(&s("fr"), &c, &Catalog::new(), &vec![]).unwrap();
    assert!(!report.has_errors());
}

#[test]
fn findings_come_missing_extra_mismatch_unused() {
    let base = keyspace(&[("a", "{x}"), ("b", "B"), ("c", "C"), ("d", "D")]);
    let target = keyspace(&[("z", "Z"), ("a", "{y}"), ("c", "C"), ("d", "D")]);
    let unused = vec![s("d"), s("b")];
    let r = check_language(&s("fr"), &base, &s("de"), &target, &Catalog::new(), &unused);
    assert_eq!(r.language, "de");
    let kinds: Vec<String> = r
        .findings
        .iter()
        .map(|f| match f {
            Finding::MissingKey { key, .. } => format!("missing {}", key),
            Finding::ExtraKey { key, .. } => format!("extra {}", key),
            Finding::VariableMismatch { key, .. } => format!("mismatch {}", key),
            Finding::UnusedKeyStillTranslated { key, language, .. } => {
                format!("unused {} {}", key, language)
            }
        })
        .collect();
    assert_eq!(kinds, vec![s("missing b"), s("extra z"), s("mismatch a"), s("unused d de")]);
    assert!(r.has_errors());
}

#[test]
fn unused_key_still_translated_is_reported() {
    let mut files = Catalog::new();
    files.insert(s("en"), keyspace(&[("old.key", "en/old.json")]));
    let c = catalog(vec![
        ("fr", keyspace(&[("old.key", "Vieux")])),
        ("en", keyspace(&[("old.key", "Old")])),
    ]);
    let report = check_translations(&s("fr"), &c, &files, &vec![s("old.key")]).unwrap();
    let findings = &report.languages[0].findings;
    assert_eq!(findings.len(), 1);
    match &findings[0] {
        Finding::UnusedKeyStillTranslated { key, language, file } => {
            assert_eq!(key, "old.key");
            assert_eq!(language, "en");
            assert_eq!(file.as_deref(), Some("en/old.json"));
        }
        other => panic!("unexpected finding {:?}", other),
    }
    assert!(report.has_errors());
}

#[test]
fn missing_base_language_is_fatal() {
    let c = catalog(vec![("en", keyspace(&[("k", "v")]))]);
    let r = check_translations(&s("fr"), &c, &Catalog::new(), &vec![]);
    assert_eq!(r.err(), Some(CheckError::MissingBaseLanguage));
}

#[test]
fn base_alone_has_no_errors() {
    let c = catalog(vec![("fr", keyspace(&[("k", "v")]))]);
    let report = check_translations(&s("fr"), &c, &Catalog::new(), &vec![]).unwrap();
    assert!(report.languages.is_empty());
    assert!(!report.has_errors());
}

#[test]
fn languages_are_reported_in_catalog_order() {
    let c = catalog(vec![
        ("de", keyspace(&[])),
        ("fr", keyspace(&[("k", "v")])),
        ("en", keyspace(&[("k", "v")])),
    ]);
    let report = check_translations(&s("fr"), &c, &Catalog::new(), &vec![]).unwrap();
    let langs: Vec<&str> = report.languages.iter().map(|l| l.language.as_str()).collect();
    assert_eq!(langs, vec!["de", "en"]);
    assert!(report.languages[0].has_errors());
    assert!(!report.languages[1].has_errors());
    assert!(report.has_errors());
}

#[test]
fn unused_key_is_a_plain_substring_test() {
    let keys = vec![s("footer.copyright"), s("header.title")];
    let sources = vec![s("const t = i18n('header.title');")];
    assert_eq!(check_translations_usage(&keys, &sources), vec![s("footer.copyright")]);

    let sources = vec![s("let x = myfooter.copyrightNotice;")];
    assert_eq!(check_translations_usage(&keys, &sources), vec![s("header.title")]);
}

#[test]
fn usage_over_several_files() {
    let keys = vec![s("a.one"), s("b.two"), s("c.three")];
    let sources = vec![s("uses c.three"), s("nothing here"), s("and a.one")];
    assert_eq!(process_files(&sources, &keys), vec![s("a.one"), s("c.three")]);
    assert_eq!(check_translations_usage(&keys, &sources), vec![s("b.two")]);
    assert_eq!(check_translations_usage(&keys, &vec![]), keys);
}

#[test]
fn keys_found_in_one_content() {
    let keys = vec![s("a.b"), s("x.y"), s("")];
    assert_eq!(extract_keys_from_content("t('a.b')", &keys), vec![s("a.b"), s("")]);
    assert_eq!(extract_keys_from_content("", &keys), vec![s("")]);
}

#[test]
fn running_twice_gives_the_same_report() {
    let c = catalog(vec![
        ("fr", keyspace(&[("a", "{x}"), ("b", "B")])),
        ("en", keyspace(&[("a", "{y}"), ("c", "C")])),
        ("de", keyspace(&[("b", "B")])),
    ]);
    let files = Catalog::new();
    let unused = vec![s("b")];
    let first = check_translations(&s("fr"), &c, &files, &unused).unwrap();
    let second = check_translations(&s("fr"), &c, &files, &unused).unwrap();
    assert_eq!(format!("{:?}", first), format!("{:?}", second));
}

#[test]
fn insertion_order_does_not_change_the_findings() {
    let base1 = keyspace(&[("a", "A"), ("b", "B"), ("c", "{v}")]);
    let base2 = keyspace(&[("c", "{v}"), ("b", "B"), ("a", "A")]);
    let target1 = keyspace(&[("x", "X"), ("c", "{w}")]);
    let target2 = keyspace(&[("c", "{w}"), ("x", "X")]);
    let files = Catalog::new();
    let describe = |r: &i18n_check::report::LanguageReport| {
        let mut v: Vec<String> = r.findings.iter().map(|f| format!("{:?}", f)).collect();
        v.sort();
        v
    };
    let r1 = check_language(&s("fr"), &base1, &s("en"), &target1, &files, &vec![]);
    let r2 = check_language(&s("fr"), &base2, &s("en"), &target2, &files, &vec![]);
    assert_eq!(describe(&r1), describe(&r2));
    assert_eq!(r1.findings.len(), 4);
}

#[test]
fn file_lookup_falls_back_to_none() {
    let mut files = Catalog::new();
    files.insert(s("fr"), keyspace(&[("k", "fr/a.json")]));
    assert_eq!(get_translation_file(&files, &s("fr"), &s("k")), Some(s("fr/a.json")));
    assert_eq!(get_translation_file(&files, &s("fr"), &s("other")), None);
    assert_eq!(get_translation_file(&files, &s("en"), &s("k")), None);
}

#[test]
fn later_document_wins_a_shared_key() {
    let mut values = KeySpace::new();
    let mut paths = KeySpace::new();
    let first = obj(vec![("shared", text("one")), ("only1", text("1"))]);
    let second = obj(vec![("shared", text("two")), ("n", JsonTree::Other)]);
    add_document(&mut values, &mut paths, &s("a.json"), &first);
    add_document(&mut values, &mut paths, &s("b.json"), &second);
    assert_eq!(values.len(), 2);
    assert_eq!(values.get(&s("shared")), Some(&s("two")));
    assert_eq!(paths.get(&s("shared")), Some(&s("b.json")));
    assert_eq!(paths.get(&s("only1")), Some(&s("a.json")));
    assert_eq!(paths.get(&s("n")), None);
}

#[test]
fn keyspace_insert_replaces_in_place() {
    let mut ks = keyspace(&[("a", "1"), ("b", "2")]);
    ks.insert(s("a"), s("3"));
    assert_eq!(ks.keys(), vec![s("a"), s("b")]);
    assert_eq!(ks.get(&s("a")), Some(&s("3")));
    assert!(ks.contains_key(&s("b")));
    assert!(!ks.contains_key(&s("c")));
}

#[test]
fn placeholders_follow_the_given_word_flags() {
    let all = placeholders_in("{ab}", &vec![false, true, true, false]).names();
    assert_eq!(all, vec![s("ab")]);
    let part = placeholders_in("{ab}", &vec![false, true, false, false]).names();
    assert!(part.is_empty());
    let none = placeholders_in("{a}{b}", &vec![false; 6]).names();
    assert!(none.is_empty());
    let mut both = placeholders_in("{a}{b}{a}", &vec![false, true, false, false, true, false, false, true, false]).names();
    both.sort();
    assert_eq!(both, vec![s("a"), s("b")]);
}
