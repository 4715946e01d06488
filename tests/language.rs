use synless::language::{
    validate_grammar, AritySpec, ConstructSpec, GrammarSpec, LanguageError, LanguageSet, SortSpec,
};

fn construct(name: &str, arity: AritySpec, key: Option<char>) -> ConstructSpec {
    ConstructSpec { name: name.to_string(), arity, key }
}

fn json() -> GrammarSpec {
    GrammarSpec {
        constructs: vec![
            construct("root", AritySpec::Fixed(vec!["value".to_string()]), None),
            construct("list", AritySpec::Listy("value".to_string()), Some('l')),
            construct("true", AritySpec::Fixed(vec![]), Some('t')),
            construct("string", AritySpec::Texty, Some('s')),
            construct("hole", AritySpec::Fixed(vec![]), None),
        ],
        sorts: vec![SortSpec {
            name: "value".to_string(),
            members: vec!["list".to_string(), "true".to_string(), "string".to_string()],
        }],
    }
}

#[test]
fn a_good_grammar_passes() {
    assert!(validate_grammar(&json()).is_ok());
}

#[test]
fn duplicate_construct_is_reported() {
    let mut g = json();
    g.constructs.push(construct("list", AritySpec::Texty, None));
    assert!(matches!(validate_grammar(&g), Err(LanguageError::DuplicateConstruct(n)) if n == "list"));
}

#[test]
fn duplicate_sort_is_reported() {
    let mut g = json();
    g.sorts.push(SortSpec { name: "value".to_string(), members: vec![] });
    assert!(matches!(validate_grammar(&g), Err(LanguageError::DuplicateSort(n)) if n == "value"));
}

#[test]
fn construct_and_sort_clash_is_reported() {
    let mut g = json();
    g.sorts.push(SortSpec { name: "true".to_string(), members: vec![] });
    assert!(matches!(validate_grammar(&g), Err(LanguageError::DuplicateConstructAndSort(n)) if n == "true"));
}

#[test]
fn undefined_names_are_reported() {
    let mut g = json();
    g.constructs.push(construct("pair", AritySpec::Fixed(vec!["value".to_string(), "key".to_string()]), None));
    assert!(matches!(validate_grammar(&g), Err(LanguageError::UndefinedConstructOrSort(n)) if n == "key"));
    let mut h = json();
    h.sorts[0].members.push("number".to_string());
    assert!(matches!(validate_grammar(&h), Err(LanguageError::UndefinedConstructOrSort(n)) if n == "number"));
}

#[test]
fn the_universal_sort_needs_no_definition() {
    let mut g = json();
    g.constructs.push(construct("anything", AritySpec::Listy("Any".to_string()), None));
    assert!(validate_grammar(&g).is_ok());
}

#[test]
fn duplicate_keys_are_reported() {
    let mut g = json();
    g.constructs.push(construct("tuple", AritySpec::Listy("value".to_string()), Some('t')));
    assert!(matches!(
        validate_grammar(&g),
        Err(LanguageError::DuplicateKey('t', a, b)) if a == "true" && b == "tuple"
    ));
}

#[test]
fn languages_are_registered_once_and_looked_up() {
    let mut set = LanguageSet::new();
    assert!(set.insert("json".to_string(), json()).is_ok());
    assert!(matches!(set.insert("json".to_string(), json()), Err(LanguageError::DuplicateLanguage(n)) if n == "json"));
    assert_eq!(set.get(&"json".to_string()).unwrap().constructs.len(), 5);
    assert!(matches!(set.get(&"yaml".to_string()), Err(LanguageError::UndefinedLanguage(n)) if n == "yaml"));
    let mut bad = json();
    bad.sorts.push(SortSpec { name: "value".to_string(), members: vec![] });
    assert!(matches!(set.insert("bad".to_string(), bad), Err(LanguageError::DuplicateSort(_))));
    assert_eq!(set.languages.len(), 1);
}
