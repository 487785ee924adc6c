use ctxvault::corpus::{CorpusError, CorpusManager};

#[test]
fn test_create_empty_manager() {
    let manager: CorpusManager<String> = CorpusManager::new();
    assert_eq!(manager.corpus_count(), 0);
    assert!(manager.default_corpus_name().is_none());
    assert_eq!(
        manager.resolve_engine(None).err(),
        Some(CorpusError::NotFound("no default corpus configured".to_string()))
    );
}

#[test]
fn test_add_corpus_sets_default() {
    let mut manager = CorpusManager::new();
    manager.add_corpus("wiki".to_string(), "wiki engine".to_string());
    assert_eq!(manager.corpus_count(), 1);
    assert_eq!(manager.default_corpus_name(), Some("wiki"));
    assert!(manager.has_corpus("wiki"));
    assert!(!manager.has_corpus("docs"));
}

#[test]
fn test_resolve_engine_with_corpus_param() {
    let mut manager = CorpusManager::new();
    manager.add_corpus("wiki".to_string(), "wiki".to_string());
    manager.add_corpus("docs".to_string(), "docs".to_string());
    assert_eq!(manager.resolve_engine_mut(None).unwrap(), "wiki");
    assert_eq!(manager.resolve_engine_mut(Some("docs")).unwrap(), "docs");
    assert!(manager.resolve_engine_mut(Some("nope")).is_err());
    assert_eq!(manager.resolve_engine(None).unwrap(), "wiki");
    assert_eq!(
        manager.resolve_engine(Some("nope")).err(),
        Some(CorpusError::NotFound("corpus not found: nope".to_string()))
    );
}

#[test]
fn set_default_switches_only_to_known_corpora() {
    let mut manager = CorpusManager::new();
    manager.add_corpus("wiki".to_string(), 1u32);
    manager.add_corpus("docs".to_string(), 2u32);
    assert_eq!(
        manager.set_default("code"),
        Err(CorpusError::NotFound("corpus not found: code".to_string()))
    );
    assert_eq!(manager.default_corpus_name(), Some("wiki"));
    assert_eq!(manager.set_default("docs"), Ok(()));
    assert_eq!(manager.default_corpus_name(), Some("docs"));
    assert_eq!(*manager.default_engine().unwrap(), 2);
}

#[test]
fn re_adding_a_corpus_replaces_its_engine() {
    let mut manager = CorpusManager::new();
    manager.add_corpus("wiki".to_string(), 1u32);
    manager.add_corpus("docs".to_string(), 2u32);
    manager.add_corpus("wiki".to_string(), 3u32);
    assert_eq!(manager.corpus_count(), 2);
    assert_eq!(*manager.get_engine("wiki").unwrap(), 3);
    assert_eq!(manager.corpus_names(), vec!["wiki", "docs"]);
    assert_eq!(manager.default_corpus_name(), Some("wiki"));
}

#[test]
fn test_multiple_corpora_isolation() {
    let mut manager: CorpusManager<Vec<String>> = CorpusManager::default();
    manager.add_corpus("wiki".to_string(), Vec::new());
    manager.add_corpus("docs".to_string(), Vec::new());
    assert_eq!(manager.corpus_count(), 2);
    manager.get_engine_mut("wiki").unwrap().push("test.md".to_string());
    manager.get_engine_mut("docs").unwrap().push("guide.md".to_string());
    manager.default_engine_mut().unwrap().push("more.md".to_string());
    let wiki = manager.get_engine("wiki").unwrap();
    assert_eq!(wiki, &vec!["test.md".to_string(), "more.md".to_string()]);
    let docs = manager.get_engine("docs").unwrap();
    assert_eq!(docs, &vec!["guide.md".to_string()]);
    assert!(manager.get_engine_mut("nope").is_err());
}
