use ctxvault::records::IndexingStatus;

#[test]
fn status_names_round_trip() {
    for s in [
        IndexingStatus::Idle,
        IndexingStatus::Indexing,
        IndexingStatus::Paused,
        IndexingStatus::Error,
        IndexingStatus::Completed,
    ] {
        assert_eq!(IndexingStatus::from_name(s.as_str()), s);
    }
}

#[test]
fn status_parsing_ignores_case_and_defaults_to_idle() {
    assert_eq!(IndexingStatus::from_name("PAUSED"), IndexingStatus::Paused);
    assert_eq!(IndexingStatus::from_name("Completed"), IndexingStatus::Completed);
    assert_eq!(IndexingStatus::from_name("bogus"), IndexingStatus::Idle);
    assert_eq!(IndexingStatus::Error.as_str(), "error");
}
