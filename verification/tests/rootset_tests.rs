use serve_static::rootset::{
    classify_probe, dir_action, first_hit, DirAction, ProbeOutcome, ServeError, ServeOptions,
    ServeStep,
};
use serve_static::strutil::path_has_hidden_segment;

#[test]
fn test_first_hit_takes_first_non_miss() {
    let outcomes = vec![
        ProbeOutcome::Missing,
        ProbeOutcome::FileFound(5),
        ProbeOutcome::DirFound,
    ];
    assert_eq!(first_hit(&outcomes), Some(1));
    assert_eq!(first_hit(&vec![ProbeOutcome::Missing, ProbeOutcome::Missing]), None);
    assert_eq!(first_hit(&vec![]), None);
    // A storage fault is surfaced, not skipped as a miss.
    assert_eq!(first_hit(&vec![ProbeOutcome::Fault, ProbeOutcome::FileFound(1)]), Some(0));
}

#[test]
fn test_dir_action_prefers_defaults_in_order() {
    assert_eq!(dir_action(true, &vec![false, true, true]), DirAction::ServeDefault(1));
    // A default document wins even when listings are enabled.
    assert_eq!(dir_action(true, &vec![true]), DirAction::ServeDefault(0));
    assert_eq!(dir_action(true, &vec![false, false]), DirAction::RenderListing);
    assert_eq!(dir_action(true, &vec![]), DirAction::RenderListing);
    assert_eq!(dir_action(false, &vec![false]), DirAction::NotFound);
    assert_eq!(dir_action(false, &vec![]), DirAction::NotFound);
}

#[test]
fn test_classify_probe() {
    assert_eq!(classify_probe(ProbeOutcome::FileFound(9)), ServeStep::SendFile(9));
    assert_eq!(classify_probe(ProbeOutcome::DirFound), ServeStep::ExploreDir);
    assert_eq!(
        classify_probe(ProbeOutcome::Missing),
        ServeStep::Reject(ServeError::NotFound)
    );
    assert_eq!(
        classify_probe(ProbeOutcome::Fault),
        ServeStep::Reject(ServeError::IoFailure)
    );
}

#[test]
fn test_serve_error_messages() {
    assert_eq!(ServeError::NotFound.message(), "Not Found");
    assert_eq!(ServeError::RangeNotSatisfiable.message(), "Range Not Satisfiable");
    assert_eq!(ServeError::IoFailure.message(), "Internal Server Error");
    assert_eq!(ServeError::NotFound.status_code(), 404);
    assert_eq!(ServeError::RangeNotSatisfiable.status_code(), 416);
    assert_eq!(ServeError::IoFailure.status_code(), 500);
}

#[test]
fn test_default_options() {
    let o = ServeOptions::new();
    assert!(!o.dot_files);
    assert!(o.listing);
    assert!(o.defaults.is_empty());
    assert!(o.fallback.is_none());
    assert!(o.chunk_size.is_none());
}

#[test]
fn test_hidden_segment_detection() {
    assert!(path_has_hidden_segment(".git/config"));
    assert!(path_has_hidden_segment("a/.b"));
    assert!(path_has_hidden_segment("a/.b/c"));
    assert!(!path_has_hidden_segment("a/b"));
    assert!(!path_has_hidden_segment("a..b"));
    assert!(!path_has_hidden_segment(""));
    assert!(!path_has_hidden_segment("dir1/test3.txt"));
}
