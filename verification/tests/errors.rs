use vimdow::VimdowError;

#[test]
fn the_crash_variant_reports_itself() {
    assert!(VimdowError::NeovimCrashed.is_crash());
    assert!(!VimdowError::IO("broken pipe".to_string()).is_crash());
}
