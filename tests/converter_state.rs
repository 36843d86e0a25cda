use mammal::converter::{conversion_args, probe_args, ConverterState};
use mammal::document::FromType;

#[test]
fn probe_asks_for_version() {
    assert_eq!(probe_args(), vec!["--version".to_string()]);
}

#[test]
fn conversion_args_for_docx() {
    assert_eq!(
        conversion_args(FromType::Docx),
        vec!["--from=docx".to_string(), "--to=markdown".to_string()]
    );
}

#[test]
fn warm_up_state_machine() {
    let s = ConverterState::new();
    assert_eq!(s, ConverterState::Uninitialized);
    assert!(s.needs_probe());
    assert_eq!(s.init_result(), Err(()));
    let failed = s.after_probe(false);
    assert_eq!(failed, ConverterState::Failed);
    assert!(failed.needs_probe());
    assert!(!failed.is_ready());
    let ready = failed.after_probe(true);
    assert_eq!(ready, ConverterState::Ready);
    assert!(!ready.needs_probe());
    assert!(ready.is_ready());
    assert_eq!(ready.init_result(), Ok(()));
}

#[test]
fn repeated_warm_up_is_harmless() {
    let once = ConverterState::new().after_probe(true);
    let twice = once.after_probe(true);
    assert_eq!(once, twice);
    assert_eq!(once.after_probe(false), ConverterState::Ready);
}
