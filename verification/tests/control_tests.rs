use dirsync::{check_sender_args, select_mode, AdmissionGate, AppError, RunMode, ShutdownSignal};

#[test]
fn one_session_at_a_time() {
    // With a single permit, a second connection cannot begin protocol
    // handling until the first handler has released its permit.
    let mut admission = AdmissionGate::new();
    assert!(admission.try_acquire());
    assert!(!admission.try_acquire());
    assert!(!admission.try_acquire());
    admission.release();
    assert!(admission.try_acquire());
}

#[test]
fn shutdown_is_sticky() {
    let mut signal = ShutdownSignal::new();
    assert!(!signal.is_shutdown());
    signal.note_fired();
    assert!(signal.is_shutdown());
    assert!(signal.is_shutdown());
}

#[test]
fn mode_selection() {
    match select_mode(Some(9000), Some("/out".to_string()), None, None).unwrap() {
        RunMode::Receiver { port, output_dir } => {
            assert_eq!(port, 9000);
            assert_eq!(output_dir, "/out");
        }
        _ => panic!("expected the receiver mode"),
    }
    match select_mode(None, None, Some("/src".to_string()), Some("ws://h:1/".to_string())).unwrap()
    {
        RunMode::Sender { from_dir, ws_addr } => {
            assert_eq!(from_dir, "/src");
            assert_eq!(ws_addr, "ws://h:1/");
        }
        _ => panic!("expected the sender mode"),
    }
    assert!(matches!(
        select_mode(Some(9000), None, None, None),
        Err(AppError::InvalidArgs(_))
    ));
    assert!(matches!(
        select_mode(Some(9000), Some("/out".to_string()), Some("/src".to_string()), None),
        Err(AppError::InvalidArgs(_))
    ));
    assert!(matches!(select_mode(None, None, None, None), Err(AppError::InvalidArgs(_))));
}

#[test]
fn sender_args_go_through_the_url_parser() {
    let u = check_sender_args(true, "/src", "ws://127.0.0.1:9000/").unwrap();
    assert_eq!(u.scheme(), "ws");
    assert!(matches!(
        check_sender_args(true, "/src", "not a url"),
        Err(AppError::WsAddrParseError)
    ));
    match check_sender_args(false, "/src", "ws://127.0.0.1:9000/") {
        Err(AppError::InvalidDir(d)) => assert_eq!(d, "/src"),
        _ => panic!("expected an invalid-directory error"),
    }
}

#[test]
fn errors_carry_a_message() {
    assert!(!AppError::WsAddrParseError.message().is_empty());
    assert!(!AppError::DirInUse("/out".to_string()).message().is_empty());
}
