use mimeclip::retry::{
    after_connect_failure, after_watcher_error, is_retryable_wayland_io,
    should_retry_watcher_error, BackendFailure, Cause, IoErrorKind, NextStep,
};

#[test]
fn retries_when_no_compositor_is_available() {
    let causes = [Cause::NoCompositor];

    assert!(should_retry_watcher_error(&causes));
}

#[test]
fn retries_when_wayland_connection_drops() {
    let causes = [Cause::Dispatch {
        failure: BackendFailure::Io {
            kind: IoErrorKind::BrokenPipe,
        },
    }];

    assert!(should_retry_watcher_error(&causes));
}

#[test]
fn does_not_retry_fatal_startup_errors() {
    let causes = [Cause::Connect];

    assert!(!should_retry_watcher_error(&causes));
}

#[test]
fn does_not_retry_bad_protocol_messages() {
    let causes = [Cause::BadMessage];

    assert!(!should_retry_watcher_error(&causes));
}

#[test]
fn does_not_retry_unrelated_io_errors() {
    let causes = [Cause::Dispatch {
        failure: BackendFailure::Io {
            kind: IoErrorKind::Other,
        },
    }];

    assert!(!should_retry_watcher_error(&causes));
}

#[test]
fn classifies_disconnect_style_io_errors_as_retryable() {
    assert!(is_retryable_wayland_io(IoErrorKind::BrokenPipe));
}

#[test]
fn every_kind_of_disconnect_is_retryable() {
    let lost = [
        IoErrorKind::BrokenPipe,
        IoErrorKind::ConnectionReset,
        IoErrorKind::ConnectionAborted,
        IoErrorKind::NotConnected,
        IoErrorKind::UnexpectedEof,
    ];
    for kind in lost {
        assert!(is_retryable_wayland_io(kind));
        let failure = BackendFailure::Io { kind };
        assert!(should_retry_watcher_error(&[Cause::Backend { failure }]));
    }
    for kind in [
        IoErrorKind::NotFound,
        IoErrorKind::ConnectionRefused,
        IoErrorKind::Other,
    ] {
        assert!(!is_retryable_wayland_io(kind));
    }
}

#[test]
fn any_cause_in_the_chain_counts() {
    let causes = [Cause::Other, Cause::BadMessage, Cause::NoCompositor];
    assert!(should_retry_watcher_error(&causes));
    assert_eq!(
        after_watcher_error(&causes),
        NextStep::Wait { millis: 2000 }
    );
    assert!(!should_retry_watcher_error(&[]));
    assert_eq!(
        after_watcher_error(&[Cause::Dispatch {
            failure: BackendFailure::Protocol
        }]),
        NextStep::GiveUp
    );
}

#[test]
fn client_tries_again_while_the_daemon_may_be_starting() {
    for attempt in 0..5 {
        for kind in [IoErrorKind::NotFound, IoErrorKind::ConnectionRefused] {
            assert_eq!(
                after_connect_failure(attempt, kind),
                NextStep::Wait { millis: 200 }
            );
        }
        assert_eq!(
            after_connect_failure(attempt, IoErrorKind::BrokenPipe),
            NextStep::GiveUp
        );
    }
    assert_eq!(
        after_connect_failure(5, IoErrorKind::NotFound),
        NextStep::GiveUp
    );
}
