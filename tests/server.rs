use bobble::cgi::{backend_failed, parse_status, split_header_line, CgiError, CgiHead};
use bobble::repo::{hook_step, AttemptOutcome, HookAction, RepoLock, MAX_ATTEMPTS};
use bobble::route::{path_info, prefix_of_path, route, view_from_capture, view_of_path, Route};

#[test]
fn view_from_request_path() {
    assert_eq!(view_of_path("/lib.git/info/refs"), "lib");
    assert_eq!(view_of_path("/lib/sub.git/git-upload-pack"), "lib/sub");
    assert_eq!(view_of_path("/info/refs"), ".");
}

#[test]
fn view_from_capture_defaults_to_whole_tree() {
    assert_eq!(view_from_capture(None), ".");
    assert_eq!(view_from_capture(Some("lib".to_string())), "lib");
}

#[test]
fn prefix_from_request_path() {
    assert_eq!(prefix_of_path("/lib.git/info/refs"), "/lib.git");
    assert_eq!(prefix_of_path("/info/refs"), "");
}

#[test]
fn path_info_strips_prefix() {
    assert_eq!(path_info("/lib.git/info/refs", "/lib.git"), "/info/refs");
    assert_eq!(path_info("/info/refs", ""), "/info/refs");
    assert_eq!(path_info("/info/refs", "/lib.git"), "/info/refs");
}

#[test]
fn route_without_credentials_is_unauthorized() {
    assert!(matches!(route("/lib.git/info/refs", None), Route::Unauthorized));
}

#[test]
fn route_with_credentials_serves_view() {
    let r = route("/lib.git/info/refs", Some(("user".to_string(), None)));
    match r {
        Route::Serve { view, path_info, username, password } => {
            assert_eq!(view, "lib");
            assert_eq!(path_info, "/info/refs");
            assert_eq!(username, "user");
            assert_eq!(password, "");
        }
        Route::Unauthorized => panic!("expected to serve"),
    }
    let r = route("/x.git/HEAD", Some(("u".to_string(), Some("pw".to_string()))));
    match r {
        Route::Serve { password, .. } => assert_eq!(password, "pw"),
        Route::Unauthorized => panic!("expected to serve"),
    }
}

#[test]
fn writer_excludes_everyone() {
    let mut l = RepoLock::new();
    assert!(l.try_write());
    assert!(!l.try_write());
    assert!(!l.try_read());
    l.release_write();
    assert!(l.try_read());
    assert!(l.try_read());
    assert!(!l.try_write());
    l.release_read();
    l.release_read();
    assert!(l.try_write());
}

#[test]
fn serial_order_of_writers() {
    // writers arriving in turn: each gets the lock only after the previous released it
    let mut l = RepoLock::new();
    let mut order = Vec::new();
    for op in 0..8 {
        assert!(l.try_write());
        assert!(!l.try_write());
        order.push(op);
        l.release_write();
    }
    assert_eq!(order, (0..8).collect::<Vec<_>>());
}

#[test]
fn hook_retries_then_rejects() {
    assert_eq!(hook_step(0, AttemptOutcome::Applied), HookAction::Accept);
    assert_eq!(hook_step(0, AttemptOutcome::GraftFailed), HookAction::Reject);
    assert_eq!(hook_step(0, AttemptOutcome::Conflict), HookAction::Retry(1));
    assert_eq!(hook_step(3, AttemptOutcome::Conflict), HookAction::Retry(4));
    assert_eq!(hook_step(MAX_ATTEMPTS - 1, AttemptOutcome::Conflict), HookAction::Reject);
    assert_eq!(MAX_ATTEMPTS, 5);
}

#[test]
fn cgi_header_block() {
    let mut h = CgiHead::new();
    assert_eq!(h.status, 200);
    h.feed_line(b"Status: 404 Not Found").unwrap();
    h.feed_line(b"content-type: text/plain\r").unwrap();
    h.feed_line(b"Cache-Control:  no-cache").unwrap();
    assert!(!h.done);
    h.feed_line(b"\r").unwrap();
    assert!(h.done);
    assert_eq!(h.status, 404);
    assert_eq!(h.content_type, Some(b"text/plain".to_vec()));
    assert_eq!(h.headers, vec![(b"Cache-Control".to_vec(), b"no-cache".to_vec())]);
}

#[test]
fn cgi_header_errors() {
    let mut h = CgiHead::new();
    assert_eq!(h.feed_line(b"no colon here"), Err(CgiError::BackendError));
    assert_eq!(h.feed_line(b"Status: abc"), Err(CgiError::BackendError));
    assert!(!h.done);
    assert!(backend_failed(&h, false));
    assert!(!backend_failed(&h, true));
    h.feed_line(b"").unwrap();
    assert!(!backend_failed(&h, false));
}

#[test]
fn cgi_header_pieces() {
    assert_eq!(parse_status(b"200 OK"), Some(200));
    assert_eq!(parse_status(b"500"), Some(500));
    assert_eq!(parse_status(b"5000"), None);
    assert_eq!(split_header_line(b"A: b: c"), Some((b"A".to_vec(), b"b: c".to_vec())));
    assert_eq!(split_header_line(b"abc"), None);
}
