use gengis_mimi::error::Error;

fn text(s: &str) -> String {
    s.to_string()
}

#[test]
fn each_error_has_its_status_and_code() {
    let cases = [
        (Error::Invalid(text("m")), 400, "invalid_request", "m"),
        (Error::Request(413, text("m")), 413, "invalid_request", "m"),
        (Error::NotFound(text("m")), 404, "not_found", "m"),
        (Error::Conflict(text("m")), 409, "conflict", "m"),
        (Error::Busy, 503, "busy", "too many concurrent queries; retry later"),
    ];
    for (error, status, code, message) in cases {
        assert_eq!(error.message(), message);
        assert_eq!(error.into_response(), (status, text(code), text(message)));
    }
    assert_eq!(Error::Limit(text("m")).into_response().0, 429);
    assert_eq!(Error::Unavailable.into_response().0, 503);
    assert_eq!(Error::Timeout.into_response().0, 504);
}

#[test]
fn storage_failures_hide_their_cause_and_warn_of_an_unknown_outcome() {
    for error in [Error::Storage(text("disk")), Error::ObjectStore(text("disk"))] {
        let (status, code, message) = error.into_response();
        assert_eq!((status, code.as_str()), (503, "storage_unavailable"));
        assert_eq!(message, "Storage unavailable; a failed write may still have committed.");
        assert!(error.message().contains("disk"));
    }
    for error in [
        Error::Io(text("disk")),
        Error::Encoding(text("disk")),
        Error::Worker(text("disk")),
        Error::Config(text("disk")),
        Error::Corrupt(text("disk")),
    ] {
        let (status, code, message) = error.into_response();
        assert_eq!((status, code.as_str()), (500, "internal_error"));
        assert_eq!(message, "Internal server error.");
    }
    assert_eq!(Error::Storage(text("disk")).message(), "storage failure: disk");
    assert_eq!(Error::ObjectStore(text("disk")).message(), "object store failure: disk");
    assert_eq!(Error::Io(text("disk")).message(), "I/O failure: disk");
    assert_eq!(
        Error::Encoding(text("x")).message(),
        "stored data could not be decoded: x"
    );
    assert_eq!(Error::Worker(text("x")).message(), "worker failed: x");
}
