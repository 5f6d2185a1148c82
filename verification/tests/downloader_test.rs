use co_worker_lite::error::AppError;
use co_worker_lite::model::downloader::{
    check_digest, content_length, ensure_model_present, is_model_file, list_local_models, model_url,
    parse_numeral, plan_download, plan_writing, wants_digest, DownloadPlan, Fetch, FetchAction,
    FetchEvent, Verification, Writing, MAX_HASHED,
};

#[test]
fn files_come_from_the_main_branch() {
    assert_eq!(
        model_url("Qwen/X-GGUF", "x.gguf"),
        "https://huggingface.co/Qwen/X-GGUF/resolve/main/x.gguf"
    );
}

#[test]
fn downloads_are_resumed_or_restarted() {
    assert_eq!(plan_download(10, 10), DownloadPlan::UpToDate);
    assert_eq!(plan_download(0, 0), DownloadPlan::UpToDate);
    assert_eq!(plan_download(0, 10), DownloadPlan::Start);
    assert_eq!(plan_download(4, 10), DownloadPlan::Resume { from: 4 });
    assert_eq!(plan_download(11, 10), DownloadPlan::Restart);
    assert_eq!(plan_download(4, 10).range(), Some("bytes=4-".to_string()));
    assert_eq!(
        plan_download(4_500_000_000, 5_000_000_000).range(),
        Some("bytes=4500000000-".to_string())
    );
    assert_eq!(plan_download(0, 10).range(), None);
    assert_eq!(plan_download(11, 10).range(), None);
    assert!(plan_download(11, 10).removes_local());
    assert!(!plan_download(4, 10).removes_local());
}

#[test]
fn a_server_that_ignores_the_range_starts_over() {
    assert_eq!(plan_writing(4, true), Writing { append: true, starting_at: 4 });
    assert_eq!(plan_writing(4, false), Writing { append: false, starting_at: 0 });
}

#[test]
fn sizes_are_read_like_numbers() {
    for s in ["0", "12", "+7", "007", "18446744073709551615", "", "+", "-1", "1 ", "1x", "18446744073709551616", "99999999999999999999999999"] {
        assert_eq!(parse_numeral(s), s.parse::<u64>().ok(), "{s:?}");
    }
    assert_eq!(content_length(Some("42")).unwrap(), 42);
    for h in [None, Some("many")] {
        match content_length(h) {
            Err(AppError::Internal(m)) => assert_eq!(m, "missing Content-Length header"),
            other => panic!("{other:?}"),
        }
    }
}

#[test]
fn digests_are_checked_whatever_the_case() {
    // SHA-256 of "abc".
    let good = "ba7816bf8f01cfea414140de5dae2223b00361a396177a9cb410ff61f20015ad";
    let mut v = Verification::start();
    v.feed(b"a");
    v.feed(b"");
    v.feed(b"bc");
    assert_eq!(v.room(), MAX_HASHED - 3);
    assert!(v.finish(&good.to_uppercase()).is_ok());
    let mut v = Verification::start();
    v.feed(b"abc");
    assert!(v.finish(good).is_ok());
    let mut v = Verification::start();
    v.feed(b"abd");
    match v.finish(good) {
        Err(AppError::ChecksumMismatch { expected, actual }) => {
            assert_eq!(expected, good);
            assert_eq!(actual.len(), 64);
            assert_ne!(actual, good);
        }
        other => panic!("{other:?}"),
    }
}

#[test]
fn digests_are_compared_in_hexadecimal() {
    assert!(check_digest(&vec![0x00, 0xff, 0x1a], "00FF1a").is_ok());
    match check_digest(&vec![0x0f], "f0") {
        Err(AppError::ChecksumMismatch { expected, actual }) => {
            assert_eq!((expected.as_str(), actual.as_str()), ("f0", "0f"))
        }
        other => panic!("{other:?}"),
    }
}

#[test]
fn local_models_are_listed_in_order() {
    assert!(is_model_file(Some("gguf")));
    assert!(!is_model_file(Some("GGUF")));
    assert!(!is_model_file(Some("bin")));
    assert!(!is_model_file(None));
    let found: Vec<(String, u64)> = [("b", 1), ("a", 9), ("B", 2), ("ab", 0), ("a", 3), ("\u{e9}", 1), ("", 4)]
        .iter()
        .map(|(n, s)| (n.to_string(), *s))
        .collect();
    let mut sorted = found.clone();
    sorted.sort();
    assert_eq!(list_local_models(&found), sorted);
    assert!(list_local_models(&vec![]).is_empty());
}

const HEX: &str = "ba7816bf8f01cfea414140de5dae2223b00361a396177a9cb410ff61f20015ad";

/// A fetch that has been told the size of the file on the server.
fn looking(expected: &str, size: &str) -> Fetch {
    let (f, action) = ensure_model_present("Qwen/X-GGUF", "x.gguf", "models/x.gguf", expected);
    match action {
        FetchAction::Ask { url } => {
            assert_eq!(url, "https://huggingface.co/Qwen/X-GGUF/resolve/main/x.gguf")
        }
        other => panic!("{other:?}"),
    }
    let (f, action) = f.next(FetchEvent::Asked(Ok(Some(size.to_string()))));
    match action {
        FetchAction::Look { path } => assert_eq!(path, "models/x.gguf"),
        other => panic!("{other:?}"),
    }
    f
}

#[test]
fn a_complete_file_is_not_downloaded_again() {
    let (f, action) = looking("", "10").next(FetchEvent::Looked(Ok(Some(10))));
    assert!(matches!(action, FetchAction::Measure { .. }));
    let (f, action) = f.next(FetchEvent::Measured(Ok(10)));
    match action {
        FetchAction::Finish(Ok(m)) => {
            assert_eq!((m.path.as_str(), m.size_bytes), ("models/x.gguf", 10))
        }
        other => panic!("{other:?}"),
    }
    let (_, action) = f.next(FetchEvent::Measured(Ok(10)));
    assert!(matches!(action, FetchAction::Wait));
}

#[test]
fn a_missing_file_is_downloaded_and_checked() {
    let (f, action) = looking(HEX, "10").next(FetchEvent::Looked(Ok(None)));
    match action {
        FetchAction::Download { url, path, plan, local, remote } => {
            assert_eq!(url, "https://huggingface.co/Qwen/X-GGUF/resolve/main/x.gguf");
            assert_eq!(path, "models/x.gguf");
            assert_eq!((plan, local, remote), (DownloadPlan::Start, 0, 10));
        }
        other => panic!("{other:?}"),
    }
    let (f, action) = f.next(FetchEvent::Fetched(Ok(())));
    match action {
        FetchAction::Check { path, expected_hex } => {
            assert_eq!((path.as_str(), expected_hex.as_str()), ("models/x.gguf", HEX))
        }
        other => panic!("{other:?}"),
    }
    let (_, action) = f.next(FetchEvent::Checked(Ok(())));
    assert!(matches!(action, FetchAction::Measure { .. }));
}

#[test]
fn a_file_that_was_there_is_checked_too() {
    let (f, action) = looking(HEX, "10").next(FetchEvent::Looked(Ok(Some(10))));
    assert!(matches!(action, FetchAction::Check { .. }));
    let wrong = AppError::ChecksumMismatch { expected: HEX.to_string(), actual: String::new() };
    let (f, action) = f.next(FetchEvent::Checked(Err(wrong)));
    assert!(matches!(action, FetchAction::Finish(Err(AppError::ChecksumMismatch { .. }))));
    let (_, action) = f.next(FetchEvent::Measured(Ok(10)));
    assert!(matches!(action, FetchAction::Wait));
}

#[test]
fn what_fails_ends_a_fetch() {
    let (f, _) = ensure_model_present("r", "f", "t", "");
    let (_, action) = f.clone().next(FetchEvent::Asked(Ok(None)));
    match action {
        FetchAction::Finish(Err(AppError::Internal(m))) => {
            assert_eq!(m, "missing Content-Length header")
        }
        other => panic!("{other:?}"),
    }
    let (_, action) = f.next(FetchEvent::Asked(Err(AppError::Http("no".to_string()))));
    assert!(matches!(action, FetchAction::Finish(Err(AppError::Http(_)))));
    let gone = || Err(AppError::Io("gone".to_string()));
    let (_, action) = looking("", "10").next(FetchEvent::Looked(Err(AppError::Io("x".to_string()))));
    assert!(matches!(action, FetchAction::Finish(Err(AppError::Io(_)))));
    let (f, action) = looking("", "10").next(FetchEvent::Looked(Ok(Some(4))));
    assert!(matches!(action, FetchAction::Download { plan: DownloadPlan::Resume { from: 4 }, .. }));
    let (_, action) = f.next(FetchEvent::Fetched(gone()));
    assert!(matches!(action, FetchAction::Finish(Err(AppError::Io(_)))));
}

#[test]
fn an_empty_digest_is_not_wanted() {
    assert!(!wants_digest(""));
    assert!(wants_digest(HEX));
}
