use remote_fs::handlers::list::{list_verdict, listing_body};
use remote_fs::handlers::read::read_verdict;
use remote_fs::handlers::stat::{stat_report, stat_verdict};
use remote_fs::handlers::write::{
    after_create, after_open, write_verdict, OpenOutcome, OpenStep, Upload,
};
use remote_fs::handlers::{
    containment_verdict, custom_canonicalize, is_path_within_mount_point, join_path_of,
    resolve_target, route, settle_verdict, target_answer, target_is_resolvable, verdict_answer,
    Entry, ErrorReason, Route, Target, Verdict,
};
use remote_fs::utils_lib::FileType;

#[test]
fn canonical_form_of_paths() {
    assert_eq!(custom_canonicalize("/a/b/../c/./d//"), "/a/c/d");
    assert_eq!(custom_canonicalize("../../x"), "/x");
    assert_eq!(custom_canonicalize(""), "/");
    assert_eq!(custom_canonicalize("/srv/./data/"), "/srv/data");
    assert_eq!(custom_canonicalize("a/.."), "/");
}

#[test]
fn canonical_form_is_stable() {
    for p in ["/a/b/../c", "x/./y//z/..", "/", "..", "/.hidden/../.x"] {
        let once = custom_canonicalize(p);
        assert_eq!(custom_canonicalize(&once), once);
    }
}

#[test]
fn containment_in_the_mount_point() {
    assert!(is_path_within_mount_point("/srv/data/./a", "/srv/data"));
    assert!(is_path_within_mount_point("/srv/data", "/srv/data"));
    assert!(!is_path_within_mount_point("/srv/data/../etc", "/srv/data"));
    assert!(!is_path_within_mount_point("/srv/database", "/srv/data"));
    assert!(is_path_within_mount_point("/anything/at/all", "/"));
    assert!(!is_path_within_mount_point("/srv/data", "srv/data"));
    assert!(is_path_within_mount_point("/x", ""));
}

#[test]
fn joined_targets_without_parent_segments_stay_inside() {
    for rel in ["./a/b", ".//c", "./.x/y", "."] {
        let joined = join_path_of("/srv/data", rel);
        assert!(is_path_within_mount_point(&joined, "/srv/data"));
    }
    assert!(!is_path_within_mount_point(&join_path_of("/srv/data", "./../x"), "/srv/data"));
}

#[test]
fn joining_paths() {
    assert_eq!(join_path_of("/srv", "./a"), "/srv/./a");
    assert_eq!(join_path_of("/srv/", "./a"), "/srv/./a");
    assert_eq!(join_path_of("", "./a"), "./a");
}

#[test]
fn routing_by_prefix_and_method() {
    assert_eq!(route("/api/file?path=a", "GET"), Some(Route::Read));
    assert_eq!(route("/api/directory?path=a", "GET"), Some(Route::List));
    assert_eq!(route("/api/stat?path=a", "GET"), Some(Route::Stat));
    assert_eq!(route("/api/file?path=a", "POST"), Some(Route::Write));
    assert_eq!(route("/api/file", "PUT"), None);
    assert_eq!(route("/other", "GET"), None);
    assert_eq!(route("/api/directory", "POST"), None);
}

fn path_of(t: Target) -> String {
    match t {
        Target::Path(p) => p,
        other => panic!("expected a path, got {:?}", other),
    }
}

#[test]
fn targets_from_the_query() {
    assert_eq!(path_of(resolve_target("/api/file?path=/a/b", "/srv", false)), "/srv/./a/b");
    assert_eq!(path_of(resolve_target("/api/file?path=/a/b", "/srv", true)), "/srv/.//a/b");
    assert_eq!(path_of(resolve_target("/api/file?path=.hidden", "/srv", false)), "/srv/.hidden");
    assert_eq!(path_of(resolve_target("/api/file?path=a&path=b", "/srv", false)), "/srv/.b");
    assert_eq!(path_of(resolve_target("/api/file?path=%2Fa%20b", "/srv", false)), "/srv/./a b");
}

#[test]
fn targets_missing_or_empty() {
    assert!(matches!(resolve_target("/api/file", "/srv", false), Target::NoQuery));
    assert!(matches!(resolve_target("/api/file?x=1", "/srv", false), Target::NoInput));
    assert!(matches!(resolve_target("/api/file?path=", "/srv", false), Target::NoInput));
}

#[test]
fn resolvable_targets() {
    assert!(target_is_resolvable("/api/file"));
    assert!(target_is_resolvable("/api/file?path=%2F"));
    assert!(!target_is_resolvable("/api/file?path=%FF"));
    assert!(target_is_resolvable("/api/file?other=%FF"));
    assert!(!target_is_resolvable(""));
}

#[test]
fn reason_texts() {
    assert_eq!(ErrorReason::Fine.message(), "OK");
    assert_eq!(ErrorReason::OutOfFs.message(), "Outside of the mounted file system");
    assert_eq!(ErrorReason::NoInput.message(), "No input given");
    assert_eq!(ErrorReason::IsDir.message(), "Is a directory");
    assert_eq!(ErrorReason::IsFile.message(), "Is a file");
    assert_eq!(ErrorReason::GeneralFailure.message(), "General failure");
    assert_eq!(ErrorReason::OpenError.message(), "Could not open the file");
    assert_eq!(ErrorReason::CreationError.message(), "Could not create the file");
    assert_eq!(ErrorReason::WriteError.message(), "Could not write the file");
    assert_eq!(ErrorReason::TruncateError.message(), "Could not truncate the file");
}

#[test]
fn handler_verdicts() {
    assert_eq!(read_verdict(Entry::Missing), Verdict::Reject(ErrorReason::GeneralFailure));
    assert_eq!(read_verdict(Entry::File), Verdict::CheckContainment);
    assert_eq!(read_verdict(Entry::Directory), Verdict::Reject(ErrorReason::IsDir));
    assert_eq!(read_verdict(Entry::Other), Verdict::Reject(ErrorReason::IsDir));
    assert_eq!(list_verdict(Entry::Missing), Verdict::Reject(ErrorReason::GeneralFailure));
    assert_eq!(list_verdict(Entry::Directory), Verdict::CheckContainment);
    assert_eq!(list_verdict(Entry::File), Verdict::Reject(ErrorReason::IsFile));
    assert_eq!(stat_verdict(Entry::Missing), Verdict::Reject(ErrorReason::GeneralFailure));
    assert_eq!(stat_verdict(Entry::Other), Verdict::CheckContainment);
    assert_eq!(containment_verdict(true), Verdict::Proceed);
    assert_eq!(containment_verdict(false), Verdict::Reject(ErrorReason::OutOfFs));
    assert_eq!(write_verdict(false, Entry::Directory), Verdict::Reject(ErrorReason::OutOfFs));
    assert_eq!(write_verdict(true, Entry::Directory), Verdict::Reject(ErrorReason::IsDir));
    assert_eq!(write_verdict(true, Entry::Missing), Verdict::Proceed);
    assert_eq!(write_verdict(true, Entry::File), Verdict::Proceed);
}

#[test]
fn opening_for_upload() {
    assert_eq!(after_open(OpenOutcome::Opened), OpenStep::Transfer);
    assert_eq!(after_open(OpenOutcome::NotFound), OpenStep::Create);
    assert_eq!(after_open(OpenOutcome::Failed), OpenStep::Reject(ErrorReason::OpenError));
    assert_eq!(after_create(true), OpenStep::Transfer);
    assert_eq!(after_create(false), OpenStep::Reject(ErrorReason::OpenError));
}

#[test]
fn upload_reasons() {
    let mut u = Upload::new();
    assert!(u.on_read(Some(3)));
    u.on_stored(true, 3);
    assert!(u.on_read(Some(2)));
    u.on_stored(false, 2);
    assert_eq!(u.reason, ErrorReason::WriteError);
    assert!(!u.on_read(Some(0)));
    u.on_truncated(true);
    assert_eq!(u.reason, ErrorReason::WriteError);
    assert_eq!(u.received, 5);

    let mut v = Upload::new();
    assert!(!v.on_read(None));
    assert_eq!(v.reason, ErrorReason::WriteError);
    v.on_truncated(false);
    assert_eq!(v.reason, ErrorReason::TruncateError);

    let mut w = Upload::new();
    assert!(!w.on_read(Some(0)));
    w.on_truncated(true);
    assert_eq!(w.reason, ErrorReason::Fine);
    assert_eq!(w.received, 0);
}

#[test]
fn stat_report_lines() {
    let text = stat_report(FileType::File, 12, 0o644, 100, 200, -1);
    assert_eq!(
        text,
        "itemType=\"32768\"\nsize=\"12\"\nmode=\"420\"\nctime=\"100\"\nmtime=\"200\"\natime=\"18446744073709551615\"\n"
    );
}

#[test]
fn listing_lines() {
    assert_eq!(listing_body(&vec!["a".to_string(), "b c".to_string()]), "a\nb c");
    assert_eq!(listing_body(&vec![]), "");
    assert_eq!(listing_body(&vec!["only".to_string()]), "only");
}

#[test]
fn settling_asks_containment_only_when_needed() {
    assert_eq!(settle_verdict(Verdict::CheckContainment, true), Verdict::Proceed);
    assert_eq!(
        settle_verdict(Verdict::CheckContainment, false),
        Verdict::Reject(ErrorReason::OutOfFs)
    );
    assert_eq!(settle_verdict(Verdict::Proceed, false), Verdict::Proceed);
    assert_eq!(
        settle_verdict(Verdict::Reject(ErrorReason::IsDir), true),
        Verdict::Reject(ErrorReason::IsDir)
    );
}

#[test]
fn answers_for_targets_and_verdicts() {
    assert_eq!(target_answer(&Target::NoQuery), Some((500, "Server error")));
    assert_eq!(target_answer(&Target::NoInput), Some((400, "No input given")));
    assert_eq!(target_answer(&Target::Path("/srv/a".to_string())), None);
    assert_eq!(
        verdict_answer(Verdict::Reject(ErrorReason::OutOfFs)),
        Some((400, "Outside of the mounted file system"))
    );
    assert_eq!(verdict_answer(Verdict::Proceed), None);
    assert_eq!(verdict_answer(Verdict::CheckContainment), None);
}
