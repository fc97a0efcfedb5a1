use rust_app::admin::{
    diff_outcome, exiftool_args, exiftool_outcome, image_diff, list_failure, listed_image_names,
    local_image_path, r2_bucket, r2_endpoint_error, s3_list_args, s3_sync_args, select_images,
    sync_outcome, upload_report, AdminReply, CommandOutcome, UploadReport, UPLOAD_DIR,
};

fn strings(v: &[&str]) -> Vec<String> {
    v.iter().map(|s| s.to_string()).collect()
}

#[test]
fn upload_reports() {
    match upload_report(3, &Vec::new()) {
        UploadReport::Uploaded { count, message } => {
            assert_eq!(count, 3);
            assert_eq!(message, "3件のファイルをアップロードしました");
        }
        other => panic!("{:?}", other),
    }
    match upload_report(0, &strings(&["a.jpg: disk full", "b.jpg: denied"])) {
        UploadReport::Failed(m) => assert_eq!(m, "アップロード失敗: a.jpg: disk full, b.jpg: denied"),
        other => panic!("{:?}", other),
    }
    match upload_report(0, &Vec::new()) {
        UploadReport::Failed(m) => assert_eq!(m, "ファイルが見つかりませんでした"),
        other => panic!("{:?}", other),
    }
    match upload_report(12, &strings(&["x: y"])) {
        UploadReport::Uploaded { message, .. } => assert_eq!(message, "12件のファイルをアップロードしました"),
        other => panic!("{:?}", other),
    }
}

#[test]
fn endpoint_and_bucket_settings() {
    match r2_endpoint_error("") {
        Some(AdminReply::Failure(m)) => assert_eq!(m, "R2_ENDPOINTが設定されていません"),
        other => panic!("{:?}", other),
    }
    assert!(r2_endpoint_error("https://r2.example").is_none());
    assert_eq!(r2_bucket(None), "fukuyoka-photo");
    assert_eq!(r2_bucket(Some("mine".to_string())), "mine");
}

#[test]
fn command_arguments() {
    assert_eq!(exiftool_args(), strings(&["-overwrite_original", "-all=", "-ext", "jpg", "-ext", "jpeg", "/tmp/data"]));
    assert_eq!(s3_sync_args("bkt", "https://e"), strings(&["s3", "sync", "/tmp/data", "s3://bkt", "--endpoint-url", "https://e"]));
    assert_eq!(s3_list_args("bkt", "https://e"), strings(&["s3", "ls", "s3://bkt/", "--endpoint-url", "https://e"]));
    assert_eq!(UPLOAD_DIR, "/tmp/data");
    assert_eq!(local_image_path("a.jpg"), "/tmp/data/a.jpg");
}

fn ran(success: bool, stdout: &str, stderr: &str) -> CommandOutcome {
    CommandOutcome::Ran { success, stdout: stdout.to_string(), stderr: stderr.to_string() }
}

#[test]
fn push_outcomes() {
    assert!(exiftool_outcome(&ran(true, "1 image files updated", "")).is_none());
    match exiftool_outcome(&ran(false, "", "Error: bad file")) {
        Some(AdminReply::Failure(m)) => assert_eq!(m, "exiftoolの実行に失敗しました: Error: bad file"),
        other => panic!("{:?}", other),
    }
    match exiftool_outcome(&CommandOutcome::NotStarted { error: "not found".to_string() }) {
        Some(AdminReply::Failure(m)) => assert_eq!(m, "exiftoolの実行に失敗しました: not found"),
        other => panic!("{:?}", other),
    }
    match sync_outcome(&ran(true, "done", "")) {
        AdminReply::Success(m) => assert_eq!(m, "R2へのアップロードが完了しました"),
        other => panic!("{:?}", other),
    }
    match sync_outcome(&ran(false, "", "denied")) {
        AdminReply::Failure(m) => assert_eq!(m, "アップロードに失敗しました: denied"),
        other => panic!("{:?}", other),
    }
    match sync_outcome(&CommandOutcome::NotStarted { error: "no aws".to_string() }) {
        AdminReply::Failure(m) => assert_eq!(m, "AWS CLIの実行に失敗しました: no aws"),
        other => panic!("{:?}", other),
    }
    match list_failure("gone") {
        AdminReply::Failure(m) => assert_eq!(m, "ディレクトリの読み込みに失敗しました: gone"),
        other => panic!("{:?}", other),
    }
}

#[test]
fn image_listing_is_sorted_and_filtered() {
    let names = strings(&["b.png", "notes.txt", "A.JPG", "a.jpeg", "b.png", ".png"]);
    assert_eq!(select_images(&names), strings(&["A.JPG", "a.jpeg", "b.png", "b.png"]));
}

const LISTING: &str = "2024-01-01 12:00:00     12345 b.jpg\r\n2024-01-02 13:00:00       99 a.PNG\n                           PRE folder/\n2024-01-03 00:00:00 1 notes.txt\n2024-01-03 00:00:00 1 b.jpg\n2024-01-03 00:00:00 1 c d.jpg\n";

#[test]
fn bucket_listing_names_images() {
    // "c d.jpg": the fourth word is "c", not an image
    assert_eq!(listed_image_names(LISTING), strings(&["a.PNG", "b.jpg"]));
    assert_eq!(listed_image_names(""), Vec::<String>::new());
}

#[test]
fn local_and_bucket_images_are_compared() {
    let local = strings(&["z.jpg", "a.PNG", "x.txt", "z.jpg", "local.jpeg"]);
    let d = image_diff(&local, LISTING);
    assert_eq!(d.only_local, strings(&["local.jpeg", "z.jpg"]));
    assert_eq!(d.only_r2, strings(&["b.jpg"]));
    assert_eq!(d.synced, strings(&["a.PNG"]));
}

#[test]
fn failed_listing_is_reported() {
    let local = strings(&["a.jpg"]);
    match diff_outcome(&local, &ran(false, "", "AccessDenied")) {
        Err(AdminReply::Failure(m)) => assert_eq!(m, "R2一覧取得失敗: AccessDenied"),
        other => panic!("{:?}", other.is_ok()),
    }
    match diff_outcome(&local, &CommandOutcome::NotStarted { error: "no aws".to_string() }) {
        Err(AdminReply::Failure(m)) => assert_eq!(m, "AWS CLI実行失敗: no aws"),
        other => panic!("{:?}", other.is_ok()),
    }
    match diff_outcome(&local, &ran(true, LISTING, "")) {
        Ok(d) => {
            assert_eq!(d.only_local, strings(&["a.jpg"]));
            assert_eq!(d.only_r2.len(), 2);
            assert!(d.synced.is_empty());
        }
        Err(e) => panic!("{:?}", e),
    }
}

use rust_app::admin::{push_step, PushAction, PushEvent, PushState};

fn run_of(action: &PushAction) -> (String, Vec<String>) {
    match action {
        PushAction::Run { program, args } => (program.clone(), args.clone()),
        PushAction::Reply(r) => panic!("unexpected reply {:?}", r),
    }
}

#[test]
fn push_strips_metadata_then_syncs() {
    let (state, action) = push_step(
        PushState::Start,
        PushEvent::Begin { endpoint: "https://e".to_string(), bucket: None },
    );
    let (program, args) = run_of(&action);
    assert_eq!(program, "exiftool");
    assert_eq!(args, exiftool_args());
    let (state, action) = push_step(state, PushEvent::Finished(ran(true, "1 image files updated", "")));
    let (program, args) = run_of(&action);
    assert_eq!(program, "aws");
    assert_eq!(args, s3_sync_args("fukuyoka-photo", "https://e"));
    let (state, action) = push_step(state, PushEvent::Finished(ran(true, "upload: ok", "")));
    assert!(matches!(state, PushState::Done));
    match action {
        PushAction::Reply(AdminReply::Success(m)) => assert_eq!(m, "R2へのアップロードが完了しました"),
        other => panic!("{:?}", other),
    }
}

#[test]
fn push_stops_without_endpoint_or_exiftool() {
    let (state, action) = push_step(PushState::Start, PushEvent::Begin { endpoint: String::new(), bucket: Some("b".to_string()) });
    assert!(matches!(state, PushState::Done));
    match action {
        PushAction::Reply(AdminReply::Failure(m)) => assert_eq!(m, "R2_ENDPOINTが設定されていません"),
        other => panic!("{:?}", other),
    }
    let (state, _) = push_step(PushState::Start, PushEvent::Begin { endpoint: "e".to_string(), bucket: Some("b".to_string()) });
    let (state, action) = push_step(state, PushEvent::Finished(CommandOutcome::NotStarted { error: "missing".to_string() }));
    assert!(matches!(state, PushState::Done));
    match action {
        PushAction::Reply(AdminReply::Failure(m)) => assert_eq!(m, "exiftoolの実行に失敗しました: missing"),
        other => panic!("{:?}", other),
    }
}

#[test]
fn push_stops_when_exiftool_fails() {
    let (state, _) = push_step(
        PushState::Start,
        PushEvent::Begin { endpoint: "https://e".to_string(), bucket: Some("b".to_string()) },
    );
    let (state, action) = push_step(state, PushEvent::Finished(ran(false, "", "Error: write failed")));
    assert!(matches!(state, PushState::Done));
    match action {
        PushAction::Reply(AdminReply::Failure(m)) => assert_eq!(m, "exiftoolの実行に失敗しました: Error: write failed"),
        other => panic!("{:?}", other),
    }
}

use rust_app::admin::{upload_target, UploadTally};

#[test]
fn upload_fields_are_tallied() {
    assert_eq!(upload_target(None), None);
    assert_eq!(upload_target(Some("a.jpg")), Some("/tmp/data/a.jpg".to_string()));
    let mut tally = UploadTally::new();
    match tally.report() {
        UploadReport::Failed(m) => assert_eq!(m, "ファイルが見つかりませんでした"),
        other => panic!("{:?}", other),
    }
    tally.failed("b.png", "disk full");
    tally.failed("c.png", "read error");
    assert_eq!(tally.errors, vec!["b.png: disk full".to_string(), "c.png: read error".to_string()]);
    match tally.report() {
        UploadReport::Failed(m) => assert_eq!(m, "アップロード失敗: b.png: disk full, c.png: read error"),
        other => panic!("{:?}", other),
    }
    tally.saved();
    tally.saved();
    assert_eq!(tally.count, 2);
    match tally.report() {
        UploadReport::Uploaded { count, message } => {
            assert_eq!(count, 2);
            assert_eq!(message, "2件のファイルをアップロードしました");
        }
        other => panic!("{:?}", other),
    }
}
