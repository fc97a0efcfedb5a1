//! The decisions of the administration endpoints: which uploaded files are
//! images, which names may be served, how the local images compare with the
//! ones in the R2 bucket, which commands to run, and what to answer.
use vstd::prelude::*;
use crate::text::{
    decimal, decimal_string, is_space, join, join_strings, split_on, split_ranges, string_of_range,
    to_chars,
};
use crate::paths::{image_kind_of, is_image_file};
use crate::names::{insert_unique, sort_names, sorted, strictly_sorted};

verus! {

/// The directory where uploaded images wait to be pushed to the bucket.
pub const UPLOAD_DIR: &'static str = "/tmp/data";

/// The bucket used when `R2_BUCKET` is not set.
pub const DEFAULT_BUCKET: &'static str = "fukuyoka-photo";

/// What an administration endpoint answers: a success with a message, or a
/// failure with the reason.
#[derive(Debug, Clone)]
pub enum AdminReply {
    Success(String),
    Failure(String),
}

/// How a command that the service started ended: it ran (successfully or
/// not) with the given output, or it could not be started.
#[derive(Debug, Clone)]
pub enum CommandOutcome {
    Ran { success: bool, stdout: String, stderr: String },
    NotStarted { error: String },
}

/// What the upload endpoint answers.
#[derive(Debug, Clone)]
pub enum UploadReport {
    Uploaded { count: usize, message: String },
    Failed(String),
}

/// `prefix` followed by `detail`.
fn prefixed(prefix: &str, detail: &str) -> (r: String)
    ensures
        r@ == prefix@ + detail@,
{
    let mut r = String::from_str(prefix);
    r.append(detail);
    r
}

/// The answer to an upload of `count` saved files, with `errors` describing
/// the files that could not be saved: a success when some file was saved,
/// else a failure listing the errors, else a failure saying that no file came.
pub fn upload_report(count: usize, errors: &Vec<String>) -> (r: UploadReport)
    ensures
        (count > 0 ==> (r matches UploadReport::Uploaded { count: c, message: m } && c == count
            && m@ == decimal(count as nat) + "件のファイルをアップロードしました"@)),
        (count == 0 && errors.len() > 0 ==> (r matches UploadReport::Failed(m) && m@
            == "アップロード失敗: "@ + join(errors.deep_view(), ", "@))),
        (count == 0 && errors.len() == 0 ==> (r matches UploadReport::Failed(m) && m@
            == "ファイルが見つかりませんでした"@)),
{
    if count > 0 {
        let mut message = decimal_string(count);
        message.append("件のファイルをアップロードしました");
        UploadReport::Uploaded { count, message }
    } else if errors.len() > 0 {
        let joined = join_strings(errors, ", ");
        UploadReport::Failed(prefixed("アップロード失敗: ", joined.as_str()))
    } else {
        UploadReport::Failed(String::from_str("ファイルが見つかりませんでした"))
    }
}

/// The tally of an upload: how many files were saved, and the errors of the
/// files that were not, in the order in which they came.
#[derive(Debug)]
pub struct UploadTally {
    pub count: usize,
    pub errors: Vec<String>,
}

impl UploadTally {
    /// The tally before any field has been read.
    pub fn new() -> (r: UploadTally)
        ensures
            r.count == 0,
            r.errors@.len() == 0,
    {
        UploadTally { count: 0, errors: Vec::new() }
    }

    /// Counts a file that was saved.
    pub fn saved(&mut self)
        requires
            old(self).count < usize::MAX,
        ensures
            final(self).count == old(self).count + 1,
            final(self).errors@ == old(self).errors@,
    {
        self.count = self.count + 1;
    }

    /// Records a file that could not be read or saved: its name, a colon
    /// and the error.
    pub fn failed(&mut self, name: &str, error: &str)
        ensures
            final(self).count == old(self).count,
            final(self).errors.deep_view() == old(self).errors.deep_view().push(
                name@ + ": "@ + error@,
            ),
    {
        let mut e = prefixed(name, ": ");
        e.append(error);
        self.errors.push(e);
        proof {
            assert(self.errors.deep_view() =~= old(self).errors.deep_view().push(
                name@ + ": "@ + error@,
            ));
        }
    }

    /// What the upload answers once every field has been read.
    pub fn report(&self) -> (r: UploadReport)
        ensures
            (self.count > 0 ==> (r matches UploadReport::Uploaded { count: c, message: m } && c
                == self.count && m@ == decimal(self.count as nat)
                + "件のファイルをアップロードしました"@)),
            (self.count == 0 && self.errors.len() > 0 ==> (r matches UploadReport::Failed(m) && m@
                == "アップロード失敗: "@ + join(self.errors.deep_view(), ", "@))),
            (self.count == 0 && self.errors.len() == 0 ==> (r matches UploadReport::Failed(m)
                && m@ == "ファイルが見つかりませんでした"@)),
    {
        upload_report(self.count, &self.errors)
    }
}

/// Where a field of an upload form is saved: under the upload directory by
/// its file name. A field without a file name is skipped.
pub fn upload_target(file_name: Option<&str>) -> (r: Option<String>)
    ensures
        match file_name {
            None => r is None,
            Some(n) => r matches Some(p) && p@ == UPLOAD_DIR@ + "/"@ + n@,
        },
{
    match file_name {
        None => None,
        Some(n) => Some(local_image_path(n)),
    }
}

/// The failure to answer when no R2 endpoint is configured: the endpoint
/// setting is empty exactly when there is one.
pub fn r2_endpoint_error(endpoint: &str) -> (r: Option<AdminReply>)
    ensures
        (r is Some <==> endpoint@.len() == 0),
        (r matches Some(reply) ==> (reply matches AdminReply::Failure(m) && m@
            == "R2_ENDPOINTが設定されていません"@)),
{
    if endpoint.unicode_len() == 0 {
        Some(AdminReply::Failure(String::from_str("R2_ENDPOINTが設定されていません")))
    } else {
        None
    }
}

/// The bucket to use: the configured one, else the default bucket.
pub fn r2_bucket(configured: Option<String>) -> (r: String)
    ensures
        r@ == (match configured {
            Some(b) => b@,
            None => DEFAULT_BUCKET@,
        }),
{
    match configured {
        Some(b) => b,
        None => String::from_str(DEFAULT_BUCKET),
    }
}

/// The arguments of the `exiftool` run that strips the metadata of the JPEG
/// files in the upload directory.
pub fn exiftool_args() -> (r: Vec<String>)
    ensures
        r.deep_view() == seq![
            "-overwrite_original"@,
            "-all="@,
            "-ext"@,
            "jpg"@,
            "-ext"@,
            "jpeg"@,
            UPLOAD_DIR@,
        ],
{
    let r = vec![
        String::from_str("-overwrite_original"),
        String::from_str("-all="),
        String::from_str("-ext"),
        String::from_str("jpg"),
        String::from_str("-ext"),
        String::from_str("jpeg"),
        String::from_str(UPLOAD_DIR),
    ];
    assert(r.deep_view() =~= seq![
        "-overwrite_original"@,
        "-all="@,
        "-ext"@,
        "jpg"@,
        "-ext"@,
        "jpeg"@,
        UPLOAD_DIR@,
    ]);
    r
}

/// The URL of a bucket: `s3://` and its name.
pub open spec fn bucket_url(bucket: Seq<char>) -> Seq<char> {
    "s3://"@ + bucket
}

/// The arguments of the `aws` run that copies the upload directory into
/// the bucket.
pub fn s3_sync_args(bucket: &str, endpoint: &str) -> (r: Vec<String>)
    ensures
        r.deep_view() == seq![
            "s3"@,
            "sync"@,
            UPLOAD_DIR@,
            bucket_url(bucket@),
            "--endpoint-url"@,
            endpoint@,
        ],
{
    let r = vec![
        String::from_str("s3"),
        String::from_str("sync"),
        String::from_str(UPLOAD_DIR),
        prefixed("s3://", bucket),
        String::from_str("--endpoint-url"),
        String::from_str(endpoint),
    ];
    assert(r.deep_view() =~= seq![
        "s3"@,
        "sync"@,
        UPLOAD_DIR@,
        bucket_url(bucket@),
        "--endpoint-url"@,
        endpoint@,
    ]);
    r
}

/// The arguments of the `aws` run that lists the top of the bucket.
pub fn s3_list_args(bucket: &str, endpoint: &str) -> (r: Vec<String>)
    ensures
        r.deep_view() == seq![
            "s3"@,
            "ls"@,
            bucket_url(bucket@) + "/"@,
            "--endpoint-url"@,
            endpoint@,
        ],
{
    let mut url = prefixed("s3://", bucket);
    url.append("/");
    let r = vec![
        String::from_str("s3"),
        String::from_str("ls"),
        url,
        String::from_str("--endpoint-url"),
        String::from_str(endpoint),
    ];
    assert(r.deep_view() =~= seq![
        "s3"@,
        "ls"@,
        bucket_url(bucket@) + "/"@,
        "--endpoint-url"@,
        endpoint@,
    ]);
    r
}

/// What the push answers once `exiftool` has been run: nothing yet (the push
/// goes on) when it ran and succeeded; a failure, which stops the push, when
/// it exited with a failure status (with what it wrote to stderr) or could
/// not be started (with the reason).
pub fn exiftool_outcome(outcome: &CommandOutcome) -> (r: Option<AdminReply>)
    ensures
        match outcome {
            CommandOutcome::Ran { success, stderr, .. } => if *success {
                r is None
            } else {
                r is Some && r->0 is Failure && r->0->Failure_0@ == "exiftoolの実行に失敗しました: "@
                    + stderr@
            },
            CommandOutcome::NotStarted { error } => r is Some && r->0 is Failure
                && r->0->Failure_0@ == "exiftoolの実行に失敗しました: "@ + error@,
        },
{
    match outcome {
        CommandOutcome::Ran { success, stderr, .. } => {
            if *success {
                None
            } else {
                Some(AdminReply::Failure(prefixed("exiftoolの実行に失敗しました: ", stderr.as_str())))
            }
        },
        CommandOutcome::NotStarted { error } => Some(
            AdminReply::Failure(prefixed("exiftoolの実行に失敗しました: ", error.as_str())),
        ),
    }
}

/// What the push answers once `aws s3 sync` has been run.
pub fn sync_outcome(outcome: &CommandOutcome) -> (r: AdminReply)
    ensures
        match outcome {
            CommandOutcome::Ran { success, stderr, .. } => if *success {
                r is Success && r->Success_0@ == "R2へのアップロードが完了しました"@
            } else {
                r is Failure && r->Failure_0@ == "アップロードに失敗しました: "@ + stderr@
            },
            CommandOutcome::NotStarted { error } => r is Failure && r->Failure_0@
                == "AWS CLIの実行に失敗しました: "@ + error@,
        },
{
    match outcome {
        CommandOutcome::Ran { success, stderr, .. } => {
            if *success {
                AdminReply::Success(String::from_str("R2へのアップロードが完了しました"))
            } else {
                AdminReply::Failure(prefixed("アップロードに失敗しました: ", stderr.as_str()))
            }
        },
        CommandOutcome::NotStarted { error } => AdminReply::Failure(
            prefixed("AWS CLIの実行に失敗しました: ", error.as_str()),
        ),
    }
}

/// Where a push to the bucket stands: not begun, stripping the images'
/// metadata with `exiftool`, copying them with `aws s3 sync`, or answered.
#[derive(Debug, Clone)]
pub enum PushState {
    Start,
    Stripping { bucket: String, endpoint: String },
    Syncing,
    Done,
}

/// What the push is told: that it begins (with the configured endpoint and
/// bucket), or how the command it asked for ended.
#[derive(Debug, Clone)]
pub enum PushEvent {
    Begin { endpoint: String, bucket: Option<String> },
    Finished(CommandOutcome),
}

/// What the push asks for next: to run a program with arguments, or to
/// answer.
#[derive(Debug, Clone)]
pub enum PushAction {
    Run { program: String, args: Vec<String> },
    Reply(AdminReply),
}

/// Whether the event is the one that the push waits for in that state.
pub open spec fn push_expects(state: PushState, event: PushEvent) -> bool {
    match state {
        PushState::Start => event is Begin,
        PushState::Stripping { .. } => event is Finished,
        PushState::Syncing => event is Finished,
        PushState::Done => false,
    }
}

/// One step of a push. It begins by checking the endpoint and running
/// `exiftool` over the upload directory; once that has run and succeeded it
/// runs `aws s3 sync` into the bucket; that command's outcome is the answer.
/// A push whose `exiftool` cannot be started, or exits with a failure
/// status, stops there, so no image leaves before its metadata has been
/// stripped.
pub fn push_step(state: PushState, event: PushEvent) -> (r: (PushState, PushAction))
    requires
        push_expects(state, event),
    ensures
        (r.1 matches PushAction::Run { program, .. } && program@ == "aws"@) ==> (state is Stripping
            && (event matches PushEvent::Finished(CommandOutcome::Ran { success, .. }) && success)),
        match (state, event) {
            (PushState::Start, PushEvent::Begin { endpoint, bucket }) => if endpoint@.len() == 0 {
                r.0 is Done && (r.1 matches PushAction::Reply(AdminReply::Failure(m)) && m@
                    == "R2_ENDPOINTが設定されていません"@)
            } else {
                (r.0 matches PushState::Stripping { bucket: b, endpoint: e } && e@ == endpoint@
                    && b@ == (match bucket {
                    Some(x) => x@,
                    None => DEFAULT_BUCKET@,
                })) && (r.1 matches PushAction::Run { program, args } && program@ == "exiftool"@
                    && args.deep_view() == seq![
                    "-overwrite_original"@,
                    "-all="@,
                    "-ext"@,
                    "jpg"@,
                    "-ext"@,
                    "jpeg"@,
                    UPLOAD_DIR@,
                ])
            },
            (PushState::Stripping { bucket, endpoint }, PushEvent::Finished(o)) => match o {
                CommandOutcome::Ran { success, stderr, .. } => if success {
                    r.0 is Syncing && (r.1 matches PushAction::Run { program, args } && program@
                        == "aws"@ && args.deep_view() == seq![
                        "s3"@,
                        "sync"@,
                        UPLOAD_DIR@,
                        bucket_url(bucket@),
                        "--endpoint-url"@,
                        endpoint@,
                    ])
                } else {
                    r.0 is Done && (r.1 matches PushAction::Reply(AdminReply::Failure(m)) && m@
                        == "exiftoolの実行に失敗しました: "@ + stderr@)
                },
                CommandOutcome::NotStarted { error } => r.0 is Done && (r.1 matches PushAction::Reply(
                    AdminReply::Failure(m),
                ) && m@ == "exiftoolの実行に失敗しました: "@ + error@),
            },
            (PushState::Syncing, PushEvent::Finished(o)) => r.0 is Done && (r.1 matches PushAction::Reply(reply) && match o {
                CommandOutcome::Ran { success, stderr, .. } => if success {
                    reply matches AdminReply::Success(m) && m@ == "R2へのアップロードが完了しました"@
                } else {
                    reply matches AdminReply::Failure(m) && m@ == "アップロードに失敗しました: "@
                        + stderr@
                },
                CommandOutcome::NotStarted { error } => reply matches AdminReply::Failure(m) && m@
                    == "AWS CLIの実行に失敗しました: "@ + error@,
            }),
            _ => false,
        },
{
    match (state, event) {
        (PushState::Start, PushEvent::Begin { endpoint, bucket }) => {
            match r2_endpoint_error(endpoint.as_str()) {
                Some(reply) => (PushState::Done, PushAction::Reply(reply)),
                None => {
                    proof {
                        reveal_strlit("exiftool");
                        reveal_strlit("aws");
                        assert("exiftool"@[0] != "aws"@[0]);
                    }
                    let bucket = r2_bucket(bucket);
                    let args = exiftool_args();
                    (
                        PushState::Stripping { bucket, endpoint },
                        PushAction::Run { program: String::from_str("exiftool"), args },
                    )
                },
            }
        },
        (PushState::Stripping { bucket, endpoint }, PushEvent::Finished(o)) => {
            match exiftool_outcome(&o) {
                Some(reply) => (PushState::Done, PushAction::Reply(reply)),
                None => {
                    let args = s3_sync_args(bucket.as_str(), endpoint.as_str());
                    (PushState::Syncing, PushAction::Run { program: String::from_str("aws"), args })
                },
            }
        },
        (PushState::Syncing, PushEvent::Finished(o)) => {
            (PushState::Done, PushAction::Reply(sync_outcome(&o)))
        },
        (PushState::Done, _) => {
            proof {
                assert(false);
            }
            (PushState::Done, PushAction::Reply(AdminReply::Failure(String::new())))
        },
        (PushState::Start, PushEvent::Finished(_)) => {
            proof {
                assert(false);
            }
            (PushState::Done, PushAction::Reply(AdminReply::Failure(String::new())))
        },
        (_, PushEvent::Begin { .. }) => {
            proof {
                assert(false);
            }
            (PushState::Done, PushAction::Reply(AdminReply::Failure(String::new())))
        },
    }
}

/// What listing the images answers when the upload directory cannot be read.
pub fn list_failure(error: &str) -> (r: AdminReply)
    ensures
        r is Failure && r->Failure_0@ == "ディレクトリの読み込みに失敗しました: "@ + error@,
{
    AdminReply::Failure(prefixed("ディレクトリの読み込みに失敗しました: ", error))
}

/// The names that are images, in their order.
pub open spec fn image_names(names: Seq<Seq<char>>) -> Seq<Seq<char>>
    decreases names.len(),
{
    if names.len() == 0 {
        seq![]
    } else if image_kind_of(names.last()) is Some {
        image_names(names.drop_last()).push(names.last())
    } else {
        image_names(names.drop_last())
    }
}

/// The image files among the names in the upload directory, in ascending
/// order.
pub fn select_images(names: &Vec<String>) -> (r: Vec<String>)
    ensures
        sorted(r.deep_view()),
        r.deep_view().to_multiset() == image_names(names.deep_view()).to_multiset(),
{
    let ghost s = names.deep_view();
    let mut picked: Vec<String> = Vec::new();
    let mut i: usize = 0;
    assert(picked.deep_view() =~= image_names(s.take(0)));
    while i < names.len()
        invariant
            0 <= i <= names.len(),
            s == names.deep_view(),
            picked.deep_view() == image_names(s.take(i as int)),
        decreases names.len() - i,
    {
        assert(s.take(i + 1).drop_last() =~= s.take(i as int));
        assert(s.take(i + 1).last() == s[i as int]);
        if is_image_file(names[i].as_str()) {
            let ghost before = picked.deep_view();
            picked.push(names[i].clone());
            assert(picked.deep_view() =~= before.push(s[i as int]));
        }
        i = i + 1;
    }
    assert(s.take(names.len() as int) =~= s);
    sort_names(picked)
}

/// The words of `s` from `p` on, as `str::split_whitespace` yields them,
/// with the current word started at `start`.
pub open spec fn words_rec(s: Seq<char>, start: Option<int>, p: int) -> Seq<Seq<char>>
    decreases s.len() - p,
{
    if p >= s.len() {
        match start {
            Some(a) => seq![s.subrange(a, s.len() as int)],
            None => seq![],
        }
    } else if is_space(s[p]) {
        match start {
            Some(a) => seq![s.subrange(a, p)] + words_rec(s, None, p + 1),
            None => words_rec(s, None, p + 1),
        }
    } else {
        match start {
            Some(a) => words_rec(s, Some(a), p + 1),
            None => words_rec(s, Some(p), p + 1),
        }
    }
}

/// What `str::split_whitespace` yields.
pub open spec fn words(s: Seq<char>) -> Seq<Seq<char>> {
    words_rec(s, None, 0)
}

/// The object that a line of `aws s3 ls` names: its fourth word, on lines
/// with at least four words (date, time, size, name).
pub open spec fn listed_object(line: Seq<char>) -> Option<Seq<char>> {
    if words(line).len() >= 4 {
        Some(words(line)[3])
    } else {
        None
    }
}

/// The images that an `aws s3 ls` listing names. The listing is cut at line
/// breaks; a carriage return before a break is white space and so falls
/// between words, as it does when the lines are read with `str::lines`.
pub open spec fn listed_images(listing: Seq<char>) -> Set<Seq<char>> {
    Set::new(
        |x: Seq<char>|
            exists|i: int|
                0 <= i < split_on(listing, '\n').len() && #[trigger] listed_object(
                    split_on(listing, '\n')[i],
                ) == Some(x) && image_kind_of(x) is Some,
    )
}

/// The images among the local file names.
pub open spec fn local_images(names: Seq<Seq<char>>) -> Set<Seq<char>> {
    Set::new(|x: Seq<char>| names.contains(x) && image_kind_of(x) is Some)
}

/// The fourth word of `v[lo..hi]`, if it has four words.
fn fourth_word(v: &Vec<char>, lo: usize, hi: usize) -> (r: Option<(usize, usize)>)
    requires
        lo <= hi <= v.len(),
    ensures
        match r {
            Some((a, b)) => a <= b <= v.len() && listed_object(v@.subrange(lo as int, hi as int))
                == Some(v@.subrange(a as int, b as int)),
            None => listed_object(v@.subrange(lo as int, hi as int)) is None,
        },
{
    let ghost s = v@.subrange(lo as int, hi as int);
    let ghost mut done: Seq<Seq<char>> = seq![];
    let mut found: Vec<(usize, usize)> = Vec::new();
    let mut start: Option<usize> = None;
    let mut p: usize = lo;
    while p < hi
        invariant
            lo <= p <= hi <= v.len(),
            s == v@.subrange(lo as int, hi as int),
            match start {
                Some(a) => lo <= a <= p,
                None => true,
            },
            found.len() == done.len(),
            forall|k: int|
                0 <= k < found.len() ==> (#[trigger] found[k]).0 <= found[k].1 <= v.len()
                    && v@.subrange(found[k].0 as int, found[k].1 as int) == done[k],
            done + words_rec(
                s,
                match start {
                    Some(a) => Some(a - lo),
                    None => None,
                },
                p - lo,
            ) == words(s),
        decreases hi - p,
    {
        assert(s[p - lo] == v@[p as int]);
        if crate::text::is_whitespace(v[p]) {
            match start {
                Some(a) => {
                    let ghost w = v@.subrange(a as int, p as int);
                    assert(s.subrange(a - lo, p - lo) =~= w);
                    found.push((a, p));
                    proof {
                        assert(done.push(w) + words_rec(s, None, p + 1 - lo) =~= done + (seq![w]
                            + words_rec(s, None, p + 1 - lo)));
                        done = done.push(w);
                    }
                },
                None => {},
            }
            start = None;
        } else {
            match start {
                Some(_) => {},
                None => {
                    start = Some(p);
                },
            }
        }
        p = p + 1;
    }
    match start {
        Some(a) => {
            let ghost w = v@.subrange(a as int, hi as int);
            assert(s.subrange(a - lo, s.len() as int) =~= w);
            found.push((a, hi));
            proof {
                assert(done.push(w) =~= done + seq![w]);
                done = done.push(w);
            }
        },
        None => {
            assert(done + seq![] =~= done);
        },
    }
    if found.len() >= 4 {
        Some(found[3])
    } else {
        None
    }
}

/// The images that an `aws s3 ls` listing names, in strictly ascending order.
pub fn listed_image_names(listing: &str) -> (r: Vec<String>)
    ensures
        strictly_sorted(r.deep_view()),
        forall|x: Seq<char>| r.deep_view().contains(x) <==> listed_images(listing@).contains(x),
{
    let v = to_chars(listing);
    let lines = split_ranges(&v, 0, v.len(), '\n');
    assert(v@.subrange(0, v.len() as int) =~= v@);
    let ghost ls = split_on(v@, '\n');
    let mut out: Vec<String> = Vec::new();
    let mut i: usize = 0;
    while i < lines.len()
        invariant
            0 <= i <= lines.len(),
            v@ == listing@,
            ls == split_on(v@, '\n'),
            lines.len() == ls.len(),
            forall|k: int|
                0 <= k < lines.len() ==> (#[trigger] lines[k]).0 <= lines[k].1 <= v.len()
                    && v@.subrange(lines[k].0 as int, lines[k].1 as int) == ls[k],
            strictly_sorted(out.deep_view()),
            forall|x: Seq<char>|
                out.deep_view().contains(x) <==> exists|k: int|
                    0 <= k < i && #[trigger] listed_object(ls[k]) == Some(x) && image_kind_of(x)
                        is Some,
        decreases lines.len() - i,
    {
        let (a, b) = lines[i];
        let ghost before = out.deep_view();
        match fourth_word(&v, a, b) {
            Some((wa, wb)) => {
                let name = string_of_range(&v, wa, wb);
                if is_image_file(name.as_str()) {
                    insert_unique(&mut out, name);
                }
            },
            None => {},
        }
        assert forall|x: Seq<char>|
            out.deep_view().contains(x) <==> exists|k: int|
                0 <= k < i + 1 && #[trigger] listed_object(ls[k]) == Some(x) && image_kind_of(x)
                    is Some by {
            if exists|k: int|
                0 <= k < i + 1 && #[trigger] listed_object(ls[k]) == Some(x) && image_kind_of(x)
                    is Some {
                let k = choose|k: int|
                    0 <= k < i + 1 && #[trigger] listed_object(ls[k]) == Some(x) && image_kind_of(
                        x,
                    ) is Some;
                if k < i {
                    assert(before.contains(x));
                }
            }
            if before.contains(x) {
                let k = choose|k: int|
                    0 <= k < i && #[trigger] listed_object(ls[k]) == Some(x) && image_kind_of(x)
                        is Some;
                assert(0 <= k < i + 1);
            }
        }
        i = i + 1;
    }
    assert forall|x: Seq<char>| out.deep_view().contains(x) <==> listed_images(listing@).contains(
        x,
    ) by {}
    out
}

/// How the local images compare with the ones in the bucket, each list in
/// strictly ascending order.
#[derive(Debug, Clone)]
pub struct ImageDiff {
    pub only_local: Vec<String>,
    pub only_r2: Vec<String>,
    pub synced: Vec<String>,
}

/// The local images (among `local`) and the bucket's images, compared: the
/// ones only here, the ones only in the bucket, and the ones in both.
pub open spec fn diff_matches(d: ImageDiff, local: Set<Seq<char>>, remote: Set<Seq<char>>) -> bool {
    &&& strictly_sorted(d.only_local.deep_view())
    &&& strictly_sorted(d.only_r2.deep_view())
    &&& strictly_sorted(d.synced.deep_view())
    &&& forall|x: Seq<char>|
        d.only_local.deep_view().contains(x) <==> (local.contains(x) && !remote.contains(x))
    &&& forall|x: Seq<char>|
        d.only_r2.deep_view().contains(x) <==> (remote.contains(x) && !local.contains(x))
    &&& forall|x: Seq<char>|
        d.synced.deep_view().contains(x) <==> (local.contains(x) && remote.contains(x))
}

/// Compares the image files among the local names with the images of the
/// bucket's listing.
pub fn image_diff(local_names: &Vec<String>, listing: &str) -> (r: ImageDiff)
    ensures
        diff_matches(r, local_images(local_names.deep_view()), listed_images(listing@)),
{
    let remote = listed_image_names(listing);
    let ghost l = local_names.deep_view();
    let mut local: Vec<String> = Vec::new();
    let mut i: usize = 0;
    while i < local_names.len()
        invariant
            0 <= i <= local_names.len(),
            l == local_names.deep_view(),
            strictly_sorted(local.deep_view()),
            forall|x: Seq<char>|
                local.deep_view().contains(x) <==> (l.take(i as int).contains(x) && image_kind_of(
                    x,
                ) is Some),
        decreases local_names.len() - i,
    {
        let ghost before = local.deep_view();
        let img = is_image_file(local_names[i].as_str());
        if img {
            insert_unique(&mut local, local_names[i].clone());
        }
        assert(forall|x: Seq<char>|
            local.deep_view().contains(x) <==> (before.contains(x) || (img && x == l[i as int])));
        assert forall|x: Seq<char>|
            local.deep_view().contains(x) <==> (l.take(i + 1).contains(x) && image_kind_of(x)
                is Some) by {
            assert(l.take(i + 1) =~= l.take(i as int).push(l[i as int]));
            assert(l[i as int] == local_names[i as int]@);
            if x == l[i as int] {
                assert(l.take(i + 1)[i as int] == x);
            }
            if l.take(i as int).contains(x) {
                let k = choose|k: int| 0 <= k < i && #[trigger] l.take(i as int)[k] == x;
                assert(l.take(i + 1)[k] == x);
            }
            if l.take(i + 1).contains(x) {
                let k = choose|k: int| 0 <= k < i + 1 && #[trigger] l.take(i + 1)[k] == x;
                if k < i {
                    assert(l.take(i as int)[k] == x);
                }
            }
        }
        i = i + 1;
    }
    assert(l.take(local_names.len() as int) =~= l);
    let mut only_local: Vec<String> = Vec::new();
    let mut synced: Vec<String> = Vec::new();
    let mut j: usize = 0;
    while j < local.len()
        invariant
            0 <= j <= local.len(),
            strictly_sorted(only_local.deep_view()),
            strictly_sorted(synced.deep_view()),
            forall|x: Seq<char>|
                only_local.deep_view().contains(x) <==> (local.deep_view().take(j as int).contains(
                    x,
                ) && !remote.deep_view().contains(x)),
            forall|x: Seq<char>|
                synced.deep_view().contains(x) <==> (local.deep_view().take(j as int).contains(x)
                    && remote.deep_view().contains(x)),
        decreases local.len() - j,
    {
        let ghost lv = local.deep_view();
        assert(lv.take(j + 1) =~= lv.take(j as int).push(lv[j as int]));
        assert forall|x: Seq<char>|
            lv.take(j + 1).contains(x) <==> (lv.take(j as int).contains(x) || x == lv[j as int]) by {
            if lv.take(j as int).contains(x) {
                let k = choose|k: int| 0 <= k < j && #[trigger] lv.take(j as int)[k] == x;
                assert(lv.take(j + 1)[k] == x);
            }
            if lv.take(j + 1).contains(x) {
                let k = choose|k: int| 0 <= k < j + 1 && #[trigger] lv.take(j + 1)[k] == x;
                if k < j {
                    assert(lv.take(j as int)[k] == x);
                }
            }
            if x == lv[j as int] {
                assert(lv.take(j + 1)[j as int] == x);
            }
        }
        if crate::names::contains_name(&remote, &local[j]) {
            insert_unique(&mut synced, local[j].clone());
        } else {
            insert_unique(&mut only_local, local[j].clone());
        }
        j = j + 1;
    }
    assert(local.deep_view().take(local.len() as int) =~= local.deep_view());
    let mut only_r2: Vec<String> = Vec::new();
    let mut k: usize = 0;
    while k < remote.len()
        invariant
            0 <= k <= remote.len(),
            strictly_sorted(only_r2.deep_view()),
            forall|x: Seq<char>|
                only_r2.deep_view().contains(x) <==> (remote.deep_view().take(k as int).contains(x)
                    && !local.deep_view().contains(x)),
        decreases remote.len() - k,
    {
        let ghost rv = remote.deep_view();
        assert(rv.take(k + 1) =~= rv.take(k as int).push(rv[k as int]));
        assert forall|x: Seq<char>|
            rv.take(k + 1).contains(x) <==> (rv.take(k as int).contains(x) || x == rv[k as int]) by {
            if rv.take(k as int).contains(x) {
                let m = choose|m: int| 0 <= m < k && #[trigger] rv.take(k as int)[m] == x;
                assert(rv.take(k + 1)[m] == x);
            }
            if rv.take(k + 1).contains(x) {
                let m = choose|m: int| 0 <= m < k + 1 && #[trigger] rv.take(k + 1)[m] == x;
                if m < k {
                    assert(rv.take(k as int)[m] == x);
                }
            }
            if x == rv[k as int] {
                assert(rv.take(k + 1)[k as int] == x);
            }
        }
        if !crate::names::contains_name(&local, &remote[k]) {
            insert_unique(&mut only_r2, remote[k].clone());
        }
        k = k + 1;
    }
    assert(remote.deep_view().take(remote.len() as int) =~= remote.deep_view());
    ImageDiff { only_local, only_r2, synced }
}

/// The comparison splits the images: each local image is either only here
/// or in both, each image of the bucket either only there or in both, and
/// no image is in two of the lists.
pub proof fn lemma_diff_partitions(d: ImageDiff, local: Set<Seq<char>>, remote: Set<Seq<char>>)
    requires
        diff_matches(d, local, remote),
    ensures
        forall|x: Seq<char>|
            local.contains(x) <==> (d.only_local.deep_view().contains(x) || d.synced.deep_view().contains(x)),
        forall|x: Seq<char>|
            remote.contains(x) <==> (d.only_r2.deep_view().contains(x) || d.synced.deep_view().contains(x)),
        forall|x: Seq<char>|
            !(d.only_local.deep_view().contains(x) && d.synced.deep_view().contains(x)),
        forall|x: Seq<char>|
            !(d.only_r2.deep_view().contains(x) && d.synced.deep_view().contains(x)),
        forall|x: Seq<char>|
            !(d.only_local.deep_view().contains(x) && d.only_r2.deep_view().contains(x)),
{
    assert forall|x: Seq<char>| !(d.only_local.deep_view().contains(x) && d.synced.deep_view().contains(x)) by {
        if d.only_local.deep_view().contains(x) {
            assert(!remote.contains(x));
        }
    }
    assert forall|x: Seq<char>| !(d.only_r2.deep_view().contains(x) && d.synced.deep_view().contains(x)) by {
        if d.only_r2.deep_view().contains(x) {
            assert(!local.contains(x));
        }
    }
    assert forall|x: Seq<char>|
        !(d.only_local.deep_view().contains(x) && d.only_r2.deep_view().contains(x)) by {
        if d.only_local.deep_view().contains(x) {
            assert(local.contains(x));
        }
    }
}

/// Every name that the image listing shows is an image.
pub proof fn lemma_selected_are_images(r: Seq<Seq<char>>, names: Seq<Seq<char>>)
    requires
        r.to_multiset() == image_names(names).to_multiset(),
    ensures
        forall|x: Seq<char>| r.contains(x) ==> image_kind_of(x) is Some,
{
    broadcast use vstd::seq_lib::group_to_multiset_ensures;

    lemma_image_names_are_images(names);
    assert forall|x: Seq<char>| r.contains(x) implies image_kind_of(x) is Some by {
        assert(r.to_multiset().count(x) > 0);
        assert(image_names(names).contains(x));
    }
}

proof fn lemma_image_names_are_images(names: Seq<Seq<char>>)
    ensures
        forall|x: Seq<char>| image_names(names).contains(x) ==> image_kind_of(x) is Some,
    decreases names.len(),
{
    if names.len() > 0 {
        lemma_image_names_are_images(names.drop_last());
        let d = image_names(names.drop_last());
        assert forall|x: Seq<char>| image_names(names).contains(x) implies image_kind_of(x) is Some by {
            if image_kind_of(names.last()) is Some {
                assert(image_names(names) == d.push(names.last()));
                let i = choose|i: int| 0 <= i < d.push(names.last()).len() && d.push(names.last())[i] == x;
                if i < d.len() {
                    assert(d[i] == x);
                    assert(d.contains(x));
                } else {
                    assert(x == names.last());
                }
            } else {
                assert(image_names(names) == d);
            }
        }
    }
}

/// What the comparison with the bucket answers, once `aws s3 ls` has been
/// run: the comparison when the listing succeeded, else a failure.
pub fn diff_outcome(local_names: &Vec<String>, outcome: &CommandOutcome) -> (r: Result<
    ImageDiff,
    AdminReply,
>)
    ensures
        match outcome {
            CommandOutcome::Ran { success, stdout, stderr } => if *success {
                r matches Ok(d) && diff_matches(
                    d,
                    local_images(local_names.deep_view()),
                    listed_images(stdout@),
                )
            } else {
                r matches Err(AdminReply::Failure(m)) && m@ == "R2一覧取得失敗: "@ + stderr@
            },
            CommandOutcome::NotStarted { error } => r matches Err(AdminReply::Failure(m)) && m@
                == "AWS CLI実行失敗: "@ + error@,
        },
{
    match outcome {
        CommandOutcome::Ran { success, stdout, stderr } => {
            if *success {
                Ok(image_diff(local_names, stdout.as_str()))
            } else {
                Err(AdminReply::Failure(prefixed("R2一覧取得失敗: ", stderr.as_str())))
            }
        },
        CommandOutcome::NotStarted { error } => Err(
            AdminReply::Failure(prefixed("AWS CLI実行失敗: ", error.as_str())),
        ),
    }
}

/// The path under which an uploaded file is kept: the upload directory, a
/// slash and the file's name.
pub fn local_image_path(name: &str) -> (r: String)
    ensures
        r@ == UPLOAD_DIR@ + "/"@ + name@,
{
    let mut r = String::from_str(UPLOAD_DIR);
    r.append("/");
    r.append(name);
    r
}

} // verus!
