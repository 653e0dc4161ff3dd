//! Where synchronised files go on disk, how article text is written, and the
//! decisions of a synchronisation run: which download steps follow which
//! results, when a failed download is retried, and how the run is counted.

use std::path::PathBuf;
use vstd::prelude::*;

use crate::models::{Activity, AppConfig, Media, SyncStats};
use crate::text::{chars_of, concat2, concat3, contains_seq, contains_text, decimal, format_u64, push_char};
use vstd::arithmetic::power2::pow2;

verus! {

// ---------------------------------------------------------------------------
// Outside calls
// ---------------------------------------------------------------------------

/// What `Path::join` gives for a base path and a relative or absolute part.
pub uninterp spec fn joined_path(base: PathBuf, part: Seq<char>) -> PathBuf;

/// `Path::join`: the base path extended by `part` (or `part` itself when absolute).
/// The result depends on these two arguments alone; its shape is left to std.
#[verifier::external_body]
fn join_path(base: &PathBuf, part: &str) -> (r: PathBuf)
    ensures
        r == joined_path(*base, part@),
{
    base.join(part)
}

/// Whether a character is alphanumeric in the Unicode sense (`char::is_alphanumeric`).
pub uninterp spec fn unicode_alphanumeric(c: char) -> bool;

/// `char::is_alphanumeric`: whether the character has the Unicode Alphabetic or
/// Numeric property; the result depends on the character alone.
#[verifier::external_body]
fn is_alphanumeric(c: char) -> (b: bool)
    ensures
        b == unicode_alphanumeric(c),
{
    c.is_alphanumeric()
}

/// The lowercase form of a text in the Unicode sense (`str::to_lowercase`).
pub uninterp spec fn lowercase(s: Seq<char>) -> Seq<char>;

/// `str::to_lowercase`; its result depends on the text alone.
#[verifier::external_body]
fn to_lowercase(s: &str) -> (r: String)
    ensures
        r@ == lowercase(s@),
{
    s.to_lowercase()
}

/// Whether a path has no characters at all (`OsStr::is_empty` of the path).
pub uninterp spec fn path_is_empty(p: PathBuf) -> bool;

/// `path.as_os_str().is_empty()`; the result depends on the path alone.
#[verifier::external_body]
fn path_empty(p: &PathBuf) -> (r: bool)
    ensures
        r == path_is_empty(*p),
{
    p.as_os_str().is_empty()
}

// ---------------------------------------------------------------------------
// File names and folders
// ---------------------------------------------------------------------------

/// Longest number of characters kept from an activity title.
pub const MAX_TITLE_CHARS: usize = 50;

/// A title character that may stand in a folder name as it is.
pub open spec fn is_kept_char(c: char, alphanumeric: bool) -> bool {
    alphanumeric || c == ' ' || c == '-' || c == '_'
}

/// The character that stands for `c` in a folder name.
pub open spec fn safe_char(c: char) -> char {
    if is_kept_char(c, unicode_alphanumeric(c)) {
        c
    } else {
        '_'
    }
}

/// A title made safe for the file system: unsafe characters replaced by `_`, and at
/// most [`MAX_TITLE_CHARS`] characters kept.
pub open spec fn sanitized(title: Seq<char>) -> Seq<char> {
    let mapped = title.map_values(|c: char| safe_char(c));
    if mapped.len() <= 50 {
        mapped
    } else {
        mapped.take(50)
    }
}

/// Replaces a character that may not stand in a folder name by `_`, given whether
/// it is alphanumeric.
pub fn replace_unsafe_char(c: char, alphanumeric: bool) -> (r: char)
    ensures
        r == (if is_kept_char(c, alphanumeric) {
            c
        } else {
            '_'
        }),
{
    if alphanumeric || c == ' ' || c == '-' || c == '_' {
        c
    } else {
        '_'
    }
}

/// Makes an activity title safe to use in a folder name.
pub fn sanitize_filename(title: &str) -> (r: String)
    ensures
        r@ == sanitized(title@),
        forall|i: int|
            0 <= i < r@.len() ==> is_kept_char(#[trigger] r@[i], unicode_alphanumeric(r@[i])),
{
    let cs = chars_of(title);
    let mut out = String::new();
    let mut i: usize = 0;
    let ghost mapped = title@.map_values(|c: char| safe_char(c));
    while i < cs.len() && i < MAX_TITLE_CHARS
        invariant
            cs@ == title@,
            mapped == title@.map_values(|c: char| safe_char(c)),
            i <= cs.len(),
            i <= 50,
            out@ == mapped.take(i as int),
            forall|k: int|
                0 <= k < out@.len() ==> is_kept_char(#[trigger] out@[k], unicode_alphanumeric(out@[k])),
        decreases cs.len() - i,
    {
        let c = cs[i];
        let alnum = is_alphanumeric(c);
        let s = replace_unsafe_char(c, alnum);
        push_char(&mut out, s);
        assert(mapped.take(i + 1) =~= mapped.take(i as int).push(mapped[i as int]));
        i = i + 1;
    }
    if cs.len() <= 50 {
        assert(mapped.take(cs.len() as int) =~= mapped);
    }
    out
}

/// A sanitised title is as long as the title, up to [`MAX_TITLE_CHARS`] characters.
pub proof fn lemma_sanitized_len(title: Seq<char>)
    ensures
        sanitized(title).len() == if title.len() <= 50 {
            title.len()
        } else {
            50
        },
{
}

/// Sanitising a title that is already sanitised changes nothing.
pub proof fn lemma_sanitize_idempotent(title: Seq<char>)
    ensures
        sanitized(sanitized(title)) == sanitized(title),
{
    let once = sanitized(title);
    let mapped = title.map_values(|c: char| safe_char(c));
    assert forall|i: int| 0 <= i < once.len() implies safe_char(#[trigger] once[i]) == once[i] by {
        assert(once[i] == mapped[i]);
        assert(mapped[i] == safe_char(title[i]));
    }
    assert(once.map_values(|c: char| safe_char(c)) =~= once);
}

/// The part of an ISO date-time before its first `T` (the whole text when it has none).
pub open spec fn date_part(date: Seq<char>) -> Seq<char>
    decreases date.len(),
{
    if date.len() == 0 {
        date
    } else if date[0] == 'T' {
        Seq::empty()
    } else {
        seq![date[0]] + date_part(date.drop_first())
    }
}

proof fn lemma_date_part_step(date: Seq<char>, i: int)
    requires
        0 <= i < date.len(),
        forall|k: int| 0 <= k < i ==> date[k] != 'T',
    ensures
        date_part(date) == date.take(i) + date_part(date.skip(i)),
    decreases i,
{
    if i > 0 {
        lemma_date_part_step(date.drop_first(), i - 1);
        assert(date.drop_first().take(i - 1) =~= date.take(i).drop_first());
        assert(date.drop_first().skip(i - 1) =~= date.skip(i));
        assert(date.take(i) =~= seq![date[0]] + date.take(i).drop_first());
    } else {
        assert(date.take(0) =~= Seq::<char>::empty());
        assert(date.skip(0) =~= date);
    }
}

/// The date of an activity: its date-time up to the first `T`.
pub fn activity_date(date: &str) -> (r: String)
    ensures
        r@ == date_part(date@),
{
    let cs = chars_of(date);
    let mut out = String::new();
    let mut i: usize = 0;
    while i < cs.len()
        invariant
            cs@ == date@,
            i <= cs.len(),
            out@ == date@.take(i as int),
            forall|k: int| 0 <= k < i ==> date@[k] != 'T',
        decreases cs.len() - i,
    {
        if cs[i] == 'T' {
            proof {
                lemma_date_part_step(date@, i as int);
                assert(date_part(date@.skip(i as int)) =~= Seq::<char>::empty());
                assert(date@.take(i as int) + Seq::<char>::empty() =~= date@.take(i as int));
            }
            return out;
        }
        push_char(&mut out, cs[i]);
        assert(date@.take(i + 1) =~= date@.take(i as int).push(date@[i as int]));
        i = i + 1;
    }
    proof {
        if date@.len() > 0 {
            lemma_date_part_step(date@, date@.len() - 1);
            let last = date@.skip(date@.len() - 1);
            assert(last.drop_first() =~= Seq::<char>::empty());
            assert(last[0] == date@.last());
            assert(last[0] != 'T');
            assert(date_part(last.drop_first()) =~= Seq::<char>::empty());
            assert(date_part(last) =~= seq![date@.last()]);
            assert(date@.take(date@.len() - 1) + seq![date@.last()] =~= date@);
        }
        assert(date@.take(i as int) =~= date@);
    }
    out
}

/// Name of the folder holding one activity: its date, `_`, and its sanitised title.
pub open spec fn activity_folder_name(activity: Activity) -> Seq<char> {
    date_part(activity.date@) + seq!['_'] + sanitized(activity.title@)
}

/// File name of a media item: its name followed by its extension.
pub open spec fn media_file_name(media: Media) -> Seq<char> {
    media.name@ + media.extension@
}

/// The folder name of an activity, such as `2024-03-15_Test Activity`.
pub fn activity_folder(activity: &Activity) -> (r: String)
    ensures
        r@ == activity_folder_name(*activity),
{
    let date = activity_date(activity.date.as_str());
    let title = sanitize_filename(activity.title.as_str());
    proof {
        reveal_strlit("_");
    }
    concat3(date.as_str(), "_", title.as_str())
}

/// The file name of a media item, such as `photo.jpg`.
pub fn media_filename(media: &Media) -> (r: String)
    ensures
        r@ == media_file_name(*media),
{
    concat2(media.name.as_str(), media.extension.as_str())
}

/// The folder of an activity inside the synchronisation folder.
pub fn get_activity_folder(sync_path: &PathBuf, activity: &Activity) -> (r: PathBuf)
    ensures
        r == joined_path(*sync_path, activity_folder_name(*activity)),
{
    let name = activity_folder(activity);
    join_path(sync_path, name.as_str())
}

/// The file of a media item inside its activity's folder.
pub fn get_media_path(sync_path: &PathBuf, activity: &Activity, media: &Media) -> (r: PathBuf)
    ensures
        r == joined_path(
            joined_path(*sync_path, activity_folder_name(*activity)),
            media_file_name(*media),
        ),
{
    let folder = get_activity_folder(sync_path, activity);
    let filename = media_filename(media);
    join_path(&folder, filename.as_str())
}

/// The Markdown text saved for an activity.
pub open spec fn article_markdown(activity: Activity) -> Seq<char> {
    seq!['#', ' '] + activity.title@ + seq!['\n', '\n'] + "Published: "@ + date_part(
        activity.date@,
    ) + seq!['\n', '\n'] + activity.body@
}

/// Formats an activity as Markdown: its title as a heading, its date, and its body.
pub fn format_article_markdown(activity: &Activity) -> (r: String)
    ensures
        r@ == article_markdown(*activity),
        r@.take(2) == seq!['#', ' '],
        r@.subrange(2, 2 + (activity.title@.len() as int)) == activity.title@,
        r@.skip(r@.len() - activity.body@.len()) == activity.body@,
{
    let date = activity_date(activity.date.as_str());
    let mut s = String::new();
    push_char(&mut s, '#');
    push_char(&mut s, ' ');
    s.append(activity.title.as_str());
    push_char(&mut s, '\n');
    push_char(&mut s, '\n');
    s.append("Published: ");
    s.append(date.as_str());
    push_char(&mut s, '\n');
    push_char(&mut s, '\n');
    s.append(activity.body.as_str());
    proof {
        assert(s@ =~= article_markdown(*activity));
        lemma_article_layout(*activity);
    }
    s
}

/// The article text is the title exactly as given (not sanitised like a folder name)
/// after `# `, then `Published: ` and the date part of its date-time between blank
/// lines, then the body exactly as given.
pub proof fn lemma_article_layout(activity: Activity)
    ensures
        article_markdown(activity).take(2) == seq!['#', ' '],
        article_markdown(activity).subrange(2, 2 + (activity.title@.len() as int)) == activity.title@,
        article_markdown(activity).subrange(
            2 + (activity.title@.len() as int),
            2 + (activity.title@.len() as int) + 13,
        ) == "\n\nPublished: "@,
        article_markdown(activity).subrange(
            15 + (activity.title@.len() as int),
            15 + (activity.title@.len() as int) + (date_part(activity.date@).len() as int),
        ) == date_part(activity.date@),
        article_markdown(activity).len() == 17 + (activity.title@.len() as int) + date_part(
            activity.date@,
        ).len() + activity.body@.len(),
        article_markdown(activity).skip(
            article_markdown(activity).len() - activity.body@.len(),
        ) == activity.body@,
{
    reveal_strlit("Published: ");
    reveal_strlit("\n\nPublished: ");
    let a = article_markdown(activity);
    let t = activity.title@;
    let d = date_part(activity.date@);
    assert(a.take(2) =~= seq!['#', ' ']);
    assert(a.subrange(2, 2 + (t.len() as int)) =~= t);
    assert(a.subrange(2 + (t.len() as int), 2 + (t.len() as int) + 13) =~= "\n\nPublished: "@);
    assert(a.subrange(15 + (t.len() as int), 15 + (t.len() as int) + (d.len() as int)) =~= d);
    assert(a.skip(a.len() - activity.body@.len()) =~= activity.body@);
}

// ---------------------------------------------------------------------------
// Retrying downloads
// ---------------------------------------------------------------------------

/// A lowercased error message that names a network failure, which may go away.
pub open spec fn names_network_failure(lowered: Seq<char>) -> bool {
    ||| contains_seq(lowered, "connection"@)
    ||| contains_seq(lowered, "timeout"@)
    ||| contains_seq(lowered, "network"@)
    ||| contains_seq(lowered, "timed out"@)
}

/// Only the four network words make a failure retryable: a lowercased message names
/// a network failure exactly when it contains `connection`, `timeout`, `network` or
/// `timed out`; any other message (a file system error, say) is not retried.
pub proof fn lemma_network_failure_words(lowered: Seq<char>)
    ensures
        names_network_failure(lowered) <==> (contains_seq(lowered, "connection"@) || contains_seq(
            lowered,
            "timeout"@,
        ) || contains_seq(lowered, "network"@) || contains_seq(lowered, "timed out"@)),
{
}

/// Whether an already lowercased error message names a network failure.
pub fn is_retryable_text(lowered: &str) -> (r: bool)
    ensures
        r == names_network_failure(lowered@),
        r <==> (contains_seq(lowered@, "connection"@) || contains_seq(lowered@, "timeout"@)
            || contains_seq(lowered@, "network"@) || contains_seq(lowered@, "timed out"@)),
{
    contains_text(lowered, "connection") || contains_text(lowered, "timeout") || contains_text(
        lowered,
        "network",
    ) || contains_text(lowered, "timed out")
}

/// Whether a download error is worth another attempt: its message, lowercased,
/// names a connection problem, a timeout or the network. File system errors are not.
pub fn is_retryable_error(message: &str) -> (r: bool)
    ensures
        r == names_network_failure(lowercase(message@)),
        r <==> (contains_seq(lowercase(message@), "connection"@) || contains_seq(
            lowercase(message@),
            "timeout"@,
        ) || contains_seq(lowercase(message@), "network"@) || contains_seq(
            lowercase(message@),
            "timed out"@,
        )),
{
    let lowered = to_lowercase(message);
    is_retryable_text(lowered.as_str())
}

/// What to do after a download attempt failed.
#[derive(Debug)]
pub enum RetryDecision {
    /// Wait this many seconds, then try again.
    Retry { wait_secs: u64 },
    /// Stop and report this error.
    GiveUp { message: String },
}

/// After failed attempt number `attempt` (counting from one) out of at most
/// `max_retries`, with the error's message: give up with a summary once the attempts
/// are used up, give up with the error itself when it is not a network failure, and
/// otherwise wait 2^`attempt` seconds before the next attempt.
pub fn retry_decision(attempt: u32, max_retries: u32, error_message: &str) -> (d: RetryDecision)
    requires
        1 <= attempt,
        attempt < max_retries ==> attempt < 64,
    ensures
        match d {
            RetryDecision::Retry { wait_secs } => {
                &&& attempt < max_retries
                &&& names_network_failure(lowercase(error_message@))
                &&& wait_secs == pow2(attempt as nat)
            },
            RetryDecision::GiveUp { message } => if attempt >= max_retries {
                message@ == "Failed after "@ + decimal(attempt as nat) + " attempts: "@
                    + error_message@
            } else {
                &&& !names_network_failure(lowercase(error_message@))
                &&& message@ == error_message@
            },
        },
        attempt < max_retries && !(contains_seq(lowercase(error_message@), "connection"@)
            || contains_seq(lowercase(error_message@), "timeout"@) || contains_seq(
            lowercase(error_message@),
            "network"@,
        ) || contains_seq(lowercase(error_message@), "timed out"@)) ==> (d matches RetryDecision::GiveUp {
            message,
        } && message@ == error_message@),
{
    if attempt >= max_retries {
        let count = format_u64(attempt as u64);
        let mut message = String::from_str("Failed after ");
        message.append(count.as_str());
        message.append(" attempts: ");
        message.append(error_message);
        return RetryDecision::GiveUp { message };
    }
    if !is_retryable_error(error_message) {
        return RetryDecision::GiveUp { message: String::from_str(error_message) };
    }
    let mut wait: u64 = 1;
    let mut i: u32 = 0;
    proof {
        vstd::arithmetic::power2::lemma2_to64();
    }
    while i < attempt
        invariant
            i <= attempt,
            attempt < 64,
            wait == pow2(i as nat),
        decreases attempt - i,
    {
        proof {
            vstd::arithmetic::power2::lemma_pow2_unfold((i + 1) as nat);
            vstd::bits::lemma_u64_pow2_no_overflow((i + 1) as nat);
        }
        wait = wait * 2;
        i = i + 1;
    }
    RetryDecision::Retry { wait_secs: wait }
}

// ---------------------------------------------------------------------------
// Counting a synchronisation run
// ---------------------------------------------------------------------------

/// Number of attempts made to download one media file.
pub const DOWNLOAD_ATTEMPTS: u32 = 3;

/// How the synchronisation of one media file ended.
#[derive(Debug, Clone, Copy, PartialEq, Eq)]
pub enum MediaOutcome {
    Downloaded,
    Skipped,
    Failed,
}

/// The next step for one media file.
#[derive(Debug)]
pub enum MediaStep {
    /// Ask the service for a signed download address of the file.
    RequestSignedUrl,
    /// Download the file from this address, with at most this many attempts.
    Download { url: String, attempts: u32 },
    /// Nothing more to do for this file.
    Finished(MediaOutcome),
}

/// After checking the file on disk: download it when it is missing or damaged, skip
/// it when it is there, count it as failed when the check itself failed.
pub fn after_existence_check<E>(needs_download: Result<bool, E>) -> (step: MediaStep)
    ensures
        step == match needs_download {
            Ok(true) => MediaStep::RequestSignedUrl,
            Ok(false) => MediaStep::Finished(MediaOutcome::Skipped),
            Err(_) => MediaStep::Finished(MediaOutcome::Failed),
        },
{
    match needs_download {
        Ok(true) => MediaStep::RequestSignedUrl,
        Ok(false) => MediaStep::Finished(MediaOutcome::Skipped),
        Err(_) => MediaStep::Finished(MediaOutcome::Failed),
    }
}

/// After asking for the signed address: download from it, or count the file as failed.
pub fn after_signed_url<E>(signed_url: Result<String, E>) -> (step: MediaStep)
    ensures
        match signed_url {
            Ok(url) => step == (MediaStep::Download { url, attempts: DOWNLOAD_ATTEMPTS }),
            Err(_) => step == MediaStep::Finished(MediaOutcome::Failed),
        },
{
    match signed_url {
        Ok(url) => MediaStep::Download { url, attempts: DOWNLOAD_ATTEMPTS },
        Err(_) => MediaStep::Finished(MediaOutcome::Failed),
    }
}

/// After the download with its retries: the file is downloaded or failed.
pub fn after_download<E>(result: Result<(), E>) -> (outcome: MediaOutcome)
    ensures
        outcome == match result {
            Ok(()) => MediaOutcome::Downloaded,
            Err(_) => MediaOutcome::Failed,
        },
{
    match result {
        Ok(()) => MediaOutcome::Downloaded,
        Err(_) => MediaOutcome::Failed,
    }
}

/// Number of media files over a list of activities.
pub open spec fn media_count(activities: Seq<Activity>) -> nat
    decreases activities.len(),
{
    if activities.len() == 0 {
        0
    } else {
        media_count(activities.drop_last()) + activities.last().medias@.len()
    }
}

/// The counters after recording one outcome.
pub open spec fn recorded(s: SyncStats, outcome: MediaOutcome) -> SyncStats {
    match outcome {
        MediaOutcome::Downloaded => SyncStats { downloaded: (s.downloaded + 1) as u32, ..s },
        MediaOutcome::Skipped => SyncStats { skipped: (s.skipped + 1) as u32, ..s },
        MediaOutcome::Failed => SyncStats { failed: (s.failed + 1) as u32, ..s },
    }
}

/// The counters after recording a series of outcomes in order.
pub open spec fn recorded_all(s: SyncStats, outcomes: Seq<MediaOutcome>) -> SyncStats
    decreases outcomes.len(),
{
    if outcomes.len() == 0 {
        s
    } else {
        recorded(recorded_all(s, outcomes.drop_last()), outcomes.last())
    }
}

/// Number of times an outcome occurs in a series.
pub open spec fn occurrences(outcomes: Seq<MediaOutcome>, o: MediaOutcome) -> nat
    decreases outcomes.len(),
{
    if outcomes.len() == 0 {
        0
    } else {
        occurrences(outcomes.drop_last(), o) + if outcomes.last() == o {
            1nat
        } else {
            0nat
        }
    }
}

impl SyncStats {
    /// Number of media files whose outcome has been recorded.
    pub open spec fn finished(&self) -> nat {
        (self.downloaded + self.skipped + self.failed) as nat
    }

    /// Counters at the start of a run over these activities: all outcomes at zero.
    pub fn for_activities(activities: &Vec<Activity>) -> (s: SyncStats)
        requires
            media_count(activities@) <= u32::MAX,
        ensures
            s.total_activities == activities@.len() as u32,
            s.total_media == media_count(activities@),
            s.downloaded == 0,
            s.skipped == 0,
            s.failed == 0,
    {
        let mut total: u32 = 0;
        let mut i: usize = 0;
        while i < activities.len()
            invariant
                i <= activities@.len(),
                media_count(activities@) <= u32::MAX,
                total == media_count(activities@.take(i as int)),
            decreases activities.len() - i,
        {
            proof {
                assert(activities@.take(i + 1).drop_last() =~= activities@.take(i as int));
                lemma_media_count_prefix(activities@, i + 1);
            }
            total = total + activities[i].medias.len() as u32;
            i = i + 1;
        }
        assert(activities@.take(i as int) =~= activities@);
        SyncStats {
            total_activities: activities.len() as u32,
            total_media: total,
            downloaded: 0,
            skipped: 0,
            failed: 0,
        }
    }

    /// Records how one media file ended: the counter of its outcome goes up by one.
    pub fn record(&mut self, outcome: MediaOutcome)
        requires
            match outcome {
                MediaOutcome::Downloaded => old(self).downloaded < u32::MAX,
                MediaOutcome::Skipped => old(self).skipped < u32::MAX,
                MediaOutcome::Failed => old(self).failed < u32::MAX,
            },
        ensures
            *final(self) == recorded(*old(self), outcome),
            final(self).finished() == old(self).finished() + 1,
    {
        match outcome {
            MediaOutcome::Downloaded => self.downloaded = self.downloaded + 1,
            MediaOutcome::Skipped => self.skipped = self.skipped + 1,
            MediaOutcome::Failed => self.failed = self.failed + 1,
        }
    }
}

proof fn lemma_media_count_prefix(activities: Seq<Activity>, k: int)
    requires
        0 <= k <= activities.len(),
    ensures
        media_count(activities.take(k)) <= media_count(activities),
    decreases activities.len() - k,
{
    if k < activities.len() {
        lemma_media_count_prefix(activities, k + 1);
        assert(activities.take(k + 1).drop_last() =~= activities.take(k));
    } else {
        assert(activities.take(k) =~= activities);
    }
}

/// Every media file of a run is counted exactly once: recording one outcome per file
/// from fresh counters leaves each counter at the number of its outcomes, and their
/// sum at the number of files.
pub proof fn lemma_run_counts(start: SyncStats, outcomes: Seq<MediaOutcome>)
    requires
        start.downloaded == 0,
        start.skipped == 0,
        start.failed == 0,
        outcomes.len() <= u32::MAX,
    ensures
        recorded_all(start, outcomes).downloaded == occurrences(outcomes, MediaOutcome::Downloaded),
        recorded_all(start, outcomes).skipped == occurrences(outcomes, MediaOutcome::Skipped),
        recorded_all(start, outcomes).failed == occurrences(outcomes, MediaOutcome::Failed),
        recorded_all(start, outcomes).finished() == outcomes.len(),
        recorded_all(start, outcomes).total_media == start.total_media,
        recorded_all(start, outcomes).total_activities == start.total_activities,
    decreases outcomes.len(),
{
    if outcomes.len() > 0 {
        lemma_run_counts(start, outcomes.drop_last());
    }
}

// ---------------------------------------------------------------------------
// Starting a run
// ---------------------------------------------------------------------------

/// The message given when no synchronisation folder has been chosen.
pub open spec fn missing_folder_message() -> Seq<char> {
    "Sync directory not configured. Please select a folder first."@
}

/// A run needs a synchronisation folder: refused with a message when the configured
/// path is empty.
pub fn check_sync_path(config: &AppConfig) -> (r: Result<(), String>)
    ensures
        match r {
            Ok(()) => !path_is_empty(config.sync_path),
            Err(m) => path_is_empty(config.sync_path) && m@ == missing_folder_message(),
        },
{
    if path_empty(&config.sync_path) {
        Err(String::from_str("Sync directory not configured. Please select a folder first."))
    } else {
        Ok(())
    }
}

} // verus!
