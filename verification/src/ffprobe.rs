use vstd::prelude::*;
use crate::text::{
    contains_chars, decimal, decimal_string, first_line_trimmed, first_trimmed_line, joined,
    spec_to_uppercase, str_contains, str_equal, to_uppercase,
};

verus! {

// ---------------------------------------------------------------------------
// Probe data (the JSON that `ffprobe -show_streams -show_format` prints)
// ---------------------------------------------------------------------------

/// One media stream of a probed file.
#[derive(Debug, Clone)]
pub struct Stream {
    pub index: u32,
    pub codec_type: String,
    pub codec_name: Option<String>,
    pub channels: Option<u32>,
    pub channel_layout: Option<String>,
    pub width: Option<u32>,
    pub height: Option<u32>,
    pub r_frame_rate: Option<String>,
    pub avg_frame_rate: Option<String>,
}

/// Container-level information of a probed file.
#[derive(Debug, Clone)]
pub struct Format {
    pub filename: Option<String>,
    pub format_name: Option<String>,
    pub duration: Option<String>,
    pub size: Option<String>,
    pub bit_rate: Option<String>,
}

/// Everything a probe reports about a file.
#[derive(Debug, Clone)]
pub struct ProbeOutput {
    pub streams: Vec<Stream>,
    pub format: Option<Format>,
}

/// The stream carries audio.
pub open spec fn is_audio_stream(s: Stream) -> bool {
    s.codec_type@ == "audio"@
}

/// The stream carries video.
pub open spec fn is_video_stream(s: Stream) -> bool {
    s.codec_type@ == "video"@
}

/// An audio stream with six channels or a channel layout naming "5.1".
pub open spec fn is_surround_5_1(s: Stream) -> bool {
    &&& is_audio_stream(s)
    &&& {
        ||| s.channels == Some(6u32)
        ||| (s.channel_layout matches Some(l) && contains_chars(l@, "5.1"@))
    }
}

/// `CODEC (N ch, LAYOUT)`, with "unknown", "?" and "unknown layout" for
/// missing values and the codec name upper-cased.
pub open spec fn audio_description_text(s: Stream) -> Seq<char> {
    let codec = match s.codec_name {
        Some(c) => c@,
        None => "unknown"@,
    };
    let layout = match s.channel_layout {
        Some(l) => l@,
        None => "unknown layout"@,
    };
    let ch = match s.channels {
        Some(c) => decimal(c as nat),
        None => "?"@,
    };
    spec_to_uppercase(codec) + " ("@ + ch + " ch, "@ + layout + ")"@
}

/// The streams themselves, behind references.
pub open spec fn deref_streams(v: Seq<&Stream>) -> Seq<Stream> {
    v.map_values(|r: &Stream| *r)
}

/// A filtered sequence is non-empty exactly when some element passes the filter.
proof fn lemma_filter_nonempty<A>(s: Seq<A>, p: spec_fn(A) -> bool)
    ensures
        (s.filter(p).len() > 0) == (exists|i: int| 0 <= i < s.len() && p(#[trigger] s[i])),
{
    let f = s.filter(p);
    if f.len() > 0 {
        s.lemma_filter_pred(p, 0);
        assert(f.contains(f[0]));
        s.lemma_filter_contains_rev(p, f[0]);
        let j = choose|j: int| 0 <= j < s.len() && s[j] == f[0];
        assert(p(s[j]));
    } else {
        assert forall|i: int| 0 <= i < s.len() implies !p(#[trigger] s[i]) by {
            if p(s[i]) {
                s.lemma_filter_contains(p, i);
            }
        }
    }
}

impl Stream {
    /// Whether this is a 5.1 surround audio stream.
    pub fn is_5_1_audio(&self) -> (b: bool)
        ensures
            b == is_surround_5_1(*self),
    {
        if !str_equal(self.codec_type.as_str(), "audio") {
            return false;
        }
        let num_channels_5_1 = match self.channels {
            Some(c) => c == 6,
            None => false,
        };
        let layout_5_1 = match &self.channel_layout {
            Some(l) => str_contains(l.as_str(), "5.1"),
            None => false,
        };
        num_channels_5_1 || layout_5_1
    }

    /// A short human-readable description of the stream's audio.
    pub fn audio_description(&self) -> (d: String)
        ensures
            d@ == audio_description_text(*self),
    {
        let codec = match &self.codec_name {
            Some(c) => c.as_str(),
            None => "unknown",
        };
        let layout = match &self.channel_layout {
            Some(l) => l.as_str(),
            None => "unknown layout",
        };
        let ch = match self.channels {
            Some(c) => decimal_string(c as u64),
            None => String::from_str("?"),
        };
        let mut d = to_uppercase(codec);
        d.append(" (");
        d.append(ch.as_str());
        d.append(" ch, ");
        d.append(layout);
        d.append(")");
        d
    }
}

impl ProbeOutput {
    /// The 5.1 surround audio streams, in stream order.
    pub fn get_5_1_audio_streams(&self) -> (res: Vec<&Stream>)
        ensures
            deref_streams(res@) == self.streams@.filter(|s: Stream| is_surround_5_1(s)),
    {
        let mut res: Vec<&Stream> = Vec::new();
        let n = self.streams.len();
        let mut i: usize = 0;
        while i < n
            invariant
                n == self.streams@.len(),
                0 <= i <= n,
                deref_streams(res@) == self.streams@.take(i as int).filter(|s: Stream| is_surround_5_1(s)),
            decreases n - i,
        {
            let s = &self.streams[i];
            proof {
                assert(self.streams@.take(i + 1).drop_last() =~= self.streams@.take(i as int));
                reveal_with_fuel(Seq::<_>::filter, 1);
            }
            if s.is_5_1_audio() {
                res.push(s);
                proof {
                    assert(deref_streams(res@) =~= self.streams@.take(i as int).filter(|s: Stream| is_surround_5_1(s)).push(*s));
                }
            }
            i = i + 1;
        }
        proof {
            assert(self.streams@.take(n as int) =~= self.streams@);
        }
        res
    }

    /// The video streams, in stream order.
    pub fn get_video_streams(&self) -> (res: Vec<&Stream>)
        ensures
            deref_streams(res@) == self.streams@.filter(|s: Stream| is_video_stream(s)),
    {
        let mut res: Vec<&Stream> = Vec::new();
        let n = self.streams.len();
        let mut i: usize = 0;
        while i < n
            invariant
                n == self.streams@.len(),
                0 <= i <= n,
                deref_streams(res@) == self.streams@.take(i as int).filter(|s: Stream| is_video_stream(s)),
            decreases n - i,
        {
            let s = &self.streams[i];
            proof {
                assert(self.streams@.take(i + 1).drop_last() =~= self.streams@.take(i as int));
                reveal_with_fuel(Seq::<_>::filter, 1);
            }
            if str_equal(s.codec_type.as_str(), "video") {
                res.push(s);
                proof {
                    assert(deref_streams(res@) =~= self.streams@.take(i as int).filter(|s: Stream| is_video_stream(s)).push(*s));
                }
            }
            i = i + 1;
        }
        proof {
            assert(self.streams@.take(n as int) =~= self.streams@);
        }
        res
    }

    /// Whether any stream is 5.1 surround audio.
    pub fn has_5_1_audio(&self) -> (b: bool)
        ensures
            b == (exists|i: int| 0 <= i < self.streams@.len() && is_surround_5_1(#[trigger] self.streams@[i])),
    {
        let found = self.get_5_1_audio_streams();
        proof {
            lemma_filter_nonempty(self.streams@, |s: Stream| is_surround_5_1(s));
            assert(deref_streams(found@).len() == found@.len());
        }
        found.len() > 0
    }
}

/// The audio streams of `streams`, each described, in stream order.
pub open spec fn audio_descriptions(streams: Seq<Stream>) -> Seq<Seq<char>> {
    described(audio_streams(streams))
}

/// The audio streams of `streams`, in order.
pub open spec fn audio_streams(streams: Seq<Stream>) -> Seq<Stream> {
    streams.filter(|s: Stream| is_audio_stream(s))
}

/// Each stream described.
pub open spec fn described(streams: Seq<Stream>) -> Seq<Seq<char>> {
    streams.map_values(|s: Stream| audio_description_text(s))
}

/// A file that already holds a video stream and no 5.1 audio needs no conversion.
pub open spec fn is_converted_probe(p: ProbeOutput) -> bool {
    &&& exists|i: int| 0 <= i < p.streams@.len() && is_video_stream(#[trigger] p.streams@[i])
    &&& !(exists|i: int| 0 <= i < p.streams@.len() && is_surround_5_1(#[trigger] p.streams@[i]))
}

impl ProbeOutput {
    /// The descriptions of all audio streams, separated by ", ".
    pub fn audio_summary(&self) -> (text: String)
        ensures
            text@ == joined(audio_descriptions(self.streams@), ", "@),
    {
        let mut text = String::new();
        let mut count: usize = 0;
        let n = self.streams.len();
        let mut i: usize = 0;
        while i < n
            invariant
                n == self.streams@.len(),
                0 <= i <= n,
                count == audio_streams(self.streams@.take(i as int)).len(),
                text@ == joined(described(audio_streams(self.streams@.take(i as int))), ", "@),
            decreases n - i,
        {
            let s = &self.streams[i];
            let ghost prev = audio_streams(self.streams@.take(i as int));
            proof {
                assert(self.streams@.take(i + 1).drop_last() =~= self.streams@.take(i as int));
                assert(self.streams@.take(i + 1).last() == self.streams@[i as int]);
                reveal_with_fuel(Seq::<_>::filter, 1);
                self.streams@.take(i as int).lemma_filter_len(|s: Stream| is_audio_stream(s));
            }
            if str_equal(s.codec_type.as_str(), "audio") {
                let d = s.audio_description();
                if count > 0 {
                    text.append(", ");
                }
                text.append(d.as_str());
                count = count + 1;
                proof {
                    let next = prev.push(*s);
                    assert(audio_streams(self.streams@.take(i + 1)) == next);
                    assert(described(next).drop_last() =~= described(prev));
                    assert(described(next).last() == audio_description_text(*s));
                    assert(text@ =~= joined(described(next), ", "@));
                }
            } else {
                proof {
                    assert(audio_streams(self.streams@.take(i + 1)) == prev);
                }
            }
            i = i + 1;
        }
        proof {
            assert(self.streams@.take(n as int) =~= self.streams@);
        }
        text
    }

    /// Whether the probed file already holds a video stream and no 5.1 audio,
    /// so that an existing conversion target needs no further work.
    pub fn is_converted_target(&self) -> (b: bool)
        ensures
            b == is_converted_probe(*self),
    {
        let videos = self.get_video_streams();
        proof {
            lemma_filter_nonempty(self.streams@, |s: Stream| is_video_stream(s));
            assert(deref_streams(videos@).len() == videos@.len());
        }
        let has_video = videos.len() > 0;
        let has_5_1 = self.has_5_1_audio();
        has_video && !has_5_1
    }
}

// ---------------------------------------------------------------------------
// File health before probing
// ---------------------------------------------------------------------------

/// What reading the first bytes of a file gave.
#[derive(Debug, Clone)]
pub enum HeaderRead {
    /// The file could not be opened.
    OpenFailed,
    /// The file opened but reading failed.
    ReadFailed,
    /// The bytes read from the start of the file (at most a small header).
    Bytes(Vec<u8>),
}

/// Why a file is not worth handing to the prober.
#[derive(Debug, Clone, Copy, PartialEq, Eq)]
pub enum HealthIssue {
    Empty,
    NullHeader,
    Inaccessible,
}

/// The issue found for a file whose metadata gave `len` (when it could be
/// read) and whose first bytes read as `header`.
pub open spec fn health_issue(len: Option<u64>, header: HeaderRead) -> Option<HealthIssue> {
    if len == Some(0u64) {
        Some(HealthIssue::Empty)
    } else {
        match header {
            HeaderRead::OpenFailed => Some(HealthIssue::Inaccessible),
            HeaderRead::ReadFailed => None,
            HeaderRead::Bytes(b) => if b@.len() > 0 && (forall|i: int| 0 <= i < b@.len() ==> b@[i] == 0u8) {
                Some(HealthIssue::NullHeader)
            } else {
                None
            },
        }
    }
}

/// The message reported for each health issue.
pub open spec fn health_message(issue: HealthIssue) -> Seq<char> {
    match issue {
        HealthIssue::Empty => "File is empty (0 bytes)"@,
        HealthIssue::NullHeader => "Corrupted file header (starts with null 0x00 bytes - file is incomplete or damaged)"@,
        HealthIssue::Inaccessible => "File is locked or inaccessible (permission denied)"@,
    }
}

impl HealthIssue {
    /// The message reported for this issue.
    pub fn message(&self) -> (m: String)
        ensures
            m@ == health_message(*self),
    {
        match self {
            HealthIssue::Empty => String::from_str("File is empty (0 bytes)"),
            HealthIssue::NullHeader => String::from_str(
                "Corrupted file header (starts with null 0x00 bytes - file is incomplete or damaged)",
            ),
            HealthIssue::Inaccessible => String::from_str("File is locked or inaccessible (permission denied)"),
        }
    }
}

/// Decides whether a file is empty, starts with a null header or cannot be
/// opened, from its metadata length and the first bytes read from it.
pub fn check_file_health(len: Option<u64>, header: &HeaderRead) -> (issue: Option<HealthIssue>)
    ensures
        issue == health_issue(len, *header),
{
    if let Some(l) = len {
        if l == 0 {
            return Some(HealthIssue::Empty);
        }
    }
    match header {
        HeaderRead::OpenFailed => Some(HealthIssue::Inaccessible),
        HeaderRead::ReadFailed => None,
        HeaderRead::Bytes(b) => {
            let n = b.len();
            if n == 0 {
                return None;
            }
            let mut i: usize = 0;
            while i < n
                invariant
                    n == b@.len(),
                    n > 0,
                    0 <= i <= n,
                    len != Some(0u64),
                    *header == HeaderRead::Bytes(*b),
                    forall|j: int| 0 <= j < i ==> b@[j] == 0u8,
                decreases n - i,
            {
                if b[i] != 0 {
                    proof {
                        assert(b@[i as int] != 0u8);
                    }
                    return None;
                }
                i = i + 1;
            }
            Some(HealthIssue::NullHeader)
        },
    }
}

/// The error text for a prober run that failed with `stderr`: its first
/// line, trimmed, or "Invalid media format" when it printed nothing.
pub open spec fn probe_failure_text(stderr: Seq<char>) -> Seq<char> {
    "ffprobe unable to parse file: "@ + match first_line_trimmed(stderr) {
        Some(l) => l,
        None => "Invalid media format"@,
    }
}

/// Builds the error message for a prober run that exited unsuccessfully.
pub fn probe_failure_message(stderr: &str) -> (m: String)
    ensures
        m@ == probe_failure_text(stderr@),
{
    let mut m = String::from_str("ffprobe unable to parse file: ");
    match first_trimmed_line(stderr) {
        Some(l) => m.append(l.as_str()),
        None => m.append("Invalid media format"),
    }
    m
}

/// The layout text names "5.1" somewhere.
pub open spec fn layout_names_5_1(l: Seq<char>) -> bool {
    exists|i: int| 0 <= i && i + 3 <= l.len() && #[trigger] l[i] == '5' && l[i + 1] == '.' && l[i + 2] == '1'
}

/// A stream is 5.1 audio exactly when it is an audio stream with six
/// channels, or an audio stream whose layout names "5.1"; any other stream
/// (such as a five-channel "4.1" stream) is not.
pub proof fn lemma_surround_exactly(s: Stream)
    ensures
        is_surround_5_1(s) <==> s.codec_type@ == "audio"@ && (s.channels == Some(6u32) || (s.channel_layout matches Some(l)
            && layout_names_5_1(l@))),
{
    reveal_strlit("5.1");
    if let Some(l) = s.channel_layout {
        let t = l@;
        if contains_chars(t, "5.1"@) {
            let i = choose|i: int| 0 <= i && i + 3 <= t.len() && #[trigger] t.subrange(i, i + 3) == "5.1"@;
            assert(t.subrange(i, i + 3)[0] == t[i]);
            assert(t.subrange(i, i + 3)[1] == t[i + 1]);
            assert(t.subrange(i, i + 3)[2] == t[i + 2]);
        }
        if layout_names_5_1(t) {
            let i = choose|i: int| 0 <= i && i + 3 <= t.len() && #[trigger] t[i] == '5' && t[i + 1] == '.' && t[i + 2] == '1';
            assert(t.subrange(i, i + 3) =~= "5.1"@);
        }
    }
}

/// A probe shows an already converted file exactly when it has a video
/// stream and no audio stream with six channels or a layout naming "5.1".
pub proof fn lemma_converted_target_exactly(p: ProbeOutput)
    ensures
        is_converted_probe(p) <==> (exists|i: int| 0 <= i < p.streams@.len() && (#[trigger] p.streams@[i]).codec_type@ == "video"@)
            && !(exists|i: int| 0 <= i < p.streams@.len() && (#[trigger] p.streams@[i]).codec_type@ == "audio"@
                && (p.streams@[i].channels == Some(6u32) || (p.streams@[i].channel_layout matches Some(l) && layout_names_5_1(l@)))),
{
    assert forall|i: int| 0 <= i < p.streams@.len() implies is_surround_5_1(#[trigger] p.streams@[i]) <==> (p.streams@[i].codec_type@
        == "audio"@ && (p.streams@[i].channels == Some(6u32) || (p.streams@[i].channel_layout matches Some(l) && layout_names_5_1(l@)))) by {
        lemma_surround_exactly(p.streams@[i]);
    }
}

/// A null header is reported exactly when the file is not empty by its
/// length and at least one byte was read, all of them zero; so a header
/// with any non-zero byte is never reported as null.
pub proof fn lemma_null_header_exactly(len: Option<u64>, b: Vec<u8>)
    ensures
        health_issue(len, HeaderRead::Bytes(b)) == Some(HealthIssue::NullHeader) <==> (len != Some(0u64) && b@.len() > 0
            && forall|i: int| 0 <= i < b@.len() ==> b@[i] == 0u8),
        (exists|i: int| 0 <= i < b@.len() && b@[i] != 0u8) ==> health_issue(len, HeaderRead::Bytes(b)) != Some(
            HealthIssue::NullHeader,
        ),
        len == Some(0u64) ==> health_issue(len, HeaderRead::Bytes(b)) == Some(HealthIssue::Empty),
{
}

/// What the health check answers for every length and header read: a file
/// empty by its length is empty; otherwise one that could not be opened is
/// inaccessible; and one passes exactly when reading failed, nothing was
/// read, or some byte read is not zero.
pub proof fn lemma_health_exactly(len: Option<u64>, header: HeaderRead)
    ensures
        (health_issue(len, header) == Some(HealthIssue::Empty)) <==> len == Some(0u64),
        (health_issue(len, header) == Some(HealthIssue::Inaccessible)) <==> len != Some(0u64) && header is OpenFailed,
        health_issue(len, header) is None <==> len != Some(0u64) && (header is ReadFailed || (header is Bytes && (
            header->Bytes_0@.len() == 0 || exists|i: int| 0 <= i < header->Bytes_0@.len() && header->Bytes_0@[i] != 0u8))),
{
}

// ---------------------------------------------------------------------------
// Running the prober
// ---------------------------------------------------------------------------

/// The prober's options; the file to probe follows them.
pub open spec fn probe_option_list() -> Seq<Seq<char>> {
    seq!["-v"@, "error"@, "-show_streams"@, "-show_format"@, "-of"@, "json"@]
}

/// The prober's options (quiet but for errors, streams and container as
/// JSON); the file to probe follows them.
pub fn probe_options() -> (opts: Vec<String>)
    ensures
        opts@.map_values(|s: String| s@) == probe_option_list(),
{
    let mut opts: Vec<String> = Vec::new();
    opts.push(String::from_str("-v"));
    opts.push(String::from_str("error"));
    opts.push(String::from_str("-show_streams"));
    opts.push(String::from_str("-show_format"));
    opts.push(String::from_str("-of"));
    opts.push(String::from_str("json"));
    proof {
        assert(opts@.map_values(|s: String| s@) =~= probe_option_list());
    }
    opts
}

/// The error for a file that does not exist.
pub open spec fn missing_file_text(path: Seq<char>) -> Seq<char> {
    "File does not exist: "@ + path
}

/// Builds the error for a file that does not exist.
pub fn missing_file_message(path: &str) -> (m: String)
    ensures
        m@ == missing_file_text(path@),
{
    let mut m = String::from_str("File does not exist: ");
    m.append(path);
    m
}

/// The error for a prober that could not be started.
pub open spec fn probe_spawn_text(cause: Seq<char>) -> Seq<char> {
    "Failed to execute ffprobe: "@ + cause
}

/// Builds the error for a prober that could not be started for `cause`.
pub fn probe_spawn_message(cause: &str) -> (m: String)
    ensures
        m@ == probe_spawn_text(cause@),
{
    let mut m = String::from_str("Failed to execute ffprobe: ");
    m.append(cause);
    m
}

/// The error for prober output that is not the expected JSON.
pub open spec fn probe_parse_text(path: Seq<char>, cause: Seq<char>) -> Seq<char> {
    "Failed to parse ffprobe JSON for "@ + path + ": "@ + cause
}

/// Builds the error for prober output about `path` that could not be
/// decoded, for `cause`.
pub fn probe_parse_message(path: &str, cause: &str) -> (m: String)
    ensures
        m@ == probe_parse_text(path@, cause@),
{
    let mut m = String::from_str("Failed to parse ffprobe JSON for ");
    m.append(path);
    m.append(": ");
    m.append(cause);
    m
}

// ---------------------------------------------------------------------------
// Retrying a probe
// ---------------------------------------------------------------------------

/// The longest pause between two probe attempts, in milliseconds.
pub const MAX_RETRY_DELAY_MS: u64 = 10_000;

/// State of a probe retried with exponential back-off.
#[derive(Debug, Clone, Copy, PartialEq, Eq)]
pub struct RetryState {
    /// Attempts allowed (an attempt is always made, even when this is 0).
    pub max_retries: u32,
    /// Attempts that have failed so far.
    pub failures: u32,
    /// Pause before the next attempt, in milliseconds.
    pub delay_ms: u64,
}

/// What to do after an attempt failed.
#[derive(Debug, Clone, Copy, PartialEq, Eq)]
pub enum RetryDecision {
    /// Report the last error.
    GiveUp,
    /// Sleep this many milliseconds, then try again.
    RetryAfter(u64),
}

/// The back-off doubles the pause and caps it.
pub open spec fn next_delay(delay: u64) -> u64 {
    if 2 * delay <= MAX_RETRY_DELAY_MS { (2 * delay) as u64 } else { MAX_RETRY_DELAY_MS }
}

/// Whether another attempt may still be made in state `st`.
pub open spec fn may_attempt(st: RetryState) -> bool {
    st.failures == 0 || st.failures < st.max_retries
}

/// The state after one more failure, and the decision taken.
pub open spec fn retry_step(st: RetryState) -> (RetryState, RetryDecision) {
    if st.failures + 1 >= st.max_retries {
        (RetryState { failures: (st.failures + 1) as u32, ..st }, RetryDecision::GiveUp)
    } else {
        (
            RetryState { failures: (st.failures + 1) as u32, delay_ms: next_delay(st.delay_ms), ..st },
            RetryDecision::RetryAfter(st.delay_ms),
        )
    }
}

impl RetryState {
    /// The state before the first attempt.
    pub fn new(max_retries: u32, initial_delay_ms: u64) -> (st: RetryState)
        ensures
            st == (RetryState { max_retries, failures: 0, delay_ms: initial_delay_ms }),
    {
        RetryState { max_retries, failures: 0, delay_ms: initial_delay_ms }
    }

    /// Records a failed attempt and decides whether to try again.
    pub fn record_failure(&mut self) -> (d: RetryDecision)
        requires
            may_attempt(*old(self)),
            old(self).failures + 1 < old(self).max_retries ==> 2 * old(self).delay_ms <= u64::MAX,
        ensures
            (*final(self), d) == retry_step(*old(self)),
    {
        self.failures = self.failures + 1;
        if self.failures >= self.max_retries {
            return RetryDecision::GiveUp;
        }
        let wait = self.delay_ms;
        let doubled = self.delay_ms * 2;
        self.delay_ms = if doubled < MAX_RETRY_DELAY_MS { doubled } else { MAX_RETRY_DELAY_MS };
        RetryDecision::RetryAfter(wait)
    }
}

/// The state and decision after `k` failures in a row from `st`.
pub open spec fn retry_run(st: RetryState, k: nat) -> (RetryState, RetryDecision)
    decreases k,
{
    if k <= 1 {
        retry_step(st)
    } else {
        retry_step(retry_run(st, (k - 1) as nat).0)
    }
}

/// A probe is tried exactly `max(max_retries, 1)` times: the `k`-th failure
/// gives up exactly when `k >= max_retries`; the first retry waits the
/// initial delay and every later retry waits at most `MAX_RETRY_DELAY_MS`.
pub proof fn lemma_retry_attempts(max_retries: u32, initial_delay_ms: u64, k: nat)
    requires
        1 <= k <= u32::MAX,
    ensures
        ({
            let st = RetryState { max_retries, failures: 0, delay_ms: initial_delay_ms };
            let (after, d) = retry_run(st, k);
            &&& after.failures == k
            &&& after.max_retries == max_retries
            &&& (d == RetryDecision::GiveUp <==> k >= max_retries)
            &&& (k == 1 && k < max_retries ==> d == RetryDecision::RetryAfter(initial_delay_ms))
            &&& (k < max_retries ==> after.delay_ms <= MAX_RETRY_DELAY_MS)
            &&& (2 <= k < max_retries ==> (d matches RetryDecision::RetryAfter(w) && w <= MAX_RETRY_DELAY_MS))
        }),
    decreases k,
{
    if k > 1 {
        lemma_retry_attempts(max_retries, initial_delay_ms, (k - 1) as nat);
    }
}

} // verus!
