use vstd::prelude::*;
use crate::ffprobe::{ProbeOutput, Stream, is_audio_stream, is_video_stream, is_surround_5_1, deref_streams};
use crate::paths::{path_with_extension, same_path, spec_components, spec_with_extension};
use crate::text::{decimal, lemma_decimal_digits, lemma_decimal_injective, push_decimal, str_equal};

verus! {

/// Settings of one conversion.
#[derive(Debug, Clone)]
pub struct ConversionOptions {
    pub audio_bitrate: String,
    pub audio_codec: String,
    pub ffmpeg_bin: String,
    pub overwrite: bool,
    pub force_video_copy: bool,
    pub transcode_video: bool,
    pub delete_source: bool,
}

impl Default for ConversionOptions {
    fn default() -> (opts: Self)
        ensures
            opts.audio_bitrate@ == "384k"@,
            opts.audio_codec@ == "aac"@,
            opts.ffmpeg_bin@ == "ffmpeg"@,
            !opts.overwrite,
            !opts.force_video_copy,
            !opts.transcode_video,
            !opts.delete_source,
    {
        ConversionOptions {
            audio_bitrate: String::from_str("384k"),
            audio_codec: String::from_str("aac"),
            ffmpeg_bin: String::from_str("ffmpeg"),
            overwrite: false,
            force_video_copy: false,
            transcode_video: false,
            delete_source: false,
        }
    }
}

// ---------------------------------------------------------------------------
// The encoder command line
// ---------------------------------------------------------------------------

/// The filter that folds 5.1 into 4.1: the centre channel is mixed into the
/// front pair and the two surround channels into one back channel.
pub open spec fn downmix_filter() -> Seq<char> {
    "pan=4.1|c0=c0+0.707*c2|c1=c1+0.707*c2|c3=c3|c4=0.707*c4+0.707*c5"@
}

/// The characters of each string.
pub open spec fn strings_view(v: Seq<String>) -> Seq<Seq<char>> {
    v.map_values(|s: String| s@)
}

/// `flag` followed by `:` and the audio stream number, e.g. `-c:a:1`.
pub open spec fn numbered(flag: Seq<char>, i: nat) -> Seq<char> {
    flag + decimal(i)
}

/// Encoder options for the `i`-th audio stream `s`: downmixed 5.1 streams
/// get the 4.1 filter, the chosen codec and bitrate; every other audio
/// stream is encoded as AAC.
pub open spec fn audio_stream_args(s: Stream, i: nat, downmix: bool, codec: Seq<char>, bitrate: Seq<char>) -> Seq<Seq<char>> {
    if downmix && is_surround_5_1(s) {
        seq![numbered("-af:a:"@, i), downmix_filter(), numbered("-c:a:"@, i), codec, numbered("-b:a:"@, i), bitrate]
    } else {
        seq![numbered("-c:a:"@, i), "aac"@]
    }
}

/// Encoder options for the audio streams `audio` (numbered from 0).
pub open spec fn audio_args(audio: Seq<Stream>, downmix: bool, codec: Seq<char>, bitrate: Seq<char>) -> Seq<Seq<char>>
    decreases audio.len(),
{
    if audio.len() == 0 {
        Seq::empty()
    } else {
        audio_args(audio.drop_last(), downmix, codec, bitrate)
            + audio_stream_args(audio.last(), (audio.len() - 1) as nat, downmix, codec, bitrate)
    }
}

/// Video options: stream copy, or H.264 at CRF 18 with the slow preset.
pub open spec fn video_args(copy_video: bool) -> Seq<Seq<char>> {
    if copy_video {
        seq!["-c:v"@, "copy"@]
    } else {
        seq!["-c:v"@, "libx264"@, "-preset"@, "slow"@, "-crf"@, "18"@, "-pix_fmt"@, "yuv420p"@]
    }
}

/// The encoder arguments for converting `input` into `temp_output`.
pub open spec fn ffmpeg_args_spec(
    input: Seq<char>,
    temp_output: Seq<char>,
    probe: ProbeOutput,
    audio_codec: Seq<char>,
    audio_bitrate: Seq<char>,
    copy_video: bool,
    downmix_5_1: bool,
) -> Seq<Seq<char>> {
    let streams = probe.streams@;
    let video_part = if streams.filter(|s: Stream| is_video_stream(s)).len() > 0 {
        seq!["-map"@, "0:v"@] + video_args(copy_video)
    } else {
        Seq::empty()
    };
    seq!["-y"@, "-i"@, input] + video_part + seq!["-map"@, "0:a"@]
        + audio_args(streams.filter(|s: Stream| is_audio_stream(s)), downmix_5_1, audio_codec, audio_bitrate)
        + seq!["-movflags"@, "+faststart"@, temp_output]
}

/// Viewing after a push is pushing the view.
pub proof fn lemma_strings_view_push(v: Seq<String>, s: String)
    ensures
        strings_view(v.push(s)) == strings_view(v).push(s@),
{
    assert(strings_view(v.push(s)) =~= strings_view(v).push(s@));
}

/// Viewing a prefix is taking a prefix of the view.
pub proof fn lemma_strings_view_take(v: Seq<String>, i: int)
    requires
        0 <= i < v.len(),
    ensures
        strings_view(v.take(i + 1)) == strings_view(v.take(i)).push(v[i]@),
{
    assert(strings_view(v.take(i + 1)) =~= strings_view(v.take(i)).push(v[i]@));
}

fn push_str(args: &mut Vec<String>, s: &str)
    ensures
        final(args)@.len() == old(args)@.len() + 1,
        strings_view(final(args)@) == strings_view(old(args)@).push(s@),
{
    let ghost before = args@;
    args.push(String::from_str(s));
    proof {
        assert(strings_view(args@) =~= strings_view(before).push(s@));
    }
}

fn push_string(args: &mut Vec<String>, s: String)
    ensures
        final(args)@.len() == old(args)@.len() + 1,
        strings_view(final(args)@) == strings_view(old(args)@).push(s@),
{
    let ghost before = args@;
    let ghost v = s@;
    args.push(s);
    proof {
        assert(strings_view(args@) =~= strings_view(before).push(v));
    }
}

fn numbered_flag(flag: &str, i: usize) -> (s: String)
    ensures
        s@ == numbered(flag@, i as nat),
{
    let mut s = String::from_str(flag);
    push_decimal(&mut s, i as u64);
    s
}

/// Builds the encoder arguments (after the program name) that convert
/// `input` into `temp_output`: input, optional video mapping and codec,
/// every audio stream with its codec settings, and fast-start MP4 output.
pub fn ffmpeg_arguments(
    input: &str,
    temp_output: &str,
    probe: &ProbeOutput,
    opts: &ConversionOptions,
    copy_video: bool,
    downmix_5_1: bool,
) -> (args: Vec<String>)
    ensures
        strings_view(args@) == ffmpeg_args_spec(
            input@,
            temp_output@,
            *probe,
            opts.audio_codec@,
            opts.audio_bitrate@,
            copy_video,
            downmix_5_1,
        ),
{
    let mut args: Vec<String> = Vec::new();
    push_str(&mut args, "-y");
    push_str(&mut args, "-i");
    push_str(&mut args, input);
    let videos = probe.get_video_streams();
    proof {
        assert(deref_streams(videos@).len() == videos@.len());
    }
    if videos.len() > 0 {
        push_str(&mut args, "-map");
        push_str(&mut args, "0:v");
        if copy_video {
            push_str(&mut args, "-c:v");
            push_str(&mut args, "copy");
        } else {
            push_str(&mut args, "-c:v");
            push_str(&mut args, "libx264");
            push_str(&mut args, "-preset");
            push_str(&mut args, "slow");
            push_str(&mut args, "-crf");
            push_str(&mut args, "18");
            push_str(&mut args, "-pix_fmt");
            push_str(&mut args, "yuv420p");
        }
    }
    push_str(&mut args, "-map");
    push_str(&mut args, "0:a");
    let ghost head = strings_view(args@);
    let codec = opts.audio_codec.as_str();
    let bitrate = opts.audio_bitrate.as_str();
    let n = probe.streams.len();
    let mut i: usize = 0;
    let mut audio_index: usize = 0;
    while i < n
        invariant
            n == probe.streams@.len(),
            0 <= i <= n,
            codec@ == opts.audio_codec@,
            bitrate@ == opts.audio_bitrate@,
            audio_index == probe.streams@.take(i as int).filter(|s: Stream| is_audio_stream(s)).len(),
            audio_index <= i,
            strings_view(args@) == head + audio_args(
                probe.streams@.take(i as int).filter(|s: Stream| is_audio_stream(s)),
                downmix_5_1,
                codec@,
                bitrate@,
            ),
        decreases n - i,
    {
        let s = &probe.streams[i];
        let ghost prev = probe.streams@.take(i as int).filter(|s: Stream| is_audio_stream(s));
        proof {
            assert(probe.streams@.take(i + 1).drop_last() =~= probe.streams@.take(i as int));
            assert(probe.streams@.take(i + 1).last() == probe.streams@[i as int]);
            reveal_with_fuel(Seq::<_>::filter, 1);
            probe.streams@.take(i as int).lemma_filter_len(|s: Stream| is_audio_stream(s));
        }
        if str_equal(s.codec_type.as_str(), "audio") {
            let ghost before = strings_view(args@);
            if downmix_5_1 && s.is_5_1_audio() {
                push_string(&mut args, numbered_flag("-af:a:", audio_index));
                push_str(&mut args, "pan=4.1|c0=c0+0.707*c2|c1=c1+0.707*c2|c3=c3|c4=0.707*c4+0.707*c5");
                push_string(&mut args, numbered_flag("-c:a:", audio_index));
                push_str(&mut args, codec);
                push_string(&mut args, numbered_flag("-b:a:", audio_index));
                push_str(&mut args, bitrate);
            } else {
                push_string(&mut args, numbered_flag("-c:a:", audio_index));
                push_str(&mut args, "aac");
            }
            proof {
                let next = prev.push(*s);
                assert(probe.streams@.take(i + 1).filter(|s: Stream| is_audio_stream(s)) == next);
                assert(next.drop_last() =~= prev);
                assert(strings_view(args@) =~= before + audio_stream_args(*s, audio_index as nat, downmix_5_1, codec@, bitrate@));
                assert(audio_args(next, downmix_5_1, codec@, bitrate@) == audio_args(prev, downmix_5_1, codec@, bitrate@)
                    + audio_stream_args(*s, audio_index as nat, downmix_5_1, codec@, bitrate@));
                assert(strings_view(args@) =~= head + audio_args(next, downmix_5_1, codec@, bitrate@));
            }
            audio_index = audio_index + 1;
        } else {
            proof {
                assert(probe.streams@.take(i + 1).filter(|s: Stream| is_audio_stream(s)) == prev);
            }
        }
        i = i + 1;
    }
    proof {
        assert(probe.streams@.take(n as int) =~= probe.streams@);
    }
    push_str(&mut args, "-movflags");
    push_str(&mut args, "+faststart");
    push_str(&mut args, temp_output);
    proof {
        assert(strings_view(args@) =~= ffmpeg_args_spec(
            input@,
            temp_output@,
            *probe,
            opts.audio_codec@,
            opts.audio_bitrate@,
            copy_video,
            downmix_5_1,
        ));
    }
    args
}

// ---------------------------------------------------------------------------
// The conversion procedure
// ---------------------------------------------------------------------------

/// The file the encoder writes before it is moved into place: the output
/// path with its extension replaced by `tmp_converting.mp4`.
pub open spec fn temp_output_path(output: Seq<char>) -> Seq<char> {
    spec_with_extension(output, "tmp_converting.mp4"@)
}

/// Computes the temporary file the encoder writes for `output`.
pub fn temp_output_for(output: &str) -> (temp: String)
    ensures
        temp@ == temp_output_path(output@),
{
    proof {
        reveal_strlit("tmp_converting.mp4");
    }
    path_with_extension(output, "tmp_converting.mp4")
}

/// Whether the source is removed after a successful conversion: only when
/// asked to, when it still exists and when it is not the output itself.
pub open spec fn removes_source(delete_source: bool, input_exists: bool, input: Seq<char>, output: Seq<char>) -> bool {
    delete_source && input_exists && spec_components(input) != spec_components(output)
}

/// Decides whether to delete the source file after a successful conversion.
pub fn should_delete_source(opts: &ConversionOptions, input_exists: bool, input: &str, output: &str) -> (del: bool)
    ensures
        del == removes_source(opts.delete_source, input_exists, input@, output@),
{
    opts.delete_source && input_exists && !same_path(input, output)
}

/// Where a conversion stands.
#[derive(Debug, Clone, Copy, PartialEq, Eq)]
pub enum ConversionStage {
    /// Nothing done yet.
    Start,
    /// The output directory exists and no stale temporary file is left.
    Prepared,
    /// The encoder runs with the video stream copied.
    CopyRunning,
    /// The encoder runs with the video re-encoded.
    TranscodeRunning,
    /// The temporary file holds the converted video.
    Done,
    /// The conversion was abandoned.
    Failed,
}

/// What happened since the last step.
#[derive(Debug, Clone, Copy, PartialEq, Eq)]
pub enum ConversionEvent {
    /// The conversion starts; tells whether the output file already exists.
    Begin { output_exists: bool },
    /// The output directory was created and the temporary file cleared.
    Prepared,
    /// The encoder finished, successfully or not.
    EncoderFinished { success: bool },
}

/// Why a conversion was abandoned.
#[derive(Debug, Clone, Copy, PartialEq, Eq)]
pub enum ConversionFailure {
    /// The output exists and overwriting was not allowed.
    OutputExists,
    /// Copying the video stream failed (or was not attempted because a
    /// transcode was forced) while stream copy was required.
    CopyRequired { copy_attempted: bool },
    /// Re-encoding the video failed.
    TranscodeFailed,
}

/// What to do next.
#[derive(Debug, Clone, Copy, PartialEq, Eq)]
pub enum ConversionAction {
    /// Create the output directory and remove a stale temporary file.
    Prepare,
    /// Run the encoder into the temporary file.
    RunEncoder { copy_video: bool },
    /// Move the temporary file to the output path; `video_copied` tells how
    /// the video was produced.
    Finish { video_copied: bool },
    /// Stop with this failure (after removing the temporary file when stream
    /// copy was required).
    Abort(ConversionFailure),
}

/// The decisions of one conversion.
#[derive(Debug, Clone, Copy, PartialEq, Eq)]
pub struct ConversionPlan {
    pub overwrite: bool,
    pub force_video_copy: bool,
    pub transcode_video: bool,
    pub stage: ConversionStage,
}

/// The events a plan accepts in each stage.
pub open spec fn accepts(stage: ConversionStage, ev: ConversionEvent) -> bool {
    match (stage, ev) {
        (ConversionStage::Start, ConversionEvent::Begin { .. }) => true,
        (ConversionStage::Prepared, ConversionEvent::Prepared) => true,
        (ConversionStage::CopyRunning, ConversionEvent::EncoderFinished { .. }) => true,
        (ConversionStage::TranscodeRunning, ConversionEvent::EncoderFinished { .. }) => true,
        _ => false,
    }
}

/// The plan in stage `stage`.
pub open spec fn at_stage(p: ConversionPlan, stage: ConversionStage) -> ConversionPlan {
    ConversionPlan { stage, ..p }
}

/// How a plan moves on an event, and the action it asks for.
///
/// An existing output without overwrite stops the conversion; the video is
/// first stream-copied unless a transcode is forced; when the copy fails
/// (or is skipped) the video is re-encoded, unless stream copy is required.
pub open spec fn conversion_step(p: ConversionPlan, ev: ConversionEvent) -> (ConversionPlan, ConversionAction) {
    match (p.stage, ev) {
        (ConversionStage::Start, ConversionEvent::Begin { output_exists }) =>
            if output_exists && !p.overwrite {
                (at_stage(p, ConversionStage::Failed), ConversionAction::Abort(ConversionFailure::OutputExists))
            } else {
                (at_stage(p, ConversionStage::Prepared), ConversionAction::Prepare)
            },
        (ConversionStage::Prepared, ConversionEvent::Prepared) =>
            if !p.transcode_video {
                (at_stage(p, ConversionStage::CopyRunning), ConversionAction::RunEncoder { copy_video: true })
            } else if p.force_video_copy {
                (at_stage(p, ConversionStage::Failed), ConversionAction::Abort(ConversionFailure::CopyRequired { copy_attempted: false }))
            } else {
                (at_stage(p, ConversionStage::TranscodeRunning), ConversionAction::RunEncoder { copy_video: false })
            },
        (ConversionStage::CopyRunning, ConversionEvent::EncoderFinished { success }) =>
            if success {
                (at_stage(p, ConversionStage::Done), ConversionAction::Finish { video_copied: true })
            } else if p.force_video_copy {
                (at_stage(p, ConversionStage::Failed), ConversionAction::Abort(ConversionFailure::CopyRequired { copy_attempted: true }))
            } else {
                (at_stage(p, ConversionStage::TranscodeRunning), ConversionAction::RunEncoder { copy_video: false })
            },
        (ConversionStage::TranscodeRunning, ConversionEvent::EncoderFinished { success }) =>
            if success {
                (at_stage(p, ConversionStage::Done), ConversionAction::Finish { video_copied: false })
            } else {
                (at_stage(p, ConversionStage::Failed), ConversionAction::Abort(ConversionFailure::TranscodeFailed))
            },
        _ => (p, ConversionAction::Abort(ConversionFailure::TranscodeFailed)),
    }
}

/// What every reachable plan satisfies: a forced transcode never copies the
/// video, and a required stream copy never re-encodes it.
pub open spec fn plan_consistent(p: ConversionPlan) -> bool {
    &&& (p.stage == ConversionStage::CopyRunning ==> !p.transcode_video)
    &&& (p.stage == ConversionStage::TranscodeRunning ==> !p.force_video_copy)
}

impl ConversionPlan {
    /// A fresh plan for a conversion with the given options.
    pub fn new(opts: &ConversionOptions) -> (p: ConversionPlan)
        ensures
            p == (ConversionPlan {
                overwrite: opts.overwrite,
                force_video_copy: opts.force_video_copy,
                transcode_video: opts.transcode_video,
                stage: ConversionStage::Start,
            }),
            plan_consistent(p),
    {
        ConversionPlan {
            overwrite: opts.overwrite,
            force_video_copy: opts.force_video_copy,
            transcode_video: opts.transcode_video,
            stage: ConversionStage::Start,
        }
    }

    /// Takes the next decision on `ev`.
    pub fn step(&mut self, ev: ConversionEvent) -> (action: ConversionAction)
        requires
            accepts(old(self).stage, ev),
        ensures
            (*final(self), action) == conversion_step(*old(self), ev),
            plan_consistent(*old(self)) ==> plan_consistent(*final(self)),
    {
        match (self.stage, ev) {
            (ConversionStage::Start, ConversionEvent::Begin { output_exists }) => {
                if output_exists && !self.overwrite {
                    self.stage = ConversionStage::Failed;
                    ConversionAction::Abort(ConversionFailure::OutputExists)
                } else {
                    self.stage = ConversionStage::Prepared;
                    ConversionAction::Prepare
                }
            },
            (ConversionStage::Prepared, ConversionEvent::Prepared) => {
                if !self.transcode_video {
                    self.stage = ConversionStage::CopyRunning;
                    ConversionAction::RunEncoder { copy_video: true }
                } else if self.force_video_copy {
                    self.stage = ConversionStage::Failed;
                    ConversionAction::Abort(ConversionFailure::CopyRequired { copy_attempted: false })
                } else {
                    self.stage = ConversionStage::TranscodeRunning;
                    ConversionAction::RunEncoder { copy_video: false }
                }
            },
            (ConversionStage::CopyRunning, ConversionEvent::EncoderFinished { success }) => {
                if success {
                    self.stage = ConversionStage::Done;
                    ConversionAction::Finish { video_copied: true }
                } else if self.force_video_copy {
                    self.stage = ConversionStage::Failed;
                    ConversionAction::Abort(ConversionFailure::CopyRequired { copy_attempted: true })
                } else {
                    self.stage = ConversionStage::TranscodeRunning;
                    ConversionAction::RunEncoder { copy_video: false }
                }
            },
            (_, ConversionEvent::EncoderFinished { success }) => {
                if success {
                    self.stage = ConversionStage::Done;
                    ConversionAction::Finish { video_copied: false }
                } else {
                    self.stage = ConversionStage::Failed;
                    ConversionAction::Abort(ConversionFailure::TranscodeFailed)
                }
            },
            _ => ConversionAction::Abort(ConversionFailure::TranscodeFailed),
        }
    }
}

/// An action asks for the encoder with these video settings.
pub open spec fn runs_encoder(a: ConversionAction, copy_video: bool) -> bool {
    a == ConversionAction::RunEncoder { copy_video }
}

/// Along any run of a plan from its start: an existing output without
/// overwrite is refused before the encoder runs; the first encoder run
/// copies the video stream unless a transcode is forced; a forced transcode never
/// runs a stream copy; a required stream copy never re-encodes; and a
/// finished conversion reports a copied video exactly when it came from the
/// stream-copy run.
pub proof fn lemma_conversion_guarantees(p: ConversionPlan, ev: ConversionEvent)
    requires
        plan_consistent(p),
        accepts(p.stage, ev),
    ensures
        ({
            let (q, a) = conversion_step(p, ev);
            &&& plan_consistent(q)
            &&& (p.stage == ConversionStage::Start && ev == (ConversionEvent::Begin { output_exists: true }) && !p.overwrite
                ==> a == ConversionAction::Abort(ConversionFailure::OutputExists))
            &&& (p.stage == ConversionStage::Prepared && !p.transcode_video ==> runs_encoder(a, true))
            &&& (p.transcode_video ==> !runs_encoder(a, true))
            &&& (p.force_video_copy ==> !runs_encoder(a, false))
            &&& (a == (ConversionAction::Finish { video_copied: true }) ==> p.stage == ConversionStage::CopyRunning)
            &&& (a == (ConversionAction::Finish { video_copied: false }) ==> p.stage == ConversionStage::TranscodeRunning)
            &&& (p.stage != q.stage)
        }),
{
}


/// What an encoder run's outcome leads to, whatever the options: a stream
/// copy that succeeds finishes with the copied video and no further encoder
/// run; a failed stream copy falls back to an H.264 transcode, or stops
/// when stream copy is required; a transcode that succeeds finishes with a
/// re-encoded video, and one that fails stops the conversion.
pub proof fn lemma_encoder_outcome(p: ConversionPlan)
    ensures
        p.stage == ConversionStage::CopyRunning ==> conversion_step(p, ConversionEvent::EncoderFinished { success: true })
            == (ConversionPlan { stage: ConversionStage::Done, ..p }, ConversionAction::Finish { video_copied: true }),
        p.stage == ConversionStage::CopyRunning && !p.force_video_copy ==> conversion_step(
            p,
            ConversionEvent::EncoderFinished { success: false },
        ) == (ConversionPlan { stage: ConversionStage::TranscodeRunning, ..p }, ConversionAction::RunEncoder { copy_video: false }),
        p.stage == ConversionStage::CopyRunning && p.force_video_copy ==> conversion_step(
            p,
            ConversionEvent::EncoderFinished { success: false },
        ).1 == ConversionAction::Abort(ConversionFailure::CopyRequired { copy_attempted: true }),
        p.stage == ConversionStage::TranscodeRunning ==> conversion_step(p, ConversionEvent::EncoderFinished { success: true }).1
            == (ConversionAction::Finish { video_copied: false }),
        p.stage == ConversionStage::TranscodeRunning ==> conversion_step(p, ConversionEvent::EncoderFinished { success: false }).1
            == ConversionAction::Abort(ConversionFailure::TranscodeFailed),
{
}

/// How a conversion starts, whatever the options: an existing output is
/// refused unless overwriting is allowed, otherwise the output is prepared;
/// once prepared, the video stream is copied first unless a transcode is
/// forced, and a forced transcode either runs the H.264 encoder or, when
/// stream copy is required too, stops without running anything.
pub proof fn lemma_conversion_start(p: ConversionPlan, output_exists: bool)
    ensures
        p.stage == ConversionStage::Start ==> conversion_step(p, ConversionEvent::Begin { output_exists }).1 == if output_exists
            && !p.overwrite {
            ConversionAction::Abort(ConversionFailure::OutputExists)
        } else {
            ConversionAction::Prepare
        },
        p.stage == ConversionStage::Prepared ==> conversion_step(p, ConversionEvent::Prepared).1 == if !p.transcode_video {
            ConversionAction::RunEncoder { copy_video: true }
        } else if p.force_video_copy {
            ConversionAction::Abort(ConversionFailure::CopyRequired { copy_attempted: false })
        } else {
            ConversionAction::RunEncoder { copy_video: false }
        },
{
}

/// A conversion with the default options and no existing output prepares,
/// runs the encoder with the video stream copied, and, when that run
/// succeeds, finishes with the copied video.
pub proof fn lemma_default_run_keeps_copy(p: ConversionPlan)
    requires
        p.stage == ConversionStage::Start,
        !p.force_video_copy,
        !p.transcode_video,
    ensures
        ({
            let (p1, a1) = conversion_step(p, ConversionEvent::Begin { output_exists: false });
            let (p2, a2) = conversion_step(p1, ConversionEvent::Prepared);
            let (p3, a3) = conversion_step(p2, ConversionEvent::EncoderFinished { success: true });
            &&& a1 == ConversionAction::Prepare
            &&& a2 == (ConversionAction::RunEncoder { copy_video: true })
            &&& a3 == (ConversionAction::Finish { video_copied: true })
            &&& p3.stage == ConversionStage::Done
        }),
{
}

// ---------------------------------------------------------------------------
// Every audio stream gets its own options
// ---------------------------------------------------------------------------

/// How many times `x` occurs in `s`.
pub open spec fn occurrences(s: Seq<Seq<char>>, x: Seq<char>) -> nat
    decreases s.len(),
{
    if s.len() == 0 {
        0
    } else {
        occurrences(s.drop_last(), x) + if s.last() == x { 1nat } else { 0nat }
    }
}

/// A per-stream audio option: `-c:a:`, `-af:a:` or `-b:a:` with a stream number.
pub open spec fn is_audio_flag(x: Seq<char>) -> bool {
    exists|j: nat|
        #![trigger numbered("-c:a:"@, j)]
        x == numbered("-c:a:"@, j) || x == numbered("-af:a:"@, j) || x == numbered("-b:a:"@, j)
}

/// The `k`-th audio stream (from 0) is downmixed.
pub open spec fn downmixed(audio: Seq<Stream>, k: int, downmix: bool) -> bool {
    downmix && is_surround_5_1(audio[k])
}

/// Some audio stream is downmixed.
pub open spec fn some_downmixed(audio: Seq<Stream>, downmix: bool) -> bool {
    exists|m: int| 0 <= m < audio.len() && #[trigger] downmixed(audio, m, downmix)
}

proof fn lemma_occurrences_concat(a: Seq<Seq<char>>, b: Seq<Seq<char>>, x: Seq<char>)
    ensures
        occurrences(a + b, x) == occurrences(a, x) + occurrences(b, x),
    decreases b.len(),
{
    if b.len() > 0 {
        assert((a + b).drop_last() =~= a + b.drop_last());
        lemma_occurrences_concat(a, b.drop_last(), x);
    } else {
        assert(a + b =~= a);
    }
}

proof fn lemma_occurrences_absent(s: Seq<Seq<char>>, x: Seq<char>)
    requires
        forall|i: int| 0 <= i < s.len() ==> s[i] != x,
    ensures
        occurrences(s, x) == 0,
    decreases s.len(),
{
    if s.len() > 0 {
        lemma_occurrences_absent(s.drop_last(), x);
    }
}

proof fn lemma_numbered_shape(f: Seq<char>, j: nat)
    ensures
        numbered(f, j).len() > f.len(),
        numbered(f, j).take(f.len() as int) == f,
        numbered(f, j).skip(f.len() as int) == decimal(j),
{
    lemma_decimal_digits(j);
    assert(numbered(f, j).take(f.len() as int) =~= f);
    assert(numbered(f, j).skip(f.len() as int) =~= decimal(j));
}

/// A flag's number can be read back from it.
proof fn lemma_numbered_injective(f: Seq<char>, j: nat, k: nat)
    requires
        numbered(f, j) == numbered(f, k),
    ensures
        j == k,
{
    lemma_numbered_shape(f, j);
    lemma_numbered_shape(f, k);
    lemma_decimal_injective(j, k);
}

/// The three kinds of per-stream flags never coincide, are at least six
/// characters long and start with `-c`, `-a` and `-b`.
proof fn lemma_flag_kinds(j: nat)
    ensures
        numbered("-c:a:"@, j).len() >= 6 && numbered("-c:a:"@, j)[0] == '-' && numbered("-c:a:"@, j)[1] == 'c',
        numbered("-af:a:"@, j).len() >= 6 && numbered("-af:a:"@, j)[0] == '-' && numbered("-af:a:"@, j)[1] == 'a',
        numbered("-b:a:"@, j).len() >= 6 && numbered("-b:a:"@, j)[0] == '-' && numbered("-b:a:"@, j)[1] == 'b',
{
    reveal_strlit("-c:a:");
    reveal_strlit("-af:a:");
    reveal_strlit("-b:a:");
    lemma_numbered_shape("-c:a:"@, j);
    lemma_numbered_shape("-af:a:"@, j);
    lemma_numbered_shape("-b:a:"@, j);
    assert(numbered("-c:a:"@, j)[0] == numbered("-c:a:"@, j).take(5)[0]);
    assert(numbered("-c:a:"@, j)[1] == numbered("-c:a:"@, j).take(5)[1]);
    assert(numbered("-af:a:"@, j)[0] == numbered("-af:a:"@, j).take(6)[0]);
    assert(numbered("-af:a:"@, j)[1] == numbered("-af:a:"@, j).take(6)[1]);
    assert(numbered("-b:a:"@, j)[0] == numbered("-b:a:"@, j).take(5)[0]);
    assert(numbered("-b:a:"@, j)[1] == numbered("-b:a:"@, j).take(5)[1]);
}

/// A text that is shorter than six characters, or does not start with `-`
/// followed by `c`, `a` or `b`, is no per-stream flag.
proof fn lemma_not_audio_flag(x: Seq<char>)
    requires
        x.len() < 6 || x[0] != '-' || (x[1] != 'c' && x[1] != 'a' && x[1] != 'b'),
    ensures
        !is_audio_flag(x),
{
    if is_audio_flag(x) {
        let j = choose|j: nat|
            #![trigger numbered("-c:a:"@, j)]
            x == numbered("-c:a:"@, j) || x == numbered("-af:a:"@, j) || x == numbered("-b:a:"@, j);
        lemma_flag_kinds(j);
    }
}

/// Occurrences of the flags of stream `k` among the options of stream `i`.
proof fn lemma_stream_block_occurrences(s: Stream, i: nat, k: nat, downmix: bool, codec: Seq<char>, bitrate: Seq<char>)
    requires
        downmix && is_surround_5_1(s) ==> !is_audio_flag(codec) && !is_audio_flag(bitrate),
    ensures
        occurrences(audio_stream_args(s, i, downmix, codec, bitrate), numbered("-c:a:"@, k)) == if i == k { 1nat } else { 0nat },
        occurrences(audio_stream_args(s, i, downmix, codec, bitrate), numbered("-af:a:"@, k))
            == if i == k && downmix && is_surround_5_1(s) { 1nat } else { 0nat },
        occurrences(audio_stream_args(s, i, downmix, codec, bitrate), numbered("-b:a:"@, k))
            == if i == k && downmix && is_surround_5_1(s) { 1nat } else { 0nat },
{
    reveal_strlit("aac");
    reveal_strlit("pan=4.1|c0=c0+0.707*c2|c1=c1+0.707*c2|c3=c3|c4=0.707*c4+0.707*c5");
    lemma_flag_kinds(i);
    lemma_flag_kinds(k);
    if numbered("-c:a:"@, i) == numbered("-c:a:"@, k) {
        lemma_numbered_injective("-c:a:"@, i, k);
    }
    if numbered("-af:a:"@, i) == numbered("-af:a:"@, k) {
        lemma_numbered_injective("-af:a:"@, i, k);
    }
    if numbered("-b:a:"@, i) == numbered("-b:a:"@, k) {
        lemma_numbered_injective("-b:a:"@, i, k);
    }
    let b = audio_stream_args(s, i, downmix, codec, bitrate);
    if downmix && is_surround_5_1(s) {
        assert(codec != numbered("-c:a:"@, k) && codec != numbered("-af:a:"@, k) && codec != numbered("-b:a:"@, k));
        assert(bitrate != numbered("-c:a:"@, k) && bitrate != numbered("-af:a:"@, k) && bitrate != numbered("-b:a:"@, k));
        assert(downmix_filter()[0] == 'p');
        reveal_with_fuel(occurrences, 7);
        assert(b.drop_last().drop_last().drop_last().drop_last().drop_last().drop_last() =~= Seq::<Seq<char>>::empty());
    } else {
        assert(("aac"@)[0] == 'a');
        reveal_with_fuel(occurrences, 3);
        assert(b.drop_last().drop_last() =~= Seq::<Seq<char>>::empty());
    }
}

/// Occurrences of the flags of stream `k` in the audio options.
proof fn lemma_audio_args_occurrences(audio: Seq<Stream>, k: nat, downmix: bool, codec: Seq<char>, bitrate: Seq<char>)
    requires
        some_downmixed(audio, downmix) ==> !is_audio_flag(codec) && !is_audio_flag(bitrate),
    ensures
        occurrences(audio_args(audio, downmix, codec, bitrate), numbered("-c:a:"@, k)) == if k < audio.len() { 1nat } else { 0nat },
        occurrences(audio_args(audio, downmix, codec, bitrate), numbered("-af:a:"@, k))
            == if k < audio.len() && downmixed(audio, k as int, downmix) { 1nat } else { 0nat },
        occurrences(audio_args(audio, downmix, codec, bitrate), numbered("-b:a:"@, k))
            == if k < audio.len() && downmixed(audio, k as int, downmix) { 1nat } else { 0nat },
    decreases audio.len(),
{
    if audio.len() > 0 {
        let init = audio.drop_last();
        let last = (audio.len() - 1) as nat;
        if some_downmixed(init, downmix) {
            let m = choose|m: int| 0 <= m < init.len() && #[trigger] downmixed(init, m, downmix);
            assert(downmixed(audio, m, downmix));
        }
        lemma_audio_args_occurrences(init, k, downmix, codec, bitrate);
        if downmix && is_surround_5_1(audio.last()) {
            assert(downmixed(audio, last as int, downmix));
        }
        lemma_stream_block_occurrences(audio.last(), last, k, downmix, codec, bitrate);
        let head = audio_args(init, downmix, codec, bitrate);
        let block = audio_stream_args(audio.last(), last, downmix, codec, bitrate);
        lemma_occurrences_concat(head, block, numbered("-c:a:"@, k));
        lemma_occurrences_concat(head, block, numbered("-af:a:"@, k));
        lemma_occurrences_concat(head, block, numbered("-b:a:"@, k));
        if k < init.len() {
            assert(init[k as int] == audio[k as int]);
        }
    }
}

/// The options of stream `k` sit in the audio options at a known place:
/// `-c:a:k` followed by the chosen codec (downmixed stream) or `aac`, and
/// for a downmixed stream `-af:a:k` followed by the 4.1 filter and
/// `-b:a:k` followed by the bitrate.
proof fn lemma_audio_args_positions(audio: Seq<Stream>, k: nat, downmix: bool, codec: Seq<char>, bitrate: Seq<char>)
    requires
        k < audio.len(),
    ensures
        exists|p: int| 0 <= p && p + 1 < audio_args(audio, downmix, codec, bitrate).len()
            && #[trigger] audio_args(audio, downmix, codec, bitrate)[p] == numbered("-c:a:"@, k)
            && audio_args(audio, downmix, codec, bitrate)[p + 1] == if downmixed(audio, k as int, downmix) { codec } else { "aac"@ },
        downmixed(audio, k as int, downmix) ==> exists|p: int| 0 <= p && p + 5 < audio_args(audio, downmix, codec, bitrate).len()
            && #[trigger] audio_args(audio, downmix, codec, bitrate)[p] == numbered("-af:a:"@, k)
            && audio_args(audio, downmix, codec, bitrate)[p + 1] == downmix_filter()
            && audio_args(audio, downmix, codec, bitrate)[p + 4] == numbered("-b:a:"@, k)
            && audio_args(audio, downmix, codec, bitrate)[p + 5] == bitrate,
    decreases audio.len(),
{
    let init = audio.drop_last();
    let head = audio_args(init, downmix, codec, bitrate);
    let block = audio_stream_args(audio.last(), (audio.len() - 1) as nat, downmix, codec, bitrate);
    let all = audio_args(audio, downmix, codec, bitrate);
    assert(all == head + block);
    if k < init.len() {
        lemma_audio_args_positions(init, k, downmix, codec, bitrate);
        assert(init[k as int] == audio[k as int]);
        let p = choose|p: int| 0 <= p && p + 1 < head.len() && #[trigger] head[p] == numbered("-c:a:"@, k)
            && head[p + 1] == if downmixed(init, k as int, downmix) { codec } else { "aac"@ };
        assert(all[p] == head[p] && all[p + 1] == head[p + 1]);
        if downmixed(audio, k as int, downmix) {
            let q = choose|q: int| 0 <= q && q + 5 < head.len() && #[trigger] head[q] == numbered("-af:a:"@, k)
                && head[q + 1] == downmix_filter() && head[q + 4] == numbered("-b:a:"@, k) && head[q + 5] == bitrate;
            assert(all[q] == head[q] && all[q + 1] == head[q + 1] && all[q + 4] == head[q + 4] && all[q + 5] == head[q + 5]);
        }
    } else {
        let h = head.len() as int;
        if downmixed(audio, k as int, downmix) {
            assert(all[h + 2] == numbered("-c:a:"@, k) && all[h + 3] == codec);
            assert(all[h] == numbered("-af:a:"@, k) && all[h + 1] == downmix_filter());
            assert(all[h + 4] == numbered("-b:a:"@, k) && all[h + 5] == bitrate);
        } else {
            assert(all[h] == numbered("-c:a:"@, k) && all[h + 1] == "aac"@);
        }
    }
}

/// Every audio stream gets exactly one codec option, numbered by its place
/// among the audio streams, and no stream number past them is used; the
/// filter and bitrate options come exactly for the downmixed 5.1 streams.
/// The codec option is followed by the chosen codec for a downmixed
/// stream and by `aac` otherwise; the filter option by the 4.1 filter and
/// the bitrate option by the bitrate. This holds unless the input, the
/// temporary output, or (when some stream is downmixed) the codec or the
/// bitrate is itself such an option.
pub proof fn lemma_audio_options_per_stream(
    input: Seq<char>,
    temp_output: Seq<char>,
    probe: ProbeOutput,
    audio_codec: Seq<char>,
    audio_bitrate: Seq<char>,
    copy_video: bool,
    downmix_5_1: bool,
    k: nat,
)
    requires
        !is_audio_flag(input),
        !is_audio_flag(temp_output),
        some_downmixed(probe.streams@.filter(|s: Stream| is_audio_stream(s)), downmix_5_1)
            ==> !is_audio_flag(audio_codec) && !is_audio_flag(audio_bitrate),
    ensures
        ({
            let args = ffmpeg_args_spec(input, temp_output, probe, audio_codec, audio_bitrate, copy_video, downmix_5_1);
            let audio = probe.streams@.filter(|s: Stream| is_audio_stream(s));
            &&& occurrences(args, numbered("-c:a:"@, k)) == if k < audio.len() { 1nat } else { 0nat }
            &&& occurrences(args, numbered("-af:a:"@, k)) == if k < audio.len() && downmixed(audio, k as int, downmix_5_1) { 1nat } else { 0nat }
            &&& occurrences(args, numbered("-b:a:"@, k)) == if k < audio.len() && downmixed(audio, k as int, downmix_5_1) { 1nat } else { 0nat }
            &&& k < audio.len() ==> exists|p: int| 0 <= p && p + 1 < args.len() && #[trigger] args[p] == numbered("-c:a:"@, k)
                && args[p + 1] == if downmixed(audio, k as int, downmix_5_1) { audio_codec } else { "aac"@ }
            &&& k < audio.len() && downmixed(audio, k as int, downmix_5_1) ==> exists|p: int| 0 <= p && p + 5 < args.len()
                && #[trigger] args[p] == numbered("-af:a:"@, k) && args[p + 1] == downmix_filter()
                && args[p + 4] == numbered("-b:a:"@, k) && args[p + 5] == audio_bitrate
        }),
{
    let streams = probe.streams@;
    let audio = streams.filter(|s: Stream| is_audio_stream(s));
    let video_part = if streams.filter(|s: Stream| is_video_stream(s)).len() > 0 {
        seq!["-map"@, "0:v"@] + video_args(copy_video)
    } else {
        Seq::empty()
    };
    let front = seq!["-y"@, "-i"@, input] + video_part + seq!["-map"@, "0:a"@];
    let mid = audio_args(audio, downmix_5_1, audio_codec, audio_bitrate);
    let back = seq!["-movflags"@, "+faststart"@, temp_output];
    let args = ffmpeg_args_spec(input, temp_output, probe, audio_codec, audio_bitrate, copy_video, downmix_5_1);
    assert(args == front + mid + back);
    reveal_strlit("-y");
    reveal_strlit("-i");
    reveal_strlit("-map");
    reveal_strlit("0:v");
    reveal_strlit("0:a");
    reveal_strlit("-c:v");
    reveal_strlit("copy");
    reveal_strlit("libx264");
    reveal_strlit("-preset");
    reveal_strlit("slow");
    reveal_strlit("-crf");
    reveal_strlit("18");
    reveal_strlit("-pix_fmt");
    reveal_strlit("yuv420p");
    reveal_strlit("-movflags");
    reveal_strlit("+faststart");
    let fixed = seq!["-y"@, "-i"@, "-map"@, "0:v"@, "0:a"@, "-c:v"@, "copy"@, "libx264"@, "-preset"@, "slow"@,
        "-crf"@, "18"@, "-pix_fmt"@, "yuv420p"@, "-movflags"@, "+faststart"@];
    assert forall|i: int| 0 <= i < fixed.len() implies !is_audio_flag(#[trigger] fixed[i]) by {
        lemma_not_audio_flag(fixed[i]);
    }
    assert forall|x: Seq<char>| front.contains(x) || back.contains(x) implies !is_audio_flag(x) by {
        if x != input && x != temp_output {
            assert(fixed.contains(x)) by {
                if front.contains(x) {
                    let i = choose|i: int| 0 <= i < front.len() && front[i] == x;
                    if x == "-y"@ { assert(fixed[0] == x); }
                    else if x == "-i"@ { assert(fixed[1] == x); }
                    else if x == "-map"@ { assert(fixed[2] == x); }
                    else if x == "0:v"@ { assert(fixed[3] == x); }
                    else if x == "0:a"@ { assert(fixed[4] == x); }
                    else if x == "-c:v"@ { assert(fixed[5] == x); }
                    else if x == "copy"@ { assert(fixed[6] == x); }
                    else if x == "libx264"@ { assert(fixed[7] == x); }
                    else if x == "-preset"@ { assert(fixed[8] == x); }
                    else if x == "slow"@ { assert(fixed[9] == x); }
                    else if x == "-crf"@ { assert(fixed[10] == x); }
                    else if x == "18"@ { assert(fixed[11] == x); }
                    else if x == "-pix_fmt"@ { assert(fixed[12] == x); }
                    else { assert(fixed[13] == x); }
                } else {
                    if x == "-movflags"@ { assert(fixed[14] == x); } else { assert(fixed[15] == x); }
                }
            }
            let i = choose|i: int| 0 <= i < fixed.len() && fixed[i] == x;
            assert(!is_audio_flag(fixed[i]));
        }
    }
    lemma_audio_args_occurrences(audio, k, downmix_5_1, audio_codec, audio_bitrate);
    let flags = seq![numbered("-c:a:"@, k), numbered("-af:a:"@, k), numbered("-b:a:"@, k)];
    assert forall|f: int| 0 <= f < 3 implies occurrences(front, #[trigger] flags[f]) == 0 && occurrences(back, flags[f]) == 0 by {
        assert forall|i: int| 0 <= i < front.len() implies front[i] != flags[f] by {
            assert(front.contains(front[i]));
            assert(is_audio_flag(flags[f]));
        }
        assert forall|i: int| 0 <= i < back.len() implies back[i] != flags[f] by {
            assert(back.contains(back[i]));
            assert(is_audio_flag(flags[f]));
        }
        lemma_occurrences_absent(front, flags[f]);
        lemma_occurrences_absent(back, flags[f]);
    }
    assert(occurrences(front, flags[0]) == 0 && occurrences(back, flags[0]) == 0);
    assert(occurrences(front, flags[1]) == 0 && occurrences(back, flags[1]) == 0);
    assert(occurrences(front, flags[2]) == 0 && occurrences(back, flags[2]) == 0);
    lemma_occurrences_concat(front, mid, flags[0]);
    lemma_occurrences_concat(front + mid, back, flags[0]);
    lemma_occurrences_concat(front, mid, flags[1]);
    lemma_occurrences_concat(front + mid, back, flags[1]);
    lemma_occurrences_concat(front, mid, flags[2]);
    lemma_occurrences_concat(front + mid, back, flags[2]);
    if k < audio.len() {
        lemma_audio_args_positions(audio, k, downmix_5_1, audio_codec, audio_bitrate);
        let f = front.len() as int;
        let p = choose|p: int| 0 <= p && p + 1 < mid.len() && #[trigger] mid[p] == numbered("-c:a:"@, k)
            && mid[p + 1] == if downmixed(audio, k as int, downmix_5_1) { audio_codec } else { "aac"@ };
        assert(args[f + p] == mid[p] && args[f + p + 1] == mid[p + 1]);
        if downmixed(audio, k as int, downmix_5_1) {
            let q = choose|q: int| 0 <= q && q + 5 < mid.len() && #[trigger] mid[q] == numbered("-af:a:"@, k)
                && mid[q + 1] == downmix_filter() && mid[q + 4] == numbered("-b:a:"@, k) && mid[q + 5] == audio_bitrate;
            assert(args[f + q] == mid[q] && args[f + q + 1] == mid[q + 1] && args[f + q + 4] == mid[q + 4] && args[f + q + 5] == mid[q + 5]);
        }
    }
}

// ---------------------------------------------------------------------------
// Error messages of a conversion
// ---------------------------------------------------------------------------

/// `n` in decimal, with a leading `-` when negative.
pub open spec fn signed_decimal(n: int) -> Seq<char> {
    if n < 0 {
        "-"@ + decimal((-n) as nat)
    } else {
        decimal(n as nat)
    }
}

/// An optional exit code as Rust's `Debug` prints it: `Some(3)` or `None`.
pub open spec fn exit_code_text(code: Option<i32>) -> Seq<char> {
    match code {
        Some(c) => "Some("@ + signed_decimal(c as int) + ")"@,
        None => "None"@,
    }
}

/// The error of an encoder run that exited unsuccessfully.
pub open spec fn encoder_exit_text(code: Option<i32>, stderr: Seq<char>) -> Seq<char> {
    "ffmpeg failed with exit code "@ + exit_code_text(code) + ": "@ + stderr
}

/// Builds the error of an encoder run that exited with `code` (none when it
/// was stopped by a signal) after printing `stderr`.
pub fn encoder_exit_message(code: Option<i32>, stderr: &str) -> (m: String)
    ensures
        m@ == encoder_exit_text(code, stderr@),
{
    let mut m = String::from_str("ffmpeg failed with exit code ");
    match code {
        Some(c) => {
            m.append("Some(");
            let wide: i64 = c as i64;
            if wide < 0 {
                m.append("-");
                push_decimal(&mut m, (-wide) as u64);
            } else {
                push_decimal(&mut m, wide as u64);
            }
            m.append(")");
        },
        None => m.append("None"),
    }
    m.append(": ");
    m.append(stderr);
    m
}

/// The error of an encoder that could not be started.
pub open spec fn encoder_spawn_text(cause: Seq<char>) -> Seq<char> {
    "Failed to spawn ffmpeg: "@ + cause
}

/// Builds the error of an encoder that could not be started for `cause`.
pub fn encoder_spawn_message(cause: &str) -> (m: String)
    ensures
        m@ == encoder_spawn_text(cause@),
{
    let mut m = String::from_str("Failed to spawn ffmpeg: ");
    m.append(cause);
    m
}

/// The error a conversion stops with: an existing output names the output;
/// a required stream copy names the input and gives the copy's error (or
/// "Transcode forced" when no copy was tried); a failed transcode is the
/// encoder's own error.
pub open spec fn failure_text(f: ConversionFailure, input: Seq<char>, output: Seq<char>, encoder_error: Seq<char>) -> Seq<char> {
    match f {
        ConversionFailure::OutputExists => "Output file '"@ + output + "' already exists. Use --overwrite to replace it."@,
        ConversionFailure::CopyRequired { copy_attempted } => "Video stream copy failed for '"@ + input
            + "' and --force-video-copy was specified: "@ + if copy_attempted {
            encoder_error
        } else {
            "Transcode forced"@
        },
        ConversionFailure::TranscodeFailed => encoder_error,
    }
}

/// Builds the error a conversion of `input` into `output` stops with, given
/// the error of the last encoder run.
pub fn failure_message(f: ConversionFailure, input: &str, output: &str, encoder_error: &str) -> (m: String)
    ensures
        m@ == failure_text(f, input@, output@, encoder_error@),
{
    match f {
        ConversionFailure::OutputExists => {
            let mut m = String::from_str("Output file '");
            m.append(output);
            m.append("' already exists. Use --overwrite to replace it.");
            m
        },
        ConversionFailure::CopyRequired { copy_attempted } => {
            let mut m = String::from_str("Video stream copy failed for '");
            m.append(input);
            m.append("' and --force-video-copy was specified: ");
            if copy_attempted {
                m.append(encoder_error);
            } else {
                m.append("Transcode forced");
            }
            m
        },
        ConversionFailure::TranscodeFailed => String::from_str(encoder_error),
    }
}

} // verus!
