use audio_fixer::ffmpeg::{
    encoder_exit_message, encoder_spawn_message, failure_message, ffmpeg_arguments, should_delete_source, temp_output_for, ConversionAction, ConversionEvent,
    ConversionFailure, ConversionOptions, ConversionPlan, ConversionStage,
};
use audio_fixer::ffprobe::{ProbeOutput, Stream};

fn stream(index: u32, codec_type: &str, channels: Option<u32>, layout: Option<&str>) -> Stream {
    Stream {
        index,
        codec_type: codec_type.to_string(),
        codec_name: None,
        channels,
        channel_layout: layout.map(|s| s.to_string()),
        width: None,
        height: None,
        r_frame_rate: None,
        avg_frame_rate: None,
    }
}

#[test]
fn default_options() {
    let o = ConversionOptions::default();
    assert_eq!(o.audio_bitrate, "384k");
    assert_eq!(o.audio_codec, "aac");
    assert_eq!(o.ffmpeg_bin, "ffmpeg");
    assert!(!o.overwrite && !o.force_video_copy && !o.transcode_video && !o.delete_source);
}

#[test]
fn encoder_arguments_downmix_and_copy() {
    let probe = ProbeOutput {
        streams: vec![
            stream(0, "video", None, None),
            stream(1, "audio", Some(6), Some("5.1")),
            stream(2, "audio", Some(2), Some("stereo")),
        ],
        format: None,
    };
    let opts = ConversionOptions::default();
    let args = ffmpeg_arguments("in.mkv", "out.tmp_converting.mp4", &probe, &opts, true, true);
    let expected: Vec<String> = [
        "-y", "-i", "in.mkv", "-map", "0:v", "-c:v", "copy", "-map", "0:a", "-af:a:0",
        "pan=4.1|c0=c0+0.707*c2|c1=c1+0.707*c2|c3=c3|c4=0.707*c4+0.707*c5", "-c:a:0", "aac",
        "-b:a:0", "384k", "-c:a:1", "aac", "-movflags", "+faststart", "out.tmp_converting.mp4",
    ]
    .iter()
    .map(|s| s.to_string())
    .collect();
    assert_eq!(args, expected);
}

#[test]
fn encoder_arguments_transcode_without_video() {
    let probe = ProbeOutput { streams: vec![stream(0, "audio", Some(6), None)], format: None };
    let mut opts = ConversionOptions::default();
    opts.audio_codec = "ac3".to_string();
    let args = ffmpeg_arguments("a.avi", "t.mp4", &probe, &opts, false, false);
    let expected: Vec<String> = ["-y", "-i", "a.avi", "-map", "0:a", "-c:a:0", "aac", "-movflags", "+faststart", "t.mp4"]
        .iter()
        .map(|s| s.to_string())
        .collect();
    assert_eq!(args, expected);
    let probe = ProbeOutput { streams: vec![stream(0, "video", None, None)], format: None };
    let args = ffmpeg_arguments("a.avi", "t.mp4", &probe, &opts, false, true);
    assert_eq!(&args[3..13], &["-map", "0:v", "-c:v", "libx264", "-preset", "slow", "-crf", "18", "-pix_fmt", "yuv420p"]);
}

#[test]
fn temp_path_and_source_removal() {
    assert_eq!(temp_output_for("/out/movie.mp4"), "/out/movie.tmp_converting.mp4");
    let mut opts = ConversionOptions::default();
    assert!(!should_delete_source(&opts, true, "/a/m.mkv", "/a/m.mp4"));
    opts.delete_source = true;
    assert!(should_delete_source(&opts, true, "/a/m.mkv", "/a/m.mp4"));
    assert!(!should_delete_source(&opts, false, "/a/m.mkv", "/a/m.mp4"));
    assert!(!should_delete_source(&opts, true, "/a/m.mp4", "/a//m.mp4"));
}

#[test]
fn plan_copy_then_fallback() {
    let opts = ConversionOptions::default();
    let mut plan = ConversionPlan::new(&opts);
    assert_eq!(plan.step(ConversionEvent::Begin { output_exists: false }), ConversionAction::Prepare);
    assert_eq!(plan.step(ConversionEvent::Prepared), ConversionAction::RunEncoder { copy_video: true });
    assert_eq!(
        plan.step(ConversionEvent::EncoderFinished { success: false }),
        ConversionAction::RunEncoder { copy_video: false }
    );
    assert_eq!(
        plan.step(ConversionEvent::EncoderFinished { success: true }),
        ConversionAction::Finish { video_copied: false }
    );
    assert_eq!(plan.stage, ConversionStage::Done);
}

#[test]
fn plan_refuses_existing_output() {
    let opts = ConversionOptions::default();
    let mut plan = ConversionPlan::new(&opts);
    assert_eq!(
        plan.step(ConversionEvent::Begin { output_exists: true }),
        ConversionAction::Abort(ConversionFailure::OutputExists)
    );
    let mut opts = ConversionOptions::default();
    opts.overwrite = true;
    let mut plan = ConversionPlan::new(&opts);
    assert_eq!(plan.step(ConversionEvent::Begin { output_exists: true }), ConversionAction::Prepare);
}

#[test]
fn plan_forced_copy_and_forced_transcode() {
    let mut opts = ConversionOptions::default();
    opts.force_video_copy = true;
    let mut plan = ConversionPlan::new(&opts);
    plan.step(ConversionEvent::Begin { output_exists: false });
    plan.step(ConversionEvent::Prepared);
    assert_eq!(
        plan.step(ConversionEvent::EncoderFinished { success: false }),
        ConversionAction::Abort(ConversionFailure::CopyRequired { copy_attempted: true })
    );
    opts.transcode_video = true;
    let mut plan = ConversionPlan::new(&opts);
    plan.step(ConversionEvent::Begin { output_exists: false });
    assert_eq!(
        plan.step(ConversionEvent::Prepared),
        ConversionAction::Abort(ConversionFailure::CopyRequired { copy_attempted: false })
    );
    opts.force_video_copy = false;
    let mut plan = ConversionPlan::new(&opts);
    plan.step(ConversionEvent::Begin { output_exists: false });
    assert_eq!(plan.step(ConversionEvent::Prepared), ConversionAction::RunEncoder { copy_video: false });
    assert_eq!(
        plan.step(ConversionEvent::EncoderFinished { success: false }),
        ConversionAction::Abort(ConversionFailure::TranscodeFailed)
    );
}

#[test]
fn failure_messages() {
    assert_eq!(
        failure_message(ConversionFailure::OutputExists, "/in.mkv", "/out.mp4", ""),
        "Output file '/out.mp4' already exists. Use --overwrite to replace it."
    );
    assert_eq!(
        failure_message(ConversionFailure::CopyRequired { copy_attempted: false }, "/in.mkv", "/out.mp4", "x"),
        "Video stream copy failed for '/in.mkv' and --force-video-copy was specified: Transcode forced"
    );
    assert_eq!(
        failure_message(ConversionFailure::CopyRequired { copy_attempted: true }, "/in.mkv", "/out.mp4", "boom"),
        "Video stream copy failed for '/in.mkv' and --force-video-copy was specified: boom"
    );
    assert_eq!(failure_message(ConversionFailure::TranscodeFailed, "/in.mkv", "/out.mp4", "bad"), "bad");
}

#[test]
fn encoder_error_texts() {
    assert_eq!(encoder_exit_message(Some(1), "err"), "ffmpeg failed with exit code Some(1): err");
    assert_eq!(encoder_exit_message(Some(-22), ""), "ffmpeg failed with exit code Some(-22): ");
    assert_eq!(
        encoder_exit_message(Some(i32::MIN), "x"),
        format!("ffmpeg failed with exit code {:?}: x", Some(i32::MIN))
    );
    assert_eq!(encoder_exit_message(None, "killed"), "ffmpeg failed with exit code None: killed");
    assert_eq!(encoder_spawn_message("not found"), "Failed to spawn ffmpeg: not found");
}

#[test]
fn each_audio_stream_numbered_once() {
    let probe = ProbeOutput {
        streams: vec![
            stream(0, "audio", Some(2), Some("stereo")),
            stream(1, "video", None, None),
            stream(2, "audio", Some(6), Some("5.1(side)")),
            stream(3, "subtitle", None, None),
        ],
        format: None,
    };
    let opts = ConversionOptions::default();
    let args = ffmpeg_arguments("/in.mkv", "/tmp.mp4", &probe, &opts, true, true);
    let count = |flag: &str| args.iter().filter(|a| a.as_str() == flag).count();
    assert_eq!((count("-c:a:0"), count("-c:a:1"), count("-c:a:2")), (1, 1, 0));
    assert_eq!((count("-af:a:0"), count("-af:a:1")), (0, 1));
    assert_eq!((count("-b:a:0"), count("-b:a:1")), (0, 1));
    let at = |flag: &str| args.iter().position(|a| a.as_str() == flag).unwrap();
    assert_eq!(args[at("-c:a:0") + 1], "aac");
    assert_eq!(args[at("-c:a:1") + 1], "aac");
    assert_eq!(args[at("-b:a:1") + 1], "384k");
    assert_eq!(args[2], "/in.mkv");
    assert_eq!(args[args.len() - 1], "/tmp.mp4");
}
