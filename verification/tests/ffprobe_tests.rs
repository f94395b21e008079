use audio_fixer::ffprobe::{
    check_file_health, missing_file_message, probe_failure_message, probe_options, probe_parse_message,
    probe_spawn_message, HeaderRead, HealthIssue, ProbeOutput, RetryDecision,
    RetryState, Stream,
};

fn stream(
    index: u32,
    codec_type: &str,
    codec_name: Option<&str>,
    channels: Option<u32>,
    channel_layout: Option<&str>,
) -> Stream {
    Stream {
        index,
        codec_type: codec_type.to_string(),
        codec_name: codec_name.map(|s| s.to_string()),
        channels,
        channel_layout: channel_layout.map(|s| s.to_string()),
        width: None,
        height: None,
        r_frame_rate: None,
        avg_frame_rate: None,
    }
}

#[test]
fn test_is_5_1_audio_by_channels() {
    let stream = Stream {
        index: 1,
        codec_type: "audio".to_string(),
        codec_name: Some("ac3".to_string()),
        channels: Some(6),
        channel_layout: None,
        width: None,
        height: None,
        r_frame_rate: None,
        avg_frame_rate: None,
    };
    assert!(stream.is_5_1_audio());
}

#[test]
fn test_is_5_1_audio_by_layout() {
    let stream = Stream {
        index: 1,
        codec_type: "audio".to_string(),
        codec_name: Some("aac".to_string()),
        channels: Some(6),
        channel_layout: Some("5.1(side)".to_string()),
        width: None,
        height: None,
        r_frame_rate: None,
        avg_frame_rate: None,
    };
    assert!(stream.is_5_1_audio());
}

#[test]
fn test_is_not_5_1_audio_stereo() {
    let stream = Stream {
        index: 1,
        codec_type: "audio".to_string(),
        codec_name: Some("aac".to_string()),
        channels: Some(2),
        channel_layout: Some("stereo".to_string()),
        width: None,
        height: None,
        r_frame_rate: None,
        avg_frame_rate: None,
    };
    assert!(!stream.is_5_1_audio());
}

#[test]
fn test_video_stream_ignored_for_audio_check() {
    let stream = Stream {
        index: 0,
        codec_type: "video".to_string(),
        codec_name: Some("h264".to_string()),
        channels: Some(6),
        channel_layout: Some("5.1".to_string()),
        width: Some(1920),
        height: Some(1080),
        r_frame_rate: None,
        avg_frame_rate: None,
    };
    assert!(!stream.is_5_1_audio());
}

#[test]
fn layout_alone_marks_5_1() {
    let s = stream(2, "audio", Some("dts"), None, Some("5.1"));
    assert!(s.is_5_1_audio());
    let s = stream(2, "audio", Some("dts"), Some(8), Some("7.1"));
    assert!(!s.is_5_1_audio());
}

#[test]
fn audio_description_uppercases_codec() {
    let s = stream(1, "audio", Some("aac"), Some(6), Some("5.1(side)"));
    assert_eq!(s.audio_description(), "AAC (6 ch, 5.1(side))");
}

#[test]
fn audio_description_defaults() {
    let s = stream(1, "audio", None, None, None);
    assert_eq!(s.audio_description(), "UNKNOWN (? ch, unknown layout)");
}

fn sample_probe() -> ProbeOutput {
    ProbeOutput {
        streams: vec![
            stream(0, "video", Some("h264"), None, None),
            stream(1, "audio", Some("ac3"), Some(6), Some("5.1")),
            stream(2, "audio", Some("aac"), Some(2), Some("stereo")),
            stream(3, "subtitle", Some("srt"), None, None),
        ],
        format: None,
    }
}

#[test]
fn probe_stream_selection() {
    let p = sample_probe();
    let surround = p.get_5_1_audio_streams();
    assert_eq!(surround.len(), 1);
    assert_eq!(surround[0].index, 1);
    let video = p.get_video_streams();
    assert_eq!(video.len(), 1);
    assert_eq!(video[0].index, 0);
    assert!(p.has_5_1_audio());
    assert!(!p.is_converted_target());
}

#[test]
fn probe_summary_joins_audio_descriptions() {
    let p = sample_probe();
    assert_eq!(p.audio_summary(), "AC3 (6 ch, 5.1), AAC (2 ch, stereo)");
    let empty = ProbeOutput { streams: vec![stream(0, "video", None, None, None)], format: None };
    assert_eq!(empty.audio_summary(), "");
    assert!(empty.is_converted_target());
    assert!(!empty.has_5_1_audio());
}

#[test]
fn converted_target_needs_video() {
    let p = ProbeOutput { streams: vec![stream(0, "audio", Some("aac"), Some(2), None)], format: None };
    assert!(!p.is_converted_target());
}

#[test]
fn health_checks() {
    assert_eq!(check_file_health(Some(0), &HeaderRead::Bytes(vec![])), Some(HealthIssue::Empty));
    assert_eq!(check_file_health(Some(10), &HeaderRead::Bytes(vec![0, 0, 0])), Some(HealthIssue::NullHeader));
    assert_eq!(check_file_health(Some(10), &HeaderRead::Bytes(vec![0, 1, 0])), None);
    assert_eq!(check_file_health(Some(10), &HeaderRead::Bytes(vec![])), None);
    assert_eq!(check_file_health(None, &HeaderRead::OpenFailed), Some(HealthIssue::Inaccessible));
    assert_eq!(check_file_health(Some(5), &HeaderRead::ReadFailed), None);
    assert_eq!(HealthIssue::Empty.message(), "File is empty (0 bytes)");
    assert_eq!(
        HealthIssue::Inaccessible.message(),
        "File is locked or inaccessible (permission denied)"
    );
}

#[test]
fn probe_failure_message_uses_first_line() {
    assert_eq!(
        probe_failure_message("  moov atom not found \r\nsecond line\n"),
        "ffprobe unable to parse file: moov atom not found"
    );
    assert_eq!(probe_failure_message(""), "ffprobe unable to parse file: Invalid media format");
    assert_eq!(probe_failure_message("\nlater"), "ffprobe unable to parse file: ");
}

#[test]
fn retry_backoff_doubles_and_caps() {
    let mut st = RetryState::new(5, 3000);
    assert_eq!(st.record_failure(), RetryDecision::RetryAfter(3000));
    assert_eq!(st.record_failure(), RetryDecision::RetryAfter(6000));
    assert_eq!(st.record_failure(), RetryDecision::RetryAfter(10_000));
    assert_eq!(st.record_failure(), RetryDecision::RetryAfter(10_000));
    assert_eq!(st.record_failure(), RetryDecision::GiveUp);
}

#[test]
fn retry_always_attempts_once() {
    let mut st = RetryState::new(0, 1000);
    assert_eq!(st.record_failure(), RetryDecision::GiveUp);
    let mut st = RetryState::new(1, 1000);
    assert_eq!(st.record_failure(), RetryDecision::GiveUp);
}

#[test]
fn prober_messages_and_options() {
    assert_eq!(missing_file_message("/x/a.mkv"), "File does not exist: /x/a.mkv");
    assert_eq!(probe_spawn_message("denied"), "Failed to execute ffprobe: denied");
    assert_eq!(
        probe_parse_message("/x/a.mkv", "EOF"),
        "Failed to parse ffprobe JSON for /x/a.mkv: EOF"
    );
    assert_eq!(probe_options(), vec!["-v", "error", "-show_streams", "-show_format", "-of", "json"]);
}
