use audio_fixer::cli::{
    assign_output_paths, candidate_binary_paths, next_binary_choice, BinaryChoice, compute_output_path, decide_file_action,
    dependency_error_message, effective_extensions, effective_run_flags, is_mp4_file,
    outcome_of_conversion, removes_source_of_skipped, worker_args, ConversionReason, FileAction,
    FileOutcome, RunFlags, RunTally,
};
use audio_fixer::paths::{compare_paths, same_path, Order};

#[test]
fn test_compute_output_path_avi_to_mp4() {
    let out = compute_output_path("/path/to/movie.avi", None, "", false);
    assert_eq!(out, "/path/to/movie.mp4");
}

#[test]
fn test_compute_output_path_mkv_with_output_dir() {
    let out = compute_output_path("/path/to/movie.mkv", Some("/output/folder"), "", false);
    assert_eq!(out, "/output/folder/movie.mp4");
}

#[test]
fn test_compute_output_path_mp4_default_suffix() {
    let out = compute_output_path("/path/to/movie.mp4", None, "", false);
    assert_eq!(out, "/path/to/movie_4.1.mp4");
}

#[test]
fn test_compute_output_path_custom_suffix() {
    let out = compute_output_path("/path/to/movie.mkv", None, "_converted", false);
    assert_eq!(out, "/path/to/movie_converted.mp4");
}

#[test]
fn output_path_edge_cases() {
    assert_eq!(compute_output_path("/path/to/MOVIE.MP4", None, "", true), "/path/to/MOVIE.mp4");
    assert_eq!(compute_output_path("clip.avi", None, "", false), "clip.mp4");
    assert_eq!(compute_output_path("/", None, "", false), "./output.mp4");
}

#[test]
fn file_actions() {
    assert_eq!(decide_file_action(true, false, false), FileAction::Convert(ConversionReason::SurroundAndContainer));
    assert_eq!(decide_file_action(true, true, false), FileAction::Convert(ConversionReason::SurroundDownmix));
    assert_eq!(decide_file_action(false, false, false), FileAction::Convert(ConversionReason::ContainerOnly));
    assert_eq!(decide_file_action(false, true, false), FileAction::SkipAlreadyMp4);
    assert_eq!(decide_file_action(true, false, true), FileAction::SkipConverted);
    assert_eq!(ConversionReason::SurroundDownmix.label(), "5.1 Surround Downmix");
}

#[test]
fn mp4_detection_ignores_ascii_case() {
    assert!(is_mp4_file("/x/a.MP4"));
    assert!(is_mp4_file("/x/a.mp4"));
    assert!(!is_mp4_file("/x/a.mkv"));
    assert!(!is_mp4_file("/x/mp4"));
}

#[test]
fn run_flags_in_place() {
    let f = effective_run_flags(false, true, false, false);
    assert!(f.delete_source && f.overwrite);
    let f = effective_run_flags(true, true, false, false);
    assert!(!f.delete_source && !f.overwrite);
    let f = effective_run_flags(true, false, true, true);
    assert!(f.delete_source && f.overwrite);
}

#[test]
fn extensions_default_when_empty() {
    let d = effective_extensions(&vec![]);
    let expected: Vec<String> = ["avi", "mkv", "mp4", "mov", "wmv", "flv", "webm", "m4v", "ts", "mts"]
        .iter()
        .map(|s| s.to_string())
        .collect();
    assert_eq!(d, expected);
    assert_eq!(effective_extensions(&vec!["avi".to_string()]), vec!["avi".to_string()]);
}

#[test]
fn worker_arguments_drop_detach() {
    let args: Vec<String> = ["audio-fixer", "-d", "-l", "/tmp/x.log", "--detach", "/m.mkv"]
        .iter()
        .map(|s| s.to_string())
        .collect();
    let expected: Vec<String> = ["-l", "/tmp/x.log", "/m.mkv", "--no-detach-internal"]
        .iter()
        .map(|s| s.to_string())
        .collect();
    assert_eq!(worker_args(&args), expected);
    assert_eq!(worker_args(&vec![]), Vec::<String>::new());
}

#[test]
fn binary_candidates_and_message() {
    assert_eq!(
        candidate_binary_paths("ffmpeg"),
        vec!["/opt/homebrew/bin/ffmpeg".to_string(), "/usr/local/bin/ffmpeg".to_string(), "/usr/bin/ffmpeg".to_string()]
    );
    assert_eq!(
        dependency_error_message("ffprobe", "ffprobe"),
        "Required dependency 'ffprobe' was not found or failed to run using command 'ffprobe'. Please ensure ffprobe is installed and accessible."
    );
}

#[test]
fn tally_counts() {
    let mut t = RunTally::new();
    t.note_surround();
    t.record(FileOutcome::Converted);
    t.record(FileOutcome::Skipped);
    t.record(FileOutcome::Failed);
    t.record(FileOutcome::Converted);
    assert_eq!((t.surround, t.converted, t.skipped, t.failed, t.finished), (1, 2, 1, 1, 4));
}

#[test]
fn path_comparison_by_components() {
    assert_eq!(compare_paths("/a/b", "/a-b"), Order::Less);
    assert_eq!(compare_paths("/a-b", "/a/b"), Order::Greater);
    assert_eq!(compare_paths("a//b/", "a/b"), Order::Equal);
    assert!(same_path("/x/./y", "/x/y"));
    assert!(!same_path("/x/../y", "/y"));
}

fn strings(v: &[&str]) -> Vec<String> {
    v.iter().map(|s| s.to_string()).collect()
}

#[test]
fn colliding_outputs_get_distinct_names() {
    let files = strings(&["/d/sample_5.1.avi", "/d/sample_5.1.mkv", "/d/sample_2.0.mkv", "/d/sample_2.0.mp4"]);
    let outs = assign_output_paths(&files, Some("/d/converted"), "", false);
    assert_eq!(
        outs,
        strings(&[
            "/d/converted/sample_5.1.mp4",
            "/d/converted/sample_5.1_mkv.mp4",
            "/d/converted/sample_2.0.mp4",
            "/d/converted/sample_2.0_4.1.mp4",
        ])
    );
}

#[test]
fn repeated_collisions_are_numbered() {
    let files = strings(&["/a/x.avi", "/b/x.avi", "/c/x.avi", "/d/x.MKV"]);
    let outs = assign_output_paths(&files, Some("/out"), "_s", true);
    assert_eq!(
        outs,
        strings(&["/out/x_s.mp4", "/out/x_avi_s.mp4", "/out/x_avi_2_s.mp4", "/out/x_mkv_s.mp4"])
    );
}

#[test]
fn outputs_in_different_directories_do_not_collide() {
    let files = strings(&["/a/x.avi", "/b/x.mkv", "/a/x.MKV"]);
    let outs = assign_output_paths(&files, None, "", false);
    assert_eq!(outs, strings(&["/a/x.mp4", "/b/x.mp4", "/a/x_mkv.mp4"]));
    assert_eq!(assign_output_paths(&vec![], None, "", false), Vec::<String>::new());
}

#[test]
fn dry_run_counts_as_converted() {
    assert_eq!(outcome_of_conversion(true, false), FileOutcome::Converted);
    assert_eq!(outcome_of_conversion(false, true), FileOutcome::Converted);
    assert_eq!(outcome_of_conversion(false, false), FileOutcome::Failed);
}

#[test]
fn skipped_source_removed_only_when_deleting() {
    let del = RunFlags { delete_source: true, overwrite: false };
    let keep = RunFlags { delete_source: false, overwrite: true };
    assert!(removes_source_of_skipped(del, true));
    assert!(!removes_source_of_skipped(del, false));
    assert!(!removes_source_of_skipped(keep, true));
}

#[test]
fn binary_search_order() {
    assert_eq!(next_binary_choice("ffmpeg", 0, false), BinaryChoice::Try("ffmpeg".to_string()));
    assert_eq!(next_binary_choice("ffmpeg", 1, true), BinaryChoice::Use("ffmpeg".to_string()));
    assert_eq!(next_binary_choice("ffmpeg", 1, false), BinaryChoice::Try("/opt/homebrew/bin/ffmpeg".to_string()));
    assert_eq!(next_binary_choice("ffmpeg", 3, false), BinaryChoice::Try("/usr/bin/ffmpeg".to_string()));
    assert_eq!(next_binary_choice("ffmpeg", 3, true), BinaryChoice::Use("/usr/local/bin/ffmpeg".to_string()));
    assert_eq!(next_binary_choice("ffmpeg", 4, false), BinaryChoice::Use("ffmpeg".to_string()));
}
