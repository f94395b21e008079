use audio_fixer::scanner::{
    default_extensions, is_any_video_extension, known_video_extensions, is_matching_extension, normalize_extensions,
    path_extension, path_file_stem, select_video_files, ScanInput, WalkEntry,
};

#[test]
fn test_is_matching_extension() {
    let mut exts = Vec::new();
    exts.push("mp4".to_string());
    exts.push("mkv".to_string());

    assert!(is_matching_extension("video.mp4", &exts));
    assert!(is_matching_extension("movie.MKV", &exts));
    assert!(!is_matching_extension("audio.mp3", &exts));
    assert!(!is_matching_extension("file_without_ext", &exts));
}

#[test]
fn default_video_extensions() {
    let k = known_video_extensions();
    assert_eq!(k.len(), 14);
    assert_eq!(k[0], "avi");
    assert_eq!(k[13], "vob");
    let d = default_extensions();
    assert_eq!(d.len(), 10);
    assert_eq!(d[0], "avi");
    assert_eq!(d[9], "mts");
    assert!(is_any_video_extension("/x/clip.M2TS"));
    assert!(!is_any_video_extension("/x/notes.txt"));
}

#[test]
fn extensions_follow_path_rules() {
    assert_eq!(path_extension("/a/b/movie.tar.mkv").as_deref(), Some("mkv"));
    assert_eq!(path_extension("/a/.hidden"), None);
    assert_eq!(path_extension("/a/b/"), None);
    assert_eq!(path_extension("/a/trailing."), Some(String::new()));
    assert_eq!(path_file_stem("/a/b/movie.tar.mkv").as_deref(), Some("movie.tar"));
    assert_eq!(path_file_stem("/a/.hidden").as_deref(), Some(".hidden"));
    assert_eq!(path_file_stem("/"), None);
}

#[test]
fn requested_extensions_are_normalised() {
    let n = normalize_extensions(&vec![".MKV".to_string(), "..Avi".to_string(), "mp4".to_string()]);
    assert_eq!(n, vec!["mkv".to_string(), "avi".to_string(), "mp4".to_string()]);
}

#[test]
fn selection_filters_sorts_and_dedups() {
    let inputs = vec![
        ScanInput::Directory(vec![
            WalkEntry { path: "/d".to_string(), is_file: false },
            WalkEntry { path: "/d/b.mkv".to_string(), is_file: true },
            WalkEntry { path: "/d/a.avi".to_string(), is_file: true },
            WalkEntry { path: "/d/c.txt".to_string(), is_file: true },
            WalkEntry { path: "/d/sub.mkv".to_string(), is_file: false },
        ]),
        ScanInput::File("/d//a.avi".to_string()),
        ScanInput::File("/e/single.mov".to_string()),
        ScanInput::File("/e/readme.md".to_string()),
        ScanInput::Other,
    ];
    let exts = vec!["avi".to_string(), "mkv".to_string()];
    let files = select_video_files(&inputs, &exts);
    assert_eq!(
        files,
        vec!["/d/a.avi".to_string(), "/d/b.mkv".to_string(), "/e/single.mov".to_string()]
    );
}

#[test]
fn selection_orders_by_components() {
    let inputs = vec![ScanInput::File("/a-b.mkv".to_string()), ScanInput::File("/a/b.mkv".to_string())];
    let files = select_video_files(&inputs, &vec!["mkv".to_string()]);
    assert_eq!(files, vec!["/a/b.mkv".to_string(), "/a-b.mkv".to_string()]);
}

#[test]
fn selection_ignores_input_order_and_repeats() {
    let a = ScanInput::File("/m/b.mkv".to_string());
    let b = ScanInput::File("/m/a.avi".to_string());
    let exts = vec!["avi".to_string(), "mkv".to_string()];
    let one = select_video_files(&vec![a.clone(), b.clone()], &exts);
    let two = select_video_files(&vec![b.clone(), a.clone(), b.clone()], &exts);
    assert_eq!(one, two);
    assert_eq!(one, vec!["/m/a.avi".to_string(), "/m/b.mkv".to_string()]);
}
