use vstd::prelude::*;
use crate::paths::{
    compare_paths, contains_path, lemma_components_order_props, lemma_components_order_trans, path_file_name,
    path_order, spec_components, spec_file_name, Order,
};
use crate::text::{opt_chars, spec_to_lowercase, str_equal, to_lowercase};
use crate::ffmpeg::strings_view;

verus! {

// ---------------------------------------------------------------------------
// Extensions
// ---------------------------------------------------------------------------

/// Every extension recognised as video for a file given directly.
pub open spec fn video_extension_list() -> Seq<Seq<char>> {
    seq![
        "avi"@, "mkv"@, "mp4"@, "mov"@, "wmv"@, "flv"@, "webm"@, "m4v"@, "ts"@, "mts"@, "m2ts"@,
        "3gp"@, "divx"@, "vob"@,
    ]
}

/// Every extension recognised as video for a file given directly.
pub fn known_video_extensions() -> (exts: Vec<String>)
    ensures
        strings_view(exts@) == video_extension_list(),
{
    let mut exts: Vec<String> = Vec::new();
    exts.push(String::from_str("avi"));
    exts.push(String::from_str("mkv"));
    exts.push(String::from_str("mp4"));
    exts.push(String::from_str("mov"));
    exts.push(String::from_str("wmv"));
    exts.push(String::from_str("flv"));
    exts.push(String::from_str("webm"));
    exts.push(String::from_str("m4v"));
    exts.push(String::from_str("ts"));
    exts.push(String::from_str("mts"));
    exts.push(String::from_str("m2ts"));
    exts.push(String::from_str("3gp"));
    exts.push(String::from_str("divx"));
    exts.push(String::from_str("vob"));
    proof {
        assert(strings_view(exts@) =~= video_extension_list());
    }
    exts
}

/// The extensions scanned when none are requested.
pub open spec fn default_extension_list() -> Seq<Seq<char>> {
    seq!["avi"@, "mkv"@, "mp4"@, "mov"@, "wmv"@, "flv"@, "webm"@, "m4v"@, "ts"@, "mts"@]
}

/// The extensions scanned when none are requested.
pub fn default_extensions() -> (exts: Vec<String>)
    ensures
        strings_view(exts@) == default_extension_list(),
{
    let mut exts: Vec<String> = Vec::new();
    exts.push(String::from_str("avi"));
    exts.push(String::from_str("mkv"));
    exts.push(String::from_str("mp4"));
    exts.push(String::from_str("mov"));
    exts.push(String::from_str("wmv"));
    exts.push(String::from_str("flv"));
    exts.push(String::from_str("webm"));
    exts.push(String::from_str("m4v"));
    exts.push(String::from_str("ts"));
    exts.push(String::from_str("mts"));
    proof {
        assert(strings_view(exts@) =~= default_extension_list());
    }
    exts
}

/// Position of the last `.` in `s`, if any.
pub open spec fn last_dot(s: Seq<char>) -> Option<int>
    decreases s.len(),
{
    if s.len() == 0 {
        None
    } else if s.last() == '.' {
        Some(s.len() - 1)
    } else {
        last_dot(s.drop_last())
    }
}

/// The extension of a file name, as `Path::extension` documents it: the
/// part after the final `.`, unless there is no `.` or the only `.` opens
/// the name.
pub open spec fn name_extension(name: Seq<char>) -> Option<Seq<char>> {
    match last_dot(name) {
        Some(k) => if k == 0 { None } else { Some(name.subrange(k + 1, name.len() as int)) },
        None => None,
    }
}

/// The stem of a file name, as `Path::file_stem` documents it: the part
/// before the final `.`, or the whole name when it has no extension.
pub open spec fn name_stem(name: Seq<char>) -> Seq<char> {
    match last_dot(name) {
        Some(k) => if k == 0 { name } else { name.subrange(0, k) },
        None => name,
    }
}

/// The extension of the path `p`.
pub open spec fn path_extension_spec(p: Seq<char>) -> Option<Seq<char>> {
    match spec_file_name(p) {
        Some(n) => name_extension(n),
        None => None,
    }
}

/// The stem of the file name of the path `p`.
pub open spec fn path_stem_spec(p: Seq<char>) -> Option<Seq<char>> {
    match spec_file_name(p) {
        Some(n) => Some(name_stem(n)),
        None => None,
    }
}

fn find_last_dot(name: &str) -> (k: Option<usize>)
    ensures
        match k {
            Some(k) => last_dot(name@) == Some(k as int) && k < name@.len(),
            None => last_dot(name@) is None,
        },
{
    let n = name.unicode_len();
    let mut i: usize = n;
    proof {
        assert(name@.take(n as int) =~= name@);
    }
    while i > 0
        invariant
            n == name@.len(),
            0 <= i <= n,
            last_dot(name@) == last_dot(name@.take(i as int)),
        decreases i,
    {
        proof {
            assert(name@.take(i as int).drop_last() =~= name@.take(i - 1));
        }
        if name.get_char(i - 1) == '.' {
            return Some(i - 1);
        }
        i = i - 1;
    }
    None
}

/// Splits a file name into stem and extension.
fn split_name(name: &str) -> (parts: (String, Option<String>))
    ensures
        parts.0@ == name_stem(name@),
        opt_chars(parts.1) == name_extension(name@),
{
    let n = name.unicode_len();
    match find_last_dot(name) {
        Some(k) => {
            if k == 0 {
                (String::from_str(name), None)
            } else {
                let stem = name.substring_char(0, k);
                let ext = name.substring_char(k + 1, n);
                (String::from_str(stem), Some(String::from_str(ext)))
            }
        },
        None => (String::from_str(name), None),
    }
}

/// The extension of `path`, if its file name has one.
pub fn path_extension(path: &str) -> (ext: Option<String>)
    ensures
        opt_chars(ext) == path_extension_spec(path@),
{
    match path_file_name(path) {
        Some(n) => split_name(n.as_str()).1,
        None => None,
    }
}

/// The stem of the file name of `path`, if it has a file name.
pub fn path_file_stem(path: &str) -> (stem: Option<String>)
    ensures
        opt_chars(stem) == path_stem_spec(path@),
{
    match path_file_name(path) {
        Some(n) => Some(split_name(n.as_str()).0),
        None => None,
    }
}

/// `s` without its leading dots.
pub open spec fn without_leading_dots(s: Seq<char>) -> Seq<char>
    decreases s.len(),
{
    if s.len() > 0 && s[0] == '.' { without_leading_dots(s.drop_first()) } else { s }
}

/// The form in which a requested extension is matched: leading dots
/// dropped, then lower-cased.
pub open spec fn normalized_extension(e: Seq<char>) -> Seq<char> {
    spec_to_lowercase(without_leading_dots(e))
}

fn strip_leading_dots(s: &str) -> (t: String)
    ensures
        t@ == without_leading_dots(s@),
{
    let n = s.unicode_len();
    let mut i: usize = 0;
    proof {
        assert(s@.skip(0) =~= s@);
    }
    while i < n && s.get_char(i) == '.'
        invariant
            n == s@.len(),
            0 <= i <= n,
            without_leading_dots(s@) == without_leading_dots(s@.skip(i as int)),
        decreases n - i,
    {
        proof {
            assert(s@.skip(i as int).drop_first() =~= s@.skip(i + 1));
        }
        i = i + 1;
    }
    proof {
        assert(s@.subrange(i as int, n as int) =~= s@.skip(i as int));
    }
    String::from_str(s.substring_char(i, n))
}

/// Normalises a list of requested extensions (".MKV" matches as "mkv").
pub fn normalize_extensions(extensions: &Vec<String>) -> (valid: Vec<String>)
    ensures
        strings_view(valid@) == strings_view(extensions@).map_values(|e: Seq<char>| normalized_extension(e)),
{
    let mut valid: Vec<String> = Vec::new();
    let n = extensions.len();
    let mut i: usize = 0;
    while i < n
        invariant
            n == extensions@.len(),
            0 <= i <= n,
            strings_view(valid@) == strings_view(extensions@.take(i as int)).map_values(|e: Seq<char>| normalized_extension(e)),
        decreases n - i,
    {
        let stripped = strip_leading_dots(extensions[i].as_str());
        let e = to_lowercase(stripped.as_str());
        let ghost before = valid@;
        let ghost ev = e@;
        valid.push(e);
        proof {
            assert(ev == normalized_extension(extensions@[i as int]@));
            assert(strings_view(valid@) =~= strings_view(before).push(ev));
            assert(strings_view(extensions@.take(i + 1)) =~= strings_view(extensions@.take(i as int)).push(extensions@[i as int]@));
            assert(strings_view(valid@) =~= strings_view(extensions@.take(i + 1)).map_values(|e: Seq<char>| normalized_extension(e)));
        }
        i = i + 1;
    }
    proof {
        assert(extensions@.take(n as int) =~= extensions@);
    }
    valid
}

fn contains_string(list: &Vec<String>, s: &str) -> (found: bool)
    ensures
        found == strings_view(list@).contains(s@),
{
    let n = list.len();
    let mut i: usize = 0;
    while i < n
        invariant
            n == list@.len(),
            0 <= i <= n,
            forall|j: int| 0 <= j < i ==> list@[j]@ != s@,
        decreases n - i,
    {
        if str_equal(list[i].as_str(), s) {
            proof {
                assert(strings_view(list@)[i as int] == s@);
            }
            return true;
        }
        i = i + 1;
    }
    proof {
        if strings_view(list@).contains(s@) {
            let j = choose|j: int| 0 <= j < strings_view(list@).len() && strings_view(list@)[j] == s@;
            assert(list@[j]@ == s@);
        }
    }
    false
}

/// `p` has an extension whose lower-case form is in `valid`.
pub open spec fn matches_extension(p: Seq<char>, valid: Seq<Seq<char>>) -> bool {
    match path_extension_spec(p) {
        Some(e) => valid.contains(spec_to_lowercase(e)),
        None => false,
    }
}

/// Whether the extension of `path`, lower-cased, is one of `valid_exts`.
pub fn is_matching_extension(path: &str, valid_exts: &Vec<String>) -> (m: bool)
    ensures
        m == matches_extension(path@, strings_view(valid_exts@)),
{
    match path_extension(path) {
        Some(e) => {
            let lower = to_lowercase(e.as_str());
            contains_string(valid_exts, lower.as_str())
        },
        None => false,
    }
}

/// Whether the extension of `path`, lower-cased, is a default video extension.
pub fn is_any_video_extension(path: &str) -> (m: bool)
    ensures
        m == matches_extension(path@, video_extension_list()),
{
    let defaults = known_video_extensions();
    is_matching_extension(path, &defaults)
}

// ---------------------------------------------------------------------------
// Selecting the files to process
// ---------------------------------------------------------------------------

/// One entry met while walking an input directory.
#[derive(Debug, Clone)]
pub struct WalkEntry {
    pub path: String,
    pub is_file: bool,
}

/// What an input path turned out to be.
#[derive(Debug, Clone)]
pub enum ScanInput {
    /// A regular file.
    File(String),
    /// A directory, with the entries found by walking it (to the chosen depth).
    Directory(Vec<WalkEntry>),
    /// Neither (missing, or another kind of file).
    Other,
}

/// The entries of a directory walk that are files with a requested extension.
pub open spec fn dir_candidates(entries: Seq<WalkEntry>, valid: Seq<Seq<char>>) -> Seq<Seq<char>>
    decreases entries.len(),
{
    if entries.len() == 0 {
        Seq::empty()
    } else {
        let e = entries.last();
        dir_candidates(entries.drop_last(), valid) + if e.is_file && matches_extension(e.path@, valid) {
            seq![e.path@]
        } else {
            Seq::empty()
        }
    }
}

/// The files an input contributes: a file given directly is kept when its
/// extension is requested or is any default video extension; a directory
/// contributes its files with a requested extension.
pub open spec fn input_candidates(input: ScanInput, valid: Seq<Seq<char>>) -> Seq<Seq<char>> {
    match input {
        ScanInput::File(p) => if matches_extension(p@, valid) || matches_extension(p@, video_extension_list()) {
            seq![p@]
        } else {
            Seq::empty()
        },
        ScanInput::Directory(entries) => dir_candidates(entries@, valid),
        ScanInput::Other => Seq::empty(),
    }
}

/// The candidate files of all inputs, in input order.
pub open spec fn all_candidates(inputs: Seq<ScanInput>, valid: Seq<Seq<char>>) -> Seq<Seq<char>>
    decreases inputs.len(),
{
    if inputs.len() == 0 {
        Seq::empty()
    } else {
        all_candidates(inputs.drop_last(), valid) + input_candidates(inputs.last(), valid)
    }
}

/// `p` inserted into the sorted list `sorted` unless a path with the same
/// components is already there.
pub open spec fn insert_path(sorted: Seq<Seq<char>>, p: Seq<char>) -> Seq<Seq<char>>
    decreases sorted.len(),
{
    if sorted.len() == 0 {
        seq![p]
    } else {
        match path_order(sorted[0], p) {
            Order::Less => seq![sorted[0]] + insert_path(sorted.drop_first(), p),
            Order::Equal => sorted,
            Order::Greater => seq![p] + sorted,
        }
    }
}

/// The paths sorted component-wise, keeping the first of paths with equal
/// components (a stable sort followed by removal of adjacent duplicates).
pub open spec fn sorted_unique(paths: Seq<Seq<char>>) -> Seq<Seq<char>>
    decreases paths.len(),
{
    if paths.len() == 0 {
        Seq::empty()
    } else {
        insert_path(sorted_unique(paths.drop_last()), paths.last())
    }
}

/// The files to process for the given inputs and requested extensions.
pub open spec fn selected_files(inputs: Seq<ScanInput>, extensions: Seq<Seq<char>>) -> Seq<Seq<char>> {
    sorted_unique(all_candidates(inputs, extensions.map_values(|e: Seq<char>| normalized_extension(e))))
}

fn insert_sorted(sorted: &mut Vec<String>, p: String)
    ensures
        strings_view(final(sorted)@) == insert_path(strings_view(old(sorted)@), p@),
{
    let ghost orig = strings_view(sorted@);
    let n = sorted.len();
    let mut j: usize = 0;
    proof {
        assert(orig.take(0) + orig.skip(0) =~= orig);
        assert(orig.skip(0) =~= orig);
    }
    while j < n
        invariant
            n == sorted@.len(),
            orig == strings_view(sorted@),
            orig == strings_view(old(sorted)@),
            0 <= j <= n,
            insert_path(orig, p@) == orig.take(j as int) + insert_path(orig.skip(j as int), p@),
        decreases n - j,
    {
        let o = compare_paths(sorted[j].as_str(), p.as_str());
        proof {
            assert(orig.skip(j as int)[0] == sorted@[j as int]@);
            assert(orig.skip(j as int).drop_first() =~= orig.skip(j + 1));
        }
        proof {
            assert(orig.skip(j as int).len() > 0);
        }
        match o {
            Order::Less => {
                proof {
                    assert(insert_path(orig.skip(j as int), p@) == seq![orig.skip(j as int)[0]] + insert_path(orig.skip(j as int).drop_first(), p@));
                    assert(orig.take(j + 1) =~= orig.take(j as int) + seq![orig[j as int]]);
                }
                j = j + 1;
            },
            Order::Equal => {
                proof {
                    assert(insert_path(orig.skip(j as int), p@) == orig.skip(j as int));
                    assert(orig.take(j as int) + orig.skip(j as int) =~= orig);
                }
                return;
            },
            Order::Greater => {
                let ghost v = p@;
                proof {
                    assert(insert_path(orig.skip(j as int), p@) == seq![p@] + orig.skip(j as int));
                }
                sorted.insert(j, p);
                proof {
                    assert(strings_view(sorted@) =~= orig.take(j as int) + (seq![v] + orig.skip(j as int)));
                }
                return;
            },
        }
    }
    let ghost v = p@;
    sorted.push(p);
    proof {
        assert(orig.skip(n as int) =~= Seq::<Seq<char>>::empty());
        assert(orig.take(n as int) =~= orig);
        assert(strings_view(sorted@) =~= orig.push(v));
    }
}

/// Chooses the video files to process from what the inputs turned out to
/// be: directly given files with a requested or any default video
/// extension, and files with a requested extension found in directories;
/// the result is sorted by path components without duplicates.
pub fn select_video_files(inputs: &Vec<ScanInput>, extensions: &Vec<String>) -> (files: Vec<String>)
    ensures
        strings_view(files@) == selected_files(inputs@, strings_view(extensions@)),
{
    let valid = normalize_extensions(extensions);
    let ghost vv = strings_view(valid@);
    let mut files: Vec<String> = Vec::new();
    let ghost mut seen: Seq<Seq<char>> = Seq::empty();
    let n = inputs.len();
    let mut i: usize = 0;
    while i < n
        invariant
            n == inputs@.len(),
            0 <= i <= n,
            vv == strings_view(valid@),
            vv == strings_view(extensions@).map_values(|e: Seq<char>| normalized_extension(e)),
            seen == all_candidates(inputs@.take(i as int), vv),
            strings_view(files@) == sorted_unique(seen),
        decreases n - i,
    {
        proof {
            assert(inputs@.take(i + 1).drop_last() =~= inputs@.take(i as int));
            assert(inputs@.take(i + 1).last() == inputs@[i as int]);
        }
        match &inputs[i] {
            ScanInput::File(p) => {
                if is_matching_extension(p.as_str(), &valid) || is_any_video_extension(p.as_str()) {
                    insert_sorted(&mut files, p.clone());
                    proof {
                        assert(sorted_unique(seen.push(p@)) == insert_path(sorted_unique(seen), p@)) by {
                            assert(seen.push(p@).drop_last() =~= seen);
                        }
                        seen = seen.push(p@);
                        assert(seen =~= all_candidates(inputs@.take(i + 1), vv));
                    }
                } else {
                    proof {
                        assert(seen =~= all_candidates(inputs@.take(i + 1), vv));
                    }
                }
            },
            ScanInput::Directory(entries) => {
                let m = entries.len();
                let mut k: usize = 0;
                let ghost base = seen;
                while k < m
                    invariant
                        m == entries@.len(),
                        0 <= k <= m,
                        vv == strings_view(valid@),
                        seen == base + dir_candidates(entries@.take(k as int), vv),
                        strings_view(files@) == sorted_unique(seen),
                    decreases m - k,
                {
                    let e = &entries[k];
                    proof {
                        assert(entries@.take(k + 1).drop_last() =~= entries@.take(k as int));
                        assert(entries@.take(k + 1).last() == entries@[k as int]);
                    }
                    if e.is_file && is_matching_extension(e.path.as_str(), &valid) {
                        insert_sorted(&mut files, e.path.clone());
                        proof {
                            assert(sorted_unique(seen.push(e.path@)) == insert_path(sorted_unique(seen), e.path@)) by {
                                assert(seen.push(e.path@).drop_last() =~= seen);
                            }
                            seen = seen.push(e.path@);
                            assert(seen =~= base + dir_candidates(entries@.take(k + 1), vv));
                        }
                    } else {
                        proof {
                            assert(seen =~= base + dir_candidates(entries@.take(k + 1), vv));
                        }
                    }
                    k = k + 1;
                }
                proof {
                    assert(entries@.take(m as int) =~= entries@);
                    assert(seen =~= all_candidates(inputs@.take(i + 1), vv));
                }
            },
            ScanInput::Other => {
                proof {
                    assert(seen =~= all_candidates(inputs@.take(i + 1), vv));
                }
            },
        }
        i = i + 1;
    }
    proof {
        assert(inputs@.take(n as int) =~= inputs@);
    }
    files
}

/// Each path comes strictly before the next in path order.
pub open spec fn strictly_sorted(s: Seq<Seq<char>>) -> bool {
    forall|i: int, j: int| 0 <= i < j < s.len() ==> path_order(#[trigger] s[i], #[trigger] s[j]) == Order::Less
}

proof fn lemma_insert_path(sorted: Seq<Seq<char>>, p: Seq<char>)
    requires
        strictly_sorted(sorted),
    ensures
        strictly_sorted(insert_path(sorted, p)),
        forall|x: Seq<char>| #[trigger] insert_path(sorted, p).contains(x) ==> sorted.contains(x) || x == p,
        forall|x: Seq<char>| sorted.contains(x) ==> #[trigger] insert_path(sorted, p).contains(x),
        exists|i: int| 0 <= i < insert_path(sorted, p).len() && path_order(#[trigger] insert_path(sorted, p)[i], p) == Order::Equal,
    decreases sorted.len(),
{
    let r = insert_path(sorted, p);
    if sorted.len() == 0 {
        assert(r[0] == p);
        lemma_components_order_props(spec_components(p), spec_components(p));
    } else {
        let h = sorted[0];
        let t = sorted.drop_first();
        lemma_components_order_props(spec_components(h), spec_components(p));
        assert(strictly_sorted(t)) by {
            assert forall|i: int, j: int| 0 <= i < j < t.len() implies path_order(#[trigger] t[i], #[trigger] t[j]) == Order::Less by {
                assert(t[i] == sorted[i + 1] && t[j] == sorted[j + 1]);
            }
        }
        match path_order(h, p) {
            Order::Less => {
                lemma_insert_path(t, p);
                let rt = insert_path(t, p);
                assert(r == seq![h] + rt);
                assert forall|i: int, j: int| 0 <= i < j < r.len() implies path_order(#[trigger] r[i], #[trigger] r[j]) == Order::Less by {
                    if i == 0 {
                        assert(r[j] == rt[j - 1]);
                        assert(rt.contains(rt[j - 1]));
                        if rt[j - 1] == p {
                        } else {
                            let k = choose|k: int| 0 <= k < t.len() && t[k] == rt[j - 1];
                            assert(sorted[k + 1] == t[k]);
                            assert(path_order(sorted[0], sorted[k + 1]) == Order::Less);
                        }
                    } else {
                        assert(r[i] == rt[i - 1] && r[j] == rt[j - 1]);
                    }
                }
                assert forall|x: Seq<char>| #[trigger] r.contains(x) implies sorted.contains(x) || x == p by {
                    let k = choose|k: int| 0 <= k < r.len() && r[k] == x;
                    if k > 0 {
                        assert(rt[k - 1] == x);
                        assert(rt.contains(x));
                        if x != p {
                            let m = choose|m: int| 0 <= m < t.len() && t[m] == x;
                            assert(sorted[m + 1] == x);
                        }
                    } else {
                        assert(sorted[0] == x);
                    }
                }
                assert forall|x: Seq<char>| sorted.contains(x) implies #[trigger] r.contains(x) by {
                    let k = choose|k: int| 0 <= k < sorted.len() && sorted[k] == x;
                    if k == 0 {
                        assert(r[0] == x);
                    } else {
                        assert(t[k - 1] == x);
                        assert(t.contains(x));
                        assert(rt.contains(x));
                        let m = choose|m: int| 0 <= m < rt.len() && rt[m] == x;
                        assert(r[m + 1] == x);
                    }
                }
                let w = choose|i: int| 0 <= i < rt.len() && path_order(#[trigger] rt[i], p) == Order::Equal;
                assert(r[w + 1] == rt[w]);
            },
            Order::Equal => {
                assert(r == sorted);
                assert(r[0] == h);
            },
            Order::Greater => {
                assert(r == seq![p] + sorted);
                assert(r[0] == p);
                lemma_components_order_props(spec_components(p), spec_components(p));
                assert forall|i: int, j: int| 0 <= i < j < r.len() implies path_order(#[trigger] r[i], #[trigger] r[j]) == Order::Less by {
                    if i == 0 {
                        assert(r[j] == sorted[j - 1]);
                        if j > 1 {
                            assert(path_order(sorted[0], sorted[j - 1]) == Order::Less);
                            lemma_components_order_trans(spec_components(p), spec_components(h), spec_components(sorted[j - 1]), Order::Less);
                        }
                    } else {
                        assert(r[i] == sorted[i - 1] && r[j] == sorted[j - 1]);
                    }
                }
                assert forall|x: Seq<char>| #[trigger] r.contains(x) implies sorted.contains(x) || x == p by {
                    let k = choose|k: int| 0 <= k < r.len() && r[k] == x;
                    if k > 0 {
                        assert(sorted[k - 1] == x);
                    }
                }
                assert forall|x: Seq<char>| sorted.contains(x) implies #[trigger] r.contains(x) by {
                    let k = choose|k: int| 0 <= k < sorted.len() && sorted[k] == x;
                    assert(r[k + 1] == x);
                }
            },
        }
    }
}

/// The files chosen by a scan are strictly sorted by path components (so no
/// two of them name the same path), each is one of the candidates, and
/// every candidate is represented by a chosen path with the same components.
pub proof fn lemma_sorted_unique(paths: Seq<Seq<char>>)
    ensures
        strictly_sorted(sorted_unique(paths)),
        forall|x: Seq<char>| #[trigger] sorted_unique(paths).contains(x) ==> paths.contains(x),
        forall|i: int| 0 <= i < paths.len() ==> exists|j: int|
            0 <= j < sorted_unique(paths).len() && path_order(#[trigger] sorted_unique(paths)[j], #[trigger] paths[i]) == Order::Equal,
    decreases paths.len(),
{
    if paths.len() > 0 {
        let init = paths.drop_last();
        let prev = sorted_unique(init);
        let r = sorted_unique(paths);
        lemma_sorted_unique(init);
        lemma_insert_path(prev, paths.last());
        assert forall|x: Seq<char>| #[trigger] r.contains(x) implies paths.contains(x) by {
            if prev.contains(x) {
                assert(init.contains(x));
                let k = choose|k: int| 0 <= k < init.len() && init[k] == x;
                assert(paths[k] == x);
            } else {
                assert(paths[paths.len() - 1] == x);
            }
        }
        assert forall|i: int| 0 <= i < paths.len() implies exists|j: int|
            0 <= j < r.len() && path_order(#[trigger] r[j], #[trigger] paths[i]) == Order::Equal by {
            if i < paths.len() - 1 {
                assert(paths[i] == init[i]);
                let j = choose|j: int| 0 <= j < prev.len() && path_order(#[trigger] prev[j], #[trigger] init[i]) == Order::Equal;
                assert(prev.contains(prev[j]));
                assert(r.contains(prev[j]));
                let m = choose|m: int| 0 <= m < r.len() && r[m] == prev[j];
                assert(path_order(r[m], paths[i]) == Order::Equal);
            } else {
                let w = choose|w: int| 0 <= w < r.len() && path_order(#[trigger] r[w], paths.last()) == Order::Equal;
                assert(path_order(r[w], paths[i]) == Order::Equal);
            }
        }
    }
}


proof fn lemma_sorted_tail(s: Seq<Seq<char>>)
    requires
        strictly_sorted(s),
        s.len() > 0,
    ensures
        strictly_sorted(s.drop_first()),
{
    let t = s.drop_first();
    assert forall|i: int, j: int| 0 <= i < j < t.len() implies path_order(#[trigger] t[i], #[trigger] t[j]) == Order::Less by {
        assert(t[i] == s[i + 1] && t[j] == s[j + 1]);
    }
}

proof fn lemma_sorted_heads_agree(a: Seq<Seq<char>>, b: Seq<Seq<char>>)
    requires
        strictly_sorted(a),
        strictly_sorted(b),
        a.len() > 0,
        b.len() > 0,
        contains_path(b, a[0]),
        contains_path(a, b[0]),
    ensures
        spec_components(a[0]) == spec_components(b[0]),
{
    let ca = spec_components(a[0]);
    let cb = spec_components(b[0]);
    let j = choose|j: int| 0 <= j < b.len() && spec_components(#[trigger] b[j]) == ca;
    let i = choose|i: int| 0 <= i < a.len() && spec_components(#[trigger] a[i]) == cb;
    lemma_components_order_props(ca, cb);
    lemma_components_order_props(cb, cb);
    if j > 0 {
        assert(path_order(b[0], b[j]) == Order::Less);
        if i > 0 {
            assert(path_order(a[0], a[i]) == Order::Less);
        }
    }
}

proof fn lemma_sorted_tails_cover(a: Seq<Seq<char>>, b: Seq<Seq<char>>)
    requires
        strictly_sorted(a),
        a.len() > 0,
        b.len() > 0,
        spec_components(a[0]) == spec_components(b[0]),
        forall|i: int| 0 <= i < a.len() ==> contains_path(b, #[trigger] a[i]),
    ensures
        forall|p: int| 0 <= p < a.drop_first().len() ==> contains_path(b.drop_first(), #[trigger] a.drop_first()[p]),
{
    let a1 = a.drop_first();
    let b1 = b.drop_first();
    assert forall|p: int| 0 <= p < a1.len() implies contains_path(b1, #[trigger] a1[p]) by {
        assert(a1[p] == a[p + 1]);
        assert(contains_path(b, a[p + 1]));
        let q = choose|q: int| 0 <= q < b.len() && spec_components(#[trigger] b[q]) == spec_components(a[p + 1]);
        assert(path_order(a[0], a[p + 1]) == Order::Less);
        lemma_components_order_props(spec_components(a[0]), spec_components(a[p + 1]));
        assert(q != 0);
        assert(b1[q - 1] == b[q]);
    }
}

/// Two strictly sorted path lists, each of whose paths has one with the same
/// components in the other, agree position by position.
#[verifier::spinoff_prover]
#[verifier::rlimit(40)]
proof fn lemma_sorted_same_members(a: Seq<Seq<char>>, b: Seq<Seq<char>>)
    requires
        strictly_sorted(a),
        strictly_sorted(b),
        forall|i: int| 0 <= i < a.len() ==> contains_path(b, #[trigger] a[i]),
        forall|j: int| 0 <= j < b.len() ==> contains_path(a, #[trigger] b[j]),
    ensures
        a.len() == b.len(),
        forall|i: int| 0 <= i < a.len() ==> spec_components(#[trigger] a[i]) == spec_components(b[i]),
    decreases a.len() + b.len(),
{
    if a.len() == 0 {
        if b.len() > 0 {
            assert(contains_path(a, b[0]));
        }
    } else if b.len() == 0 {
        assert(contains_path(b, a[0]));
    } else {
        assert(contains_path(b, a[0]));
        assert(contains_path(a, b[0]));
        lemma_sorted_heads_agree(a, b);
        lemma_sorted_tail(a);
        lemma_sorted_tail(b);
        lemma_sorted_tails_cover(a, b);
        lemma_sorted_tails_cover(b, a);
        let a1 = a.drop_first();
        let b1 = b.drop_first();
        lemma_sorted_same_members(a1, b1);
        assert forall|p: int| 0 <= p < a.len() implies spec_components(#[trigger] a[p]) == spec_components(b[p]) by {
            if p > 0 {
                assert(a1[p - 1] == a[p] && b1[p - 1] == b[p]);
            }
        }
    }
}

/// A path is a candidate of a list of inputs exactly when it is a candidate
/// of one of them.
proof fn lemma_all_candidates_members(inputs: Seq<ScanInput>, valid: Seq<Seq<char>>, x: Seq<char>)
    ensures
        all_candidates(inputs, valid).contains(x) <==> exists|k: int|
            0 <= k < inputs.len() && input_candidates(#[trigger] inputs[k], valid).contains(x),
    decreases inputs.len(),
{
    if inputs.len() > 0 {
        let init = inputs.drop_last();
        let a = all_candidates(init, valid);
        let b = input_candidates(inputs.last(), valid);
        lemma_all_candidates_members(init, valid, x);
        assert(all_candidates(inputs, valid) == a + b);
        if (a + b).contains(x) {
            let m = choose|m: int| 0 <= m < (a + b).len() && (a + b)[m] == x;
            if m < a.len() {
                assert(a[m] == x);
                assert(a.contains(x));
                let k = choose|k: int| 0 <= k < init.len() && input_candidates(#[trigger] init[k], valid).contains(x);
                assert(inputs[k] == init[k]);
            } else {
                assert(b[m - a.len()] == x);
                assert(input_candidates(inputs[inputs.len() - 1], valid).contains(x));
            }
        }
        if exists|k: int| 0 <= k < inputs.len() && input_candidates(#[trigger] inputs[k], valid).contains(x) {
            let k = choose|k: int| 0 <= k < inputs.len() && input_candidates(#[trigger] inputs[k], valid).contains(x);
            if k < inputs.len() - 1 {
                assert(init[k] == inputs[k]);
                assert(a.contains(x));
                let m = choose|m: int| 0 <= m < a.len() && a[m] == x;
                assert((a + b)[m] == x);
            } else {
                assert(b.contains(x));
                let m = choose|m: int| 0 <= m < b.len() && b[m] == x;
                assert((a + b)[a.len() + m] == x);
            }
        }
    }
}

/// The files chosen depend only on which inputs were given, not on their
/// order or on inputs given more than once: lists of inputs holding the same
/// inputs give, position by position, paths with the same components.
pub proof fn lemma_selection_ignores_input_order(inputs1: Seq<ScanInput>, inputs2: Seq<ScanInput>, extensions: Seq<Seq<char>>)
    requires
        forall|x: ScanInput| inputs1.contains(x) <==> inputs2.contains(x),
    ensures
        selected_files(inputs1, extensions).len() == selected_files(inputs2, extensions).len(),
        forall|i: int| 0 <= i < selected_files(inputs1, extensions).len() ==> spec_components(
            #[trigger] selected_files(inputs1, extensions)[i],
        ) == spec_components(selected_files(inputs2, extensions)[i]),
{
    let v = extensions.map_values(|e: Seq<char>| normalized_extension(e));
    let p1 = all_candidates(inputs1, v);
    let p2 = all_candidates(inputs2, v);
    assert forall|x: Seq<char>| p1.contains(x) implies p2.contains(x) by {
        lemma_all_candidates_members(inputs1, v, x);
        lemma_all_candidates_members(inputs2, v, x);
        let k = choose|k: int| 0 <= k < inputs1.len() && input_candidates(#[trigger] inputs1[k], v).contains(x);
        assert(inputs1.contains(inputs1[k]));
        assert(inputs2.contains(inputs1[k]));
        let k2 = choose|k2: int| 0 <= k2 < inputs2.len() && inputs2[k2] == inputs1[k];
        assert(input_candidates(inputs2[k2], v).contains(x));
    }
    assert forall|x: Seq<char>| p2.contains(x) implies p1.contains(x) by {
        lemma_all_candidates_members(inputs1, v, x);
        lemma_all_candidates_members(inputs2, v, x);
        let k = choose|k: int| 0 <= k < inputs2.len() && input_candidates(#[trigger] inputs2[k], v).contains(x);
        assert(inputs2.contains(inputs2[k]));
        assert(inputs1.contains(inputs2[k]));
        let k1 = choose|k1: int| 0 <= k1 < inputs1.len() && inputs1[k1] == inputs2[k];
        assert(input_candidates(inputs1[k1], v).contains(x));
    }
    let s1 = sorted_unique(p1);
    let s2 = sorted_unique(p2);
    lemma_sorted_unique(p1);
    lemma_sorted_unique(p2);
    assert forall|i: int| 0 <= i < s1.len() implies contains_path(s2, #[trigger] s1[i]) by {
        assert(s1.contains(s1[i]));
        assert(p2.contains(s1[i]));
        let k = choose|k: int| 0 <= k < p2.len() && p2[k] == s1[i];
        let j = choose|j: int| 0 <= j < s2.len() && path_order(#[trigger] s2[j], #[trigger] p2[k]) == Order::Equal;
        lemma_components_order_props(spec_components(s2[j]), spec_components(p2[k]));
    }
    assert forall|j: int| 0 <= j < s2.len() implies contains_path(s1, #[trigger] s2[j]) by {
        assert(s2.contains(s2[j]));
        assert(p1.contains(s2[j]));
        let k = choose|k: int| 0 <= k < p1.len() && p1[k] == s2[j];
        let i = choose|i: int| 0 <= i < s1.len() && path_order(#[trigger] s1[i], #[trigger] p1[k]) == Order::Equal;
        lemma_components_order_props(spec_components(s1[i]), spec_components(p1[k]));
    }
    lemma_sorted_same_members(s1, s2);
}


/// A directory walk contributes exactly its file entries whose extension,
/// lower-cased, is one of `valid`.
proof fn lemma_dir_candidates_members(entries: Seq<WalkEntry>, valid: Seq<Seq<char>>, x: Seq<char>)
    ensures
        dir_candidates(entries, valid).contains(x) ==> exists|m: int|
            0 <= m < entries.len() && (#[trigger] entries[m]).is_file && entries[m].path@ == x && matches_extension(x, valid),
    decreases entries.len(),
{
    if entries.len() > 0 {
        let init = entries.drop_last();
        let e = entries.last();
        let a = dir_candidates(init, valid);
        let b: Seq<Seq<char>> = if e.is_file && matches_extension(e.path@, valid) { seq![e.path@] } else { Seq::empty() };
        assert(dir_candidates(entries, valid) == a + b);
        lemma_dir_candidates_members(init, valid, x);
        if (a + b).contains(x) {
            let j = choose|j: int| 0 <= j < (a + b).len() && (a + b)[j] == x;
            if j < a.len() {
                assert(a[j] == x);
                assert(a.contains(x));
                let m = choose|m: int| 0 <= m < init.len() && (#[trigger] init[m]).is_file && init[m].path@ == x && matches_extension(x, valid);
                assert(entries[m] == init[m]);
            } else {
                assert(b[j - a.len()] == x);
                assert(entries[entries.len() - 1] == e);
            }
        }
    }
}

/// Where each chosen file comes from: a file given directly, kept because
/// its lower-cased extension is requested or is a known video extension;
/// or a file entry of a walked directory whose lower-cased extension is one
/// of the requested extensions (normalised). Nothing else is chosen.
pub proof fn lemma_selected_files_origin(inputs: Seq<ScanInput>, extensions: Seq<Seq<char>>)
    ensures
        forall|j: int| 0 <= j < selected_files(inputs, extensions).len() ==> {
            let x = #[trigger] selected_files(inputs, extensions)[j];
            ||| exists|k: int| 0 <= k < inputs.len() && (#[trigger] inputs[k] matches ScanInput::File(p) && p@ == x
                && (path_extension_spec(x) matches Some(e) && (extensions.map_values(|r: Seq<char>| normalized_extension(r)).contains(
                    spec_to_lowercase(e),
                ) || video_extension_list().contains(spec_to_lowercase(e)))))
            ||| exists|k: int| 0 <= k < inputs.len() && (#[trigger] inputs[k] matches ScanInput::Directory(entries)
                && exists|m: int| 0 <= m < entries@.len() && (#[trigger] entries@[m]).is_file && entries@[m].path@ == x
                && (path_extension_spec(x) matches Some(e) && extensions.map_values(|r: Seq<char>| normalized_extension(r)).contains(
                    spec_to_lowercase(e),
                )))
        },
{
    let v = extensions.map_values(|r: Seq<char>| normalized_extension(r));
    let cands = all_candidates(inputs, v);
    let sel = selected_files(inputs, extensions);
    lemma_sorted_unique(cands);
    assert forall|j: int| 0 <= j < sel.len() implies {
        let x = #[trigger] sel[j];
        ||| exists|k: int| 0 <= k < inputs.len() && (#[trigger] inputs[k] matches ScanInput::File(p) && p@ == x
            && (path_extension_spec(x) matches Some(e) && (v.contains(spec_to_lowercase(e)) || video_extension_list().contains(
                spec_to_lowercase(e),
            ))))
        ||| exists|k: int| 0 <= k < inputs.len() && (#[trigger] inputs[k] matches ScanInput::Directory(entries)
            && exists|m: int| 0 <= m < entries@.len() && (#[trigger] entries@[m]).is_file && entries@[m].path@ == x
            && (path_extension_spec(x) matches Some(e) && v.contains(spec_to_lowercase(e))))
    } by {
        let x = sel[j];
        assert(sel.contains(x));
        assert(cands.contains(x));
        lemma_all_candidates_members(inputs, v, x);
        let k = choose|k: int| 0 <= k < inputs.len() && input_candidates(#[trigger] inputs[k], v).contains(x);
        match inputs[k] {
            ScanInput::File(p) => {
                assert(input_candidates(inputs[k], v).contains(x));
                let c = input_candidates(inputs[k], v);
                let q = choose|q: int| 0 <= q < c.len() && c[q] == x;
                assert(c.len() == 1 && c[0] == p@);
            },
            ScanInput::Directory(entries) => {
                lemma_dir_candidates_members(entries@, v, x);
            },
            ScanInput::Other => {
                assert(input_candidates(inputs[k], v).len() == 0);
            },
        }
    }
}


/// The lower-cased extension of `x` is one of the requested extensions,
/// normalised.
pub open spec fn has_requested_extension(x: Seq<char>, extensions: Seq<Seq<char>>) -> bool {
    path_extension_spec(x) matches Some(e) && extensions.map_values(|r: Seq<char>| normalized_extension(r)).contains(
        spec_to_lowercase(e),
    )
}

proof fn lemma_dir_candidates_complete(entries: Seq<WalkEntry>, valid: Seq<Seq<char>>, m: int)
    requires
        0 <= m < entries.len(),
        entries[m].is_file,
        matches_extension(entries[m].path@, valid),
    ensures
        dir_candidates(entries, valid).contains(entries[m].path@),
    decreases entries.len(),
{
    let init = entries.drop_last();
    let e = entries.last();
    let a = dir_candidates(init, valid);
    let b: Seq<Seq<char>> = if e.is_file && matches_extension(e.path@, valid) { seq![e.path@] } else { Seq::empty() };
    assert(dir_candidates(entries, valid) == a + b);
    if m < entries.len() - 1 {
        assert(init[m] == entries[m]);
        lemma_dir_candidates_complete(init, valid, m);
        let j = choose|j: int| 0 <= j < a.len() && a[j] == entries[m].path@;
        assert((a + b)[j] == entries[m].path@);
    } else {
        assert((a + b)[a.len() as int] == entries[m].path@);
    }
}

/// Nothing wanted is lost: a file given directly whose lower-cased
/// extension is requested (normalised) or is a known video extension, and a
/// file entry of a walked directory whose lower-cased extension is
/// requested, each has a chosen path with the same components.
pub proof fn lemma_selected_files_complete(inputs: Seq<ScanInput>, extensions: Seq<Seq<char>>, k: int)
    requires
        0 <= k < inputs.len(),
    ensures
        inputs[k] is File && (path_extension_spec(inputs[k]->File_0@) matches Some(e) && (extensions.map_values(
            |r: Seq<char>| normalized_extension(r),
        ).contains(spec_to_lowercase(e)) || video_extension_list().contains(spec_to_lowercase(e)))) ==> contains_path(
            selected_files(inputs, extensions),
            inputs[k]->File_0@,
        ),
        forall|m: int| #![trigger inputs[k]->Directory_0@[m]]
            inputs[k] is Directory && 0 <= m < inputs[k]->Directory_0@.len() && inputs[k]->Directory_0@[m].is_file
            && has_requested_extension(inputs[k]->Directory_0@[m].path@, extensions)
            ==> contains_path(selected_files(inputs, extensions), inputs[k]->Directory_0@[m].path@),
{
    let v = extensions.map_values(|r: Seq<char>| normalized_extension(r));
    let cands = all_candidates(inputs, v);
    let sel = selected_files(inputs, extensions);
    lemma_sorted_unique(cands);
    assert forall|x: Seq<char>| input_candidates(inputs[k], v).contains(x) implies contains_path(sel, x) by {
        lemma_all_candidates_members(inputs, v, x);
        let i = choose|i: int| 0 <= i < cands.len() && cands[i] == x;
        let j = choose|j: int| 0 <= j < sel.len() && path_order(#[trigger] sel[j], #[trigger] cands[i]) == Order::Equal;
        lemma_components_order_props(spec_components(sel[j]), spec_components(cands[i]));
    }
    match inputs[k] {
        ScanInput::File(p) => {
            if path_extension_spec(p@) matches Some(e) && (v.contains(spec_to_lowercase(e)) || video_extension_list().contains(
                spec_to_lowercase(e),
            )) {
                assert(input_candidates(inputs[k], v)[0] == p@);
            }
        },
        ScanInput::Directory(entries) => {
            assert forall|m: int| #![trigger inputs[k]->Directory_0@[m]]
                inputs[k] is Directory && 0 <= m < inputs[k]->Directory_0@.len() && inputs[k]->Directory_0@[m].is_file
                && has_requested_extension(inputs[k]->Directory_0@[m].path@, extensions)
                implies contains_path(sel, inputs[k]->Directory_0@[m].path@) by {
                assert(entries@[m] == inputs[k]->Directory_0@[m]);
                lemma_dir_candidates_complete(entries@, v, m);
                assert(input_candidates(inputs[k], v).contains(entries@[m].path@));
            }
        },
        ScanInput::Other => {},
    }
}

} // verus!
