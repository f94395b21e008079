use vstd::prelude::*;
use crate::ffmpeg::{strings_view, lemma_strings_view_push, lemma_strings_view_take};
use crate::paths::{
    contains_path, is_plain_base, is_plain_name, path_join, path_parent, same_path, spec_components, spec_join,
    spec_parent, ComponentView,
};
use crate::scanner::{
    default_extension_list, default_extensions, last_dot, name_extension, name_stem,
    path_extension, path_extension_spec, path_file_stem, path_stem_spec,
};
use crate::text::{
    decimal, lemma_decimal_digits, lemma_decimal_injective, push_decimal, eq_ignore_ascii_case, spec_to_lowercase, str_eq_ignore_ascii_case,
    str_equal, to_lowercase,
};

verus! {

// ---------------------------------------------------------------------------
// Output paths
// ---------------------------------------------------------------------------

/// The file name of the converted file: the input's stem, then the suffix
/// (or `_4.1` for an MP4 input converted without suffix or overwrite, so
/// that it does not replace its source), then `.mp4`.
pub open spec fn output_file_name(stem: Seq<char>, input_is_mp4: bool, suffix: Seq<char>, overwrite: bool) -> Seq<char> {
    if input_is_mp4 && suffix.len() == 0 && !overwrite {
        stem + "_4.1.mp4"@
    } else {
        stem + suffix + ".mp4"@
    }
}

/// The stem used for the output name ("output" when the input has none).
pub open spec fn output_stem(input: Seq<char>) -> Seq<char> {
    match path_stem_spec(input) {
        Some(s) => s,
        None => "output"@,
    }
}

/// The input's extension, lower-cased ("" when it has none).
pub open spec fn lower_extension(input: Seq<char>) -> Seq<char> {
    spec_to_lowercase(match path_extension_spec(input) {
        Some(e) => e,
        None => ""@,
    })
}

/// The input's extension lower-cased is "mp4".
pub open spec fn has_lowercase_mp4_extension(input: Seq<char>) -> bool {
    lower_extension(input) == "mp4"@
}

/// The directory the output goes to: the requested one, else the input's
/// parent, else ".".
pub open spec fn output_dir_for(input: Seq<char>, output_dir: Option<Seq<char>>) -> Seq<char> {
    match output_dir {
        Some(d) => d,
        None => match spec_parent(input) {
            Some(p) => p,
            None => "."@,
        },
    }
}

/// Where the converted version of `input` is written.
pub open spec fn output_path_for(input: Seq<char>, output_dir: Option<Seq<char>>, suffix: Seq<char>, overwrite: bool) -> Seq<char> {
    spec_join(
        output_dir_for(input, output_dir),
        output_file_name(output_stem(input), has_lowercase_mp4_extension(input), suffix, overwrite),
    )
}

/// Builds the output file name from the input's stem and lower-cased
/// extension.
pub fn build_output_file_name(stem: &str, input_ext_lower: &str, suffix: &str, overwrite: bool) -> (name: String)
    ensures
        name@ == output_file_name(stem@, input_ext_lower@ == "mp4"@, suffix@, overwrite),
{
    let is_mp4 = str_equal(input_ext_lower, "mp4");
    let mut name = String::from_str(stem);
    if is_mp4 && suffix.unicode_len() == 0 && !overwrite {
        name.append("_4.1.mp4");
    } else {
        name.append(suffix);
        name.append(".mp4");
    }
    name
}

/// The optional directory as text.
pub open spec fn opt_str(o: Option<&str>) -> Option<Seq<char>> {
    match o {
        Some(d) => Some(d@),
        None => None,
    }
}

fn output_stem_of(input: &str) -> (stem: String)
    ensures
        stem@ == output_stem(input@),
{
    match path_file_stem(input) {
        Some(s) => s,
        None => String::from_str("output"),
    }
}

fn lower_extension_of(input: &str) -> (ext: String)
    ensures
        ext@ == lower_extension(input@),
{
    let ext = match path_extension(input) {
        Some(e) => e,
        None => String::new(),
    };
    proof {
        reveal_strlit("");
        assert(ext@ == match path_extension_spec(input@) {
            Some(e) => e,
            None => ""@,
        });
    }
    to_lowercase(ext.as_str())
}

fn output_dir_of(input: &str, output_dir: Option<&str>) -> (dir: String)
    ensures
        dir@ == output_dir_for(input@, opt_str(output_dir)),
{
    match output_dir {
        Some(d) => String::from_str(d),
        None => match path_parent(input) {
            Some(p) => p,
            None => String::from_str("."),
        },
    }
}

/// Computes where the converted version of `input` is written.
pub fn compute_output_path(input: &str, output_dir: Option<&str>, suffix: &str, overwrite: bool) -> (out: String)
    ensures
        out@ == output_path_for(
            input@,
            match output_dir {
                Some(d) => Some(d@),
                None => None,
            },
            suffix@,
            overwrite,
        ),
{
    let file_stem = output_stem_of(input);
    let input_ext = lower_extension_of(input);
    let target_dir = output_dir_of(input, output_dir);
    let filename = build_output_file_name(file_stem.as_str(), input_ext.as_str(), suffix, overwrite);
    path_join(target_dir.as_str(), filename.as_str())
}

proof fn lemma_last_dot_props(s: Seq<char>)
    ensures
        last_dot(s) matches Some(k) ==> 0 <= k < s.len() && s[k] == '.',
    decreases s.len(),
{
    if s.len() > 0 && s.last() != '.' {
        lemma_last_dot_props(s.drop_last());
    }
}

/// Every output file name ends in ".mp4".
pub proof fn lemma_output_name_is_mp4(stem: Seq<char>, input_is_mp4: bool, suffix: Seq<char>, overwrite: bool)
    ensures
        ({
            let name = output_file_name(stem, input_is_mp4, suffix, overwrite);
            name.len() >= 4 && name.subrange(name.len() - 4, name.len() as int) == ".mp4"@
        }),
{
    let name = output_file_name(stem, input_is_mp4, suffix, overwrite);
    reveal_strlit("_4.1.mp4");
    reveal_strlit(".mp4");
    if input_is_mp4 && suffix.len() == 0 && !overwrite {
        assert(name.subrange(name.len() - 4, name.len() as int) =~= ".mp4"@) by {
            reveal_strlit("_4.1.mp4");
            reveal_strlit(".mp4");
        }
    } else {
        assert(name.subrange(name.len() - 4, name.len() as int) =~= ".mp4"@) by {
            reveal_strlit(".mp4");
        }
    }
}

/// A file name with an extension is its stem, a dot and the extension.
pub proof fn lemma_name_split(name: Seq<char>)
    requires
        name_extension(name) is Some,
    ensures
        name == name_stem(name) + seq!['.'] + name_extension(name)->0,
{
    lemma_last_dot_props(name);
    let k = last_dot(name)->0;
    assert(name =~= name.subrange(0, k) + seq!['.'] + name.subrange(k + 1, name.len() as int));
}

/// An MP4 converted with no suffix and without overwrite never gets its own
/// file name as output name, so the source is never written over.
pub proof fn lemma_mp4_output_keeps_source(name: Seq<char>, overwrite: bool)
    requires
        name_extension(name) is Some,
        !overwrite,
    ensures
        output_file_name(name_stem(name), true, Seq::empty(), overwrite) != name,
{
    lemma_name_split(name);
    let stem = name_stem(name);
    let out = output_file_name(stem, true, Seq::empty(), overwrite);
    reveal_strlit("_4.1.mp4");
    assert(out[stem.len() as int] == '_');
    assert(name[stem.len() as int] == '.');
}

// ---------------------------------------------------------------------------
// Distinct outputs within a run
// ---------------------------------------------------------------------------

/// `_` and the number, for alternatives after the first; nothing for the first.
pub open spec fn alternate_mark(m: nat) -> Seq<char> {
    if m <= 1 {
        Seq::empty()
    } else {
        "_"@ + decimal(m)
    }
}

/// Alternative file name number `m` (from 1) for an input whose usual output
/// is already taken in the run: the stem, `_`, the lower-cased extension,
/// for `m > 1` another `_` and `m`, then the suffix and `.mp4`.
pub open spec fn alternate_file_name(stem: Seq<char>, ext_lower: Seq<char>, suffix: Seq<char>, m: nat) -> Seq<char> {
    stem + "_"@ + ext_lower + alternate_mark(m) + suffix + ".mp4"@
}

/// Output candidate number `m` for `input`: 0 is its usual output path, the
/// others are its alternative names in the same directory.
pub open spec fn output_candidate(input: Seq<char>, output_dir: Option<Seq<char>>, suffix: Seq<char>, overwrite: bool, m: nat) -> Seq<char> {
    if m == 0 {
        output_path_for(input, output_dir, suffix, overwrite)
    } else {
        spec_join(
            output_dir_for(input, output_dir),
            alternate_file_name(output_stem(input), lower_extension(input), suffix, m),
        )
    }
}

/// The first candidate number from `m` on, below `limit`, whose path is not
/// taken by `outs`; `limit` when all of them are.
pub open spec fn first_free_candidate(
    input: Seq<char>,
    output_dir: Option<Seq<char>>,
    suffix: Seq<char>,
    overwrite: bool,
    outs: Seq<Seq<char>>,
    m: nat,
    limit: nat,
) -> nat
    decreases limit - m,
{
    if m >= limit {
        limit
    } else if !contains_path(outs, output_candidate(input, output_dir, suffix, overwrite, m)) {
        m
    } else {
        first_free_candidate(input, output_dir, suffix, overwrite, outs, m + 1, limit)
    }
}

/// The outputs of a run's inputs, in order: each input gets the first of its
/// candidates that no earlier input got, trying its usual path first and at
/// most one alternative more than there are earlier inputs.
pub open spec fn assigned_outputs(inputs: Seq<Seq<char>>, output_dir: Option<Seq<char>>, suffix: Seq<char>, overwrite: bool) -> Seq<Seq<char>>
    decreases inputs.len(),
{
    if inputs.len() == 0 {
        Seq::empty()
    } else {
        let prev = assigned_outputs(inputs.drop_last(), output_dir, suffix, overwrite);
        let input = inputs.last();
        prev.push(
            output_candidate(
                input,
                output_dir,
                suffix,
                overwrite,
                first_free_candidate(input, output_dir, suffix, overwrite, prev, 0, prev.len() + 1),
            ),
        )
    }
}

/// No separator and no colon (which opens a drive prefix).
pub open spec fn free_of_separators(s: Seq<char>) -> bool {
    forall|i: int| 0 <= i < s.len() ==> s[i] != '/' && s[i] != '\\' && s[i] != ':'
}

/// The alternatives of `input` are single plain names in a plain directory.
pub open spec fn has_plain_alternates(input: Seq<char>, output_dir: Option<Seq<char>>, suffix: Seq<char>) -> bool {
    &&& is_plain_base(output_dir_for(input, output_dir))
    &&& free_of_separators(output_stem(input))
    &&& free_of_separators(lower_extension(input))
    &&& free_of_separators(suffix)
}

proof fn lemma_free_concat(a: Seq<char>, b: Seq<char>)
    requires
        free_of_separators(a),
        free_of_separators(b),
    ensures
        free_of_separators(a + b),
{
    assert forall|i: int| 0 <= i < (a + b).len() implies (a + b)[i] != '/' && (a + b)[i] != '\\' && (a + b)[i] != ':' by {
        if i < a.len() {
            assert((a + b)[i] == a[i]);
        } else {
            assert((a + b)[i] == b[i - a.len()]);
        }
    }
}

proof fn lemma_alternate_name_plain(stem: Seq<char>, ext: Seq<char>, suffix: Seq<char>, m: nat)
    requires
        free_of_separators(stem),
        free_of_separators(ext),
        free_of_separators(suffix),
    ensures
        is_plain_name(alternate_file_name(stem, ext, suffix, m)),
{
    reveal_strlit("_");
    reveal_strlit(".mp4");
    reveal_strlit(".");
    reveal_strlit("..");
    lemma_decimal_digits(m);
    let d = decimal(m);
    assert(free_of_separators(d)) by {
        assert forall|i: int| 0 <= i < d.len() implies d[i] != '/' && d[i] != '\\' && d[i] != ':' by {
            assert('0' <= d[i] <= '9');
        }
    }
    assert(free_of_separators("_"@));
    assert(free_of_separators(".mp4"@));
    lemma_free_concat("_"@, d);
    assert(free_of_separators(alternate_mark(m)));
    lemma_free_concat(stem, "_"@);
    lemma_free_concat(stem + "_"@, ext);
    lemma_free_concat(stem + "_"@ + ext, alternate_mark(m));
    lemma_free_concat(stem + "_"@ + ext + alternate_mark(m), suffix);
    lemma_free_concat(stem + "_"@ + ext + alternate_mark(m) + suffix, ".mp4"@);
    let name = alternate_file_name(stem, ext, suffix, m);
    assert(name.len() >= 5);
}

/// Different alternative numbers give different names.
pub proof fn lemma_alternate_name_injective(stem: Seq<char>, ext: Seq<char>, suffix: Seq<char>, m1: nat, m2: nat)
    requires
        m1 >= 1,
        m2 >= 1,
        alternate_file_name(stem, ext, suffix, m1) == alternate_file_name(stem, ext, suffix, m2),
    ensures
        m1 == m2,
{
    reveal_strlit("_");
    let p = stem + "_"@ + ext;
    let t = suffix + ".mp4"@;
    let a = alternate_mark(m1);
    let b = alternate_mark(m2);
    assert(alternate_file_name(stem, ext, suffix, m1) =~= p + a + t);
    assert(alternate_file_name(stem, ext, suffix, m2) =~= p + b + t);
    lemma_decimal_digits(m1);
    lemma_decimal_digits(m2);
    assert(a.len() == b.len());
    assert(a =~= (p + a + t).subrange(p.len() as int, (p.len() + a.len()) as int));
    assert(b =~= (p + b + t).subrange(p.len() as int, (p.len() + b.len()) as int));
    if m1 >= 2 && m2 >= 2 {
        assert(decimal(m1) =~= a.skip(1));
        assert(decimal(m2) =~= b.skip(1));
        lemma_decimal_injective(m1, m2);
    }
}

/// Among more distinct values than `t` holds, one is not in `t`.
proof fn lemma_one_not_contained<A>(a: Seq<A>, t: Seq<A>)
    requires
        a.no_duplicates(),
        a.len() > t.len(),
    ensures
        exists|i: int| 0 <= i < a.len() && !t.contains(#[trigger] a[i]),
{
    broadcast use vstd::seq_lib::seq_to_set_is_finite;
    a.unique_seq_to_set();
    t.lemma_cardinality_of_set();
    if forall|i: int| 0 <= i < a.len() ==> t.contains(#[trigger] a[i]) {
        assert(a.to_set().subset_of(t.to_set())) by {
            assert forall|x: A| a.to_set().contains(x) implies t.to_set().contains(x) by {
                let i = choose|i: int| 0 <= i < a.len() && a[i] == x;
                assert(t.contains(a[i]));
            }
        }
        vstd::set_lib::lemma_len_subset(a.to_set(), t.to_set());
    }
}

/// With plain alternatives, one of the first `prev.len() + 1` alternatives of
/// `input` names components that no path of `prev` has.
proof fn lemma_some_alternate_free(
    input: Seq<char>,
    output_dir: Option<Seq<char>>,
    suffix: Seq<char>,
    overwrite: bool,
    prev: Seq<Seq<char>>,
)
    requires
        has_plain_alternates(input, output_dir, suffix),
        forall|q: nat| 1 <= q <= prev.len() + 1 ==> spec_components(#[trigger] output_candidate(input, output_dir, suffix, overwrite, q))
            == spec_components(output_dir_for(input, output_dir)).push(
                ComponentView::Normal(alternate_file_name(output_stem(input), lower_extension(input), suffix, q)),
            ),
    ensures
        exists|q: nat| 1 <= q <= prev.len() + 1 && !contains_path(prev, #[trigger] output_candidate(input, output_dir, suffix, overwrite, q)),
{
    let k = prev.len();
    let base = spec_components(output_dir_for(input, output_dir));
    let a = Seq::new(k + 1, |i: int| spec_components(output_candidate(input, output_dir, suffix, overwrite, (i + 1) as nat)));
    let t = prev.map_values(|p: Seq<char>| spec_components(p));
    assert forall|i: int, j: int| 0 <= i < a.len() && 0 <= j < a.len() && i != j implies a[i] != a[j] by {
        let ci = output_candidate(input, output_dir, suffix, overwrite, (i + 1) as nat);
        let cj = output_candidate(input, output_dir, suffix, overwrite, (j + 1) as nat);
        let ni = alternate_file_name(output_stem(input), lower_extension(input), suffix, (i + 1) as nat);
        let nj = alternate_file_name(output_stem(input), lower_extension(input), suffix, (j + 1) as nat);
        if a[i] == a[j] {
            assert(spec_components(ci) == base.push(ComponentView::Normal(ni)));
            assert(spec_components(cj) == base.push(ComponentView::Normal(nj)));
            assert(base.push(ComponentView::Normal(ni)).last() == base.push(ComponentView::Normal(nj)).last());
            lemma_alternate_name_injective(output_stem(input), lower_extension(input), suffix, (i + 1) as nat, (j + 1) as nat);
        }
    }
    lemma_one_not_contained(a, t);
    let i = choose|i: int| 0 <= i < a.len() && !t.contains(#[trigger] a[i]);
    let q = (i + 1) as nat;
    let c = output_candidate(input, output_dir, suffix, overwrite, q);
    if contains_path(prev, c) {
        let j = choose|j: int| 0 <= j < prev.len() && spec_components(#[trigger] prev[j]) == spec_components(c);
        assert(t[j] == a[i]);
    }
}

fn alternate_name_of(stem: &str, ext_lower: &str, suffix: &str, m: usize) -> (name: String)
    requires
        m >= 1,
    ensures
        name@ == alternate_file_name(stem@, ext_lower@, suffix@, m as nat),
{
    let mut name = String::from_str(stem);
    name.append("_");
    name.append(ext_lower);
    let ghost mid = name@;
    if m > 1 {
        name.append("_");
        push_decimal(&mut name, m as u64);
    }
    proof {
        reveal_strlit("_");
        assert(name@ =~= mid + alternate_mark(m as nat));
    }
    name.append(suffix);
    name.append(".mp4");
    name
}

fn output_candidate_of(input: &str, output_dir: Option<&str>, suffix: &str, overwrite: bool, m: usize) -> (c: String)
    ensures
        c@ == output_candidate(input@, opt_str(output_dir), suffix@, overwrite, m as nat),
        m >= 1 && has_plain_alternates(input@, opt_str(output_dir), suffix@) ==> spec_components(c@)
            == spec_components(output_dir_for(input@, opt_str(output_dir))).push(
                ComponentView::Normal(alternate_file_name(output_stem(input@), lower_extension(input@), suffix@, m as nat)),
            ),
{
    if m == 0 {
        compute_output_path(input, output_dir, suffix, overwrite)
    } else {
        let dir = output_dir_of(input, output_dir);
        let stem = output_stem_of(input);
        let ext = lower_extension_of(input);
        let name = alternate_name_of(stem.as_str(), ext.as_str(), suffix, m);
        proof {
            if has_plain_alternates(input@, opt_str(output_dir), suffix@) {
                lemma_alternate_name_plain(stem@, ext@, suffix@, m as nat);
            }
        }
        path_join(dir.as_str(), name.as_str())
    }
}

fn is_taken_by(outs: &Vec<String>, c: &str) -> (t: bool)
    ensures
        t == contains_path(strings_view(outs@), c@),
{
    let n = outs.len();
    let mut j: usize = 0;
    while j < n
        invariant
            n == outs@.len(),
            0 <= j <= n,
            forall|q: int| 0 <= q < j ==> spec_components(#[trigger] outs@[q]@) != spec_components(c@),
        decreases n - j,
    {
        if same_path(outs[j].as_str(), c) {
            proof {
                assert(strings_view(outs@)[j as int] == outs@[j as int]@);
            }
            return true;
        }
        j = j + 1;
    }
    proof {
        assert forall|q: int| 0 <= q < strings_view(outs@).len() implies spec_components(#[trigger] strings_view(outs@)[q]) != spec_components(c@) by {
            assert(strings_view(outs@)[q] == outs@[q]@);
        }
    }
    false
}

/// Gives each of a run's inputs, in order, its own output path: its usual
/// one, or, when an earlier input already got a path with the same
/// components, the first free of `<stem>_<ext>.mp4`, `<stem>_<ext>_2.mp4`,
/// ... (suffix before `.mp4`) in the same directory. When every input's
/// alternatives are plain names in a plain directory, no two outputs name
/// the same components.
pub fn assign_output_paths(files: &Vec<String>, output_dir: Option<&str>, suffix: &str, overwrite: bool) -> (outs: Vec<String>)
    ensures
        strings_view(outs@) == assigned_outputs(strings_view(files@), opt_str(output_dir), suffix@, overwrite),
        (forall|i: int| 0 <= i < files@.len() ==> has_plain_alternates(#[trigger] files@[i]@, opt_str(output_dir), suffix@))
            ==> forall|i: int, j: int| 0 <= i < j < outs@.len() ==> spec_components(#[trigger] outs@[i]@) != spec_components(#[trigger] outs@[j]@),
{
    let ghost od = opt_str(output_dir);
    let ghost fv = strings_view(files@);
    let ghost plain: bool = forall|i: int| 0 <= i < files@.len() ==> has_plain_alternates(#[trigger] files@[i]@, od, suffix@);
    let mut outs: Vec<String> = Vec::new();
    let n = files.len();
    let mut i: usize = 0;
    while i < n
        invariant
            n == files@.len(),
            0 <= i <= n,
            od == opt_str(output_dir),
            fv == strings_view(files@),
            plain == (forall|i: int| 0 <= i < files@.len() ==> has_plain_alternates(#[trigger] files@[i]@, od, suffix@)),
            outs@.len() == i,
            strings_view(outs@) == assigned_outputs(fv.take(i as int), od, suffix@, overwrite),
            plain ==> forall|p: int, q: int| 0 <= p < q < outs@.len() ==> spec_components(#[trigger] outs@[p]@) != spec_components(#[trigger] outs@[q]@),
        decreases n - i,
    {
        let input = files[i].as_str();
        let ghost prev = strings_view(outs@);
        let limit = i + 1;
        let mut m: usize = 0;
        let mut cand = output_candidate_of(input, output_dir, suffix, overwrite, 0);
        let mut taken = is_taken_by(&outs, cand.as_str());
        while m < limit && taken
            invariant
                prev == strings_view(outs@),
                prev.len() == i,
                limit == i + 1,
                od == opt_str(output_dir),
                m <= limit,
                cand@ == output_candidate(input@, od, suffix@, overwrite, m as nat),
                taken == contains_path(prev, cand@),
                first_free_candidate(input@, od, suffix@, overwrite, prev, 0, limit as nat)
                    == first_free_candidate(input@, od, suffix@, overwrite, prev, m as nat, limit as nat),
                forall|q: nat| q < m ==> contains_path(prev, #[trigger] output_candidate(input@, od, suffix@, overwrite, q)),
                forall|q: nat| 1 <= q <= m && has_plain_alternates(input@, od, suffix@) ==> spec_components(
                    #[trigger] output_candidate(input@, od, suffix@, overwrite, q),
                ) == spec_components(output_dir_for(input@, od)).push(
                    ComponentView::Normal(alternate_file_name(output_stem(input@), lower_extension(input@), suffix@, q)),
                ),
            decreases limit - m,
        {
            m = m + 1;
            cand = output_candidate_of(input, output_dir, suffix, overwrite, m);
            taken = is_taken_by(&outs, cand.as_str());
        }
        proof {
            assert(first_free_candidate(input@, od, suffix@, overwrite, prev, 0, limit as nat) == m);
            assert(input@ == fv.take(i + 1).last());
            assert(fv.take(i + 1).drop_last() =~= fv.take(i as int));
            if plain {
                assert(has_plain_alternates(files@[i as int]@, od, suffix@));
                if taken {
                    lemma_some_alternate_free(input@, od, suffix@, overwrite, prev);
                    let q = choose|q: nat| 1 <= q <= prev.len() + 1 && !contains_path(prev, #[trigger] output_candidate(input@, od, suffix@, overwrite, q));
                    assert(q < m || q == m);
                }
                assert(!contains_path(prev, cand@));
            }
        }
        let ghost before = outs@;
        let ghost cv = cand@;
        outs.push(cand);
        proof {
            lemma_strings_view_push(before, outs@[i as int]);
            assert(outs@[i as int]@ == cv);
            if plain {
                assert forall|p: int, q: int| 0 <= p < q < outs@.len() implies spec_components(#[trigger] outs@[p]@) != spec_components(#[trigger] outs@[q]@) by {
                    if q == i {
                        assert(prev[p] == outs@[p]@);
                    } else {
                        assert(outs@[p] == before[p] && outs@[q] == before[q]);
                    }
                }
            }
        }
        i = i + 1;
    }
    proof {
        assert(fv.take(n as int) =~= fv);
    }
    outs
}

// ---------------------------------------------------------------------------
// What happens to each file
// ---------------------------------------------------------------------------

/// Why a file is converted.
#[derive(Debug, Clone, Copy, PartialEq, Eq)]
pub enum ConversionReason {
    /// 5.1 audio in a container other than MP4.
    SurroundAndContainer,
    /// 5.1 audio in an MP4.
    SurroundDownmix,
    /// A container other than MP4, without 5.1 audio.
    ContainerOnly,
}

/// What to do with one scanned file.
#[derive(Debug, Clone, Copy, PartialEq, Eq)]
pub enum FileAction {
    /// The target already exists and holds converted media.
    SkipConverted,
    /// Convert the file.
    Convert(ConversionReason),
    /// Already an MP4 without 5.1 audio.
    SkipAlreadyMp4,
}

/// The action for a file with or without 5.1 audio, in MP4 or not, whose
/// distinct target does or does not already hold a converted file.
pub open spec fn file_action(has_5_1: bool, is_mp4: bool, target_converted: bool) -> FileAction {
    if target_converted {
        FileAction::SkipConverted
    } else if has_5_1 && !is_mp4 {
        FileAction::Convert(ConversionReason::SurroundAndContainer)
    } else if has_5_1 {
        FileAction::Convert(ConversionReason::SurroundDownmix)
    } else if !is_mp4 {
        FileAction::Convert(ConversionReason::ContainerOnly)
    } else {
        FileAction::SkipAlreadyMp4
    }
}

/// Decides what to do with a scanned file.
pub fn decide_file_action(has_5_1: bool, is_mp4: bool, target_converted: bool) -> (a: FileAction)
    ensures
        a == file_action(has_5_1, is_mp4, target_converted),
{
    if target_converted {
        FileAction::SkipConverted
    } else if has_5_1 && !is_mp4 {
        FileAction::Convert(ConversionReason::SurroundAndContainer)
    } else if has_5_1 {
        FileAction::Convert(ConversionReason::SurroundDownmix)
    } else if !is_mp4 {
        FileAction::Convert(ConversionReason::ContainerOnly)
    } else {
        FileAction::SkipAlreadyMp4
    }
}

/// A file is converted exactly when it has 5.1 audio or is not an MP4, and
/// its target does not already hold a converted file.
pub proof fn lemma_conversion_needed(has_5_1: bool, is_mp4: bool, target_converted: bool)
    ensures
        (file_action(has_5_1, is_mp4, target_converted) is Convert) == (!target_converted && (has_5_1 || !is_mp4)),
{
}

/// How a file taken up for conversion ends: a dry run counts as converted;
/// otherwise the conversion's success decides.
pub open spec fn conversion_outcome(dry_run: bool, success: bool) -> FileOutcome {
    if dry_run || success { FileOutcome::Converted } else { FileOutcome::Failed }
}

/// Works out how a file taken up for conversion ends.
pub fn outcome_of_conversion(dry_run: bool, success: bool) -> (o: FileOutcome)
    ensures
        o == conversion_outcome(dry_run, success),
{
    if dry_run || success { FileOutcome::Converted } else { FileOutcome::Failed }
}

/// Whether a source whose target already holds a converted file is removed:
/// when sources are removed in this run and the source still exists.
pub fn removes_source_of_skipped(flags: RunFlags, source_exists: bool) -> (del: bool)
    ensures
        del == (flags.delete_source && source_exists),
{
    flags.delete_source && source_exists
}

/// The label shown for a conversion reason.
pub open spec fn reason_label(r: ConversionReason) -> Seq<char> {
    match r {
        ConversionReason::SurroundAndContainer => "5.1 Surround & MP4 Conversion"@,
        ConversionReason::SurroundDownmix => "5.1 Surround Downmix"@,
        ConversionReason::ContainerOnly => "Container Conversion to MP4"@,
    }
}

impl ConversionReason {
    /// The label shown for this reason.
    pub fn label(&self) -> (l: String)
        ensures
            l@ == reason_label(*self),
    {
        match self {
            ConversionReason::SurroundAndContainer => String::from_str("5.1 Surround & MP4 Conversion"),
            ConversionReason::SurroundDownmix => String::from_str("5.1 Surround Downmix"),
            ConversionReason::ContainerOnly => String::from_str("Container Conversion to MP4"),
        }
    }
}

/// The file's extension is "mp4", ignoring ASCII case.
pub open spec fn is_mp4_path(p: Seq<char>) -> bool {
    match path_extension_spec(p) {
        Some(e) => eq_ignore_ascii_case(e, "mp4"@),
        None => false,
    }
}

/// Whether the file's extension is "mp4", ignoring ASCII case.
pub fn is_mp4_file(path: &str) -> (b: bool)
    ensures
        b == is_mp4_path(path@),
{
    match path_extension(path) {
        Some(e) => str_eq_ignore_ascii_case(e.as_str(), "mp4"),
        None => false,
    }
}

/// How a run treats sources and existing outputs.
#[derive(Debug, Clone, Copy, PartialEq, Eq)]
pub struct RunFlags {
    pub delete_source: bool,
    pub overwrite: bool,
}

/// Replacing in place (no output directory, in-place mode on) implies both
/// deleting the source and overwriting existing outputs.
pub open spec fn run_flags(has_output_dir: bool, in_place: bool, delete_source: bool, overwrite: bool) -> RunFlags {
    let replacing = !has_output_dir && in_place;
    RunFlags { delete_source: delete_source || replacing, overwrite: overwrite || replacing }
}

/// Works out how a run treats sources and existing outputs.
pub fn effective_run_flags(has_output_dir: bool, in_place: bool, delete_source: bool, overwrite: bool) -> (f: RunFlags)
    ensures
        f == run_flags(has_output_dir, in_place, delete_source, overwrite),
{
    let replacing = !has_output_dir && in_place;
    RunFlags { delete_source: delete_source || replacing, overwrite: overwrite || replacing }
}

/// The extensions scanned: the requested ones, or the defaults when none
/// are requested.
pub fn effective_extensions(requested: &Vec<String>) -> (exts: Vec<String>)
    ensures
        requested@.len() == 0 ==> strings_view(exts@) == default_extension_list(),
        requested@.len() > 0 ==> strings_view(exts@) == strings_view(requested@),
{
    if requested.len() == 0 {
        default_extensions()
    } else {
        let mut exts: Vec<String> = Vec::new();
        let n = requested.len();
        let mut i: usize = 0;
        while i < n
            invariant
                n == requested@.len(),
                0 <= i <= n,
                strings_view(exts@) == strings_view(requested@.take(i as int)),
            decreases n - i,
        {
            let ghost before = exts@;
            let e = String::from_str(requested[i].as_str());
            let ghost ev = e@;
            exts.push(e);
            proof {
                lemma_strings_view_push(before, e);
                lemma_strings_view_take(requested@, i as int);
                assert(strings_view(exts@) =~= strings_view(requested@.take(i + 1)));
            }
            i = i + 1;
        }
        proof {
            assert(requested@.take(n as int) =~= requested@);
        }
        exts
    }
}

// ---------------------------------------------------------------------------
// Counting a run
// ---------------------------------------------------------------------------

/// How one file ended.
#[derive(Debug, Clone, Copy, PartialEq, Eq)]
pub enum FileOutcome {
    Converted,
    Skipped,
    Failed,
}

/// Counters of a run.
#[derive(Debug, Clone, Copy, PartialEq, Eq)]
pub struct RunTally {
    /// Files found with 5.1 audio that were taken up for conversion.
    pub surround: u64,
    pub converted: u64,
    pub skipped: u64,
    pub failed: u64,
    /// Files finished so far.
    pub finished: u64,
}

/// Every finished file is counted exactly once as converted, skipped or failed.
pub open spec fn tally_consistent(t: RunTally) -> bool {
    t.finished == t.converted + t.skipped + t.failed
}

impl RunTally {
    /// An empty tally.
    pub fn new() -> (t: RunTally)
        ensures
            t == (RunTally { surround: 0, converted: 0, skipped: 0, failed: 0, finished: 0 }),
            tally_consistent(t),
    {
        RunTally { surround: 0, converted: 0, skipped: 0, failed: 0, finished: 0 }
    }

    /// Counts a file with 5.1 audio taken up for conversion.
    pub fn note_surround(&mut self)
        requires
            old(self).surround < u64::MAX,
        ensures
            *final(self) == (RunTally { surround: (old(self).surround + 1) as u64, ..*old(self) }),
    {
        self.surround = self.surround + 1;
    }

    /// Counts a finished file.
    pub fn record(&mut self, outcome: FileOutcome)
        requires
            old(self).finished < u64::MAX,
            tally_consistent(*old(self)),
        ensures
            tally_consistent(*final(self)),
            final(self).finished == old(self).finished + 1,
            final(self).surround == old(self).surround,
            final(self).converted == old(self).converted + (if outcome == FileOutcome::Converted { 1int } else { 0int }),
            final(self).skipped == old(self).skipped + (if outcome == FileOutcome::Skipped { 1int } else { 0int }),
            final(self).failed == old(self).failed + (if outcome == FileOutcome::Failed { 1int } else { 0int }),
    {
        match outcome {
            FileOutcome::Converted => self.converted = self.converted + 1,
            FileOutcome::Skipped => self.skipped = self.skipped + 1,
            FileOutcome::Failed => self.failed = self.failed + 1,
        }
        self.finished = self.finished + 1;
    }
}

// ---------------------------------------------------------------------------
// Detaching and dependencies
// ---------------------------------------------------------------------------

/// An argument that asks for detaching.
pub open spec fn is_detach_flag(a: Seq<char>) -> bool {
    a == "-d"@ || a == "--detach"@
}

/// The arguments of the background worker: the invocation's arguments
/// without detach flags, with the internal no-detach flag appended, minus
/// the first (the program).
pub open spec fn worker_args_spec(args: Seq<Seq<char>>) -> Seq<Seq<char>> {
    args.filter(|a: Seq<char>| !is_detach_flag(a)).push("--no-detach-internal"@).skip(1)
}

/// Builds the background worker's arguments from the invocation's arguments.
pub fn worker_args(args: &Vec<String>) -> (out: Vec<String>)
    ensures
        strings_view(out@) == worker_args_spec(strings_view(args@)),
{
    let ghost sv = strings_view(args@);
    let mut kept: Vec<String> = Vec::new();
    let n = args.len();
    let mut i: usize = 0;
    while i < n
        invariant
            n == args@.len(),
            sv == strings_view(args@),
            0 <= i <= n,
            strings_view(kept@) == sv.take(i as int).filter(|a: Seq<char>| !is_detach_flag(a)),
        decreases n - i,
    {
        let a = args[i].as_str();
        proof {
            assert(sv.take(i + 1).drop_last() =~= sv.take(i as int));
            assert(sv.take(i + 1).last() == args@[i as int]@);
            reveal_with_fuel(Seq::<_>::filter, 1);
        }
        if !(str_equal(a, "-d") || str_equal(a, "--detach")) {
            let ghost before = kept@;
            let s = String::from_str(a);
            let ghost v = s@;
            kept.push(s);
            proof {
                assert(strings_view(kept@) =~= strings_view(before).push(v));
            }
        }
        i = i + 1;
    }
    proof {
        assert(sv.take(n as int) =~= sv);
    }
    let ghost before = kept@;
    let flag = String::from_str("--no-detach-internal");
    let ghost fv = flag@;
    kept.push(flag);
    proof {
        assert(strings_view(kept@) =~= strings_view(before).push(fv));
    }
    let mut out: Vec<String> = Vec::new();
    let m = kept.len();
    let mut j: usize = 1;
    while j < m
        invariant
            m == kept@.len(),
            1 <= j <= m,
            strings_view(out@) == strings_view(kept@).subrange(1, j as int),
        decreases m - j,
    {
        let ghost before = out@;
        let s = String::from_str(kept[j].as_str());
        let ghost v = s@;
        out.push(s);
        proof {
            lemma_strings_view_push(before, s);
            assert(v == strings_view(kept@)[j as int]);
            assert(strings_view(out@) =~= strings_view(kept@).subrange(1, j + 1));
        }
        j = j + 1;
    }
    proof {
        assert(strings_view(out@) =~= strings_view(kept@).skip(1));
    }
    out
}

/// The background worker never receives a detach flag, so it cannot detach
/// again; when it receives arguments at all, the last is the internal
/// no-detach flag.
pub proof fn lemma_worker_never_detaches(args: Seq<Seq<char>>)
    ensures
        forall|i: int| 0 <= i < worker_args_spec(args).len() ==> !is_detach_flag(#[trigger] worker_args_spec(args)[i]),
        worker_args_spec(args).len() > 0 ==> worker_args_spec(args).last() == "--no-detach-internal"@,
{
    broadcast use vstd::seq_lib::group_filter_ensures;
    let kept = args.filter(|a: Seq<char>| !is_detach_flag(a));
    let flag = "--no-detach-internal"@;
    reveal_strlit("--no-detach-internal");
    reveal_strlit("-d");
    reveal_strlit("--detach");
    assert(flag.len() == 20 && ("-d"@).len() == 2 && "--detach"@.len() == 8);
    assert(!is_detach_flag(flag));
    let w = worker_args_spec(args);
    assert forall|i: int| 0 <= i < w.len() implies !is_detach_flag(#[trigger] w[i]) by {
        assert(w[i] == kept.push(flag)[i + 1]);
        if i + 1 < kept.len() {
            args.lemma_filter_pred(|a: Seq<char>| !is_detach_flag(a), i + 1);
        }
    }
}

/// The absolute locations tried for a program that does not run by name.
pub open spec fn binary_candidates(cmd: Seq<char>) -> Seq<Seq<char>> {
    seq!["/opt/homebrew/bin/"@ + cmd, "/usr/local/bin/"@ + cmd, "/usr/bin/"@ + cmd]
}

fn prefixed(prefix: &str, cmd: &str) -> (s: String)
    ensures
        s@ == prefix@ + cmd@,
{
    let mut s = String::from_str(prefix);
    s.append(cmd);
    s
}

/// The absolute locations tried, in order, for a program that does not run by name.
pub fn candidate_binary_paths(cmd: &str) -> (paths: Vec<String>)
    ensures
        strings_view(paths@) == binary_candidates(cmd@),
{
    let mut paths: Vec<String> = Vec::new();
    paths.push(prefixed("/opt/homebrew/bin/", cmd));
    paths.push(prefixed("/usr/local/bin/", cmd));
    paths.push(prefixed("/usr/bin/", cmd));
    proof {
        assert(strings_view(paths@) =~= binary_candidates(cmd@));
    }
    paths
}

/// The programs tried for `cmd`, in order: the name itself, then the
/// absolute locations.
pub open spec fn binary_attempts(cmd: Seq<char>) -> Seq<Seq<char>> {
    seq![cmd] + binary_candidates(cmd)
}

/// What to do next while looking for a program that runs.
#[derive(Debug, Clone, PartialEq, Eq)]
pub enum BinaryChoice {
    /// Check whether this program runs (an absolute one only if it exists).
    Try(String),
    /// Settle on this program.
    Use(String),
}

/// After `tried` attempts, the last of which ran (`last_ok`) or not: use the
/// last attempt if it ran; else try the next one; when all have failed, use
/// the name as given. The first component tells whether to settle.
pub open spec fn binary_choice(cmd: Seq<char>, tried: nat, last_ok: bool) -> (bool, Seq<char>) {
    if tried > 0 && last_ok {
        (true, binary_attempts(cmd)[tried - 1])
    } else if tried < binary_attempts(cmd).len() {
        (false, binary_attempts(cmd)[tried as int])
    } else {
        (true, cmd)
    }
}

/// Decides the next step in looking for a program that runs, after
/// `tried` attempts of which the last ran or not (`last_ok`).
pub fn next_binary_choice(cmd: &str, tried: usize, last_ok: bool) -> (c: BinaryChoice)
    requires
        tried <= 4,
    ensures
        binary_choice(cmd@, tried as nat, last_ok) == match c {
            BinaryChoice::Try(p) => (false, p@),
            BinaryChoice::Use(p) => (true, p@),
        },
{
    let candidates = candidate_binary_paths(cmd);
    proof {
        assert(binary_attempts(cmd@).len() == 4);
        assert(forall|i: int| 0 <= i < 3 ==> binary_attempts(cmd@)[i + 1] == candidates@[i]@);
    }
    if tried > 0 && last_ok {
        if tried == 1 {
            BinaryChoice::Use(String::from_str(cmd))
        } else {
            BinaryChoice::Use(String::from_str(candidates[tried - 2].as_str()))
        }
    } else if tried == 0 {
        BinaryChoice::Try(String::from_str(cmd))
    } else if tried < 4 {
        BinaryChoice::Try(String::from_str(candidates[tried - 1].as_str()))
    } else {
        BinaryChoice::Use(String::from_str(cmd))
    }
}

/// The message for a dependency that cannot be run.
pub open spec fn dependency_error_text(name: Seq<char>, cmd: Seq<char>) -> Seq<char> {
    "Required dependency '"@ + name + "' was not found or failed to run using command '"@ + cmd
        + "'. Please ensure "@ + cmd + " is installed and accessible."@
}

/// Builds the message for a dependency that cannot be run.
pub fn dependency_error_message(name: &str, cmd: &str) -> (m: String)
    ensures
        m@ == dependency_error_text(name@, cmd@),
{
    let mut m = String::from_str("Required dependency '");
    m.append(name);
    m.append("' was not found or failed to run using command '");
    m.append(cmd);
    m.append("'. Please ensure ");
    m.append(cmd);
    m.append(" is installed and accessible.");
    m
}

} // verus!
