use vstd::prelude::*;
use std::path::{Component, Prefix};
use crate::text::opt_chars;

verus! {

// ---------------------------------------------------------------------------
// Paths are held as strings; the few `std::path` operations the logic needs
// are called through the wrappers below, and their results are named.
// ---------------------------------------------------------------------------

/// What `Path::file_name` returns for the path `p`.
pub uninterp spec fn spec_file_name(p: Seq<char>) -> Option<Seq<char>>;

/// What `Path::parent` returns for the path `p`.
pub uninterp spec fn spec_parent(p: Seq<char>) -> Option<Seq<char>>;

/// What `Path::join` returns for the base `base` and the pushed path `rest`.
pub uninterp spec fn spec_join(base: Seq<char>, rest: Seq<char>) -> Seq<char>;

/// What `Path::with_extension` returns for the path `p` and extension `ext`.
pub uninterp spec fn spec_with_extension(p: Seq<char>, ext: Seq<char>) -> Seq<char>;

/// What `Path::components` yields for the path `p`.
pub uninterp spec fn spec_components(p: Seq<char>) -> Seq<ComponentView>;

/// Final component of `p`, unless `p` ends in `..` or has no components.
///
/// Trusted wrapper around `Path::file_name`; the name is a function of the
/// path text alone. Names taken from a `&str` are valid UTF-8, so the
/// conversion back to `String` is lossless.
#[verifier::external_body]
pub fn path_file_name(p: &str) -> (name: Option<String>)
    ensures
        opt_chars(name) == spec_file_name(p@),
{
    match std::path::Path::new(p).file_name() {
        Some(n) => Some(n.to_string_lossy().into_owned()),
        None => None,
    }
}

/// `p` without its final component, if it has one.
///
/// Trusted wrapper around `Path::parent`; the result is a function of the
/// path text alone.
#[verifier::external_body]
pub fn path_parent(p: &str) -> (parent: Option<String>)
    ensures
        opt_chars(parent) == spec_parent(p@),
{
    match std::path::Path::new(p).parent() {
        Some(q) => Some(q.to_string_lossy().into_owned()),
        None => None,
    }
}

/// A single file name that `Path` reads as one normal component on every
/// platform: not empty, not `.` or `..`, and free of separators and of the
/// `:` that opens a drive prefix.
pub open spec fn is_plain_name(s: Seq<char>) -> bool {
    &&& s.len() > 0
    &&& s != "."@
    &&& s != ".."@
    &&& forall|i: int| 0 <= i < s.len() ==> s[i] != '/' && s[i] != '\\' && s[i] != ':'
}

/// A base path without prefix syntax: no `\\`, no `:`, and not opening with
/// two separators.
pub open spec fn is_plain_base(s: Seq<char>) -> bool {
    &&& forall|i: int| 0 <= i < s.len() ==> s[i] != '\\' && s[i] != ':'
    &&& !(s.len() >= 2 && s[0] == '/' && s[1] == '/')
}

/// `rest` appended to `base` as a further path component (an absolute
/// `rest` replaces `base`).
///
/// Trusted wrapper around `Path::join` (`PathBuf::push`); the result is a
/// function of the two path texts alone. Besides naming the result, the
/// contract claims one documented consequence: pushing a relative single
/// file name appends it after a separator, and since `Path::components`
/// ignores repeated separators and interior `.`, the components of the
/// result are those of `base` followed by that name. The claim is limited
/// to plain bases and names, so no drive or UNC prefix is involved.
#[verifier::external_body]
pub fn path_join(base: &str, rest: &str) -> (joined: String)
    ensures
        joined@ == spec_join(base@, rest@),
        is_plain_base(base@) && is_plain_name(rest@) ==> spec_components(joined@)
            == spec_components(base@).push(ComponentView::Normal(rest@)),
{
    std::path::Path::new(base).join(rest).to_string_lossy().into_owned()
}

/// `p` with its extension replaced by (or extended with) `ext`.
///
/// Trusted wrapper around `Path::with_extension`; the result is a function
/// of the two texts alone. `PathBuf::set_extension` panics on an extension
/// holding a path separator, so such extensions are excluded.
#[verifier::external_body]
pub fn path_with_extension(p: &str, ext: &str) -> (res: String)
    requires
        forall|i: int| 0 <= i < ext@.len() ==> ext@[i] != '/' && ext@[i] != '\\',
    ensures
        res@ == spec_with_extension(p@, ext@),
{
    std::path::Path::new(p).with_extension(ext).to_string_lossy().into_owned()
}

/// One component of a path, as `std::path::Component` distinguishes them.
/// A prefix (a Windows drive or UNC prefix; paths elsewhere have none) is
/// held as written; its meaning is the parsed prefix (see `prefix_kind`).
#[derive(Debug, Clone, PartialEq, Eq)]
pub enum PathComponent {
    Prefix(String),
    RootDir,
    CurDir,
    ParentDir,
    Normal(String),
}

/// A parsed path prefix, as `std::path::Prefix` distinguishes them.
#[derive(Debug, Clone, PartialEq, Eq)]
pub enum PathPrefix {
    Verbatim(String),
    VerbatimUNC(String, String),
    VerbatimDisk(u8),
    DeviceNS(String),
    UNC(String, String),
    Disk(u8),
}

/// A parsed path prefix as a mathematical value.
pub enum PrefixView {
    Verbatim(Seq<char>),
    VerbatimUNC(Seq<char>, Seq<char>),
    VerbatimDisk(u8),
    DeviceNS(Seq<char>),
    UNC(Seq<char>, Seq<char>),
    Disk(u8),
}

impl View for PathPrefix {
    type V = PrefixView;

    open spec fn view(&self) -> PrefixView {
        match self {
            PathPrefix::Verbatim(a) => PrefixView::Verbatim(a@),
            PathPrefix::VerbatimUNC(a, b) => PrefixView::VerbatimUNC(a@, b@),
            PathPrefix::VerbatimDisk(d) => PrefixView::VerbatimDisk(*d),
            PathPrefix::DeviceNS(a) => PrefixView::DeviceNS(a@),
            PathPrefix::UNC(a, b) => PrefixView::UNC(a@, b@),
            PathPrefix::Disk(d) => PrefixView::Disk(*d),
        }
    }
}

/// What `Path::components` gives as the parsed prefix (`PrefixComponent::kind`)
/// of the path `p`, if it starts with one.
pub uninterp spec fn spec_prefix_kind(p: Seq<char>) -> Option<PrefixView>;

/// The parsed prefix of `p`, if `p` starts with one.
///
/// Trusted wrapper around `Path::components` and `PrefixComponent::kind`;
/// each prefix kind is converted one for one, and the result is a function
/// of the text alone. Prefix parts cut from a `&str` at ASCII separators are
/// valid UTF-8, so their conversion to `String` is lossless.
#[verifier::external_body]
pub fn prefix_kind(p: &str) -> (k: Option<PathPrefix>)
    ensures
        match k {
            Some(x) => spec_prefix_kind(p@) == Some(x@),
            None => spec_prefix_kind(p@) is None,
        },
{
    match std::path::Path::new(p).components().next() {
        Some(Component::Prefix(x)) => Some(match x.kind() {
            Prefix::Verbatim(a) => PathPrefix::Verbatim(a.to_string_lossy().into_owned()),
            Prefix::VerbatimUNC(a, b) => PathPrefix::VerbatimUNC(a.to_string_lossy().into_owned(), b.to_string_lossy().into_owned()),
            Prefix::VerbatimDisk(d) => PathPrefix::VerbatimDisk(d),
            Prefix::DeviceNS(a) => PathPrefix::DeviceNS(a.to_string_lossy().into_owned()),
            Prefix::UNC(a, b) => PathPrefix::UNC(a.to_string_lossy().into_owned(), b.to_string_lossy().into_owned()),
            Prefix::Disk(d) => PathPrefix::Disk(d),
        }),
        _ => None,
    }
}

/// A path component as a mathematical value; a prefix is represented by its
/// parsed form, which is what `Path` compares.
pub enum ComponentView {
    Prefix(Option<PrefixView>),
    RootDir,
    CurDir,
    ParentDir,
    Normal(Seq<char>),
}

impl View for PathComponent {
    type V = ComponentView;

    open spec fn view(&self) -> ComponentView {
        match self {
            PathComponent::Prefix(s) => ComponentView::Prefix(spec_prefix_kind(s@)),
            PathComponent::RootDir => ComponentView::RootDir,
            PathComponent::CurDir => ComponentView::CurDir,
            PathComponent::ParentDir => ComponentView::ParentDir,
            PathComponent::Normal(s) => ComponentView::Normal(s@),
        }
    }
}

/// The components of a sequence of exec components, as values.
pub open spec fn components_view(v: Seq<PathComponent>) -> Seq<ComponentView> {
    v.map_values(|c: PathComponent| c@)
}

/// The components of `p` (repeated separators, `.` after the start and a
/// trailing separator are normalised away).
///
/// Trusted wrapper around `Path::components`; each component is converted
/// one for one, and the sequence is a function of the path text alone.
#[verifier::external_body]
pub fn path_components(p: &str) -> (comps: Vec<PathComponent>)
    ensures
        components_view(comps@) == spec_components(p@),
{
    let mut out = Vec::new();
    for c in std::path::Path::new(p).components() {
        out.push(match c {
            std::path::Component::Prefix(x) => PathComponent::Prefix(x.as_os_str().to_string_lossy().into_owned()),
            std::path::Component::RootDir => PathComponent::RootDir,
            std::path::Component::CurDir => PathComponent::CurDir,
            std::path::Component::ParentDir => PathComponent::ParentDir,
            std::path::Component::Normal(x) => PathComponent::Normal(x.to_string_lossy().into_owned()),
        });
    }
    out
}

// ---------------------------------------------------------------------------
// Ordering of paths: component by component, as `Path` compares them.

// ---------------------------------------------------------------------------

/// Result of a three-way comparison.
#[derive(Debug, Clone, Copy, PartialEq, Eq)]
pub enum Order {
    Less,
    Equal,
    Greater,
}

/// The comparison with the sides swapped.
pub open spec fn flip(o: Order) -> Order {
    match o {
        Order::Less => Order::Greater,
        Order::Equal => Order::Equal,
        Order::Greater => Order::Less,
    }
}

/// Lexicographic comparison of character sequences by code point (the
/// order of their UTF-8 bytes).
pub open spec fn chars_order(a: Seq<char>, b: Seq<char>) -> Order
    decreases a.len(),
{
    if a.len() == 0 {
        if b.len() == 0 { Order::Equal } else { Order::Less }
    } else if b.len() == 0 {
        Order::Greater
    } else if a[0] < b[0] {
        Order::Less
    } else if a[0] > b[0] {
        Order::Greater
    } else {
        chars_order(a.drop_first(), b.drop_first())
    }
}

/// Comparison of bytes.
pub open spec fn byte_order(x: u8, y: u8) -> Order {
    if x < y {
        Order::Less
    } else if x > y {
        Order::Greater
    } else {
        Order::Equal
    }
}

/// Comparison of two pairs of texts: by the first, then by the second.
pub open spec fn pair_order(a1: Seq<char>, a2: Seq<char>, b1: Seq<char>, b2: Seq<char>) -> Order {
    if chars_order(a1, b1) != Order::Equal {
        chars_order(a1, b1)
    } else {
        chars_order(a2, b2)
    }
}

/// Rank of a prefix kind in the declaration order of `Prefix`.
pub open spec fn prefix_rank(p: PrefixView) -> int {
    match p {
        PrefixView::Verbatim(_) => 0,
        PrefixView::VerbatimUNC(_, _) => 1,
        PrefixView::VerbatimDisk(_) => 2,
        PrefixView::DeviceNS(_) => 3,
        PrefixView::UNC(_, _) => 4,
        PrefixView::Disk(_) => 5,
    }
}

/// Comparison of parsed prefixes, as `Prefix` orders them: by kind, then
/// by their parts (texts by code point, which is the order of their bytes).
pub open spec fn prefix_order(a: PrefixView, b: PrefixView) -> Order {
    if prefix_rank(a) < prefix_rank(b) {
        Order::Less
    } else if prefix_rank(a) > prefix_rank(b) {
        Order::Greater
    } else {
        match (a, b) {
            (PrefixView::Verbatim(x), PrefixView::Verbatim(y)) => chars_order(x, y),
            (PrefixView::VerbatimUNC(x1, x2), PrefixView::VerbatimUNC(y1, y2)) => pair_order(x1, x2, y1, y2),
            (PrefixView::VerbatimDisk(x), PrefixView::VerbatimDisk(y)) => byte_order(x, y),
            (PrefixView::DeviceNS(x), PrefixView::DeviceNS(y)) => chars_order(x, y),
            (PrefixView::UNC(x1, x2), PrefixView::UNC(y1, y2)) => pair_order(x1, x2, y1, y2),
            (PrefixView::Disk(x), PrefixView::Disk(y)) => byte_order(x, y),
            _ => Order::Equal,
        }
    }
}

/// Comparison of optional parsed prefixes (a missing one first).
pub open spec fn opt_prefix_order(a: Option<PrefixView>, b: Option<PrefixView>) -> Order {
    match (a, b) {
        (Some(x), Some(y)) => prefix_order(x, y),
        (None, None) => Order::Equal,
        (None, Some(_)) => Order::Less,
        (Some(_), None) => Order::Greater,
    }
}

/// Rank of a component kind in the declaration order of `Component`.
pub open spec fn component_rank(c: ComponentView) -> int {
    match c {
        ComponentView::Prefix(_) => 0,
        ComponentView::RootDir => 1,
        ComponentView::CurDir => 2,
        ComponentView::ParentDir => 3,
        ComponentView::Normal(_) => 4,
    }
}

/// Comparison of two components: by kind, then by text (a prefix by its
/// parsed form).
pub closed spec fn component_order(a: ComponentView, b: ComponentView) -> Order {
    if component_rank(a) < component_rank(b) {
        Order::Less
    } else if component_rank(a) > component_rank(b) {
        Order::Greater
    } else {
        match (a, b) {
            (ComponentView::Prefix(x), ComponentView::Prefix(y)) => opt_prefix_order(x, y),
            (ComponentView::Normal(x), ComponentView::Normal(y)) => chars_order(x, y),
            _ => Order::Equal,
        }
    }
}

/// Lexicographic comparison of component sequences.
pub open spec fn components_order(a: Seq<ComponentView>, b: Seq<ComponentView>) -> Order
    decreases a.len(),
{
    if a.len() == 0 {
        if b.len() == 0 { Order::Equal } else { Order::Less }
    } else if b.len() == 0 {
        Order::Greater
    } else if component_order(a[0], b[0]) != Order::Equal {
        component_order(a[0], b[0])
    } else {
        components_order(a.drop_first(), b.drop_first())
    }
}

/// The order of two paths.
pub open spec fn path_order(a: Seq<char>, b: Seq<char>) -> Order {
    components_order(spec_components(a), spec_components(b))
}

proof fn lemma_chars_order_props(a: Seq<char>, b: Seq<char>)
    ensures
        chars_order(b, a) == flip(chars_order(a, b)),
        chars_order(a, b) == Order::Equal <==> a == b,
    decreases a.len(),
{
    if a.len() == 0 && b.len() == 0 {
        assert(a =~= b);
    }
    if a.len() > 0 && b.len() > 0 {
        lemma_chars_order_props(a.drop_first(), b.drop_first());
        if a[0] == b[0] && a.drop_first() == b.drop_first() {
            assert(a =~= b.drop_first().insert(0, b[0]));
            assert(b =~= b.drop_first().insert(0, b[0]));
        }
        if a == b {
            assert(a.drop_first() == b.drop_first());
        }
    }
}

proof fn lemma_chars_order_trans(a: Seq<char>, b: Seq<char>, c: Seq<char>, o: Order)
    requires
        o != Order::Equal,
        chars_order(a, b) != flip(o),
        chars_order(b, c) != flip(o),
        chars_order(a, b) == o || chars_order(b, c) == o,
    ensures
        chars_order(a, c) == o,
    decreases a.len(),
{
    lemma_chars_order_props(a, b);
    lemma_chars_order_props(b, c);
    if a.len() > 0 && b.len() > 0 && c.len() > 0 {
        if a[0] == b[0] && b[0] == c[0] {
            lemma_chars_order_trans(a.drop_first(), b.drop_first(), c.drop_first(), o);
        } else if a[0] == b[0] {
            assert(chars_order(a, c) == chars_order(b, c));
        } else if b[0] == c[0] {
            assert(chars_order(a, c) == chars_order(a, b));
        }
    }
}

proof fn lemma_pair_order_props(a1: Seq<char>, a2: Seq<char>, b1: Seq<char>, b2: Seq<char>)
    ensures
        pair_order(b1, b2, a1, a2) == flip(pair_order(a1, a2, b1, b2)),
        pair_order(a1, a2, b1, b2) == Order::Equal <==> a1 == b1 && a2 == b2,
{
    lemma_chars_order_props(a1, b1);
    lemma_chars_order_props(a2, b2);
}

proof fn lemma_pair_order_trans(
    a1: Seq<char>, a2: Seq<char>, b1: Seq<char>, b2: Seq<char>, c1: Seq<char>, c2: Seq<char>, o: Order,
)
    requires
        o != Order::Equal,
        pair_order(a1, a2, b1, b2) != flip(o),
        pair_order(b1, b2, c1, c2) != flip(o),
        pair_order(a1, a2, b1, b2) == o || pair_order(b1, b2, c1, c2) == o,
    ensures
        pair_order(a1, a2, c1, c2) == o,
{
    lemma_chars_order_props(a1, b1);
    lemma_chars_order_props(b1, c1);
    lemma_chars_order_props(a1, c1);
    lemma_chars_order_props(a2, b2);
    lemma_chars_order_props(b2, c2);
    if chars_order(a1, b1) == Order::Equal && chars_order(b1, c1) == Order::Equal {
        lemma_chars_order_trans(a2, b2, c2, o);
    } else if chars_order(a1, b1) == Order::Equal {
    } else if chars_order(b1, c1) == Order::Equal {
    } else {
        lemma_chars_order_trans(a1, b1, c1, o);
    }
}

proof fn lemma_prefix_order_props(a: PrefixView, b: PrefixView)
    ensures
        prefix_order(b, a) == flip(prefix_order(a, b)),
        prefix_order(a, b) == Order::Equal <==> a == b,
{
    match (a, b) {
        (PrefixView::Verbatim(x), PrefixView::Verbatim(y)) => lemma_chars_order_props(x, y),
        (PrefixView::DeviceNS(x), PrefixView::DeviceNS(y)) => lemma_chars_order_props(x, y),
        (PrefixView::VerbatimUNC(x1, x2), PrefixView::VerbatimUNC(y1, y2)) => lemma_pair_order_props(x1, x2, y1, y2),
        (PrefixView::UNC(x1, x2), PrefixView::UNC(y1, y2)) => lemma_pair_order_props(x1, x2, y1, y2),
        _ => {},
    }
}

proof fn lemma_prefix_order_trans(a: PrefixView, b: PrefixView, c: PrefixView, o: Order)
    requires
        o != Order::Equal,
        prefix_order(a, b) != flip(o),
        prefix_order(b, c) != flip(o),
        prefix_order(a, b) == o || prefix_order(b, c) == o,
    ensures
        prefix_order(a, c) == o,
{
    lemma_prefix_order_props(a, b);
    lemma_prefix_order_props(b, c);
    match (a, b, c) {
        (PrefixView::Verbatim(x), PrefixView::Verbatim(y), PrefixView::Verbatim(z)) => lemma_chars_order_trans(x, y, z, o),
        (PrefixView::DeviceNS(x), PrefixView::DeviceNS(y), PrefixView::DeviceNS(z)) => lemma_chars_order_trans(x, y, z, o),
        (PrefixView::VerbatimUNC(x1, x2), PrefixView::VerbatimUNC(y1, y2), PrefixView::VerbatimUNC(z1, z2)) =>
            lemma_pair_order_trans(x1, x2, y1, y2, z1, z2, o),
        (PrefixView::UNC(x1, x2), PrefixView::UNC(y1, y2), PrefixView::UNC(z1, z2)) =>
            lemma_pair_order_trans(x1, x2, y1, y2, z1, z2, o),
        _ => {},
    }
}

proof fn lemma_opt_prefix_order_props(a: Option<PrefixView>, b: Option<PrefixView>)
    ensures
        opt_prefix_order(b, a) == flip(opt_prefix_order(a, b)),
        opt_prefix_order(a, b) == Order::Equal <==> a == b,
{
    match (a, b) {
        (Some(x), Some(y)) => lemma_prefix_order_props(x, y),
        _ => {},
    }
}

proof fn lemma_opt_prefix_order_trans(a: Option<PrefixView>, b: Option<PrefixView>, c: Option<PrefixView>, o: Order)
    requires
        o != Order::Equal,
        opt_prefix_order(a, b) != flip(o),
        opt_prefix_order(b, c) != flip(o),
        opt_prefix_order(a, b) == o || opt_prefix_order(b, c) == o,
    ensures
        opt_prefix_order(a, c) == o,
{
    lemma_opt_prefix_order_props(a, b);
    lemma_opt_prefix_order_props(b, c);
    match (a, b, c) {
        (Some(x), Some(y), Some(z)) => lemma_prefix_order_trans(x, y, z, o),
        _ => {},
    }
}

proof fn lemma_component_order_props(a: ComponentView, b: ComponentView)
    ensures
        component_order(b, a) == flip(component_order(a, b)),
        component_order(a, b) == Order::Equal <==> a == b,
{
    match (a, b) {
        (ComponentView::Prefix(x), ComponentView::Prefix(y)) => lemma_opt_prefix_order_props(x, y),
        (ComponentView::Normal(x), ComponentView::Normal(y)) => lemma_chars_order_props(x, y),
        _ => {},
    }
}

proof fn lemma_component_order_trans(a: ComponentView, b: ComponentView, c: ComponentView, o: Order)
    requires
        o != Order::Equal,
        component_order(a, b) != flip(o),
        component_order(b, c) != flip(o),
        component_order(a, b) == o || component_order(b, c) == o,
    ensures
        component_order(a, c) == o,
{
    lemma_component_order_props(a, b);
    lemma_component_order_props(b, c);
    match (a, b, c) {
        (ComponentView::Prefix(x), ComponentView::Prefix(y), ComponentView::Prefix(z)) => lemma_opt_prefix_order_trans(x, y, z, o),
        (ComponentView::Normal(x), ComponentView::Normal(y), ComponentView::Normal(z)) => lemma_chars_order_trans(x, y, z, o),
        _ => {},
    }
}

/// Component-sequence comparison is antisymmetric and `Equal` means equal.
pub proof fn lemma_components_order_props(a: Seq<ComponentView>, b: Seq<ComponentView>)
    ensures
        components_order(b, a) == flip(components_order(a, b)),
        components_order(a, b) == Order::Equal <==> a == b,
    decreases a.len(),
{
    if a.len() == 0 && b.len() == 0 {
        assert(a =~= b);
    }
    if a.len() > 0 && b.len() > 0 {
        lemma_component_order_props(a[0], b[0]);
        lemma_components_order_props(a.drop_first(), b.drop_first());
        if a[0] == b[0] && a.drop_first() == b.drop_first() {
            assert(a =~= b.drop_first().insert(0, b[0]));
            assert(b =~= b.drop_first().insert(0, b[0]));
        }
        if a == b {
            assert(a.drop_first() == b.drop_first());
        }
    }
}

/// Component-sequence comparison is transitive (for `Less` and `Greater`).
pub proof fn lemma_components_order_trans(a: Seq<ComponentView>, b: Seq<ComponentView>, c: Seq<ComponentView>, o: Order)
    requires
        o != Order::Equal,
        components_order(a, b) != flip(o),
        components_order(b, c) != flip(o),
        components_order(a, b) == o || components_order(b, c) == o,
    ensures
        components_order(a, c) == o,
    decreases a.len(),
{
    lemma_components_order_props(a, b);
    lemma_components_order_props(b, c);
    if a.len() > 0 && b.len() > 0 && c.len() > 0 {
        lemma_component_order_props(a[0], b[0]);
        lemma_component_order_props(b[0], c[0]);
        lemma_component_order_props(a[0], c[0]);
        if component_order(a[0], b[0]) == Order::Equal && component_order(b[0], c[0]) == Order::Equal {
            lemma_components_order_trans(a.drop_first(), b.drop_first(), c.drop_first(), o);
        } else if component_order(a[0], b[0]) == Order::Equal {
        } else if component_order(b[0], c[0]) == Order::Equal {
        } else {
            lemma_component_order_trans(a[0], b[0], c[0], o);
        }
    }
}

fn compare_chars(a: &str, b: &str) -> (o: Order)
    ensures
        o == chars_order(a@, b@),
{
    let n = a.unicode_len();
    let m = b.unicode_len();
    let mut i: usize = 0;
    proof {
        assert(a@.skip(0) =~= a@);
        assert(b@.skip(0) =~= b@);
    }
    while i < n && i < m
        invariant
            n == a@.len(),
            m == b@.len(),
            0 <= i <= n,
            i <= m,
            chars_order(a@, b@) == chars_order(a@.skip(i as int), b@.skip(i as int)),
        decreases n - i,
    {
        let x = a.get_char(i);
        let y = b.get_char(i);
        proof {
            assert(a@.skip(i as int)[0] == a@[i as int]);
            assert(b@.skip(i as int)[0] == b@[i as int]);
            assert(a@.skip(i as int).drop_first() =~= a@.skip(i + 1));
            assert(b@.skip(i as int).drop_first() =~= b@.skip(i + 1));
        }
        if x < y {
            return Order::Less;
        }
        if x > y {
            return Order::Greater;
        }
        i = i + 1;
    }
    if i == n {
        if i == m { Order::Equal } else { Order::Less }
    } else {
        Order::Greater
    }
}

fn compare_bytes(x: u8, y: u8) -> (o: Order)
    ensures
        o == byte_order(x, y),
{
    if x < y {
        Order::Less
    } else if x > y {
        Order::Greater
    } else {
        Order::Equal
    }
}

fn compare_pairs(a1: &str, a2: &str, b1: &str, b2: &str) -> (o: Order)
    ensures
        o == pair_order(a1@, a2@, b1@, b2@),
{
    match compare_chars(a1, b1) {
        Order::Equal => compare_chars(a2, b2),
        o => o,
    }
}

fn prefix_rank_exec(p: &PathPrefix) -> (r: u8)
    ensures
        r as int == prefix_rank(p@),
{
    match p {
        PathPrefix::Verbatim(_) => 0,
        PathPrefix::VerbatimUNC(_, _) => 1,
        PathPrefix::VerbatimDisk(_) => 2,
        PathPrefix::DeviceNS(_) => 3,
        PathPrefix::UNC(_, _) => 4,
        PathPrefix::Disk(_) => 5,
    }
}

fn compare_prefixes(a: &PathPrefix, b: &PathPrefix) -> (o: Order)
    ensures
        o == prefix_order(a@, b@),
{
    let ra = prefix_rank_exec(a);
    let rb = prefix_rank_exec(b);
    if ra < rb {
        Order::Less
    } else if ra > rb {
        Order::Greater
    } else {
        match (a, b) {
            (PathPrefix::Verbatim(x), PathPrefix::Verbatim(y)) => compare_chars(x.as_str(), y.as_str()),
            (PathPrefix::VerbatimUNC(x1, x2), PathPrefix::VerbatimUNC(y1, y2)) =>
                compare_pairs(x1.as_str(), x2.as_str(), y1.as_str(), y2.as_str()),
            (PathPrefix::VerbatimDisk(x), PathPrefix::VerbatimDisk(y)) => compare_bytes(*x, *y),
            (PathPrefix::DeviceNS(x), PathPrefix::DeviceNS(y)) => compare_chars(x.as_str(), y.as_str()),
            (PathPrefix::UNC(x1, x2), PathPrefix::UNC(y1, y2)) =>
                compare_pairs(x1.as_str(), x2.as_str(), y1.as_str(), y2.as_str()),
            (PathPrefix::Disk(x), PathPrefix::Disk(y)) => compare_bytes(*x, *y),
            _ => Order::Equal,
        }
    }
}

fn compare_opt_prefixes(a: &Option<PathPrefix>, b: &Option<PathPrefix>) -> (o: Order)
    ensures
        o == opt_prefix_order(
            match a {
                Some(x) => Some(x@),
                None => None,
            },
            match b {
                Some(x) => Some(x@),
                None => None,
            },
        ),
{
    match (a, b) {
        (Some(x), Some(y)) => compare_prefixes(x, y),
        (None, None) => Order::Equal,
        (None, Some(_)) => Order::Less,
        (Some(_), None) => Order::Greater,
    }
}

fn component_rank_exec(c: &PathComponent) -> (r: u8)
    ensures
        r as int == component_rank(c@),
{
    match c {
        PathComponent::Prefix(_) => 0,
        PathComponent::RootDir => 1,
        PathComponent::CurDir => 2,
        PathComponent::ParentDir => 3,
        PathComponent::Normal(_) => 4,
    }
}

fn compare_component(a: &PathComponent, b: &PathComponent) -> (o: Order)
    ensures
        o == component_order(a@, b@),
{
    let ra = component_rank_exec(a);
    let rb = component_rank_exec(b);
    if ra < rb {
        Order::Less
    } else if ra > rb {
        Order::Greater
    } else {
        match (a, b) {
            (PathComponent::Prefix(x), PathComponent::Prefix(y)) => {
                let kx = prefix_kind(x.as_str());
                let ky = prefix_kind(y.as_str());
                compare_opt_prefixes(&kx, &ky)
            },
            (PathComponent::Normal(x), PathComponent::Normal(y)) => compare_chars(x.as_str(), y.as_str()),
            _ => Order::Equal,
        }
    }
}

/// Compares two component sequences lexicographically.
pub fn compare_components(a: &Vec<PathComponent>, b: &Vec<PathComponent>) -> (o: Order)
    ensures
        o == components_order(components_view(a@), components_view(b@)),
{
    let ghost va = components_view(a@);
    let ghost vb = components_view(b@);
    let n = a.len();
    let m = b.len();
    let mut i: usize = 0;
    proof {
        assert(va.skip(0) =~= va);
        assert(vb.skip(0) =~= vb);
    }
    while i < n && i < m
        invariant
            n == a@.len(),
            m == b@.len(),
            va == components_view(a@),
            vb == components_view(b@),
            0 <= i <= n,
            i <= m,
            components_order(va, vb) == components_order(va.skip(i as int), vb.skip(i as int)),
        decreases n - i,
    {
        let o = compare_component(&a[i], &b[i]);
        proof {
            assert(va.skip(i as int)[0] == a@[i as int]@);
            assert(vb.skip(i as int)[0] == b@[i as int]@);
            assert(va.skip(i as int).drop_first() =~= va.skip(i + 1));
            assert(vb.skip(i as int).drop_first() =~= vb.skip(i + 1));
        }
        match o {
            Order::Equal => {},
            _ => {
                return o;
            },
        }
        i = i + 1;
    }
    if i == n {
        if i == m { Order::Equal } else { Order::Less }
    } else {
        Order::Greater
    }
}

/// Compares two paths component by component.
pub fn compare_paths(a: &str, b: &str) -> (o: Order)
    ensures
        o == path_order(a@, b@),
{
    let ca = path_components(a);
    let cb = path_components(b);
    compare_components(&ca, &cb)
}

/// Some path of `s` has the same components as `x`.
pub open spec fn contains_path(s: Seq<Seq<char>>, x: Seq<char>) -> bool {
    exists|j: int| 0 <= j < s.len() && spec_components(#[trigger] s[j]) == spec_components(x)
}

/// Whether two paths name the same components (`Path` equality).
pub fn same_path(a: &str, b: &str) -> (same: bool)
    ensures
        same == (spec_components(a@) == spec_components(b@)),
{
    let o = compare_paths(a, b);
    proof {
        lemma_components_order_props(spec_components(a@), spec_components(b@));
    }
    match o {
        Order::Equal => true,
        _ => false,
    }
}

} // verus!
