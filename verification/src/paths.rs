//! Paths: their components as `std::path` reads them, the order of paths,
//! and the relative path from a script to the contract it imports.

use vstd::prelude::*;
use crate::text::{join, views, chars_of, string_of, join_strings, same_chars, push_char};
use crate::params::opt_view;

verus! {

/// One component of a path, as `std::path::Component` gives it.
#[derive(Clone, Debug)]
pub enum PathPart {
    Prefix(String),
    RootDir,
    CurDir,
    ParentDir,
    Normal(String),
}

/// A path component as plain values.
pub enum PartView {
    Prefix(Seq<char>),
    RootDir,
    CurDir,
    ParentDir,
    Normal(Seq<char>),
}

impl View for PathPart {
    type V = PartView;

    open spec fn view(&self) -> PartView {
        match self {
            PathPart::Prefix(t) => PartView::Prefix(t@),
            PathPart::RootDir => PartView::RootDir,
            PathPart::CurDir => PartView::CurDir,
            PathPart::ParentDir => PartView::ParentDir,
            PathPart::Normal(t) => PartView::Normal(t@),
        }
    }
}

/// The views of a sequence of components.
pub open spec fn part_views(v: Seq<PathPart>) -> Seq<PartView> {
    v.map_values(|p: PathPart| p@)
}

/// The components that `Path::components` gives for the path `p`.
pub uninterp spec fn components_of(p: Seq<char>) -> Seq<PartView>;

/// Whether `Path::is_absolute` holds of the path `p`.
pub uninterp spec fn is_absolute_path(p: Seq<char>) -> bool;

/// The path that `Path::join` makes of `base` and `p`.
pub uninterp spec fn joined_path(base: Seq<char>, p: Seq<char>) -> Seq<char>;

/// The path that `Path::parent` gives for `p`.
pub uninterp spec fn parent_path(p: Seq<char>) -> Option<Seq<char>>;

/// What `Path::strip_prefix` leaves of `p` after `base`.
pub uninterp spec fn prefix_stripped(p: Seq<char>, base: Seq<char>) -> Option<Seq<char>>;

/// The components of `p` (`Path::components`), each converted to text.
#[verifier::external_body]
pub(crate) fn path_components(p: &str) -> (parts: Vec<PathPart>)
    ensures
        part_views(parts@) == components_of(p@),
{
    std::path::Path::new(p).components().map(|c| match c {
        std::path::Component::Prefix(x) => PathPart::Prefix(x.as_os_str().to_string_lossy().into_owned()),
        std::path::Component::RootDir => PathPart::RootDir,
        std::path::Component::CurDir => PathPart::CurDir,
        std::path::Component::ParentDir => PathPart::ParentDir,
        std::path::Component::Normal(s) => PathPart::Normal(s.to_string_lossy().into_owned()),
    }).collect()
}

/// Whether `p` is absolute (`Path::is_absolute`).
#[verifier::external_body]
pub(crate) fn path_is_absolute(p: &str) -> (b: bool)
    ensures
        b == is_absolute_path(p@),
{
    std::path::Path::new(p).is_absolute()
}

/// `p` under `base` (`Path::join`).
#[verifier::external_body]
pub(crate) fn path_join(base: &str, p: &str) -> (r: String)
    ensures
        r@ == joined_path(base@, p@),
{
    std::path::Path::new(base).join(p).to_string_lossy().into_owned()
}

/// The parent of `p` (`Path::parent`).
#[verifier::external_body]
pub(crate) fn path_parent(p: &str) -> (r: Option<String>)
    ensures
        opt_view(r) == parent_path(p@),
{
    std::path::Path::new(p).parent().map(|q| q.to_string_lossy().into_owned())
}

/// `p` without its leading part `base` (`Path::strip_prefix`).
#[verifier::external_body]
pub(crate) fn path_strip_prefix(p: &str, base: &str) -> (r: Option<String>)
    ensures
        opt_view(r) == prefix_stripped(p@, base@),
{
    std::path::Path::new(p).strip_prefix(base).ok().map(|q| q.to_string_lossy().into_owned())
}

/// The place of a component kind in the order of components.
pub open spec fn part_rank(p: PartView) -> int {
    match p {
        PartView::Prefix(_) => 0,
        PartView::RootDir => 1,
        PartView::CurDir => 2,
        PartView::ParentDir => 3,
        PartView::Normal(_) => 4,
    }
}

/// The order of two texts, character by character: -1, 0 or 1.
pub open spec fn compare_text(a: Seq<char>, b: Seq<char>) -> int
    decreases a.len(),
{
    if a.len() == 0 {
        if b.len() == 0 {
            0
        } else {
            -1
        }
    } else if b.len() == 0 {
        1
    } else if a[0] < b[0] {
        -1
    } else if a[0] > b[0] {
        1
    } else {
        compare_text(a.drop_first(), b.drop_first())
    }
}

/// The order of two components: by kind, then by text.
pub open spec fn compare_parts(a: PartView, b: PartView) -> int {
    if part_rank(a) < part_rank(b) {
        -1
    } else if part_rank(a) > part_rank(b) {
        1
    } else {
        match (a, b) {
            (PartView::Prefix(x), PartView::Prefix(y)) => compare_text(x, y),
            (PartView::Normal(x), PartView::Normal(y)) => compare_text(x, y),
            _ => 0,
        }
    }
}

/// The order of two paths: their components compared in turn, a path
/// before any longer path that it begins.
pub open spec fn compare_paths(a: Seq<PartView>, b: Seq<PartView>) -> int
    decreases a.len(),
{
    if a.len() == 0 {
        if b.len() == 0 {
            0
        } else {
            -1
        }
    } else if b.len() == 0 {
        1
    } else if compare_parts(a[0], b[0]) != 0 {
        compare_parts(a[0], b[0])
    } else {
        compare_paths(a.drop_first(), b.drop_first())
    }
}

/// The order of two texts (see `compare_text`).
pub fn compare_strings(a: &String, b: &String) -> (r: i8)
    ensures
        r as int == compare_text(a@, b@),
{
    let x = chars_of(a.as_str());
    let y = chars_of(b.as_str());
    let mut i: usize = 0;
    assert(x@.skip(0) =~= x@);
    assert(y@.skip(0) =~= y@);
    while i < x.len() && i < y.len() && x[i] == y[i]
        invariant
            i <= x@.len(),
            i <= y@.len(),
            compare_text(x@, y@) == compare_text(x@.skip(i as int), y@.skip(i as int)),
        decreases x.len() - i,
    {
        assert(x@.skip(i as int).drop_first() =~= x@.skip(i + 1));
        assert(y@.skip(i as int).drop_first() =~= y@.skip(i + 1));
        i = i + 1;
    }
    if i == x.len() {
        if i == y.len() {
            0
        } else {
            -1
        }
    } else if i == y.len() {
        1
    } else if x[i] < y[i] {
        -1
    } else {
        1
    }
}

/// The place of a component kind in the order of components.
fn rank_of(p: &PathPart) -> (r: u8)
    ensures
        r as int == part_rank(p@),
{
    match p {
        PathPart::Prefix(_) => 0,
        PathPart::RootDir => 1,
        PathPart::CurDir => 2,
        PathPart::ParentDir => 3,
        PathPart::Normal(_) => 4,
    }
}

/// The order of two components (see `compare_parts`).
pub fn compare_path_parts(a: &PathPart, b: &PathPart) -> (r: i8)
    ensures
        r as int == compare_parts(a@, b@),
{
    let ra = rank_of(a);
    let rb = rank_of(b);
    if ra < rb {
        return -1;
    }
    if ra > rb {
        return 1;
    }
    match (a, b) {
        (PathPart::Prefix(x), PathPart::Prefix(y)) => compare_strings(x, y),
        (PathPart::Normal(x), PathPart::Normal(y)) => compare_strings(x, y),
        _ => 0,
    }
}

/// The order of two paths given by their components (see `compare_paths`).
pub fn compare_component_lists(a: &Vec<PathPart>, b: &Vec<PathPart>) -> (r: i8)
    ensures
        r as int == compare_paths(part_views(a@), part_views(b@)),
{
    let ghost av = part_views(a@);
    let ghost bv = part_views(b@);
    let mut i: usize = 0;
    assert(av.skip(0) =~= av);
    assert(bv.skip(0) =~= bv);
    while i < a.len() && i < b.len()
        invariant
            i <= a@.len(),
            i <= b@.len(),
            av == part_views(a@),
            bv == part_views(b@),
            compare_paths(av, bv) == compare_paths(av.skip(i as int), bv.skip(i as int)),
        decreases a.len() - i,
    {
        let c = compare_path_parts(&a[i], &b[i]);
        assert(av.skip(i as int)[0] == a@[i as int]@);
        assert(bv.skip(i as int)[0] == b@[i as int]@);
        if c != 0 {
            return c;
        }
        assert(av.skip(i as int).drop_first() =~= av.skip(i + 1));
        assert(bv.skip(i as int).drop_first() =~= bv.skip(i + 1));
        i = i + 1;
    }
    if i == a.len() {
        if i == b.len() {
            0
        } else {
            -1
        }
    } else {
        1
    }
}

/// Whether two components are the same.
pub fn same_part(a: &PathPart, b: &PathPart) -> (r: bool)
    ensures
        r == (a@ == b@),
{
    match (a, b) {
        (PathPart::Prefix(x), PathPart::Prefix(y)) => {
            let xc = chars_of(x.as_str());
            let yc = chars_of(y.as_str());
            same_chars(&xc, &yc)
        },
        (PathPart::Normal(x), PathPart::Normal(y)) => {
            let xc = chars_of(x.as_str());
            let yc = chars_of(y.as_str());
            same_chars(&xc, &yc)
        },
        (PathPart::RootDir, PathPart::RootDir) => true,
        (PathPart::CurDir, PathPart::CurDir) => true,
        (PathPart::ParentDir, PathPart::ParentDir) => true,
        _ => false,
    }
}

/// Whether two paths have the same components.
pub fn same_components(a: &Vec<PathPart>, b: &Vec<PathPart>) -> (r: bool)
    ensures
        r == (part_views(a@) == part_views(b@)),
{
    if a.len() != b.len() {
        assert(part_views(a@).len() != part_views(b@).len());
        return false;
    }
    let mut i: usize = 0;
    while i < a.len()
        invariant
            a@.len() == b@.len(),
            i <= a@.len(),
            forall|j: int| 0 <= j < i ==> a@[j]@ == b@[j]@,
        decreases a.len() - i,
    {
        if !same_part(&a[i], &b[i]) {
            assert(part_views(a@)[i as int] != part_views(b@)[i as int]);
            return false;
        }
        i = i + 1;
    }
    assert(part_views(a@) =~= part_views(b@));
    true
}

/// The text of a component, as `Component::as_os_str` gives it.
pub open spec fn part_text(p: PartView) -> Seq<char> {
    match p {
        PartView::Prefix(t) => t,
        PartView::RootDir => "/"@,
        PartView::CurDir => "."@,
        PartView::ParentDir => ".."@,
        PartView::Normal(t) => t,
    }
}

/// The prefix text of a component list, where it begins with a prefix.
pub open spec fn prefix_of(c: Seq<PartView>) -> Option<Seq<char>> {
    if c.len() > 0 {
        match c[0] {
            PartView::Prefix(t) => Some(t),
            _ => None,
        }
    } else {
        None
    }
}

/// The components after the prefix and the root, where there are these.
pub open spec fn body_of(c: Seq<PartView>) -> Seq<PartView> {
    let c1 = if prefix_of(c) is Some {
        c.drop_first()
    } else {
        c
    };
    if c1.len() > 0 && c1[0] == PartView::RootDir {
        c1.drop_first()
    } else {
        c1
    }
}

/// How many leading components `a` and `b` share, counting from `k`.
pub open spec fn common_len(a: Seq<PartView>, b: Seq<PartView>, k: int) -> int
    decreases a.len() - k,
{
    if 0 <= k < a.len() && k < b.len() && a[k] == b[k] {
        common_len(a, b, k + 1)
    } else {
        k
    }
}

/// A `..` for each component of `a` that names a directory level.
pub open spec fn up_steps(a: Seq<PartView>) -> Seq<Seq<char>>
    decreases a.len(),
{
    if a.len() == 0 {
        Seq::empty()
    } else {
        let rest = up_steps(a.drop_last());
        match a.last() {
            PartView::Normal(_) | PartView::CurDir | PartView::ParentDir => rest.push(".."@),
            _ => rest,
        }
    }
}

/// The steps from the components `from` to the components `to`: none where
/// their prefixes differ; else, past the prefix, the root and the
/// components they share, a `..` for each remaining level of `from` and
/// then the remaining components of `to`.
pub open spec fn steps_between(from: Seq<PartView>, to: Seq<PartView>) -> Option<Seq<Seq<char>>> {
    if prefix_of(from) != prefix_of(to) {
        None
    } else {
        let f = body_of(from);
        let t = body_of(to);
        let k = common_len(f, t, 0);
        Some(up_steps(f.skip(k)) + t.skip(k).map_values(|p: PartView| part_text(p)))
    }
}

/// The steps joined by `/`, or `.` where there are none.
pub open spec fn steps_text(steps: Seq<Seq<char>>) -> Seq<char> {
    if steps.len() == 0 {
        "."@
    } else {
        join(steps, "/"@)
    }
}

/// The relative path from the components `from` to the components `to`,
/// its steps separated by `/` (see `steps_between`).
pub open spec fn relative_of_parts(from: Seq<PartView>, to: Seq<PartView>) -> Option<Seq<char>> {
    match steps_between(from, to) {
        Some(steps) => Some(steps_text(steps)),
        None => None,
    }
}

/// The relative path from the path `from` to the path `to`, over the
/// components that std reads in them (see `relative_of_parts`).
pub open spec fn relative_between(from: Seq<char>, to: Seq<char>) -> Option<Seq<char>> {
    relative_of_parts(components_of(from), components_of(to))
}

/// Where the components after the prefix and the root begin.
fn body_start(c: &Vec<PathPart>) -> (r: usize)
    ensures
        r <= c@.len(),
        part_views(c@).skip(r as int) == body_of(part_views(c@)),
{
    let ghost v = part_views(c@);
    let mut start: usize = 0;
    if c.len() > 0 {
        match &c[0] {
            PathPart::Prefix(_) => {
                start = 1;
            },
            _ => {},
        }
    }
    let ghost c1 = if prefix_of(v) is Some {
        v.drop_first()
    } else {
        v
    };
    assert(v.skip(start as int) =~= c1);
    if start < c.len() {
        match &c[start] {
            PathPart::RootDir => {
                start = start + 1;
                assert(v.skip(start as int) =~= c1.drop_first());
            },
            _ => {},
        }
    }
    start
}

/// The text of a component (see `part_text`).
fn part_string(p: &PathPart) -> (r: String)
    ensures
        r@ == part_text(p@),
{
    match p {
        PathPart::Prefix(t) => t.clone(),
        PathPart::RootDir => String::from_str("/"),
        PathPart::CurDir => String::from_str("."),
        PathPart::ParentDir => String::from_str(".."),
        PathPart::Normal(t) => t.clone(),
    }
}

/// The text of the prefix that the components `c` begin with, if any.
fn prefix_text(c: &Vec<PathPart>) -> (r: Option<String>)
    ensures
        opt_view(r) == prefix_of(part_views(c@)),
{
    if c.len() > 0 {
        match &c[0] {
            PathPart::Prefix(t) => Some(t.clone()),
            _ => None,
        }
    } else {
        None
    }
}

/// How many components `f[fs..]` and `t[ts..]` share at their start.
fn shared_len(fc: &Vec<PathPart>, fs: usize, tc: &Vec<PathPart>, ts: usize) -> (k: usize)
    requires
        fs <= fc@.len(),
        ts <= tc@.len(),
    ensures
        fs + k <= fc@.len(),
        ts + k <= tc@.len(),
        common_len(part_views(fc@).skip(fs as int), part_views(tc@).skip(ts as int), 0) == k,
{
    let ghost f = part_views(fc@).skip(fs as int);
    let ghost t = part_views(tc@).skip(ts as int);
    let mut k: usize = 0;
    let fl = fc.len() - fs;
    let tl = tc.len() - ts;
    while k < fl && k < tl && same_part(&fc[fs + k], &tc[ts + k])
        invariant
            fs <= fc.len(),
            ts <= tc.len(),
            fl == fc.len() - fs,
            tl == tc.len() - ts,
            k <= fl,
            k <= tl,
            f == part_views(fc@).skip(fs as int),
            t == part_views(tc@).skip(ts as int),
            common_len(f, t, 0) == common_len(f, t, k as int),
        decreases fl - k,
    {
        assert(f[k as int] == fc@[fs + k]@);
        assert(t[k as int] == tc@[ts + k]@);
        k = k + 1;
    }
    proof {
        if k < fl && k < tl {
            assert(f[k as int] == fc@[fs + k]@);
            assert(t[k as int] == tc@[ts + k]@);
        }
    }
    k
}

/// A `..` for each directory level among `fc[from..]`.
fn up_steps_from(fc: &Vec<PathPart>, from: usize) -> (steps: Vec<String>)
    requires
        from <= fc@.len(),
    ensures
        views(steps@) == up_steps(part_views(fc@).skip(from as int)),
{
    let ghost fv = part_views(fc@);
    let mut steps: Vec<String> = Vec::new();
    let mut i = from;
    while i < fc.len()
        invariant
            from <= i <= fc@.len(),
            fv == part_views(fc@),
            views(steps@) == up_steps(fv.subrange(from as int, i as int)),
        decreases fc.len() - i,
    {
        let ghost before = views(steps@);
        assert(fv.subrange(from as int, i + 1).drop_last() =~= fv.subrange(from as int, i as int));
        assert(fv.subrange(from as int, i + 1).last() == fc@[i as int]@);
        match &fc[i] {
            PathPart::Normal(_) | PathPart::CurDir | PathPart::ParentDir => {
                steps.push(String::from_str(".."));
                assert(views(steps@) =~= before.push(".."@));
            },
            _ => {},
        }
        i = i + 1;
    }
    assert(fv.subrange(from as int, fc@.len() as int) =~= fv.skip(from as int));
    steps
}

/// Appends the texts of `tc[from..]` to `steps`.
fn push_part_texts(steps: &mut Vec<String>, tc: &Vec<PathPart>, from: usize)
    requires
        from <= tc@.len(),
    ensures
        views(final(steps)@) == views(old(steps)@) + part_views(tc@).skip(from as int).map_values(
            |p: PartView| part_text(p),
        ),
{
    let ghost tv = part_views(tc@);
    let ghost start = views(steps@);
    let mut j = from;
    while j < tc.len()
        invariant
            from <= j <= tc@.len(),
            tv == part_views(tc@),
            views(steps@) == start + tv.subrange(from as int, j as int).map_values(
                |p: PartView| part_text(p),
            ),
        decreases tc.len() - j,
    {
        let ghost before = views(steps@);
        steps.push(part_string(&tc[j]));
        assert(views(steps@) =~= before.push(part_text(tc@[j as int]@)));
        assert(tv.subrange(from as int, j + 1).map_values(|p: PartView| part_text(p)) =~= tv.subrange(
            from as int,
            j as int,
        ).map_values(|p: PartView| part_text(p)).push(part_text(tv[j as int])));
        j = j + 1;
    }
    assert(tv.subrange(from as int, tc@.len() as int) =~= tv.skip(from as int));
}

/// The relative path from `from` to `to` (see `relative_between`).
pub fn relative_path_between(from: &str, to: &str) -> (r: Option<String>)
    ensures
        opt_view(r) == relative_between(from@, to@),
{
    let fc = path_components(from);
    let tc = path_components(to);
    relative_from_parts(&fc, &tc)
}

/// The relative path from the components `fc` to the components `tc` (see
/// `relative_of_parts`).
pub fn relative_from_parts(fc: &Vec<PathPart>, tc: &Vec<PathPart>) -> (r: Option<String>)
    ensures
        opt_view(r) == relative_of_parts(part_views(fc@), part_views(tc@)),
{
    let fp = prefix_text(&fc);
    let tp = prefix_text(&tc);
    let same_prefix = match (&fp, &tp) {
        (None, None) => true,
        (Some(x), Some(y)) => {
            let xc = chars_of(x.as_str());
            let yc = chars_of(y.as_str());
            same_chars(&xc, &yc)
        },
        _ => false,
    };
    if !same_prefix {
        return None;
    }
    let fs = body_start(&fc);
    let ts = body_start(&tc);
    let k = shared_len(&fc, fs, &tc, ts);
    assert(fs + k <= fc.len());
    assert(ts + k <= tc.len());
    let ghost f = part_views(fc@).skip(fs as int);
    let ghost t = part_views(tc@).skip(ts as int);
    let mut steps = up_steps_from(&fc, fs + k);
    assert(part_views(fc@).skip(fs + k) =~= f.skip(k as int));
    push_part_texts(&mut steps, &tc, ts + k);
    assert(part_views(tc@).skip(ts + k) =~= t.skip(k as int));
    if steps.len() == 0 {
        Some(String::from_str("."))
    } else {
        Some(join_strings(&steps, "/"))
    }
}

/// `s` with every `\` turned into `/`.
pub open spec fn forward_slashes(s: Seq<char>) -> Seq<char> {
    s.map_values(|c: char| if c == '\\' { '/' } else { c })
}

/// `s` with every `\` turned into `/`.
pub fn replace_backslashes(s: &str) -> (r: String)
    ensures
        r@ == forward_slashes(s@),
{
    let c = chars_of(s);
    let mut out = String::new();
    let mut i: usize = 0;
    while i < c.len()
        invariant
            i <= c@.len(),
            out@ == forward_slashes(c@.subrange(0, i as int)),
        decreases c.len() - i,
    {
        let ch = if c[i] == '\\' {
            '/'
        } else {
            c[i]
        };
        push_char(&mut out, ch);
        assert(forward_slashes(c@.subrange(0, i + 1)) =~= forward_slashes(c@.subrange(0, i as int)).push(
            ch,
        ));
        i = i + 1;
    }
    assert(c@.subrange(0, c@.len() as int) =~= c@);
    out
}

/// `p` itself where it is absolute, else `p` under `root`.
pub open spec fn anchored(p: Seq<char>, root: Seq<char>) -> Seq<char> {
    if is_absolute_path(p) {
        p
    } else {
        joined_path(root, p)
    }
}

/// The path by which the script at `script_path` imports the contract file
/// at `contract_path`: relative to the script's directory, with `/`
/// between steps; both paths are taken under `root` where relative.
pub open spec fn import_path_of(script_path: Seq<char>, contract_path: Seq<char>, root: Seq<char>) -> Option<Seq<char>> {
    match parent_path(script_path) {
        None => None,
        Some(dir) => match relative_between(anchored(dir, root), anchored(contract_path, root)) {
            Some(rel) => Some(forward_slashes(rel)),
            None => None,
        },
    }
}

/// `p` itself where it is absolute, else `p` under `root`.
pub fn anchor(p: &str, root: &str) -> (r: String)
    ensures
        r@ == anchored(p@, root@),
{
    if path_is_absolute(p) {
        String::from_str(p)
    } else {
        path_join(root, p)
    }
}

/// The import path of the contract file from the script (see `import_path_of`).
pub fn compute_import_path(script_path: &str, contract_path: &str, root: &str) -> (r: Option<String>)
    ensures
        opt_view(r) == import_path_of(script_path@, contract_path@, root@),
{
    let script_dir = match path_parent(script_path) {
        Some(d) => d,
        None => return None,
    };
    let base = anchor(script_dir.as_str(), root);
    let target = anchor(contract_path, root);
    match relative_path_between(base.as_str(), target.as_str()) {
        Some(rel) => Some(replace_backslashes(rel.as_str())),
        None => None,
    }
}

/// The final component of a path where it is a normal one (`Path::file_name`).
pub open spec fn file_name_of(c: Seq<PartView>) -> Option<Seq<char>> {
    if c.len() > 0 {
        match c.last() {
            PartView::Normal(t) => Some(t),
            _ => None,
        }
    } else {
        None
    }
}

/// The file name of the path with components `c` (see `file_name_of`).
pub fn file_name(c: &Vec<PathPart>) -> (r: Option<String>)
    ensures
        opt_view(r) == file_name_of(part_views(c@)),
{
    if c.len() == 0 {
        return None;
    }
    match &c[c.len() - 1] {
        PathPart::Normal(t) => Some(t.clone()),
        _ => None,
    }
}

/// Every component of `c` is a plain name.
pub open spec fn all_normal(c: Seq<PartView>) -> bool {
    forall|j: int| 0 <= j < c.len() ==> (#[trigger] c[j]) is Normal
}

proof fn lemma_common_len_shared(a: Seq<PartView>, b: Seq<PartView>, k: int)
    requires
        0 <= k <= a.len(),
        k <= b.len(),
        forall|j: int| 0 <= j < k ==> a[j] == b[j],
    ensures
        k <= common_len(a, b, k) <= a.len(),
        common_len(a, b, k) <= b.len(),
        forall|j: int| 0 <= j < common_len(a, b, k) ==> a[j] == b[j],
        common_len(a, b, k) == a.len() || common_len(a, b, k) == b.len() || a[common_len(a, b, k)]
            != b[common_len(a, b, k)],
    decreases a.len() - k,
{
    if k < a.len() && k < b.len() && a[k] == b[k] {
        lemma_common_len_shared(a, b, k + 1);
    }
}

proof fn lemma_up_steps_normal(a: Seq<PartView>)
    requires
        all_normal(a),
    ensures
        up_steps(a) == Seq::new(a.len(), |_i: int| ".."@),
    decreases a.len(),
{
    if a.len() > 0 {
        let b = a.drop_last();
        assert forall|j: int| 0 <= j < b.len() implies (#[trigger] b[j]) is Normal by {
            assert(b[j] == a[j]);
        }
        lemma_up_steps_normal(b);
        assert(a.last() == a[a.len() - 1]);
        assert(Seq::new(b.len(), |_i: int| ".."@).push(".."@) =~= Seq::new(a.len(), |_i: int| ".."@));
    }
}

/// Between two rooted paths of plain names, the relative path climbs with
/// one `..` for each level of `from` past the longest shared start `k`, then
/// descends through the rest of `to`; `k` is the longest start they share.
pub proof fn lemma_relative_steps(f: Seq<PartView>, t: Seq<PartView>)
    requires
        all_normal(f),
        all_normal(t),
    ensures
        ({
            let k = common_len(f, t, 0);
            &&& 0 <= k <= f.len()
            &&& k <= t.len()
            &&& forall|j: int| 0 <= j < k ==> f[j] == t[j]
            &&& (k == f.len() || k == t.len() || f[k] != t[k])
            &&& steps_between(seq![PartView::RootDir] + f, seq![PartView::RootDir] + t) == Some(
                Seq::new((f.len() - k) as nat, |_i: int| ".."@) + t.skip(k).map_values(
                    |p: PartView| part_text(p),
                ),
            )
        }),
{
    lemma_common_len_shared(f, t, 0);
    let k = common_len(f, t, 0);
    let rf = seq![PartView::RootDir] + f;
    let rt = seq![PartView::RootDir] + t;
    assert(rf[0] == PartView::RootDir);
    assert(rt[0] == PartView::RootDir);
    assert(rf.drop_first() =~= f);
    assert(rt.drop_first() =~= t);
    assert(body_of(rf) == f);
    assert(body_of(rt) == t);
    let fk = f.skip(k);
    assert forall|j: int| 0 <= j < fk.len() implies (#[trigger] fk[j]) is Normal by {
        assert(fk[j] == f[j + k]);
    }
    lemma_up_steps_normal(fk);
}

/// The relative path from a path to itself is `.`.
pub proof fn lemma_relative_to_itself(p: Seq<char>)
    ensures
        relative_between(p, p) == Some("."@),
{
    let c = components_of(p);
    let f = body_of(c);
    lemma_common_len_self(f, 0);
    assert(f.skip(f.len() as int) =~= Seq::<PartView>::empty());
    assert(up_steps(Seq::<PartView>::empty()) =~= Seq::<Seq<char>>::empty());
    let steps = up_steps(f.skip(common_len(f, f, 0))) + f.skip(common_len(f, f, 0)).map_values(
        |q: PartView| part_text(q),
    );
    assert(steps =~= Seq::<Seq<char>>::empty());
}

proof fn lemma_common_len_self(f: Seq<PartView>, k: int)
    requires
        0 <= k <= f.len(),
    ensures
        common_len(f, f, k) == f.len(),
    decreases f.len() - k,
{
    if k < f.len() {
        lemma_common_len_self(f, k + 1);
    }
}

} // verus!
verus! {

proof fn lemma_text_zero(a: Seq<char>, b: Seq<char>)
    ensures
        compare_text(a, b) == 0 <==> a == b,
        compare_text(a, b) == -compare_text(b, a),
        -1 <= compare_text(a, b) <= 1,
    decreases a.len(),
{
    if a.len() > 0 && b.len() > 0 {
        lemma_text_zero(a.drop_first(), b.drop_first());
        if a[0] == b[0] && a.drop_first() == b.drop_first() {
            assert(a =~= seq![a[0]] + a.drop_first());
            assert(b =~= seq![b[0]] + b.drop_first());
        }
    } else if a.len() == 0 && b.len() == 0 {
        assert(a =~= b);
    }
}

proof fn lemma_text_lt_trans(a: Seq<char>, b: Seq<char>, c: Seq<char>)
    requires
        compare_text(a, b) < 0,
        compare_text(b, c) < 0,
    ensures
        compare_text(a, c) < 0,
    decreases a.len(),
{
    if a.len() > 0 && b.len() > 0 && c.len() > 0 && a[0] == b[0] && b[0] == c[0] {
        lemma_text_lt_trans(a.drop_first(), b.drop_first(), c.drop_first());
    }
}

proof fn lemma_parts_facts(a: PartView, b: PartView)
    ensures
        compare_parts(a, b) == 0 <==> a == b,
        compare_parts(a, b) == -compare_parts(b, a),
        -1 <= compare_parts(a, b) <= 1,
{
    match (a, b) {
        (PartView::Prefix(x), PartView::Prefix(y)) => lemma_text_zero(x, y),
        (PartView::Normal(x), PartView::Normal(y)) => lemma_text_zero(x, y),
        _ => {},
    }
}

proof fn lemma_parts_lt_trans(a: PartView, b: PartView, c: PartView)
    requires
        compare_parts(a, b) < 0,
        compare_parts(b, c) < 0,
    ensures
        compare_parts(a, c) < 0,
{
    match (a, b, c) {
        (PartView::Prefix(x), PartView::Prefix(y), PartView::Prefix(z)) => lemma_text_lt_trans(x, y, z),
        (PartView::Normal(x), PartView::Normal(y), PartView::Normal(z)) => lemma_text_lt_trans(x, y, z),
        _ => {},
    }
}

/// Two paths compare as equal exactly when they have the same components,
/// and swapping them reverses their order.
pub proof fn lemma_path_order_facts(a: Seq<PartView>, b: Seq<PartView>)
    ensures
        compare_paths(a, b) == 0 <==> a == b,
        compare_paths(a, b) == -compare_paths(b, a),
        -1 <= compare_paths(a, b) <= 1,
    decreases a.len(),
{
    if a.len() > 0 && b.len() > 0 {
        lemma_parts_facts(a[0], b[0]);
        lemma_path_order_facts(a.drop_first(), b.drop_first());
        if a[0] == b[0] && a.drop_first() == b.drop_first() {
            assert(a =~= seq![a[0]] + a.drop_first());
            assert(b =~= seq![b[0]] + b.drop_first());
        }
    } else if a.len() == 0 && b.len() == 0 {
        assert(a =~= b);
    }
}

proof fn lemma_path_lt_trans(a: Seq<PartView>, b: Seq<PartView>, c: Seq<PartView>)
    requires
        compare_paths(a, b) < 0,
        compare_paths(b, c) < 0,
    ensures
        compare_paths(a, c) < 0,
    decreases a.len(),
{
    if a.len() > 0 && b.len() > 0 && c.len() > 0 {
        lemma_parts_facts(a[0], b[0]);
        lemma_parts_facts(b[0], c[0]);
        lemma_parts_facts(a[0], c[0]);
        let p = compare_parts(a[0], b[0]);
        let q = compare_parts(b[0], c[0]);
        if p == 0 && q == 0 {
            lemma_path_lt_trans(a.drop_first(), b.drop_first(), c.drop_first());
        } else if p < 0 && q < 0 {
            lemma_parts_lt_trans(a[0], b[0], c[0]);
        }
    }
}

/// The order of paths is transitive: `a` no later than `b` and `b` no later
/// than `c` puts `a` no later than `c`.
pub proof fn lemma_path_le_trans(a: Seq<PartView>, b: Seq<PartView>, c: Seq<PartView>)
    requires
        compare_paths(a, b) <= 0,
        compare_paths(b, c) <= 0,
    ensures
        compare_paths(a, c) <= 0,
{
    lemma_path_order_facts(a, b);
    lemma_path_order_facts(b, c);
    lemma_path_order_facts(a, c);
    if compare_paths(a, b) < 0 && compare_paths(b, c) < 0 {
        lemma_path_lt_trans(a, b, c);
    }
}

} // verus!
