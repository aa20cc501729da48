//! Which files a traversal visits.

use crate::paths::{
    component_count, components, law_components_are_the_names, law_stripping_leaves_the_rest, path_component, same_components, strip_path_prefix,
    stripped,
};
use crate::text::{chars_of, parse_number, string_of, views, written_number};
use ignore::overrides::{Override, OverrideBuilder};
use vstd::prelude::*;

verus! {

/// Traversal filters. By default hidden files are skipped, ignore files respected,
/// links not followed, and depth and size unbounded.
pub struct WalkOptions {
    pub hidden: bool,
    pub no_ignore: bool,
    pub follow: bool,
    pub max_depth: Option<usize>,
    pub max_filesize: Option<u64>,
    pub globs: Vec<String>,
}

/// Nothing was filtered differently from the default.
pub open spec fn is_default_walk(w: WalkOptions) -> bool {
    !w.hidden && !w.no_ignore && !w.follow && w.max_depth is None && w.max_filesize is None && w.globs@.len() == 0
}

/// A filter asks for files that an index does not hold.
pub open spec fn asks_beyond_index(w: WalkOptions) -> bool {
    w.hidden || w.no_ignore || w.follow
}

/// A filter leaves out files that an index may hold.
pub open spec fn asks_within_index(w: WalkOptions) -> bool {
    w.max_depth is Some || w.max_filesize is Some || w.globs@.len() > 0
}

impl WalkOptions {
    /// The default traversal.
    pub fn new() -> (w: Self)
        ensures
            is_default_walk(w),
    {
        WalkOptions {
            hidden: false,
            no_ignore: false,
            follow: false,
            max_depth: None,
            max_filesize: None,
            globs: Vec::new(),
        }
    }

    /// Whether this is the default traversal.
    pub fn is_default(&self) -> (b: bool)
        ensures
            b == is_default_walk(*self),
    {
        !self.hidden && !self.no_ignore && !self.follow && self.max_depth.is_none() && self.max_filesize.is_none()
            && self.globs.len() == 0
    }

    /// Whether files are asked for that an index does not hold.
    pub fn beyond_index(&self) -> (b: bool)
        ensures
            b == asks_beyond_index(*self),
    {
        self.hidden || self.no_ignore || self.follow
    }

    /// Whether files are left out that an index may hold.
    pub fn within_index(&self) -> (b: bool)
        ensures
            b == asks_within_index(*self),
    {
        self.max_depth.is_some() || self.max_filesize.is_some() || self.globs.len() > 0
    }
}

/// A traversal is the default, or filters one way or the other.
pub proof fn law_filters_are_told_apart(w: WalkOptions)
    ensures
        is_default_walk(w) <==> !asks_beyond_index(w) && !asks_within_index(w),
{
}

// ---- sizes ----

/// The factor that a size suffix stands for, as characters to drop and bytes.
pub open spec fn size_suffix(c: char) -> Option<(int, nat)> {
    if c == 'K' || c == 'k' {
        Some((1, 1024))
    } else if c == 'M' || c == 'm' {
        Some((1, 1048576))
    } else if c == 'G' || c == 'g' {
        Some((1, 1073741824))
    } else if '0' <= c && c <= '9' {
        Some((0, 1))
    } else {
        None
    }
}

/// The size that a text writes: a number with an optional suffix, in powers of 1024.
pub open spec fn size_of_text(s: Seq<char>) -> Option<nat> {
    if s.len() == 0 {
        None
    } else {
        match size_suffix(s.last()) {
            None => None,
            Some((cut, factor)) => match written_number(s.take(s.len() - cut), u64::MAX as nat) {
                None => None,
                Some(n) => if n * factor <= u64::MAX {
                    Some(n * factor)
                } else {
                    None
                },
            },
        }
    }
}

/// Read a file size.
pub fn parse_filesize(s: &str) -> (res: Option<u64>)
    ensures
        match res {
            Some(n) => size_of_text(s@) == Some(n as nat),
            None => size_of_text(s@) is None,
        },
{
    let chars: Vec<char> = chars_of(s);
    let size: usize = chars.len();
    if size == 0 {
        return None;
    }
    let c: char = chars[size - 1];
    let (cut, factor): (usize, u64) = if c == 'K' || c == 'k' {
        (1, 1024)
    } else if c == 'M' || c == 'm' {
        (1, 1048576)
    } else if c == 'G' || c == 'g' {
        (1, 1073741824)
    } else if '0' <= c && c <= '9' {
        (0, 1)
    } else {
        return None;
    };
    let head: &[char] = &chars[0..size - cut];
    assert(head@ =~= chars@.take(size - cut));
    match parse_number(head, u64::MAX) {
        None => None,
        Some(n) => n.checked_mul(factor),
    }
}

// ---- globs ----

/// A set of globs that was compiled, opaque here.
#[verifier::external_type_specification]
#[verifier::external_body]
pub struct ExOverride(Override);

/// Globs that are being compiled, opaque here.
#[verifier::external_type_specification]
#[verifier::external_body]
pub struct ExOverrideBuilder(OverrideBuilder);

/// Globs being collected, for paths below a root. Only `start_globs` and `add_glob`
/// make one, so that what was added is always what is listed.
struct GlobBuilder {
    root: String,
    globs: Vec<String>,
    builder: OverrideBuilder,
}

/// Compiled globs, for paths below a root. Only `build_globs` makes one.
pub struct GlobFilter {
    root: String,
    globs: Vec<String>,
    compiled: Override,
}

impl View for GlobFilter {
    type V = (Seq<char>, Seq<Seq<char>>);

    closed spec fn view(&self) -> (Seq<char>, Seq<Seq<char>>) {
        (self.root@, views(self.globs@))
    }
}

/// A glob that does not compile: which one, where it can be told, and why.
pub struct GlobError {
    pub glob: Option<String>,
    pub text: String,
}

/// Whether `OverrideBuilder::add` takes a glob, or the text of its error.
pub uninterp spec fn glob_outcome(glob: Seq<char>) -> Result<(), Seq<char>>;

/// Whether `OverrideBuilder::build` compiles the globs that were added, or the text
/// of its error.
pub uninterp spec fn globs_outcome(globs: Seq<Seq<char>>) -> Result<(), Seq<char>>;

/// Whether `Override::matched` leaves a path out.
pub uninterp spec fn globs_leave_out(root: Seq<char>, globs: Seq<Seq<char>>, path: Seq<char>, is_dir: bool) -> bool;

/// Start collecting globs: `ignore::overrides::OverrideBuilder::new`, which takes
/// the root and holds no glob.
#[verifier::external_body]
fn start_globs(root: &str) -> (b: GlobBuilder)
    ensures
        b.root@ == root@,
        b.globs@.len() == 0,
{
    GlobBuilder { root: root.to_owned(), globs: Vec::new(), builder: OverrideBuilder::new(root) }
}

/// Add one glob: `ignore::overrides::OverrideBuilder::add` reads the glob as a line
/// of an ignore file, whatever was added before, and keeps it when it is well
/// formed. Which globs are is not stated.
#[verifier::external_body]
fn add_glob(b: &mut GlobBuilder, glob: &str) -> (res: Result<(), String>)
    ensures
        final(b).root@ == old(b).root@,
        match res {
            Ok(_) => glob_outcome(glob@) is Ok && views(final(b).globs@) == views(old(b).globs@).push(glob@),
            Err(e) => glob_outcome(glob@) == Err::<(), Seq<char>>(e@),
        },
{
    match b.builder.add(glob) {
        Ok(_) => Ok(b.globs.push(glob.to_owned())),
        Err(e) => Err(e.to_string()),
    }
}

/// Compile the collected globs: `ignore::overrides::OverrideBuilder::build` depends
/// on what was added alone. Which globs compile is not stated.
#[verifier::external_body]
fn build_globs(b: GlobBuilder) -> (res: Result<GlobFilter, String>)
    ensures
        match res {
            Ok(f) => globs_outcome(views(b.globs@)) is Ok && f@ == (b.root@, views(b.globs@)),
            Err(e) => globs_outcome(views(b.globs@)) == Err::<(), Seq<char>>(e@),
        },
{
    match b.builder.build() {
        Ok(compiled) => Ok(GlobFilter { root: b.root, globs: b.globs, compiled }),
        Err(e) => Err(e.to_string()),
    }
}

/// Whether the globs leave a path out: `ignore::overrides::Override::matched`
/// depends on the root, the globs, the path and whether it is a directory. Which
/// paths match is not stated.
#[verifier::external_body]
fn glob_leaves_out(f: &GlobFilter, path: &str, is_dir: bool) -> (b: bool)
    ensures
        b == globs_leave_out(f@.0, f@.1, path@, is_dir),
{
    f.compiled.matched(path, is_dir).is_ignore()
}

/// The first glob that is refused.
pub open spec fn first_bad_glob(globs: Seq<Seq<char>>) -> Option<(Seq<char>, Seq<char>)>
    decreases globs.len(),
{
    if globs.len() == 0 {
        None
    } else {
        match first_bad_glob(globs.drop_last()) {
            Some(bad) => Some(bad),
            None => match glob_outcome(globs.last()) {
                Err(e) => Some((globs.last(), e)),
                Ok(_) => None,
            },
        }
    }
}

proof fn lemma_bad_glob_persists(globs: Seq<Seq<char>>, k: int)
    requires
        0 <= k <= globs.len(),
        first_bad_glob(globs.take(k)) is Some,
    ensures
        first_bad_glob(globs) == first_bad_glob(globs.take(k)),
    decreases globs.len() - k,
{
    if k == globs.len() {
        assert(globs.take(k) =~= globs);
    } else {
        assert(globs.take(k + 1).drop_last() =~= globs.take(k));
        lemma_bad_glob_persists(globs, k + 1);
    }
}

/// Compile globs for paths below `root`. The error names the first glob that is
/// refused; it names none when each is taken but the whole does not compile.
pub fn compile_globs(root: &str, globs: &[String]) -> (res: Result<GlobFilter, GlobError>)
    ensures
        match res {
            Ok(f) => first_bad_glob(views(globs@)) is None && globs_outcome(views(globs@)) is Ok && f@ == (
                root@,
                views(globs@),
            ),
            Err(e) => match e.glob {
                Some(g) => first_bad_glob(views(globs@)) == Some((g@, e.text@)),
                None => first_bad_glob(views(globs@)) is None && globs_outcome(views(globs@)) == Err::<
                    (),
                    Seq<char>,
                >(e.text@),
            },
        },
{
    let mut b: GlobBuilder = start_globs(root);
    let ghost all = views(globs@);
    let mut k: usize = 0;
    assert(views(b.globs@) =~= all.take(0));
    while k < globs.len()
        invariant
            k <= globs@.len(),
            all == views(globs@),
            b.root@ == root@,
            views(b.globs@) == all.take(k as int),
            first_bad_glob(all.take(k as int)) is None,
        decreases globs@.len() - k,
    {
        proof {
            assert(all.take(k + 1).drop_last() =~= all.take(k as int));
            assert(all.take(k + 1).last() == globs@[k as int]@);
        }
        match add_glob(&mut b, globs[k].as_str()) {
            Err(text) => {
                proof {
                    lemma_bad_glob_persists(all, k + 1);
                }
                return Err(GlobError { glob: Some(globs[k].clone()), text });
            },
            Ok(_) => {
                assert(views(b.globs@) =~= all.take(k + 1));
            },
        }
        k = k + 1;
    }
    assert(all.take(k as int) =~= all);
    match build_globs(b) {
        Ok(f) => Ok(f),
        Err(text) => Err(GlobError { glob: None, text }),
    }
}

// ---- entries ----

/// A `.git` directory, or something inside one, below the root.
pub open spec fn inside_git(path: Seq<char>, root: Seq<char>, is_dir: bool) -> bool {
    match stripped(path, root) {
        None => false,
        Some(rel) => exists|k: int| is_git_at(components(rel), k, is_dir),
    }
}

/// The component at position `k` is `.git`, and a directory: something follows it,
/// or the whole path is one.
pub open spec fn is_git_at(parts: Seq<Seq<char>>, k: int, is_dir: bool) -> bool {
    0 <= k < parts.len() && parts[k] == seq!['.', 'g', 'i', 't'] && (k < parts.len() - 1 || is_dir)
}

/// The path as globs see it: without a leading `.`.
pub open spec fn glob_path(path: Seq<char>) -> Seq<char> {
    match stripped(path, seq!['.', '/']) {
        Some(rest) => rest,
        None => path,
    }
}

/// A traversal keeps an entry. The root itself is always kept; below it `.git` is
/// left out unless ignore files are off, files over the size limit are left out, and
/// so is what the globs leave out.
pub open spec fn entry_kept(
    root: Seq<char>,
    path: Seq<char>,
    is_dir: bool,
    size: Option<u64>,
    skip_git: bool,
    max_filesize: Option<u64>,
    globs: Option<(Seq<char>, Seq<Seq<char>>)>,
) -> bool {
    components(path) == components(root) || {
        &&& !(skip_git && inside_git(path, root, is_dir))
        &&& !(max_filesize matches Some(max) && !is_dir && (size matches Some(n) && n > max))
        &&& !(globs matches Some(g) && globs_leave_out(g.0, g.1, glob_path(path), is_dir))
    }
}

/// Whether `path` is a `.git` directory, or something inside one, below the root.
fn is_inside_git(path: &str, root: &str, is_dir: bool) -> (b: bool)
    ensures
        b == inside_git(path@, root@, is_dir),
{
    match strip_path_prefix(path, root) {
        None => false,
        Some(rel) => {
            let n: usize = component_count(rel.as_str());
            let mut k: usize = 0;
            while k < n
                invariant
                    k <= n,
                    n == components(rel@).len(),
                    stripped(path@, root@) is Some,
                    stripped(path@, root@)->Some_0 == rel@,
                    forall|j: int| j < k ==> !#[trigger] is_git_at(components(rel@), j, is_dir),
                decreases n - k,
            {
                let c: Vec<char> = path_component(rel.as_str(), k);
                let git: bool = c.len() == 4 && c[0] == '.' && c[1] == 'g' && c[2] == 'i' && c[3] == 't';
                proof {
                    if git {
                        assert(c@ =~= seq!['.', 'g', 'i', 't']);
                    } else if c@ == seq!['.', 'g', 'i', 't'] {
                        assert(c@[0] == '.' && c@[1] == 'g' && c@[2] == 'i' && c@[3] == 't');
                    }
                }
                if git && (k < n - 1 || is_dir) {
                    assert(is_git_at(components(rel@), k as int, is_dir));
                    return true;
                }
                k = k + 1;
            }
            false
        },
    }
}

/// Whether a traversal keeps an entry. `size` is the length of a file, where it can
/// be told.
pub fn keep_entry(
    root: &str,
    path: &str,
    is_dir: bool,
    size: Option<u64>,
    skip_git: bool,
    max_filesize: Option<u64>,
    globs: Option<&GlobFilter>,
) -> (b: bool)
    ensures
        b == entry_kept(
            root@,
            path@,
            is_dir,
            size,
            skip_git,
            max_filesize,
            match globs {
                Some(g) => Some(g@),
                None => None,
            },
        ),
{
    if same_components(path, root) {
        return true;
    }
    if skip_git && is_inside_git(path, root, is_dir) {
        return false;
    }
    if let Some(max) = max_filesize {
        if !is_dir {
            if let Some(n) = size {
                if n > max {
                    return false;
                }
            }
        }
    }
    match globs {
        None => true,
        Some(g) => {
            let dot: Vec<char> = vec!['.', '/'];
            let dot: String = string_of(&dot);
            assert(dot@ =~= seq!['.', '/']);
            match strip_path_prefix(path, dot.as_str()) {
                Some(rest) => !glob_leaves_out(g, rest.as_str(), is_dir),
                None => !glob_leaves_out(g, path, is_dir),
            }
        },
    }
}

// ---- what is visited ----

/// A size is a number of bytes, or of kibi-, mebi- or gibibytes with the letter in either
/// case, that fits in 64 bits; anything else is none.
pub proof fn law_sizes_have_units(d: Seq<char>, c: char)
    ensures
        d.len() > 0 && '0' <= d.last() && d.last() <= '9' ==> size_of_text(d) == written_number(d, u64::MAX as nat),
        c == 'K' || c == 'k' || c == 'M' || c == 'm' || c == 'G' || c == 'g' ==> size_of_text(d.push(c)) == (
        match written_number(d, u64::MAX as nat) {
            Some(n) => {
                let size = n * (if c == 'K' || c == 'k' {
                    1024nat
                } else if c == 'M' || c == 'm' {
                    1024 * 1024
                } else {
                    1024 * 1024 * 1024
                });
                if size <= u64::MAX {
                    Some(size)
                } else {
                    None
                }
            },
            None => None,
        }),
        c != 'K' && c != 'k' && c != 'M' && c != 'm' && c != 'G' && c != 'g' && !('0' <= c && c <= '9') ==> size_of_text(
            d.push(c),
        ) is None,
        size_of_text(Seq::empty()) is None,
{
    let more = d.push(c);
    assert(more.last() == c);
    assert(more.take(more.len() - 1) =~= d);
    if d.len() > 0 {
        lemma_digit_is_no_unit(d.last());
        let same = d.take(d.len() - 0);
        assert(same =~= d);
        let n = written_number(d, u64::MAX as nat);
        if '0' <= d.last() && d.last() <= '9' {
            assert(size_suffix(d.last()) == Some((0int, 1nat)));
            if n is Some {
                assert(n->Some_0 * 1 == n->Some_0 <= u64::MAX);
                assert(size_of_text(d) == n);
            } else {
                assert(size_of_text(d) is None);
            }
        }
    }
}

proof fn lemma_digit_is_no_unit(c: char)
    ensures
        '0' <= c && c <= '9' ==> size_suffix(c) == Some((0int, 1nat)),
{
}

/// The root is always visited. Anything else is left out exactly if it is a `.git` directory
/// or lies in one, where those are skipped; if it is a file larger than asked for; or if the
/// globs leave it out.
pub proof fn law_entries_are_left_out_for_a_reason(
    root: Seq<char>,
    path: Seq<char>,
    is_dir: bool,
    size: Option<u64>,
    skip_git: bool,
    max_filesize: Option<u64>,
    globs: Option<(Seq<char>, Seq<Seq<char>>)>,
)
    requires
        components(root).len() <= components(path).len(),
        forall|k: int| 0 <= k < components(root).len() ==> #[trigger] components(path)[k] == components(root)[k],
    ensures
        components(path) == components(root) ==> entry_kept(root, path, is_dir, size, skip_git, max_filesize, globs),
        components(path) != components(root) ==> (!entry_kept(
            root,
            path,
            is_dir,
            size,
            skip_git,
            max_filesize,
            globs,
        ) <==> {
            ||| skip_git && exists|k: int|
                components(root).len() <= k < components(path).len() && #[trigger] components(path)[k] == seq![
                    '.',
                    'g',
                    'i',
                    't',
                ] && (is_dir || k < components(path).len() - 1)
            ||| max_filesize is Some && size is Some && !is_dir && size->Some_0 > max_filesize->Some_0
            ||| globs is Some && globs_leave_out(globs->Some_0.0, globs->Some_0.1, glob_path(path), is_dir)
        }),
{
    let n = components(root).len() as int;
    let all = components(path);
    law_stripping_leaves_the_rest(path, root);
    let rel = stripped(path, root)->Some_0;
    assert(components(rel) == all.skip(n));
    if inside_git(path, root, is_dir) {
        let k = choose|k: int| is_git_at(components(rel), k, is_dir);
        assert(all.skip(n)[k] == all[n + k]);
    }
    assert forall|k: int|
        n <= k < all.len() && #[trigger] all[k] == seq!['.', 'g', 'i', 't'] && (is_dir || k < all.len() - 1) implies inside_git(
        path,
        root,
        is_dir,
    ) by {
        assert(all.skip(n)[k - n] == all[k]);
        assert(is_git_at(components(rel), k - n, is_dir));
    }
}

/// The glob that is told as bad is the first that does not compile, and there is one exactly
/// if some glob does not.
pub proof fn law_first_bad_glob_is_told(globs: Seq<Seq<char>>, k: int)
    requires
        0 <= k <= globs.len(),
        forall|j: int| 0 <= j < k ==> glob_outcome(#[trigger] globs[j]) is Ok,
    ensures
        k < globs.len() && glob_outcome(globs[k]) is Err ==> first_bad_glob(globs) == Some(
            (globs[k], glob_outcome(globs[k])->Err_0),
        ),
        k == globs.len() ==> first_bad_glob(globs) is None,
    decreases globs.len(),
{
    if globs.len() > 0 {
        let front = globs.drop_last();
        assert(forall|j: int| 0 <= j < front.len() ==> front[j] == globs[j]);
        assert(globs.last() == globs[globs.len() - 1]);
        if k >= front.len() {
            law_first_bad_glob_is_told(front, front.len() as int);
        } else {
            law_first_bad_glob_is_told(front, k);
        }
    }
}

/// An index answers for a traversal exactly if that asks for no hidden, ignored or linked
/// files; and it answers as it stands exactly if, further, depth, size and globs leave
/// nothing out.
pub proof fn law_index_answers_for_plain_walks(w: WalkOptions)
    ensures
        asks_beyond_index(w) <==> w.hidden || w.no_ignore || w.follow,
        is_default_walk(w) <==> !w.hidden && !w.no_ignore && !w.follow && w.max_depth is None && w.max_filesize is None
            && w.globs@.len() == 0,
{
}

/// Globs see a path without a leading `.`, and otherwise as it stands.
pub proof fn law_globs_see_paths_without_a_leading_dot(path: Seq<char>)
    ensures
        components(path).len() > 0 && components(path)[0] == seq!['.'] ==> components(glob_path(path)) == components(
            path,
        ).skip(1),
        !(components(path).len() > 0 && components(path)[0] == seq!['.']) ==> glob_path(path) == path,
{
    let dot = seq!['.', '/'];
    assert(dot =~= seq!['.'].push('/') + Seq::<char>::empty());
    law_components_are_the_names(seq!['.'], Seq::empty());
    law_components_are_the_names(seq!['.'], seq!['.']);
    assert(components(dot) == seq![seq!['.']]);
    law_stripping_leaves_the_rest(path, dot);
}

} // verus!
