//! Paths as character sequences, with the component model of Unix paths:
//! a leading `/` is the root component, a leading `.` segment of a relative
//! path is the current-directory component, empty and other `.` segments
//! vanish, and every other segment (`..` included) is a component.
use vstd::prelude::*;
use crate::text::{
    chars_of, compare_chars, ends_with_str, eq_str, has_prefix, has_suffix, join, join_chars,
    push_all, starts_with_str, string_from, Cmp,
};

verus! {

/// The root component.
pub open spec fn root_comp() -> Seq<char> {
    seq!['/']
}

/// The current-directory component.
pub open spec fn cur_comp() -> Seq<char> {
    seq!['.']
}

/// The parent-directory component.
pub open spec fn parent_comp() -> Seq<char> {
    seq!['.', '.']
}

/// A component that names a file or directory.
pub open spec fn is_normal(c: Seq<char>) -> bool {
    c != root_comp() && c != cur_comp() && c != parent_comp()
}

/// The views of a vector of character vectors.
pub open spec fn views(v: Seq<Vec<char>>) -> Seq<Seq<char>> {
    v.map_values(|x: Vec<char>| x@)
}

/// `s` split at every occurrence of `sep` (as `str::split`).
pub open spec fn split_on(s: Seq<char>, sep: char) -> Seq<Seq<char>>
    decreases s.len(),
{
    if s.len() == 0 {
        seq![seq![]]
    } else {
        let prev = split_on(s.drop_last(), sep);
        if s.last() == sep {
            prev.push(seq![])
        } else {
            prev.update(prev.len() - 1, prev.last().push(s.last()))
        }
    }
}

pub proof fn lemma_split_on_nonempty(s: Seq<char>, sep: char)
    ensures
        split_on(s, sep).len() >= 1,
    decreases s.len(),
{
    if s.len() > 0 {
        lemma_split_on_nonempty(s.drop_last(), sep);
    }
}

/// The segments that stay components: neither empty nor `.`.
pub open spec fn is_kept(seg: Seq<char>) -> bool {
    seg.len() > 0 && seg != cur_comp()
}

pub open spec fn kept(segs: Seq<Seq<char>>) -> Seq<Seq<char>>
    decreases segs.len(),
{
    if segs.len() == 0 {
        seq![]
    } else {
        let r = kept(segs.drop_last());
        if is_kept(segs.last()) {
            r.push(segs.last())
        } else {
            r
        }
    }
}

/// Whether the path starts at the root.
pub open spec fn is_absolute(p: Seq<char>) -> bool {
    p.len() > 0 && p[0] == '/'
}

/// The components of a path, as `Path::components` yields them on Unix.
pub open spec fn path_components(p: Seq<char>) -> Seq<Seq<char>> {
    let segs = split_on(p, '/');
    if is_absolute(p) {
        seq![root_comp()] + kept(segs)
    } else if segs[0] == cur_comp() {
        seq![cur_comp()] + kept(segs)
    } else {
        kept(segs)
    }
}

/// Splits at every `sep`.
pub fn split_chars(s: &[char], sep: char) -> (r: Vec<Vec<char>>)
    ensures
        views(r@) == split_on(s@, sep),
{
    let mut done: Vec<Vec<char>> = Vec::new();
    let mut cur: Vec<char> = Vec::new();
    let mut i: usize = 0;
    proof { assert(s@.take(0) =~= Seq::<char>::empty()); assert(views(done@).push(cur@) =~= seq![seq![]]); }
    while i < s.len()
        invariant
            i <= s.len(),
            views(done@).push(cur@) == split_on(s@.take(i as int), sep),
        decreases s.len() - i,
    {
        let ghost prev = split_on(s@.take(i as int), sep);
        proof {
            assert(s@.take(i + 1).drop_last() =~= s@.take(i as int));
            assert(s@.take(i + 1).last() == s@[i as int]);
        }
        if s[i] == sep {
            done.push(cur);
            cur = Vec::new();
            proof { assert(views(done@).push(cur@) =~= prev.push(seq![])); }
        } else {
            let ghost old_cur = cur@;
            cur.push(s[i]);
            proof {
                assert(views(done@).push(cur@) =~= prev.update(prev.len() - 1, prev.last().push(s@[i as int])));
            }
        }
        i = i + 1;
    }
    done.push(cur);
    proof { assert(s@.take(s@.len() as int) =~= s@); }
    done
}

fn is_dot(c: &[char]) -> (r: bool)
    ensures
        r == (c@ == cur_comp()),
{
    let r = c.len() == 1 && c[0] == '.';
    proof { if c.len() == 1 && c[0] == '.' { assert(c@ =~= cur_comp()); } }
    r
}

fn is_dot_dot(c: &[char]) -> (r: bool)
    ensures
        r == (c@ == parent_comp()),
{
    let r = c.len() == 2 && c[0] == '.' && c[1] == '.';
    proof { if r { assert(c@ =~= parent_comp()); } }
    r
}

fn is_root(c: &[char]) -> (r: bool)
    ensures
        r == (c@ == root_comp()),
{
    let r = c.len() == 1 && c[0] == '/';
    proof { if r { assert(c@ =~= root_comp()); } }
    r
}

/// The components of a path.
pub fn components(p: &[char]) -> (r: Vec<Vec<char>>)
    ensures
        views(r@) == path_components(p@),
{
    let segs = split_chars(p, '/');
    proof { lemma_split_on_nonempty(p@, '/'); }
    let mut r: Vec<Vec<char>> = Vec::new();
    let absolute = p.len() > 0 && p[0] == '/';
    let leading_dot = is_dot(segs[0].as_slice());
    if absolute {
        let mut c: Vec<char> = Vec::new();
        c.push('/');
        r.push(c);
        proof { assert(r@[0]@ =~= root_comp()); }
    } else if leading_dot {
        let mut c: Vec<char> = Vec::new();
        c.push('.');
        r.push(c);
        proof { assert(r@[0]@ =~= cur_comp()); }
    }
    let ghost start = views(r@);
    proof {
        assert(views(segs@)[0] == segs@[0]@);
    }
    let ghost all = views(segs@);
    let mut i: usize = 0;
    proof { assert(all.take(0) =~= Seq::<Seq<char>>::empty()); assert(views(r@) =~= start + kept(all.take(0))); }
    while i < segs.len()
        invariant
            i <= segs.len(),
            all == views(segs@),
            views(r@) == start + kept(all.take(i as int)),
        decreases segs.len() - i,
    {
        proof {
            assert(all.take(i + 1).drop_last() =~= all.take(i as int));
            assert(all.take(i + 1).last() == all[i as int]);
            assert(all[i as int] == segs@[i as int]@);
        }
        let keep = segs[i].len() > 0 && !is_dot(segs[i].as_slice());
        if keep {
            let mut c: Vec<char> = Vec::new();
            push_all(&mut c, segs[i].as_slice());
            r.push(c);
            proof { assert(views(r@) =~= (start + kept(all.take(i as int))).push(all[i as int])); }
        }
        i = i + 1;
    }
    proof {
        assert(all.take(all.len() as int) =~= all);
        if absolute {
            assert(start =~= seq![root_comp()]);
        } else if leading_dot {
            assert(start =~= seq![cur_comp()]);
        } else {
            assert(start =~= Seq::<Seq<char>>::empty());
        }
    }
    r
}


/// A copy of a character slice.
pub fn copy_chars(c: &[char]) -> (r: Vec<char>)
    ensures
        r@ == c@,
{
    let mut r: Vec<char> = Vec::new();
    push_all(&mut r, c);
    r
}

fn is_normal_exec(c: &[char]) -> (r: bool)
    ensures
        r == is_normal(c@),
{
    !is_root(c) && !is_dot(c) && !is_dot_dot(c)
}

/// One step of lexical normalization: `.` vanishes, `..` removes a preceding
/// name, stays at the root, and is kept otherwise.
pub open spec fn normalize_step(out: Seq<Seq<char>>, c: Seq<char>) -> Seq<Seq<char>> {
    if c == cur_comp() {
        out
    } else if c == parent_comp() {
        if out.len() > 0 && is_normal(out.last()) {
            out.drop_last()
        } else if out.len() > 0 && out.last() == root_comp() {
            out
        } else {
            out.push(c)
        }
    } else {
        out.push(c)
    }
}

pub open spec fn normalize_comps(cs: Seq<Seq<char>>) -> Seq<Seq<char>>
    decreases cs.len(),
{
    if cs.len() == 0 {
        seq![]
    } else {
        normalize_step(normalize_comps(cs.drop_last()), cs.last())
    }
}

/// The text of a path built by pushing the given components; `.` when there
/// are none.
pub open spec fn render(cs: Seq<Seq<char>>) -> Seq<char> {
    if cs.len() == 0 {
        seq!['.']
    } else if cs[0] == root_comp() {
        seq!['/'] + join(cs.drop_first(), seq!['/'])
    } else {
        join(cs, seq!['/'])
    }
}

/// The lexically normalized form of a path.
pub open spec fn normalized(p: Seq<char>) -> Seq<char> {
    render(normalize_comps(path_components(p)))
}

fn slash_sep() -> (r: Vec<char>)
    ensures
        r@ == seq!['/'],
{
    let mut r: Vec<char> = Vec::new();
    r.push('/');
    proof { assert(r@ =~= seq!['/']); }
    r
}

fn render_exec(out: Vec<Vec<char>>) -> (r: Vec<char>)
    ensures
        r@ == render(views(out@)),
{
    let sep = slash_sep();
    let mut out = out;
    if out.len() == 0 {
        let mut r: Vec<char> = Vec::new();
        r.push('.');
        proof { assert(r@ =~= seq!['.']); }
        r
    } else if is_root(out[0].as_slice()) {
        let ghost all = views(out@);
        let rest = out.split_off(1);
        proof { assert(views(rest@) =~= all.drop_first()); }
        let joined = join_chars(&rest, sep.as_slice());
        let mut r: Vec<char> = Vec::new();
        r.push('/');
        push_all(&mut r, joined.as_slice());
        proof { assert(r@ =~= seq!['/'] + join(all.drop_first(), seq!['/'])); }
        r
    } else {
        proof { assert(views(out@)[0] == out@[0]@); }
        join_chars(&out, sep.as_slice())
    }
}

fn normalize_chars(p: &[char]) -> (r: Vec<char>)
    ensures
        r@ == normalized(p@),
{
    let cs = components(p);
    let ghost all = views(cs@);
    let mut out: Vec<Vec<char>> = Vec::new();
    let mut i: usize = 0;
    proof { assert(all.take(0) =~= Seq::<Seq<char>>::empty()); }
    while i < cs.len()
        invariant
            i <= cs.len(),
            all == views(cs@),
            views(out@) == normalize_comps(all.take(i as int)),
        decreases cs.len() - i,
    {
        let ghost before = views(out@);
        proof {
            assert(all.take(i + 1).drop_last() =~= all.take(i as int));
            assert(all.take(i + 1).last() == all[i as int]);
            assert(all[i as int] == cs@[i as int]@);
        }
        let c = cs[i].as_slice();
        if is_dot(c) {
        } else if is_dot_dot(c) {
            let n = out.len();
            if n > 0 && is_normal_exec(out[n - 1].as_slice()) {
                out.pop();
                proof { assert(views(out@) =~= before.drop_last()); }
            } else if n > 0 && is_root(out[n - 1].as_slice()) {
            } else {
                out.push(copy_chars(c));
                proof { assert(views(out@) =~= before.push(all[i as int])); }
            }
        } else {
            out.push(copy_chars(c));
            proof { assert(views(out@) =~= before.push(all[i as int])); }
        }
        i = i + 1;
    }
    proof { assert(all.take(cs.len() as int) =~= all); }
    render_exec(out)
}

/// Lexically normalizes a path: drops `.` components, resolves `..` against a
/// preceding name, keeps `..` at the start of a relative path, never climbs
/// above the root, and gives `.` for a path with nothing left.
pub fn normalize(path: &str) -> (r: String)
    ensures
        r@ == normalized(path@),
{
    let p = chars_of(path);
    let n = normalize_chars(p.as_slice());
    string_from(n.as_slice())
}

/// The form a path relative to the project root is shown and compared in:
/// its normalized form, with nothing left for the root itself.
pub open spec fn rel_form(p: Seq<char>) -> Seq<char> {
    if normalized(p) == seq!['.'] { seq![] } else { normalized(p) }
}

/// The shown form of a path relative to the project root.
pub fn rel_form_chars(p: &[char]) -> (r: Vec<char>)
    ensures
        r@ == rel_form(p@),
{
    let n = normalize_chars(p);
    if n.len() == 1 && n[0] == '.' {
        proof { assert(n@ =~= seq!['.']); }
        Vec::new()
    } else {
        proof {
            if n@ == seq!['.'] { assert(n@.len() == 1 && n@[0] == '.'); }
        }
        n
    }
}

/// `p` appended to `base` as `PathBuf::join` does: an absolute `p` replaces
/// the base, and a separator is inserted where needed.
pub open spec fn join_path(base: Seq<char>, p: Seq<char>) -> Seq<char> {
    if is_absolute(p) {
        p
    } else if base.len() == 0 {
        p
    } else if base.last() == '/' {
        base + p
    } else {
        base + seq!['/'] + p
    }
}

fn join_path_exec(base: &[char], p: &[char]) -> (r: Vec<char>)
    ensures
        r@ == join_path(base@, p@),
{
    if (p.len() > 0 && p[0] == '/') || base.len() == 0 {
        copy_chars(p)
    } else {
        let mut r = copy_chars(base);
        if base[base.len() - 1] != '/' {
            r.push('/');
        }
        push_all(&mut r, p);
        r
    }
}

/// The absolute normalized form of a path, where `cwd` is the directory that
/// a relative path is taken from.
pub open spec fn absolute_normalized(p: Seq<char>, cwd: Seq<char>) -> Seq<char> {
    normalized(join_path(cwd, p))
}

/// Makes `path` absolute against `cwd` and normalizes it.
pub fn absolute_normalize(path: &str, cwd: &str) -> (r: String)
    ensures
        r@ == absolute_normalized(path@, cwd@),
{
    let p = chars_of(path);
    let c = chars_of(cwd);
    let joined = join_path_exec(c.as_slice(), p.as_slice());
    let n = normalize_chars(joined.as_slice());
    string_from(n.as_slice())
}

/// A path shown with forward slashes only.
pub open spec fn forward_slashes(p: Seq<char>) -> Seq<char> {
    p.map_values(|c: char| if c == '\\' { '/' } else { c })
}

/// Displays a path with forward slashes (backslashes become `/`).
pub fn display_path(path: &str) -> (r: String)
    ensures
        r@ == forward_slashes(path@),
{
    let p = chars_of(path);
    let r = display_chars(p.as_slice());
    string_from(r.as_slice())
}

pub fn display_chars(p: &[char]) -> (r: Vec<char>)
    ensures
        r@ == forward_slashes(p@),
{
    let mut r: Vec<char> = Vec::new();
    let mut i: usize = 0;
    while i < p.len()
        invariant
            i <= p.len(),
            r@ == forward_slashes(p@.take(i as int)),
        decreases p.len() - i,
    {
        let c = if p[i] == '\\' { '/' } else { p[i] };
        r.push(c);
        proof { assert(forward_slashes(p@.take(i + 1)) =~= forward_slashes(p@.take(i as int)).push(c)); }
        i = i + 1;
    }
    proof { assert(p@.take(p@.len() as int) =~= p@); }
    r
}

/// The last component of a path when it is a name.
pub open spec fn file_name(p: Seq<char>) -> Option<Seq<char>> {
    let cs = path_components(p);
    if cs.len() > 0 && is_normal(cs.last()) {
        Some(cs.last())
    } else {
        None
    }
}

/// Directory names that hold tests.
pub open spec fn is_test_dir_name(c: Seq<char>) -> bool {
    c == "tests"@ || c == "test"@ || c == "__tests__"@
}

/// File names that follow a test naming convention.
pub open spec fn is_test_file_name(n: Seq<char>) -> bool {
    ||| has_suffix(n, "_test.go"@)
    ||| has_suffix(n, ".test.ts"@)
    ||| has_suffix(n, ".test.tsx"@)
    ||| has_suffix(n, ".test.js"@)
    ||| has_suffix(n, ".test.jsx"@)
    ||| has_suffix(n, ".spec.ts"@)
    ||| has_suffix(n, ".spec.tsx"@)
    ||| has_suffix(n, ".spec.js"@)
    ||| has_suffix(n, ".spec.jsx"@)
    ||| (has_prefix(n, "test_"@) && has_suffix(n, ".py"@))
    ||| has_suffix(n, "_spec.rb"@)
}

/// A path is a test file when one of its names is a test directory, or its
/// file name follows a test naming convention.
pub open spec fn is_test_path(p: Seq<char>) -> bool {
    let cs = path_components(p);
    ||| (exists|i: int| 0 <= i < cs.len() && is_normal(cs[i]) && #[trigger] is_test_dir_name(cs[i]))
    ||| (file_name(p) matches Some(n) && is_test_file_name(n))
}

fn is_test_dir_exec(c: &[char]) -> (r: bool)
    ensures
        r == is_test_dir_name(c@),
{
    eq_str(c, "tests") || eq_str(c, "test") || eq_str(c, "__tests__")
}

fn is_test_name_exec(n: &[char]) -> (r: bool)
    ensures
        r == is_test_file_name(n@),
{
    ends_with_str(n, "_test.go") || ends_with_str(n, ".test.ts") || ends_with_str(n, ".test.tsx")
        || ends_with_str(n, ".test.js") || ends_with_str(n, ".test.jsx") || ends_with_str(n, ".spec.ts")
        || ends_with_str(n, ".spec.tsx") || ends_with_str(n, ".spec.js") || ends_with_str(n, ".spec.jsx")
        || (starts_with_str(n, "test_") && ends_with_str(n, ".py")) || ends_with_str(n, "_spec.rb")
}

/// Whether a path looks like a test file by naming conventions.
pub fn is_test_file(path: &str) -> (r: bool)
    ensures
        r == is_test_path(path@),
{
    let p = chars_of(path);
    is_test_chars(p.as_slice())
}

pub fn is_test_chars(p: &[char]) -> (r: bool)
    ensures
        r == is_test_path(p@),
{
    let cs = components(p);
    let ghost all = views(cs@);
    let mut i: usize = 0;
    while i < cs.len()
        invariant
            i <= cs.len(),
            all == views(cs@),
            all == path_components(p@),
            forall|j: int| 0 <= j < i ==> !(is_normal(all[j]) && is_test_dir_name(all[j])),
        decreases cs.len() - i,
    {
        proof { assert(all[i as int] == cs@[i as int]@); }
        if is_normal_exec(cs[i].as_slice()) && is_test_dir_exec(cs[i].as_slice()) {
            return true;
        }
        i = i + 1;
    }
    let n = cs.len();
    if n > 0 && is_normal_exec(cs[n - 1].as_slice()) {
        proof { assert(all[n - 1] == cs@[n - 1]@); }
        is_test_name_exec(cs[n - 1].as_slice())
    } else {
        proof { if n > 0 { assert(all[n - 1] == cs@[n - 1]@); } }
        false
    }
}


/// Whether the component list `a` begins the component list `b`.
pub fn comps_prefix(a: &Vec<Vec<char>>, b: &Vec<Vec<char>>) -> (r: bool)
    ensures
        r == views(a@).is_prefix_of(views(b@)),
{
    if a.len() > b.len() {
        return false;
    }
    let mut i: usize = 0;
    while i < a.len()
        invariant
            a.len() <= b.len(),
            i <= a.len(),
            forall|j: int| 0 <= j < i ==> a@[j]@ == b@[j]@,
        decreases a.len() - i,
    {
        if compare_chars(a[i].as_slice(), b[i].as_slice()) != Cmp::Equal {
            proof {
                assert(views(b@).subrange(0, a.len() as int)[i as int] == b@[i as int]@);
                assert(views(a@)[i as int] == a@[i as int]@);
            }
            return false;
        }
        i = i + 1;
    }
    proof { assert(views(a@) =~= views(b@).subrange(0, a.len() as int)); }
    true
}

/// Whether two component lists are equal.
pub fn comps_equal(a: &Vec<Vec<char>>, b: &Vec<Vec<char>>) -> (r: bool)
    ensures
        r == (views(a@) == views(b@)),
{
    let r = a.len() == b.len() && comps_prefix(a, b);
    proof {
        assert(views(b@).subrange(0, b.len() as int) =~= views(b@));
        if views(a@) == views(b@) {
            assert(views(a@).len() == views(b@).len());
        }
    }
    r
}

/// `Path::starts_with`: the components of `base` begin the components of `p`.
pub open spec fn path_starts_with(p: Seq<char>, base: Seq<char>) -> bool {
    path_components(base).is_prefix_of(path_components(p))
}

/// Path equality: the same components.
pub open spec fn same_path(a: Seq<char>, b: Seq<char>) -> bool {
    path_components(a) == path_components(b)
}

pub fn starts_with_path(p: &[char], base: &[char]) -> (r: bool)
    ensures
        r == path_starts_with(p@, base@),
{
    let pc = components(p);
    let bc = components(base);
    comps_prefix(&bc, &pc)
}

pub fn is_same_path(a: &[char], b: &[char]) -> (r: bool)
    ensures
        r == same_path(a@, b@),
{
    let ac = components(a);
    let bc = components(b);
    comps_equal(&ac, &bc)
}

/// Where `path` lies relative to `dir` (an empty `dir` is the top): `None`
/// when it is not below `dir` or is `dir` itself; else whether it lies deeper
/// than a direct child (components follow the first one below `dir`), and
/// that first component.
pub open spec fn child_place(path: Seq<char>, dir: Seq<char>) -> Option<(bool, Seq<char>)> {
    let pc = path_components(path);
    let dc = if dir.len() == 0 { Seq::<Seq<char>>::empty() } else { path_components(dir) };
    if !dc.is_prefix_of(pc) {
        None
    } else {
        let rest = pc.skip(dc.len() as int);
        if rest.len() == 0 {
            None
        } else {
            Some((rest.len() >= 2, rest[0]))
        }
    }
}

/// The immediate child of `dir` on the way to `path`: `None` when `path` is
/// not under `dir`; for a nested file, the first subdirectory component with
/// a trailing `/`; for a direct child, the path relative to `dir` (the path
/// itself when `dir` is the top).
pub open spec fn child_of(path: Seq<char>, dir: Seq<char>) -> Option<Seq<char>> {
    match child_place(path, dir) {
        None => None,
        Some((true, c)) => Some(c + seq!['/']),
        Some((false, c)) => Some(if dir.len() == 0 { path } else { c }),
    }
}

/// Extracts the immediate child component of `path` relative to `dir`.
pub fn child_component(path: &str, dir: &str) -> (r: Option<String>)
    ensures
        r matches Some(c) ==> child_of(path@, dir@) == Some(c@),
        r is None ==> child_of(path@, dir@) is None,
{
    let p = chars_of(path);
    let d = chars_of(dir);
    match child_chars(p.as_slice(), d.as_slice()) {
        Some(c) => Some(string_from(c.as_slice())),
        None => None,
    }
}

/// Where `p` lies relative to `d`, as `child_place` says.
pub fn place_chars(p: &[char], d: &[char]) -> (r: Option<(bool, Vec<char>)>)
    ensures
        r matches Some((nested, c)) ==> child_place(p@, d@) == Some((nested, c@)),
        r is None ==> child_place(p@, d@) is None,
{
    let pc = components(p);
    let dc = if d.len() == 0 { Vec::new() } else { components(d) };
    proof {
        if d.len() == 0 { assert(views(dc@) =~= Seq::<Seq<char>>::empty()); }
    }
    if !comps_prefix(&dc, &pc) {
        return None;
    }
    let k = dc.len();
    let rest_len = pc.len() - k;
    proof {
        assert(views(pc@).skip(k as int).len() == rest_len);
    }
    if rest_len == 0 {
        None
    } else {
        proof { assert(views(pc@).skip(k as int)[0] == pc@[k as int]@); }
        Some((rest_len >= 2, copy_chars(pc[k].as_slice())))
    }
}

pub fn child_chars(p: &[char], d: &[char]) -> (r: Option<Vec<char>>)
    ensures
        r matches Some(c) ==> child_of(p@, d@) == Some(c@),
        r is None ==> child_of(p@, d@) is None,
{
    match place_chars(p, d) {
        None => None,
        Some((true, c)) => {
            let mut c = c;
            c.push('/');
            Some(c)
        },
        Some((false, c)) => {
            if d.len() == 0 {
                Some(copy_chars(p))
            } else {
                Some(c)
            }
        },
    }
}

/// The remainder of `p` below `base` (components joined by `/`) when `base`
/// begins it, as `Path::strip_prefix` gives it for a normalized `p`.
pub open spec fn strip_prefix(p: Seq<char>, base: Seq<char>) -> Option<Seq<char>> {
    let pc = path_components(p);
    let bc = path_components(base);
    if bc.is_prefix_of(pc) {
        Some(join(pc.skip(bc.len() as int), seq!['/']))
    } else {
        None
    }
}

/// `path` relative to the project root when it lies below it, else its
/// absolute normalized form; both are first resolved against `cwd`.
pub open spec fn relative_to_root(path: Seq<char>, root: Seq<char>, cwd: Seq<char>) -> Seq<char> {
    let abs = absolute_normalized(path, cwd);
    let r = absolute_normalized(root, cwd);
    match strip_prefix(abs, r) {
        Some(rel) => rel,
        None => abs,
    }
}

/// Makes a path relative to the project root if it lies below it, taking a
/// relative path from `cwd`.
pub fn make_relative(path: &str, root: &str, cwd: &str) -> (r: String)
    ensures
        r@ == relative_to_root(path@, root@, cwd@),
{
    let p = chars_of(path);
    let rt = chars_of(root);
    let c = chars_of(cwd);
    let abs = normalize_chars(join_path_exec(c.as_slice(), p.as_slice()).as_slice());
    let rn = normalize_chars(join_path_exec(c.as_slice(), rt.as_slice()).as_slice());
    let ac = components(abs.as_slice());
    let rc = components(rn.as_slice());
    if comps_prefix(&rc, &ac) {
        let ghost all = views(ac@);
        let mut ac = ac;
        let rest = ac.split_off(rc.len());
        proof { assert(views(rest@) =~= all.skip(rc.len() as int)); }
        let sep = slash_sep();
        let j = join_chars(&rest, sep.as_slice());
        string_from(j.as_slice())
    } else {
        string_from(abs.as_slice())
    }
}


// ---- normal forms and the idempotence of normalization ----

/// A component that is a name or `..`: non-empty, without `/`, not `.`.
pub open spec fn part_ok(c: Seq<char>) -> bool {
    &&& c.len() > 0
    &&& forall|i: int| 0 <= i < c.len() ==> #[trigger] c[i] != '/'
    &&& c != cur_comp()
}

/// The shape of a normalized component list: the root followed by names, or
/// some `..` followed by names.
pub open spec fn normal_form(cs: Seq<Seq<char>>) -> bool {
    if cs.len() > 0 && cs[0] == root_comp() {
        forall|i: int| 1 <= i < cs.len() ==> part_ok(#[trigger] cs[i]) && cs[i] != parent_comp()
    } else {
        &&& forall|i: int| 0 <= i < cs.len() ==> #[trigger] part_ok(cs[i])
        &&& forall|i: int, j: int| 0 <= i < j < cs.len() && #[trigger] cs[j] == parent_comp() ==> #[trigger] cs[i] == parent_comp()
    }
}

/// The components a path can have: the root or `.` first, names and `..`
/// anywhere.
pub open spec fn valid_comps(cs: Seq<Seq<char>>) -> bool {
    forall|i: int| 0 <= i < cs.len() ==> (#[trigger] part_ok(cs[i]) || (i == 0 && (cs[i] == root_comp() || cs[i] == cur_comp())))
}

proof fn lemma_split_no_sep(s: Seq<char>, sep: char)
    ensures
        forall|i: int, j: int| 0 <= i < split_on(s, sep).len() && 0 <= j < split_on(s, sep)[i].len()
            ==> #[trigger] split_on(s, sep)[i][j] != sep,
    decreases s.len(),
{
    lemma_split_on_nonempty(s, sep);
    if s.len() > 0 {
        lemma_split_no_sep(s.drop_last(), sep);
        lemma_split_on_nonempty(s.drop_last(), sep);
        let prev = split_on(s.drop_last(), sep);
        if s.last() != sep {
            let r = prev.update(prev.len() - 1, prev.last().push(s.last()));
            assert forall|i: int, j: int| 0 <= i < r.len() && 0 <= j < r[i].len() implies #[trigger] r[i][j] != sep by {
                if i == prev.len() - 1 {
                    if j < prev.last().len() {
                        assert(r[i][j] == prev[i][j]);
                    }
                } else {
                    assert(r[i] == prev[i]);
                }
            }
        } else {
            let r = prev.push(seq![]);
            assert forall|i: int, j: int| 0 <= i < r.len() && 0 <= j < r[i].len() implies #[trigger] r[i][j] != sep by {
                if i < prev.len() {
                    assert(r[i] == prev[i]);
                }
            }
        }
    }
}

proof fn lemma_kept_parts(segs: Seq<Seq<char>>)
    requires
        forall|i: int, j: int| 0 <= i < segs.len() && 0 <= j < segs[i].len() ==> #[trigger] segs[i][j] != '/',
    ensures
        forall|i: int| 0 <= i < kept(segs).len() ==> #[trigger] part_ok(kept(segs)[i]),
    decreases segs.len(),
{
    if segs.len() > 0 {
        let s2 = segs.drop_last();
        assert forall|i: int, j: int| 0 <= i < s2.len() && 0 <= j < s2[i].len() implies #[trigger] s2[i][j] != '/' by {
            assert(s2[i] == segs[i]);
        }
        lemma_kept_parts(s2);
        let r = kept(s2);
        if is_kept(segs.last()) {
            assert forall|i: int| 0 <= i < r.push(segs.last()).len() implies #[trigger] part_ok(r.push(segs.last())[i]) by {
                if i < r.len() {
                    assert(r.push(segs.last())[i] == r[i]);
                } else {
                    let c = segs.last();
                    assert forall|j: int| 0 <= j < c.len() implies #[trigger] c[j] != '/' by {
                        assert(segs[segs.len() - 1][j] != '/');
                    }
                }
            }
        }
    }
}

/// The components of any path are valid components.
pub proof fn lemma_components_valid(p: Seq<char>)
    ensures
        valid_comps(path_components(p)),
{
    let segs = split_on(p, '/');
    lemma_split_no_sep(p, '/');
    lemma_kept_parts(segs);
    let k = kept(segs);
    let cs = path_components(p);
    if is_absolute(p) || segs[0] == cur_comp() {
        let first = if is_absolute(p) { root_comp() } else { cur_comp() };
        assert(cs == seq![first] + k);
        assert forall|i: int| 0 <= i < cs.len() implies (#[trigger] part_ok(cs[i]) || (i == 0 && (cs[i] == root_comp() || cs[i] == cur_comp()))) by {
            if i > 0 {
                assert(cs[i] == k[i - 1]);
            }
        }
    }
}

proof fn lemma_normalize_valid(cs: Seq<Seq<char>>)
    requires
        valid_comps(cs),
    ensures
        normal_form(normalize_comps(cs)),
    decreases cs.len(),
{
    if cs.len() > 0 {
        let c2 = cs.drop_last();
        assert forall|i: int| 0 <= i < c2.len() implies (#[trigger] part_ok(c2[i]) || (i == 0 && (c2[i] == root_comp() || c2[i] == cur_comp()))) by {
            assert(c2[i] == cs[i]);
            assert(part_ok(cs[i]) || (i == 0 && (cs[i] == root_comp() || cs[i] == cur_comp())));
        }
        lemma_normalize_valid(c2);
        let out = normalize_comps(c2);
        let c = cs.last();
        assert(part_ok(c) || (cs.len() == 1 && (c == root_comp() || c == cur_comp()))) by {
            assert(c == cs[cs.len() - 1]);
        }
        if cs.len() == 1 {
            assert(c2.len() == 0);
            assert(out =~= Seq::<Seq<char>>::empty());
        }
        let r = normalize_step(out, c);
        assert(root_comp() != parent_comp()) by { assert(root_comp()[0] != parent_comp()[0]); }
        assert(cur_comp() != parent_comp()) by { assert(cur_comp().len() != parent_comp().len()); }
        assert(root_comp() != cur_comp()) by { assert(root_comp()[0] != cur_comp()[0]); }
        assert(!part_ok(root_comp())) by { assert(root_comp()[0] == '/'); }
        if c == cur_comp() {
        } else if c == parent_comp() {
            if out.len() > 0 && is_normal(out.last()) {
                assert forall|i: int| 0 <= i < out.drop_last().len() implies #[trigger] out.drop_last()[i] == out[i] by {}
            } else if out.len() > 0 && out.last() == root_comp() {
            } else {
                // every earlier component is `..`
                if out.len() > 0 {
                    assert(out.last() == parent_comp() || out.last() == cur_comp());
                    if out[0] == root_comp() {
                        if out.len() > 1 {
                            assert(part_ok(out[out.len() - 1]) && out[out.len() - 1] != parent_comp());
                        }
                    }
                }
                assert forall|i: int, j: int| 0 <= i < j < r.len() && #[trigger] r[j] == parent_comp() implies #[trigger] r[i] == parent_comp() by {
                    if j == r.len() - 1 {
                        if out.len() > 0 && out[0] != root_comp() {
                            assert(part_ok(out.last()));
                            assert(out.last() == parent_comp());
                            assert(out[out.len() - 1] == parent_comp());
                            if i < out.len() - 1 {
                                assert(out[i] == parent_comp());
                            }
                        }
                    } else {
                        assert(r[i] == out[i]);
                        assert(r[j] == out[j]);
                    }
                }
                assert forall|i: int| 0 <= i < r.len() implies #[trigger] part_ok(r[i]) by {
                    if i < out.len() {
                        assert(r[i] == out[i]);
                    }
                }
            }
        } else if c == root_comp() {
            assert(out.len() == 0);
            assert(r =~= seq![root_comp()]);
        } else {
            assert(part_ok(c));
            if out.len() > 0 && out[0] == root_comp() {
                assert forall|i: int| 1 <= i < r.len() implies part_ok(#[trigger] r[i]) && r[i] != parent_comp() by {
                    if i < out.len() {
                        assert(r[i] == out[i]);
                    }
                }
            } else {
                assert forall|i: int| 0 <= i < r.len() implies #[trigger] part_ok(r[i]) by {
                    if i < out.len() {
                        assert(r[i] == out[i]);
                    }
                }
                assert forall|i: int, j: int| 0 <= i < j < r.len() && #[trigger] r[j] == parent_comp() implies #[trigger] r[i] == parent_comp() by {
                    assert(r[i] == out[i]);
                    assert(r[j] == out[j]);
                }
            }
        }
    }
}

proof fn lemma_normal_form_prefix(cs: Seq<Seq<char>>)
    requires
        normal_form(cs),
        cs.len() > 0,
    ensures
        normal_form(cs.drop_last()),
{
    let c2 = cs.drop_last();
    if cs[0] == root_comp() {
        if c2.len() > 0 {
            assert(c2[0] == cs[0]);
            assert forall|i: int| 1 <= i < c2.len() implies part_ok(#[trigger] c2[i]) && c2[i] != parent_comp() by {
                assert(c2[i] == cs[i]);
            }
        }
    } else {
        if c2.len() > 0 {
            assert(c2[0] == cs[0]);
        }
        assert forall|i: int| 0 <= i < c2.len() implies #[trigger] part_ok(c2[i]) by {
            assert(c2[i] == cs[i]);
        }
        assert forall|i: int, j: int| 0 <= i < j < c2.len() && #[trigger] c2[j] == parent_comp() implies #[trigger] c2[i] == parent_comp() by {
            assert(c2[i] == cs[i]);
            assert(c2[j] == cs[j]);
        }
    }
}

proof fn lemma_normalize_fixed(cs: Seq<Seq<char>>)
    requires
        normal_form(cs),
    ensures
        normalize_comps(cs) == cs,
    decreases cs.len(),
{
    if cs.len() > 0 {
        lemma_normal_form_prefix(cs);
        let c2 = cs.drop_last();
        lemma_normalize_fixed(c2);
        let c = cs.last();
        assert(c == cs[cs.len() - 1]);
        assert(!part_ok(root_comp())) by { assert(root_comp()[0] == '/'); }
        if cs[0] == root_comp() {
            if cs.len() == 1 {
                assert(c2 =~= Seq::<Seq<char>>::empty());
                assert(c == root_comp());
                assert(c != cur_comp()) by { assert(c[0] != cur_comp()[0]); }
                assert(c != parent_comp()) by { assert(c.len() != parent_comp().len()); }
            } else {
                assert(part_ok(c) && c != parent_comp());
            }
        } else {
            assert(part_ok(c));
            if c == parent_comp() && c2.len() > 0 {
                assert(c2.last() == cs[cs.len() - 2]);
                assert(cs[cs.len() - 2] == parent_comp());
                assert(!is_normal(c2.last()));
                assert(c2.last() != root_comp()) by { assert(c2.last().len() != root_comp().len()); }
            }
        }
        assert(cs =~= c2.push(c));
    }
}

proof fn lemma_split_concat(a: Seq<char>, b: Seq<char>, sep: char)
    ensures
        split_on(a + seq![sep] + b, sep) == split_on(a, sep) + split_on(b, sep),
    decreases b.len(),
{
    if b.len() == 0 {
        let x = a + seq![sep];
        assert(a + seq![sep] + b =~= x);
        assert(x.drop_last() =~= a);
        assert(split_on(x, sep) =~= split_on(a, sep) + split_on(b, sep));
    } else {
        let b2 = b.drop_last();
        lemma_split_concat(a, b2, sep);
        let x = a + seq![sep] + b;
        assert(x.drop_last() =~= a + seq![sep] + b2);
        assert(x.last() == b.last());
        lemma_split_on_nonempty(b2, sep);
        let pa = split_on(a, sep);
        let pb = split_on(b2, sep);
        if b.last() == sep {
            assert(split_on(x, sep) =~= pa + pb.push(seq![]));
        } else {
            assert(split_on(x, sep) =~= pa + pb.update(pb.len() - 1, pb.last().push(b.last())));
        }
    }
}

proof fn lemma_split_single(s: Seq<char>, sep: char)
    requires
        forall|i: int| 0 <= i < s.len() ==> #[trigger] s[i] != sep,
    ensures
        split_on(s, sep) == seq![s],
    decreases s.len(),
{
    if s.len() > 0 {
        lemma_split_single(s.drop_last(), sep);
        assert(s.drop_last().push(s.last()) =~= s);
    } else {
        assert(s =~= Seq::<char>::empty());
    }
}

proof fn lemma_split_join(parts: Seq<Seq<char>>)
    requires
        parts.len() > 0,
        forall|i: int| 0 <= i < parts.len() ==> #[trigger] part_ok(parts[i]),
    ensures
        split_on(join(parts, seq!['/']), '/') == parts,
    decreases parts.len(),
{
    if parts.len() == 1 {
        assert(part_ok(parts[0]));
        lemma_split_single(parts[0], '/');
        assert(seq![parts[0]] =~= parts);
    } else {
        let p2 = parts.drop_last();
        assert forall|i: int| 0 <= i < p2.len() implies #[trigger] part_ok(p2[i]) by { assert(p2[i] == parts[i]); }
        lemma_split_join(p2);
        assert(part_ok(parts[parts.len() - 1]));
        lemma_split_single(parts.last(), '/');
        lemma_split_concat(join(p2, seq!['/']), parts.last(), '/');
        assert(join(p2, seq!['/']) + seq!['/'] + parts.last() =~= join(parts, seq!['/']));
        assert(p2 + seq![parts.last()] =~= parts);
    }
}

proof fn lemma_kept_all(segs: Seq<Seq<char>>)
    requires
        forall|i: int| 0 <= i < segs.len() ==> #[trigger] part_ok(segs[i]),
    ensures
        kept(segs) == segs,
    decreases segs.len(),
{
    if segs.len() > 0 {
        let s2 = segs.drop_last();
        assert forall|i: int| 0 <= i < s2.len() implies #[trigger] part_ok(s2[i]) by { assert(s2[i] == segs[i]); }
        lemma_kept_all(s2);
        assert(part_ok(segs[segs.len() - 1]));
        assert(s2.push(segs.last()) =~= segs);
    }
}

proof fn lemma_kept_concat(a: Seq<Seq<char>>, b: Seq<Seq<char>>)
    ensures
        kept(a + b) == kept(a) + kept(b),
    decreases b.len(),
{
    if b.len() == 0 {
        assert(a + b =~= a);
        assert(kept(b) =~= Seq::<Seq<char>>::empty());
        assert(kept(a) + kept(b) =~= kept(a));
    } else {
        let b2 = b.drop_last();
        lemma_kept_concat(a, b2);
        assert((a + b).drop_last() =~= a + b2);
        assert((a + b).last() == b.last());
        if is_kept(b.last()) {
            assert(kept(a) + kept(b2).push(b.last()) =~= (kept(a) + kept(b2)).push(b.last()));
        }
    }
}

proof fn lemma_kept_one(x: Seq<char>)
    ensures
        kept(seq![x]) == (if is_kept(x) { seq![x] } else { Seq::<Seq<char>>::empty() }),
{
    let s = seq![x];
    assert(s.drop_last() =~= Seq::<Seq<char>>::empty());
    assert(kept(Seq::<Seq<char>>::empty()) == Seq::<Seq<char>>::empty());
    assert(s.last() == x);
    assert(Seq::<Seq<char>>::empty().push(x) =~= s);
}

proof fn lemma_normalize_one(c: Seq<char>)
    ensures
        normalize_comps(seq![c]) == normalize_step(Seq::<Seq<char>>::empty(), c),
{
    let s = seq![c];
    assert(s.drop_last() =~= Seq::<Seq<char>>::empty());
    assert(normalize_comps(Seq::<Seq<char>>::empty()) == Seq::<Seq<char>>::empty());
    assert(s.last() == c);
}

/// Reading back the text of a normalized component list gives the list.
proof fn lemma_render_parse(cs: Seq<Seq<char>>)
    requires
        normal_form(cs),
        cs.len() > 0,
    ensures
        path_components(render(cs)) == cs,
{
    assert(!part_ok(root_comp())) by { assert(root_comp()[0] == '/'); }
    if cs[0] == root_comp() {
        let parts = cs.drop_first();
        let x = join(parts, seq!['/']);
        let text = seq!['/'] + x;
        assert(text == render(cs));
        assert(text =~= Seq::<char>::empty() + seq!['/'] + x);
        lemma_split_concat(Seq::<char>::empty(), x, '/');
        assert(split_on(Seq::<char>::empty(), '/') == seq![Seq::<char>::empty()]);
        assert forall|i: int| 0 <= i < parts.len() implies #[trigger] part_ok(parts[i]) by {
            assert(parts[i] == cs[i + 1]);
        }
        if parts.len() > 0 {
            lemma_split_join(parts);
            lemma_kept_all(parts);
            lemma_kept_concat(seq![Seq::<char>::empty()], parts);
            lemma_kept_one(Seq::<char>::empty());
            assert(seq![Seq::<char>::empty()] + parts == split_on(text, '/'));
            assert(kept(split_on(text, '/')) =~= parts);
        } else {
            assert(x =~= Seq::<char>::empty());
            assert(text =~= seq!['/']);
            assert(split_on(text, '/') =~= seq![Seq::<char>::empty(), Seq::<char>::empty()]) by {
                assert(text.drop_last() =~= Seq::<char>::empty());
            }
            lemma_kept_one(Seq::<char>::empty());
            assert(seq![Seq::<char>::empty(), Seq::<char>::empty()].drop_last() =~= seq![Seq::<char>::empty()]);
            assert(kept(split_on(text, '/')) =~= Seq::<Seq<char>>::empty());
        }
        assert(is_absolute(text));
        assert(cs =~= seq![root_comp()] + parts);
    } else {
        assert forall|i: int| 0 <= i < cs.len() implies #[trigger] part_ok(cs[i]) by {}
        lemma_split_join(cs);
        lemma_kept_all(cs);
        let text = join(cs, seq!['/']);
        assert(text == render(cs));
        assert(split_on(text, '/')[0] == cs[0]);
        assert(part_ok(cs[0]));
        // the text starts with the first component, which has no `/`
        assert(!is_absolute(text)) by {
            lemma_join_first(cs);
            assert(text[0] == cs[0][0]);
        }
    }
}

proof fn lemma_join_first(parts: Seq<Seq<char>>)
    requires
        parts.len() > 0,
        parts[0].len() > 0,
    ensures
        join(parts, seq!['/']).len() > 0,
        join(parts, seq!['/'])[0] == parts[0][0],
    decreases parts.len(),
{
    if parts.len() > 1 {
        let p2 = parts.drop_last();
        assert(p2[0] == parts[0]);
        lemma_join_first(p2);
    }
}

/// Normalizing twice is normalizing once: a normalized path is its own
/// normal form.
pub proof fn lemma_normalize_idempotent(p: Seq<char>)
    ensures
        normalized(normalized(p)) == normalized(p),
{
    lemma_components_valid(p);
    let n = normalize_comps(path_components(p));
    lemma_normalize_valid(path_components(p));
    if n.len() == 0 {
        let t = seq!['.'];
        assert(render(n) == t);
        assert(split_on(t, '/') =~= seq![t]) by { lemma_split_single(t, '/'); }
        assert(t == cur_comp());
        assert(path_components(t) =~= seq![cur_comp()] + kept(seq![t]));
        lemma_kept_one(t);
        assert(path_components(t) =~= seq![cur_comp()]);
        lemma_normalize_one(cur_comp());
    } else {
        lemma_render_parse(n);
        lemma_normalize_fixed(n);
    }
}

/// A normalized path has the shape of a normal form: the root followed by
/// names, or leading `..` followed by names, and never a `.` component.
pub proof fn lemma_normalized_shape(p: Seq<char>)
    ensures
        normal_form(normalize_comps(path_components(p))),
        normalized(p) == render(normalize_comps(path_components(p))),
{
    lemma_components_valid(p);
    lemma_normalize_valid(path_components(p));
}

// ---- resolving a path against a directory ----

/// Normalization steps applied to `cs`, starting from the list `out`.
pub open spec fn fold_norm(out: Seq<Seq<char>>, cs: Seq<Seq<char>>) -> Seq<Seq<char>>
    decreases cs.len(),
{
    if cs.len() == 0 {
        out
    } else {
        normalize_step(fold_norm(out, cs.drop_last()), cs.last())
    }
}

/// No component is the root.
pub open spec fn no_root(cs: Seq<Seq<char>>) -> bool {
    forall|i: int| 0 <= i < cs.len() ==> #[trigger] cs[i] != root_comp()
}

proof fn lemma_comp_facts()
    ensures
        root_comp() != parent_comp(),
        cur_comp() != parent_comp(),
        root_comp() != cur_comp(),
        !part_ok(root_comp()),
{
    assert(root_comp()[0] != parent_comp()[0]);
    assert(cur_comp().len() != parent_comp().len());
    assert(root_comp()[0] != cur_comp()[0]);
    assert(root_comp()[0] == '/');
}

proof fn lemma_fold_empty(cs: Seq<Seq<char>>)
    ensures
        fold_norm(Seq::<Seq<char>>::empty(), cs) == normalize_comps(cs),
    decreases cs.len(),
{
    if cs.len() > 0 {
        lemma_fold_empty(cs.drop_last());
    }
}

proof fn lemma_fold_push(out: Seq<Seq<char>>, cs: Seq<Seq<char>>, c: Seq<char>)
    ensures
        fold_norm(out, cs.push(c)) == normalize_step(fold_norm(out, cs), c),
{
    assert(cs.push(c).drop_last() =~= cs);
    assert(cs.push(c).last() == c);
}

proof fn lemma_fold_concat(out: Seq<Seq<char>>, a: Seq<Seq<char>>, b: Seq<Seq<char>>)
    ensures
        fold_norm(out, a + b) == fold_norm(fold_norm(out, a), b),
    decreases b.len(),
{
    if b.len() == 0 {
        assert(a + b =~= a);
    } else {
        lemma_fold_concat(out, a, b.drop_last());
        assert((a + b).drop_last() =~= a + b.drop_last());
        assert((a + b).last() == b.last());
    }
}

proof fn lemma_fold_no_root(out: Seq<Seq<char>>, cs: Seq<Seq<char>>)
    requires
        no_root(out),
        no_root(cs),
    ensures
        no_root(fold_norm(out, cs)),
    decreases cs.len(),
{
    lemma_comp_facts();
    if cs.len() > 0 {
        let c2 = cs.drop_last();
        assert forall|i: int| 0 <= i < c2.len() implies #[trigger] c2[i] != root_comp() by {
            assert(c2[i] == cs[i]);
        }
        lemma_fold_no_root(out, c2);
        let f = fold_norm(out, c2);
        let c = cs.last();
        assert(c == cs[cs.len() - 1]);
        let r = normalize_step(f, c);
        assert forall|i: int| 0 <= i < r.len() implies #[trigger] r[i] != root_comp() by {
            if i < f.len() {
                assert(f[i] != root_comp());
            }
        }
    }
}

/// Normalizing a list before applying it changes nothing, when it holds no
/// root.
proof fn lemma_fold_normalized(out: Seq<Seq<char>>, cs: Seq<Seq<char>>)
    requires
        no_root(cs),
    ensures
        fold_norm(out, cs) == fold_norm(out, normalize_comps(cs)),
    decreases cs.len(),
{
    lemma_comp_facts();
    if cs.len() > 0 {
        let c2 = cs.drop_last();
        assert forall|i: int| 0 <= i < c2.len() implies #[trigger] c2[i] != root_comp() by {
            assert(c2[i] == cs[i]);
        }
        lemma_fold_normalized(out, c2);
        let n2 = normalize_comps(c2);
        lemma_fold_empty(c2);
        lemma_fold_no_root(Seq::<Seq<char>>::empty(), c2);
        let c = cs.last();
        assert(c == cs[cs.len() - 1]);
        if c == cur_comp() {
        } else if c == parent_comp() {
            if n2.len() > 0 && is_normal(n2.last()) {
                let m = n2.drop_last();
                assert(n2 =~= m.push(n2.last()));
                lemma_fold_push(out, m, n2.last());
            } else if n2.len() > 0 && n2.last() == root_comp() {
                assert(n2[n2.len() - 1] != root_comp());
            } else {
                lemma_fold_push(out, n2, c);
            }
        } else {
            lemma_fold_push(out, n2, c);
        }
    }
}

proof fn lemma_fold_keeps_root(out: Seq<Seq<char>>, cs: Seq<Seq<char>>)
    requires
        out.len() > 0,
        out[0] == root_comp(),
    ensures
        fold_norm(out, cs).len() > 0,
        fold_norm(out, cs)[0] == root_comp(),
    decreases cs.len(),
{
    lemma_comp_facts();
    if cs.len() > 0 {
        lemma_fold_keeps_root(out, cs.drop_last());
        let f = fold_norm(out, cs.drop_last());
        if f.len() == 1 {
            assert(f.last() == root_comp());
        }
    }
}

/// The components of a relative path hold no root.
proof fn lemma_relative_no_root(p: Seq<char>)
    requires
        !is_absolute(p),
    ensures
        no_root(path_components(p)),
{
    lemma_comp_facts();
    lemma_components_valid(p);
    let cs = path_components(p);
    assert forall|i: int| 0 <= i < cs.len() implies #[trigger] cs[i] != root_comp() by {
        if i == 0 && cs[0] == root_comp() {
            let segs = split_on(p, '/');
            if segs[0] == cur_comp() {
                assert(cs[0] == cur_comp());
            } else {
                lemma_split_no_sep(p, '/');
                lemma_kept_parts(segs);
                assert(part_ok(kept(segs)[0]));
            }
        } else if i > 0 {
            assert(part_ok(cs[i]));
        }
    }
}

/// `fold_norm` over the components of a relative path is `fold_norm` over
/// its kept segments: a leading `.` changes nothing.
proof fn lemma_fold_components(out: Seq<Seq<char>>, p: Seq<char>)
    requires
        !is_absolute(p),
    ensures
        fold_norm(out, path_components(p)) == fold_norm(out, kept(split_on(p, '/'))),
{
    let segs = split_on(p, '/');
    if segs[0] == cur_comp() {
        lemma_fold_concat(out, seq![cur_comp()], kept(segs));
        lemma_fold_push(out, Seq::<Seq<char>>::empty(), cur_comp());
        assert(Seq::<Seq<char>>::empty().push(cur_comp()) =~= seq![cur_comp()]);
    }
}

/// The components of `cwd` joined with a relative `p`: those of `cwd`, then
/// the kept segments of `p`.
proof fn lemma_components_join(cwd: Seq<char>, p: Seq<char>)
    requires
        cwd.len() > 0,
        !is_absolute(p),
    ensures
        path_components(join_path(cwd, p)) == path_components(cwd) + kept(split_on(p, '/')),
{
    let text = join_path(cwd, p);
    let sp = split_on(p, '/');
    lemma_split_on_nonempty(p, '/');
    if cwd.last() == '/' {
        let c2 = cwd.drop_last();
        assert(text =~= c2 + seq!['/'] + p);
        lemma_split_concat(c2, p, '/');
        assert(cwd =~= c2 + seq!['/'] + Seq::<char>::empty());
        lemma_split_concat(c2, Seq::<char>::empty(), '/');
        let s2 = split_on(c2, '/');
        lemma_split_on_nonempty(c2, '/');
        assert(split_on(Seq::<char>::empty(), '/') == seq![Seq::<char>::empty()]);
        lemma_kept_concat(s2, sp);
        lemma_kept_concat(s2, seq![Seq::<char>::empty()]);
        lemma_kept_one(Seq::<char>::empty());
        assert(kept(split_on(cwd, '/')) =~= kept(s2));
        assert(split_on(text, '/')[0] == s2[0]);
        assert(split_on(cwd, '/')[0] == s2[0]);
        assert(text[0] == cwd[0]);
    } else {
        assert(text =~= cwd + seq!['/'] + p);
        lemma_split_concat(cwd, p, '/');
        lemma_split_on_nonempty(cwd, '/');
        lemma_kept_concat(split_on(cwd, '/'), sp);
        assert(split_on(text, '/')[0] == split_on(cwd, '/')[0]);
        assert(text[0] == cwd[0]);
    }
    let kc = kept(split_on(cwd, '/'));
    assert(seq![root_comp()] + (kc + kept(sp)) =~= (seq![root_comp()] + kc) + kept(sp));
    assert(seq![cur_comp()] + (kc + kept(sp)) =~= (seq![cur_comp()] + kc) + kept(sp));
}

proof fn lemma_normalized_keeps_relative(p: Seq<char>)
    requires
        !is_absolute(p),
    ensures
        !is_absolute(normalized(p)),
{
    lemma_comp_facts();
    lemma_relative_no_root(p);
    let n = normalize_comps(path_components(p));
    lemma_fold_empty(path_components(p));
    lemma_fold_no_root(Seq::<Seq<char>>::empty(), path_components(p));
    lemma_normalized_shape(p);
    if n.len() > 0 {
        assert(n[0] != root_comp());
        assert(part_ok(n[0]));
        lemma_join_first(n);
        assert(n[0][0] != '/');
    }
}

proof fn lemma_normalized_keeps_absolute(p: Seq<char>)
    requires
        is_absolute(p),
    ensures
        is_absolute(normalized(p)),
{
    lemma_comp_facts();
    let k = kept(split_on(p, '/'));
    let cs = path_components(p);
    assert(cs == seq![root_comp()] + k);
    lemma_fold_empty(cs);
    lemma_fold_concat(Seq::<Seq<char>>::empty(), seq![root_comp()], k);
    lemma_fold_push(Seq::<Seq<char>>::empty(), Seq::<Seq<char>>::empty(), root_comp());
    assert(Seq::<Seq<char>>::empty().push(root_comp()) =~= seq![root_comp()]);
    lemma_fold_keeps_root(seq![root_comp()], k);
}

/// Resolving a path against a directory gives the same result whether or not
/// the path was normalized first: `.` and `..` in an argument resolve as the
/// normalized argument does.
pub proof fn lemma_resolve_normalized(p: Seq<char>, cwd: Seq<char>)
    ensures
        absolute_normalized(normalized(p), cwd) == absolute_normalized(p, cwd),
{
    let q = normalized(p);
    if is_absolute(p) {
        lemma_normalized_keeps_absolute(p);
        lemma_normalize_idempotent(p);
    } else if cwd.len() == 0 {
        lemma_normalized_keeps_relative(p);
        lemma_normalize_idempotent(p);
    } else {
        lemma_normalized_keeps_relative(p);
        lemma_components_join(cwd, p);
        lemma_components_join(cwd, q);
        let e = Seq::<Seq<char>>::empty();
        let c = path_components(cwd);
        let out = fold_norm(e, c);
        // both sides are `fold_norm(out, ..)` over the segments of the argument
        lemma_fold_empty(c + kept(split_on(p, '/')));
        lemma_fold_empty(c + kept(split_on(q, '/')));
        lemma_fold_concat(e, c, kept(split_on(p, '/')));
        lemma_fold_concat(e, c, kept(split_on(q, '/')));
        lemma_fold_components(out, p);
        lemma_fold_components(out, q);
        lemma_relative_no_root(p);
        lemma_fold_normalized(out, path_components(p));
        let n = normalize_comps(path_components(p));
        lemma_normalized_shape(p);
        if n.len() > 0 {
            lemma_render_parse(n);
        } else {
            assert(q == seq!['.']);
            lemma_split_single(q, '/');
            lemma_kept_one(q);
            assert(kept(split_on(q, '/')) =~= e);
        }
    }
}

/// Where a path lies relative to the project root does not depend on whether
/// the path or the root was normalized first.
pub proof fn lemma_relative_to_root_normalized(p: Seq<char>, root: Seq<char>, cwd: Seq<char>)
    ensures
        relative_to_root(normalized(p), root, cwd) == relative_to_root(p, root, cwd),
        relative_to_root(p, normalized(root), cwd) == relative_to_root(p, root, cwd),
{
    lemma_resolve_normalized(p, cwd);
    lemma_resolve_normalized(root, cwd);
}

/// A displayed path holds no backslash, and displaying it again changes
/// nothing.
pub proof fn lemma_display_path_stable(p: Seq<char>)
    ensures
        forall|i: int| 0 <= i < forward_slashes(p).len() ==> #[trigger] forward_slashes(p)[i] != '\\',
        forward_slashes(forward_slashes(p)) == forward_slashes(p),
{
    assert(forward_slashes(forward_slashes(p)) =~= forward_slashes(p));
}

// ---- which paths are test files ----

proof fn lemma_ends_with(stem: Seq<char>, suffix: Seq<char>)
    ensures
        has_suffix(stem + suffix, suffix),
{
    let n = stem + suffix;
    assert(n.subrange(n.len() - suffix.len(), n.len() as int) =~= suffix);
}

proof fn lemma_starts_with(prefix: Seq<char>, rest: Seq<char>)
    ensures
        has_prefix(prefix + rest, prefix),
{
    let n = prefix + rest;
    assert(n.subrange(0, prefix.len() as int) =~= prefix);
}

/// A file whose name follows a test naming convention is a test file, in any
/// directory: `*_test.go`, `*.test.ts`, `*.test.tsx`, `*.test.js`,
/// `*.test.jsx`, `*.spec.ts`, `*.spec.tsx`, `*.spec.js`, `*.spec.jsx`,
/// `*_spec.rb` and `test_*.py`.
pub proof fn lemma_test_file_names(p: Seq<char>, stem: Seq<char>)
    ensures
        file_name(p) == Some(stem + "_test.go"@) ==> is_test_path(p),
        file_name(p) == Some(stem + ".test.ts"@) ==> is_test_path(p),
        file_name(p) == Some(stem + ".test.tsx"@) ==> is_test_path(p),
        file_name(p) == Some(stem + ".test.js"@) ==> is_test_path(p),
        file_name(p) == Some(stem + ".test.jsx"@) ==> is_test_path(p),
        file_name(p) == Some(stem + ".spec.ts"@) ==> is_test_path(p),
        file_name(p) == Some(stem + ".spec.tsx"@) ==> is_test_path(p),
        file_name(p) == Some(stem + ".spec.js"@) ==> is_test_path(p),
        file_name(p) == Some(stem + ".spec.jsx"@) ==> is_test_path(p),
        file_name(p) == Some(stem + "_spec.rb"@) ==> is_test_path(p),
        file_name(p) == Some("test_"@ + stem + ".py"@) ==> is_test_path(p),
{
    lemma_ends_with(stem, "_test.go"@);
    lemma_ends_with(stem, ".test.ts"@);
    lemma_ends_with(stem, ".test.tsx"@);
    lemma_ends_with(stem, ".test.js"@);
    lemma_ends_with(stem, ".test.jsx"@);
    lemma_ends_with(stem, ".spec.ts"@);
    lemma_ends_with(stem, ".spec.tsx"@);
    lemma_ends_with(stem, ".spec.js"@);
    lemma_ends_with(stem, ".spec.jsx"@);
    lemma_ends_with(stem, "_spec.rb"@);
    lemma_ends_with("test_"@ + stem, ".py"@);
    lemma_starts_with("test_"@, stem + ".py"@);
    assert("test_"@ + stem + ".py"@ =~= "test_"@ + (stem + ".py"@));
}

/// A path with a `tests`, `test` or `__tests__` directory name anywhere is a
/// test file.
pub proof fn lemma_test_directories(p: Seq<char>, i: int)
    requires
        0 <= i < path_components(p).len(),
        path_components(p)[i] == "tests"@ || path_components(p)[i] == "test"@ || path_components(p)[i] == "__tests__"@,
    ensures
        is_test_path(p),
{
    reveal_strlit("tests");
    reveal_strlit("test");
    reveal_strlit("__tests__");
    let c = path_components(p)[i];
    assert(c != root_comp()) by { assert(c.len() != 1 || c[0] != '/'); }
    assert(c != cur_comp()) by { assert(c.len() != 1 || c[0] != '.'); }
    assert(c != parent_comp()) by { assert(c.len() != 2 || c[0] != '.'); }
    assert(is_normal(c) && is_test_dir_name(c));
}

} // verus!
