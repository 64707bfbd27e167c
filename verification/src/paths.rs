//! Unix path strings: joining, `~/` expansion, file names and extensions, and
//! the locations the app keeps its files in.
use vstd::prelude::*;
use crate::text::{extend_chars, from_chars, slice_chars, to_chars};

verus! {

/// `PathBuf::join` on Unix: an absolute `p` replaces `base`; otherwise a `/`
/// is inserted unless `base` is empty or already ends in one.
pub open spec fn path_join(base: Seq<char>, p: Seq<char>) -> Seq<char> {
    if p.len() > 0 && p[0] == '/' {
        p
    } else if base.len() == 0 || base.last() == '/' {
        base + p
    } else {
        base + seq!['/'] + p
    }
}

pub fn join_chars(base: &Vec<char>, p: &Vec<char>) -> (r: Vec<char>)
    ensures
        r@ == path_join(base@, p@),
{
    if p.len() > 0 && p[0] == '/' {
        return slice_chars(p, 0, p.len());
    }
    let mut r = slice_chars(base, 0, base.len());
    if !(base.len() == 0 || base[base.len() - 1] == '/') {
        r.push('/');
    }
    extend_chars(&mut r, p);
    assert(r@ =~= path_join(base@, p@));
    r
}

/// `Path::new(base).join(p)` as a string.
pub fn join_path(base: &str, p: &str) -> (r: String)
    ensures
        r@ == path_join(base@, p@),
{
    let b = to_chars(base);
    let q = to_chars(p);
    from_chars(&join_chars(&b, &q))
}

/// `~/rest` expanded against the home directory; any other path unchanged.
pub open spec fn expand_home_spec(raw: Seq<char>, home: Option<Seq<char>>) -> Seq<char> {
    if raw.len() >= 2 && raw[0] == '~' && raw[1] == '/' && home is Some {
        path_join(home->0, raw.skip(2))
    } else {
        raw
    }
}

pub open spec fn opt_view(o: Option<&str>) -> Option<Seq<char>> {
    match o {
        Some(s) => Some(s@),
        None => None,
    }
}

/// Expands a leading `~/` using `home` (the `HOME` environment variable, read
/// by the caller).
pub fn expand_home(raw: &str, home: Option<&str>) -> (r: String)
    ensures
        r@ == expand_home_spec(raw@, opt_view(home)),
{
    let v = to_chars(raw);
    if v.len() >= 2 && v[0] == '~' && v[1] == '/' {
        if let Some(h) = home {
            let rest = slice_chars(&v, 2, v.len());
            let hv = to_chars(h);
            assert(rest@ =~= raw@.skip(2));
            return from_chars(&join_chars(&hv, &rest));
        }
    }
    from_chars(&v)
}

/// Where transcripts go when no folder is configured.
pub open spec fn default_transcript_dir() -> Seq<char> {
    "~/Documents/AI Buddy Transcripts"@
}

pub fn default_transcript_dir_exec() -> (r: String)
    ensures
        r@ == default_transcript_dir(),
{
    "~/Documents/AI Buddy Transcripts".to_owned()
}

/// The transcript folder: the configured `transcript_dir` setting, or the
/// default when none is set, with `~/` expanded.
pub fn transcript_save_dir(configured: Option<&str>, home: Option<&str>) -> (r: String)
    ensures
        r@ == expand_home_spec(
            match configured {
                Some(c) => c@,
                None => default_transcript_dir(),
            },
            opt_view(home),
        ),
{
    match configured {
        Some(c) => expand_home(c, home),
        None => {
            let d = default_transcript_dir_exec();
            expand_home(d.as_str(), home)
        },
    }
}

// ── Comparing paths ─────────────────────────────────────────────────────────

/// First index at or after `i` that holds a `/`, or the length.
pub open spec fn next_slash(s: Seq<char>, i: int) -> int
    decreases s.len() - i,
{
    if i < 0 || i >= s.len() || s[i] == '/' {
        i
    } else {
        next_slash(s, i + 1)
    }
}

/// A segment between slashes names a component unless it is empty or `.`.
pub open spec fn is_named(seg: Seq<char>) -> bool {
    seg.len() > 0 && seg != seq!['.']
}

/// The named segments of `s[i..]`, in order.
pub open spec fn named_from(s: Seq<char>, i: int) -> Seq<Seq<char>>
    decreases s.len() - i,
{
    if i < 0 || i > s.len() {
        seq![]
    } else {
        let j = next_slash(s, i);
        let seg = s.subrange(i, j);
        let here: Seq<Seq<char>> = if is_named(seg) {
            seq![seg]
        } else {
            seq![]
        };
        if j < i || j >= s.len() {
            here
        } else {
            here + named_from(s, j + 1)
        }
    }
}

/// `Path::components` on Unix, each as text: `/` for the root, `.` for a
/// leading `.` of a relative path, then the segments that are neither empty
/// nor `.` (so repeated and trailing slashes and inner `.` vanish).
pub open spec fn path_components(s: Seq<char>) -> Seq<Seq<char>> {
    let rooted = s.len() > 0 && s[0] == '/';
    let cur = !rooted && s.len() > 0 && s[0] == '.' && (s.len() == 1 || s[1] == '/');
    (if rooted {
        seq![seq!['/']]
    } else {
        Seq::<Seq<char>>::empty()
    }) + (if cur {
        seq![seq!['.']]
    } else {
        Seq::<Seq<char>>::empty()
    }) + named_from(s, 0)
}

proof fn lemma_next_slash(s: Seq<char>, i: int)
    requires
        0 <= i <= s.len(),
    ensures
        i <= next_slash(s, i) <= s.len(),
        forall|k: int| i <= k < next_slash(s, i) ==> s[k] != '/',
        next_slash(s, i) < s.len() ==> s[next_slash(s, i)] == '/',
    decreases s.len() - i,
{
    if i < s.len() && s[i] != '/' {
        lemma_next_slash(s, i + 1);
    }
}

fn next_slash_exec(s: &Vec<char>, i: usize) -> (j: usize)
    requires
        i <= s.len(),
    ensures
        j == next_slash(s@, i as int),
{
    let mut j = i;
    while j < s.len() && s[j] != '/'
        invariant
            i <= j <= s.len(),
            next_slash(s@, j as int) == next_slash(s@, i as int),
        decreases s.len() - j,
    {
        j += 1;
    }
    j
}

fn components_exec(s: &Vec<char>) -> (r: Vec<Vec<char>>)
    ensures
        r@.len() == path_components(s@).len(),
        forall|k: int| 0 <= k < r@.len() ==> (#[trigger] r@[k])@ == path_components(s@)[k],
{
    let ghost pre: Seq<Seq<char>> = seq![];
    let mut r: Vec<Vec<char>> = Vec::new();
    let rooted = s.len() > 0 && s[0] == '/';
    if rooted {
        r.push(vec!['/']);
        proof {
            pre = seq![seq!['/']];
        }
    }
    if !rooted && s.len() > 0 && s[0] == '.' && (s.len() == 1 || s[1] == '/') {
        r.push(vec!['.']);
        proof {
            pre = pre + seq![seq!['.']];
        }
    }
    proof {
        assert(r@.len() == pre.len());
        assert forall|k: int| 0 <= k < r@.len() implies (#[trigger] r@[k])@ == pre[k] by {
            if rooted && k == 0 {
                assert(r@[0]@ =~= seq!['/']);
            } else {
                assert(r@[k]@ =~= seq!['.']);
            }
        }
        assert(path_components(s@) =~= pre + named_from(s@, 0));
    }
    let mut i: usize = 0;
    let mut done = false;
    while !done
        invariant
            i <= s.len(),
            r@.len() == pre.len(),
            forall|k: int| 0 <= k < r@.len() ==> (#[trigger] r@[k])@ == pre[k],
            path_components(s@) == pre + (if done { Seq::<Seq<char>>::empty() } else { named_from(s@, i as int) }),
        decreases s.len() - i + (if done { 0int } else { 1int }),
    {
        let j = next_slash_exec(s, i);
        proof {
            lemma_next_slash(s@, i as int);
        }
        let seg = slice_chars(s, i, j);
        let named = seg.len() > 0 && !(seg.len() == 1 && seg[0] == '.');
        proof {
            assert(seg@ == s@.subrange(i as int, j as int));
            if seg@ == seq!['.'] {
                assert(seg@.len() == 1 && seg@[0] == '.');
            }
            if seg@.len() == 1 && seg@[0] == '.' {
                assert(seg@ =~= seq!['.']);
            }
            assert(named == is_named(seg@));
        }
        let ghost rest = named_from(s@, i as int);
        if named {
            r.push(seg);
            proof {
                pre = pre.push(s@.subrange(i as int, j as int));
            }
        }
        if j >= s.len() {
            proof {
                assert(path_components(s@) =~= pre + Seq::<Seq<char>>::empty());
            }
            done = true;
        } else {
            proof {
                assert(path_components(s@) =~= pre + named_from(s@, j + 1));
            }
            i = j + 1;
        }
    }
    r
}

/// `Path::new(a) == Path::new(b)`: the two name the same components.
pub fn same_path(a: &str, b: &str) -> (r: bool)
    ensures
        r == (path_components(a@) == path_components(b@)),
{
    let ca = components_exec(&to_chars(a));
    let cb = components_exec(&to_chars(b));
    if ca.len() != cb.len() {
        return false;
    }
    let mut k: usize = 0;
    while k < ca.len()
        invariant
            k <= ca.len(),
            ca@.len() == cb@.len(),
            ca@.len() == path_components(a@).len(),
            cb@.len() == path_components(b@).len(),
            forall|m: int| 0 <= m < ca@.len() ==> (#[trigger] ca@[m])@ == path_components(a@)[m],
            forall|m: int| 0 <= m < cb@.len() ==> (#[trigger] cb@[m])@ == path_components(b@)[m],
            forall|m: int| 0 <= m < k ==> path_components(a@)[m] == path_components(b@)[m],
        decreases ca.len() - k,
    {
        if !crate::text::chars_eq(&ca[k], &cb[k]) {
            assert(path_components(a@)[k as int] != path_components(b@)[k as int]);
            return false;
        }
        k += 1;
    }
    assert(path_components(a@) =~= path_components(b@));
    true
}

// ── File names ──────────────────────────────────────────────────────────────

/// End of the last path segment that is neither empty nor `.`, scanning
/// backwards from `j` (0 when there is none).
pub open spec fn last_segment_end(s: Seq<char>, j: int) -> int
    decreases j,
{
    if j <= 0 || j > s.len() {
        0
    } else if s[j - 1] == '/' {
        last_segment_end(s, j - 1)
    } else if s[j - 1] == '.' && (j == 1 || s[j - 2] == '/') {
        last_segment_end(s, j - 1)
    } else {
        j
    }
}

/// Start of the segment that ends at `j`.
pub open spec fn segment_start(s: Seq<char>, j: int) -> int
    decreases j,
{
    if j <= 0 || j > s.len() || s[j - 1] == '/' {
        j
    } else {
        segment_start(s, j - 1)
    }
}

/// `Path::file_name`: the last normal component, or `None` when the path has
/// none or ends in `..`.
pub open spec fn file_name_spec(s: Seq<char>) -> Option<Seq<char>> {
    let e = last_segment_end(s, s.len() as int);
    let name = s.subrange(segment_start(s, e), e);
    if e == 0 || name == seq!['.', '.'] {
        None
    } else {
        Some(name)
    }
}

pub fn file_name(path: &str) -> (r: Option<String>)
    ensures
        match r {
            Some(n) => file_name_spec(path@) == Some(n@),
            None => file_name_spec(path@) is None,
        },
{
    let s = to_chars(path);
    let mut e = s.len();
    while e > 0 && (s[e - 1] == '/' || (s[e - 1] == '.' && (e == 1 || s[e - 2] == '/')))
        invariant
            e <= s.len(),
            last_segment_end(s@, e as int) == last_segment_end(s@, s.len() as int),
        decreases e,
    {
        e = e - 1;
    }
    let mut a = e;
    while a > 0 && s[a - 1] != '/'
        invariant
            a <= e <= s.len(),
            segment_start(s@, a as int) == segment_start(s@, e as int),
        decreases a,
    {
        a = a - 1;
    }
    if e == 0 {
        return None;
    }
    let name = slice_chars(&s, a, e);
    if name.len() == 2 && name[0] == '.' && name[1] == '.' {
        assert(name@ =~= seq!['.', '.']);
        return None;
    }
    assert(name@ != seq!['.', '.']) by {
        if name@ == seq!['.', '.'] {
            assert(name@.len() == 2 && name@[0] == '.' && name@[1] == '.');
        }
    }
    Some(from_chars(&name))
}

/// Index of the last `.` in `s` before `j`, or -1.
pub open spec fn last_dot_before(s: Seq<char>, j: int) -> int
    decreases j,
{
    if j <= 0 || j > s.len() {
        -1
    } else if s[j - 1] == '.' {
        j - 1
    } else {
        last_dot_before(s, j - 1)
    }
}

/// `Path::extension` of a file name: the text after its last `.`, unless the
/// only `.` is the leading one (or there is none).
pub open spec fn extension_spec(name: Seq<char>) -> Option<Seq<char>> {
    let d = last_dot_before(name, name.len() as int);
    if d <= 0 {
        None
    } else {
        Some(name.skip(d + 1))
    }
}

pub fn extension(name: &Vec<char>) -> (r: Option<Vec<char>>)
    ensures
        match r {
            Some(e) => extension_spec(name@) == Some(e@),
            None => extension_spec(name@) is None,
        },
{
    let mut j = name.len();
    while j > 0 && name[j - 1] != '.'
        invariant
            j <= name.len(),
            last_dot_before(name@, j as int) == last_dot_before(name@, name.len() as int),
        decreases j,
    {
        j = j - 1;
    }
    if j <= 1 {
        return None;
    }
    let e = slice_chars(name, j, name.len());
    assert(e@ =~= name@.skip(j as int));
    Some(e)
}

} // verus!
