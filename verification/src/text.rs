//! Character-level text primitives shared by the prompt, transcript and path
//! logic: whitespace, trimming, UTF-8 byte lengths, substring search, word
//! splitting and decimal rendering, each with the specification it meets.
use vstd::prelude::*;

verus! {

// ── Whitespace ──────────────────────────────────────────────────────────────

/// Unicode `White_Space`: the characters for which `char::is_whitespace` holds.
pub open spec fn is_white(c: char) -> bool {
    let u = c as u32;
    ||| 0x09 <= u <= 0x0D
    ||| u == 0x20
    ||| u == 0x85
    ||| u == 0xA0
    ||| u == 0x1680
    ||| 0x2000 <= u <= 0x200A
    ||| u == 0x2028
    ||| u == 0x2029
    ||| u == 0x202F
    ||| u == 0x205F
    ||| u == 0x3000
}

pub fn is_whitespace_char(c: char) -> (b: bool)
    ensures
        b == is_white(c),
{
    let u = c as u32;
    (0x09 <= u && u <= 0x0D) || u == 0x20 || u == 0x85 || u == 0xA0 || u == 0x1680 || (0x2000
        <= u && u <= 0x200A) || u == 0x2028 || u == 0x2029 || u == 0x202F || u == 0x205F || u
        == 0x3000
}

// ── UTF-8 byte lengths ──────────────────────────────────────────────────────

/// Number of bytes in the UTF-8 encoding of `c`.
pub open spec fn utf8_width(c: char) -> nat {
    let u = c as u32;
    if u < 0x80 {
        1
    } else if u < 0x800 {
        2
    } else if u < 0x10000 {
        3
    } else {
        4
    }
}

pub fn char_width(c: char) -> (w: usize)
    ensures
        w == utf8_width(c),
        1 <= w <= 4,
{
    let u = c as u32;
    if u < 0x80 {
        1
    } else if u < 0x800 {
        2
    } else if u < 0x10000 {
        3
    } else {
        4
    }
}

/// Number of bytes in the UTF-8 encoding of `s` (what `str::len` reports).
pub open spec fn byte_len(s: Seq<char>) -> nat
    decreases s.len(),
{
    if s.len() == 0 {
        0
    } else {
        utf8_width(s[0]) + byte_len(s.drop_first())
    }
}

pub proof fn lemma_byte_len_concat(a: Seq<char>, b: Seq<char>)
    ensures
        byte_len(a + b) == byte_len(a) + byte_len(b),
    decreases a.len(),
{
    if a.len() == 0 {
        assert(a + b =~= b);
    } else {
        assert((a + b).drop_first() =~= a.drop_first() + b);
        lemma_byte_len_concat(a.drop_first(), b);
    }
}

pub proof fn lemma_byte_len_bounds(s: Seq<char>)
    ensures
        s.len() <= byte_len(s) <= 4 * s.len(),
    decreases s.len(),
{
    if s.len() > 0 {
        lemma_byte_len_bounds(s.drop_first());
    }
}

/// A sequence of one-byte characters has as many bytes as characters.
pub proof fn lemma_byte_len_ascii(s: Seq<char>)
    requires
        forall|i: int| 0 <= i < s.len() ==> (s[i] as u32) < 0x80,
    ensures
        byte_len(s) == s.len(),
    decreases s.len(),
{
    if s.len() > 0 {
        lemma_byte_len_ascii(s.drop_first());
    }
}

/// The longest prefix of `s` whose UTF-8 encoding fits in `limit` bytes; its
/// end is the last character boundary at or before byte `limit`.
pub open spec fn fit_prefix(s: Seq<char>, limit: int) -> nat
    decreases s.len(),
{
    if s.len() == 0 || utf8_width(s[0]) > limit {
        0
    } else {
        1 + fit_prefix(s.drop_first(), limit - utf8_width(s[0]))
    }
}

pub proof fn lemma_fit_prefix(s: Seq<char>, limit: int)
    ensures
        fit_prefix(s, limit) <= s.len(),
        byte_len(s.take(fit_prefix(s, limit) as int)) <= limit || fit_prefix(s, limit) == 0,
        limit >= 0 ==> byte_len(s.take(fit_prefix(s, limit) as int)) <= limit,
        fit_prefix(s, limit) < s.len() ==> byte_len(s.take(fit_prefix(s, limit) + 1 as int)) > limit,
        byte_len(s) <= limit ==> fit_prefix(s, limit) == s.len(),
    decreases s.len(),
{
    if s.len() == 0 {
        assert(s.take(0) =~= Seq::<char>::empty());
    } else if utf8_width(s[0]) > limit {
        assert(s.take(0) =~= Seq::<char>::empty());
        assert(s.take(1).drop_first() =~= Seq::<char>::empty());
        assert(byte_len(s.take(1).drop_first()) == 0);
        assert(s.take(1)[0] == s[0]);
        assert(byte_len(s.take(1)) == utf8_width(s[0]));
        lemma_byte_len_bounds(s.drop_first());
    } else {
        let r = s.drop_first();
        let w = utf8_width(s[0]);
        lemma_fit_prefix(r, limit - w);
        let k = fit_prefix(r, limit - w) as int;
        assert(s.take(k + 1).drop_first() =~= r.take(k));
        if k < r.len() {
            assert(s.take(k + 2).drop_first() =~= r.take(k + 1));
        }
    }
}

/// Index of the end of the longest prefix of `s[start..]` that fits in
/// `limit` bytes.
pub fn fit_prefix_exec(s: &Vec<char>, limit: usize) -> (k: usize)
    ensures
        k == fit_prefix(s@, limit as int),
{
    let mut i: usize = 0;
    let mut room: usize = limit;
    assert(s@.skip(0) =~= s@);
    while i < s.len()
        invariant
            i <= s.len(),
            room <= limit,
            fit_prefix(s@, limit as int) == i + fit_prefix(s@.skip(i as int), room as int),
        decreases s.len() - i,
    {
        let w = char_width(s[i]);
        assert(s@.skip(i as int)[0] == s@[i as int]);
        assert(s@.skip(i as int).drop_first() =~= s@.skip(i + 1));
        if w > room {
            return i;
        }
        room = room - w;
        i = i + 1;
    }
    assert(s@.skip(i as int).len() == 0);
    i
}

pub fn byte_len_exec(s: &Vec<char>) -> (n: usize)
    requires
        4 * s.len() <= usize::MAX,
    ensures
        n == byte_len(s@),
{
    let mut i: usize = s.len();
    let mut n: usize = 0;
    proof {
        lemma_byte_len_bounds(s@);
    }
    while i > 0
        invariant
            i <= s.len(),
            4 * s.len() <= usize::MAX,
            n == byte_len(s@.skip(i as int)),
            n <= 4 * (s.len() - i),
        decreases i,
    {
        let w = char_width(s[i - 1]);
        assert(s@.skip(i - 1).drop_first() =~= s@.skip(i as int));
        n = n + w;
        i = i - 1;
    }
    assert(s@.skip(0) =~= s@);
    n
}

// ── Trimming ────────────────────────────────────────────────────────────────

/// First index at or after `i` that holds a non-whitespace character, or the
/// length when there is none.
pub open spec fn skip_white(s: Seq<char>, i: int) -> int
    decreases s.len() - i,
{
    if i < 0 || i >= s.len() || !is_white(s[i]) {
        i
    } else {
        skip_white(s, i + 1)
    }
}

/// Smallest index `k <= j` such that `s[k..j]` is all whitespace.
pub open spec fn rskip_white(s: Seq<char>, j: int) -> int
    decreases j,
{
    if j <= 0 || j > s.len() || !is_white(s[j - 1]) {
        j
    } else {
        rskip_white(s, j - 1)
    }
}

pub open spec fn trim_start(s: Seq<char>) -> Seq<char> {
    s.skip(skip_white(s, 0))
}

pub open spec fn trim_end(s: Seq<char>) -> Seq<char> {
    s.take(rskip_white(s, s.len() as int))
}

/// `str::trim`: both ends stripped of whitespace.
pub open spec fn trim(s: Seq<char>) -> Seq<char> {
    trim_end(trim_start(s))
}

pub proof fn lemma_skip_white(s: Seq<char>, i: int)
    requires
        0 <= i <= s.len(),
    ensures
        i <= skip_white(s, i) <= s.len(),
        forall|k: int| i <= k < skip_white(s, i) ==> is_white(#[trigger] s[k]),
        skip_white(s, i) < s.len() ==> !is_white(s[skip_white(s, i)]),
    decreases s.len() - i,
{
    if i < s.len() && is_white(s[i]) {
        lemma_skip_white(s, i + 1);
    }
}

pub proof fn lemma_rskip_white(s: Seq<char>, j: int)
    requires
        0 <= j <= s.len(),
    ensures
        0 <= rskip_white(s, j) <= j,
        forall|k: int| rskip_white(s, j) <= k < j ==> is_white(#[trigger] s[k]),
        rskip_white(s, j) > 0 ==> !is_white(s[rskip_white(s, j) - 1]),
    decreases j,
{
    if j > 0 && is_white(s[j - 1]) {
        lemma_rskip_white(s, j - 1);
    }
}

/// Trimming twice is trimming once.
pub proof fn lemma_trim_idempotent(s: Seq<char>)
    ensures
        trim(trim(s)) == trim(s),
{
    lemma_skip_white(s, 0);
    let t0 = trim_start(s);
    lemma_rskip_white(t0, t0.len() as int);
    let t = trim(s);
    if t.len() == 0 {
        assert(trim(t) =~= t);
    } else {
        assert(t[0] == t0[0]);
        assert(t.last() == t0[t.len() - 1]);
        assert(skip_white(t, 0) == 0);
        assert(trim_start(t) =~= t);
        assert(rskip_white(t, t.len() as int) == t.len());
        assert(trim(t) =~= t);
    }
}

pub fn skip_white_exec(s: &Vec<char>, start: usize) -> (k: usize)
    requires
        start <= s.len(),
    ensures
        k == skip_white(s@, start as int),
        start <= k <= s.len(),
{
    let mut i = start;
    while i < s.len() && is_whitespace_char(s[i])
        invariant
            start <= i <= s.len(),
            skip_white(s@, i as int) == skip_white(s@, start as int),
        decreases s.len() - i,
    {
        i = i + 1;
    }
    i
}

pub fn rskip_white_exec(s: &Vec<char>, end: usize) -> (k: usize)
    requires
        end <= s.len(),
    ensures
        k == rskip_white(s@, end as int),
        k <= end,
{
    let mut j = end;
    while j > 0 && is_whitespace_char(s[j - 1])
        invariant
            j <= end <= s.len(),
            rskip_white(s@, j as int) == rskip_white(s@, end as int),
        decreases j,
    {
        j = j - 1;
    }
    j
}

/// The characters `s[lo..hi]`.
pub fn slice_chars(s: &Vec<char>, lo: usize, hi: usize) -> (r: Vec<char>)
    requires
        lo <= hi <= s.len(),
    ensures
        r@ == s@.subrange(lo as int, hi as int),
{
    let mut r: Vec<char> = Vec::new();
    let mut i = lo;
    while i < hi
        invariant
            lo <= i <= hi <= s.len(),
            r@ == s@.subrange(lo as int, i as int),
        decreases hi - i,
    {
        r.push(s[i]);
        i = i + 1;
    }
    r
}

pub fn trim_chars(s: &Vec<char>) -> (r: Vec<char>)
    ensures
        r@ == trim(s@),
{
    let a = skip_white_exec(s, 0);
    let t = slice_chars(s, a, s.len());
    assert(t@ =~= trim_start(s@));
    let b = rskip_white_exec(&t, t.len());
    let r = slice_chars(&t, 0, b);
    assert(r@ =~= trim_end(t@));
    r
}

pub fn trim_end_chars(s: &Vec<char>) -> (r: Vec<char>)
    ensures
        r@ == trim_end(s@),
{
    let b = rskip_white_exec(s, s.len());
    let r = slice_chars(s, 0, b);
    assert(r@ =~= trim_end(s@));
    r
}

// ── Strings ─────────────────────────────────────────────────────────────────

/// `String::push`: appends `c` to `s`; the contract says the characters
/// of `s` afterwards are those before, then `c`.
#[verifier::external_body]
pub fn push_char(s: &mut String, c: char)
    ensures
        final(s)@ == old(s)@.push(c),
{
    s.push(c);
}

/// The characters of `s`, in order.
pub fn to_chars(s: &str) -> (v: Vec<char>)
    ensures
        v@ == s@,
{
    let mut v: Vec<char> = Vec::new();
    for c in it: s.chars()
        invariant
            v@ == it.seq().take(it.index() as int),
    {
        v.push(c);
    }
    v
}

/// Appends the characters of `v` to `s`.
pub fn push_chars(s: &mut String, v: &Vec<char>)
    ensures
        final(s)@ == old(s)@ + v@,
{
    let mut i: usize = 0;
    while i < v.len()
        invariant
            i <= v.len(),
            s@ == old(s)@ + v@.take(i as int),
        decreases v.len() - i,
    {
        push_char(s, v[i]);
        assert(v@.take(i as int).push(v@[i as int]) =~= v@.take(i + 1));
        i += 1;
    }
    assert(v@.take(v.len() as int) =~= v@);
}

/// Appends `t` to `s`.
pub fn push_str(s: &mut String, t: &str)
    ensures
        final(s)@ == old(s)@ + t@,
{
    let v = to_chars(t);
    push_chars(s, &v);
}

pub fn from_chars(v: &Vec<char>) -> (s: String)
    ensures
        s@ == v@,
{
    let mut s = String::new();
    push_chars(&mut s, v);
    assert(Seq::<char>::empty() + v@ =~= v@);
    s
}

/// Append the characters of `v` to the vector `out`.
pub fn extend_chars(out: &mut Vec<char>, v: &Vec<char>)
    ensures
        final(out)@ == old(out)@ + v@,
{
    let mut i: usize = 0;
    while i < v.len()
        invariant
            i <= v.len(),
            out@ == old(out)@ + v@.take(i as int),
        decreases v.len() - i,
    {
        out.push(v[i]);
        assert(v@.take(i as int).push(v@[i as int]) =~= v@.take(i + 1));
        i += 1;
    }
    assert(v@.take(v.len() as int) =~= v@);
}

pub fn chars_eq(a: &Vec<char>, b: &Vec<char>) -> (r: bool)
    ensures
        r == (a@ == b@),
{
    if a.len() != b.len() {
        return false;
    }
    let mut i: usize = 0;
    while i < a.len()
        invariant
            a.len() == b.len(),
            i <= a.len(),
            forall|k: int| 0 <= k < i ==> a@[k] == b@[k],
        decreases a.len() - i,
    {
        if a[i] != b[i] {
            return false;
        }
        i += 1;
    }
    assert(a@ =~= b@);
    true
}

pub fn str_eq(a: &str, b: &str) -> (r: bool)
    ensures
        r == (a@ == b@),
{
    let x = to_chars(a);
    let y = to_chars(b);
    chars_eq(&x, &y)
}

// ── Substring search ────────────────────────────────────────────────────────

/// `p` occurs in `s` starting at index `i`.
pub open spec fn occurs_at(s: Seq<char>, p: Seq<char>, i: int) -> bool {
    &&& 0 <= i
    &&& i + p.len() <= s.len()
    &&& forall|k: int| 0 <= k < p.len() ==> #[trigger] s[i + k] == p[k]
}

pub open spec fn contains_seq(s: Seq<char>, p: Seq<char>) -> bool {
    exists|i: int| occurs_at(s, p, i)
}

pub fn occurs_at_exec(s: &Vec<char>, p: &Vec<char>, i: usize) -> (r: bool)
    ensures
        r == occurs_at(s@, p@, i as int),
{
    if i > s.len() || p.len() > s.len() - i {
        return false;
    }
    let mut k: usize = 0;
    while k < p.len()
        invariant
            i + p.len() <= s.len(),
            k <= p.len(),
            forall|m: int| 0 <= m < k ==> s@[i + m] == p@[m],
        decreases p.len() - k,
    {
        if s[i + k] != p[k] {
            assert(!(s@[i + k as int] == p@[k as int]));
            return false;
        }
        k += 1;
    }
    true
}

/// First index at or after `i` where `p` occurs in `s`, or `s.len()` when it
/// does not occur there.
pub open spec fn first_occurrence_from(s: Seq<char>, p: Seq<char>, i: int) -> int
    decreases s.len() - i,
{
    if i < 0 || i >= s.len() {
        s.len() as int
    } else if occurs_at(s, p, i) {
        i
    } else {
        first_occurrence_from(s, p, i + 1)
    }
}

/// Text before the first occurrence of `p` (all of `s` when `p` is absent):
/// what `s.split(p).next()` gives.
pub open spec fn before_first(s: Seq<char>, p: Seq<char>) -> Seq<char> {
    s.take(first_occurrence_from(s, p, 0))
}

pub proof fn lemma_first_occurrence(s: Seq<char>, p: Seq<char>, i: int)
    requires
        0 <= i <= s.len(),
    ensures
        i <= first_occurrence_from(s, p, i) <= s.len(),
        forall|k: int| i <= k < first_occurrence_from(s, p, i) ==> !occurs_at(s, p, k),
        first_occurrence_from(s, p, i) < s.len() ==> occurs_at(
            s,
            p,
            first_occurrence_from(s, p, i),
        ),
    decreases s.len() - i,
{
    if i < s.len() && !occurs_at(s, p, i) {
        lemma_first_occurrence(s, p, i + 1);
    }
}

pub fn first_occurrence_exec(s: &Vec<char>, p: &Vec<char>) -> (k: usize)
    ensures
        k == first_occurrence_from(s@, p@, 0),
{
    let mut i: usize = 0;
    while i < s.len()
        invariant
            i <= s.len(),
            first_occurrence_from(s@, p@, i as int) == first_occurrence_from(s@, p@, 0),
        decreases s.len() - i,
    {
        if occurs_at_exec(s, p, i) {
            return i;
        }
        i += 1;
    }
    i
}

pub fn before_first_exec(s: &Vec<char>, p: &Vec<char>) -> (r: Vec<char>)
    ensures
        r@ == before_first(s@, p@),
{
    let k = first_occurrence_exec(s, p);
    proof {
        lemma_first_occurrence(s@, p@, 0);
    }
    slice_chars(s, 0, k)
}

pub fn contains_exec(s: &Vec<char>, p: &Vec<char>) -> (r: bool)
    ensures
        r == contains_seq(s@, p@),
{
    if p.len() == 0 {
        assert(occurs_at(s@, p@, 0));
        return true;
    }
    if p.len() > s.len() {
        assert forall|k: int| !occurs_at(s@, p@, k) by {}
        return false;
    }
    let last = s.len() - p.len();
    let mut i: usize = 0;
    while i <= last
        invariant
            last + p.len() == s.len(),
            p.len() >= 1,
            i <= last + 1,
            forall|k: int| 0 <= k < i ==> !occurs_at(s@, p@, k),
        decreases last + 1 - i,
    {
        if occurs_at_exec(s, p, i) {
            assert(occurs_at(s@, p@, i as int));
            return true;
        }
        i += 1;
    }
    assert forall|k: int| !occurs_at(s@, p@, k) by {
        if 0 <= k && k < i {
        } else if k >= i {
            assert(k > last);
        }
    }
    false
}

// ── Words ───────────────────────────────────────────────────────────────────

/// First index at or after `i` that holds whitespace, or the length.
pub open spec fn word_end(s: Seq<char>, i: int) -> int
    decreases s.len() - i,
{
    if i < 0 || i >= s.len() || is_white(s[i]) {
        i
    } else {
        word_end(s, i + 1)
    }
}

pub proof fn lemma_word_end(s: Seq<char>, i: int)
    requires
        0 <= i <= s.len(),
    ensures
        i <= word_end(s, i) <= s.len(),
        forall|k: int| i <= k < word_end(s, i) ==> !is_white(#[trigger] s[k]),
        word_end(s, i) < s.len() ==> is_white(s[word_end(s, i)]),
    decreases s.len() - i,
{
    if i < s.len() && !is_white(s[i]) {
        lemma_word_end(s, i + 1);
    }
}

/// The whitespace-separated words of `s[i..]` (`str::split_whitespace`).
pub open spec fn words_from(s: Seq<char>, i: int) -> Seq<Seq<char>>
    decreases s.len() - i,
{
    let a = skip_white(s, i);
    if i < 0 || a >= s.len() || a < i {
        seq![]
    } else {
        let b = word_end(s, a);
        if b <= a || b > s.len() {
            seq![]
        } else {
            seq![s.subrange(a, b)] + words_from(s, b)
        }
    }
}

pub open spec fn words(s: Seq<char>) -> Seq<Seq<char>> {
    words_from(s, 0)
}

pub fn word_end_exec(s: &Vec<char>, start: usize) -> (k: usize)
    requires
        start <= s.len(),
    ensures
        k == word_end(s@, start as int),
        start <= k <= s.len(),
{
    let mut i = start;
    while i < s.len() && !is_whitespace_char(s[i])
        invariant
            start <= i <= s.len(),
            word_end(s@, i as int) == word_end(s@, start as int),
        decreases s.len() - i,
    {
        i = i + 1;
    }
    i
}

/// Joins `parts` with `sep` between consecutive parts (`[..].join(sep)`).
pub open spec fn join(parts: Seq<Seq<char>>, sep: Seq<char>) -> Seq<char>
    decreases parts.len(),
{
    if parts.len() == 0 {
        seq![]
    } else if parts.len() == 1 {
        parts[0]
    } else {
        join(parts.drop_last(), sep) + sep + parts.last()
    }
}

/// At most the first `n` elements of `s`.
pub open spec fn take_at_most<A>(s: Seq<A>, n: int) -> Seq<A> {
    if n <= s.len() {
        s.take(n)
    } else {
        s
    }
}

/// The first `n` words of `s`, joined by single spaces.
pub fn first_words_joined(s: &Vec<char>, n: usize) -> (r: Vec<char>)
    ensures
        r@ == join(take_at_most(words(s@), n as int), seq![' ']),
{
    let mut r: Vec<char> = Vec::new();
    let mut i: usize = 0;
    let mut count: usize = 0;
    let mut done = false;
    let ghost mut taken: Seq<Seq<char>> = seq![];
    while count < n && !done
        invariant
            i <= s.len(),
            count <= n,
            taken.len() == count,
            words(s@) == taken + words_from(s@, i as int),
            r@ == join(taken, seq![' ']),
            done ==> words_from(s@, i as int).len() == 0,
        decreases 2 * (n - count) + (if done { 0int } else { 1int }),
    {
        let a = skip_white_exec(s, i);
        if a >= s.len() {
            done = true;
        } else {
            let b = word_end_exec(s, a);
            proof {
                lemma_skip_white(s@, i as int);
                lemma_word_end(s@, a as int);
            }
            let w = slice_chars(s, a, b);
            if count > 0 {
                r.push(' ');
            }
            extend_chars(&mut r, &w);
            proof {
                let old_taken = taken;
                taken = taken.push(w@);
                assert(taken.drop_last() =~= old_taken);
                assert(words_from(s@, i as int) == seq![w@] + words_from(s@, b as int));
                assert(words(s@) =~= taken + words_from(s@, b as int));
            }
            i = b;
            count = count + 1;
        }
    }
    proof {
        if done {
            assert(words(s@) =~= taken);
            if n as int <= taken.len() {
                assert(taken.take(n as int) =~= taken);
            }
            assert(take_at_most(words(s@), n as int) == taken);
        } else {
            assert(words(s@).take(n as int) =~= taken);
            assert(take_at_most(words(s@), n as int) == taken);
        }
    }
    r
}

// ── Decimal numbers ─────────────────────────────────────────────────────────

pub open spec fn digit_char(d: int) -> char {
    if d == 0 { '0' }
    else if d == 1 { '1' }
    else if d == 2 { '2' }
    else if d == 3 { '3' }
    else if d == 4 { '4' }
    else if d == 5 { '5' }
    else if d == 6 { '6' }
    else if d == 7 { '7' }
    else if d == 8 { '8' }
    else { '9' }
}

/// Decimal digits of `n`, most significant first, without leading zeros
/// (`"0"` for zero).
pub open spec fn decimal(n: nat) -> Seq<char>
    decreases n,
{
    if n < 10 {
        seq![digit_char(n as int)]
    } else {
        decimal(n / 10).push(digit_char((n % 10) as int))
    }
}

/// Decimal digits of `n`, left-padded with zeros to at least `width` digits.
pub open spec fn zero_pad(n: nat, width: nat) -> Seq<char> {
    let d = decimal(n);
    if d.len() >= width {
        d
    } else {
        Seq::new((width - d.len()) as nat, |i: int| '0') + d
    }
}

/// Decimal rendering of a signed integer, as `{}` formats it.
pub open spec fn signed_decimal(v: int) -> Seq<char> {
    if v < 0 {
        seq!['-'] + decimal((-v) as nat)
    } else {
        decimal(v as nat)
    }
}

pub fn digit(d: u64) -> (c: char)
    requires
        d < 10,
    ensures
        c == digit_char(d as int),
{
    if d == 0 { '0' }
    else if d == 1 { '1' }
    else if d == 2 { '2' }
    else if d == 3 { '3' }
    else if d == 4 { '4' }
    else if d == 5 { '5' }
    else if d == 6 { '6' }
    else if d == 7 { '7' }
    else if d == 8 { '8' }
    else { '9' }
}

pub fn decimal_exec(n: u64) -> (r: Vec<char>)
    ensures
        r@ == decimal(n as nat),
    decreases n,
{
    if n < 10 {
        let mut r = Vec::new();
        r.push(digit(n));
        r
    } else {
        let mut r = decimal_exec(n / 10);
        r.push(digit(n % 10));
        r
    }
}

pub fn zero_pad_exec(n: u64, width: usize) -> (r: Vec<char>)
    ensures
        r@ == zero_pad(n as nat, width as nat),
{
    let d = decimal_exec(n);
    if d.len() >= width {
        d
    } else {
        let mut r: Vec<char> = Vec::new();
        let pad = width - d.len();
        let mut i: usize = 0;
        while i < pad
            invariant
                i <= pad,
                r@ == Seq::new(i as nat, |k: int| '0'),
            decreases pad - i,
        {
            r.push('0');
            assert(r@ =~= Seq::new((i + 1) as nat, |k: int| '0'));
            i += 1;
        }
        extend_chars(&mut r, &d);
        r
    }
}

pub fn signed_decimal_exec(v: i64) -> (r: Vec<char>)
    ensures
        r@ == signed_decimal(v as int),
{
    if v < 0 {
        let m: u64 = if v == i64::MIN {
            9223372036854775808u64
        } else {
            (-v) as u64
        };
        let d = decimal_exec(m);
        let mut r = Vec::new();
        r.push('-');
        extend_chars(&mut r, &d);
        r
    } else {
        decimal_exec(v as u64)
    }
}

} // verus!
