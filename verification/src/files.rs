//! What a dropped file contributes to the chat: a note for images and PDFs,
//! otherwise its text, cut to fit the context window.
use vstd::prelude::*;
use crate::paths::{extension, extension_spec, file_name, file_name_spec};
use crate::text::{byte_len, fit_prefix, fit_prefix_exec, from_chars, lemma_fit_prefix, push_chars, push_str, slice_chars, to_chars};

verus! {

/// `c` lowercases to the ASCII letter `t`: `t` itself, its upper-case form,
/// or the Kelvin sign for `k`.
pub open spec fn lower_char_is(c: char, t: char) -> bool {
    ||| c == t
    ||| (0x41 <= (c as u32) <= 0x5A && (c as u32) + 32 == (t as u32))
    ||| ((c as u32) == 0x212A && t == 'k')
}

/// `s.to_lowercase() == t` for a lower-case ASCII word `t`.
pub open spec fn lower_is(s: Seq<char>, t: Seq<char>) -> bool {
    &&& s.len() == t.len()
    &&& forall|k: int| 0 <= k < s.len() ==> lower_char_is(#[trigger] s[k], t[k])
}

pub open spec fn image_exts() -> Seq<Seq<char>> {
    seq![
        seq!['p', 'n', 'g'],
        seq!['j', 'p', 'g'],
        seq!['j', 'p', 'e', 'g'],
        seq!['g', 'i', 'f'],
        seq!['w', 'e', 'b', 'p'],
        seq!['b', 'm', 'p'],
        seq!['s', 'v', 'g'],
        seq!['i', 'c', 'o'],
        seq!['t', 'i', 'f', 'f'],
        seq!['h', 'e', 'i', 'c'],
    ]
}

pub open spec fn pdf_ext() -> Seq<char> {
    seq!['p', 'd', 'f']
}

/// The extension of the file named by `path` ("" when none).
pub open spec fn path_ext(path: Seq<char>) -> Seq<char> {
    match file_name_spec(path) {
        Some(n) => match extension_spec(n) {
            Some(e) => e,
            None => seq![],
        },
        None => seq![],
    }
}

/// The lower-cased extension of the file named by `path` is `t`.
pub open spec fn path_ext_is(path: Seq<char>, t: Seq<char>) -> bool {
    lower_is(path_ext(path), t)
}

pub open spec fn is_image_path(path: Seq<char>) -> bool {
    exists|i: int| 0 <= i < image_exts().len() && path_ext_is(path, #[trigger] image_exts()[i])
}

/// The file name shown in notes ("" when the path has none).
pub open spec fn shown_name(path: Seq<char>) -> Seq<char> {
    match file_name_spec(path) {
        Some(n) => n,
        None => seq![],
    }
}

/// What `read_file` answers without reading: a note for images and PDFs;
/// none for files read as text.
pub open spec fn file_note_spec(path: Seq<char>) -> Option<Seq<char>> {
    if is_image_path(path) {
        Some("[Image file '"@ + shown_name(path) + "' — image content cannot be read as text]"@)
    } else if path_ext_is(path, pdf_ext()) {
        Some("[PDF file '"@ + shown_name(path) + "' — PDF text extraction is not supported]"@)
    } else {
        None
    }
}

fn lower_is_exec(s: &Vec<char>, t: &Vec<char>) -> (b: bool)
    ensures
        b == lower_is(s@, t@),
{
    if s.len() != t.len() {
        return false;
    }
    let mut k: usize = 0;
    while k < s.len()
        invariant
            s.len() == t.len(),
            k <= s.len(),
            forall|m: int| 0 <= m < k ==> lower_char_is(#[trigger] s@[m], t@[m]),
        decreases s.len() - k,
    {
        let c = s[k];
        let u = c as u32;
        let ok = c == t[k] || (0x41 <= u && u <= 0x5A && u + 32 == t[k] as u32) || (u == 0x212A
            && t[k] == 'k');
        if !ok {
            return false;
        }
        k += 1;
    }
    true
}

fn image_ext_vecs() -> (v: Vec<Vec<char>>)
    ensures
        v@.len() == image_exts().len(),
        forall|i: int| 0 <= i < v@.len() ==> (#[trigger] v@[i])@ == image_exts()[i],
{
    let v = vec![
        vec!['p', 'n', 'g'],
        vec!['j', 'p', 'g'],
        vec!['j', 'p', 'e', 'g'],
        vec!['g', 'i', 'f'],
        vec!['w', 'e', 'b', 'p'],
        vec!['b', 'm', 'p'],
        vec!['s', 'v', 'g'],
        vec!['i', 'c', 'o'],
        vec!['t', 'i', 'f', 'f'],
        vec!['h', 'e', 'i', 'c'],
    ];
    assert(v@[0]@ =~= image_exts()[0]);
    assert(v@[1]@ =~= image_exts()[1]);
    assert(v@[2]@ =~= image_exts()[2]);
    assert(v@[3]@ =~= image_exts()[3]);
    assert(v@[4]@ =~= image_exts()[4]);
    assert(v@[5]@ =~= image_exts()[5]);
    assert(v@[6]@ =~= image_exts()[6]);
    assert(v@[7]@ =~= image_exts()[7]);
    assert(v@[8]@ =~= image_exts()[8]);
    assert(v@[9]@ =~= image_exts()[9]);
    v
}

/// The note for an image or PDF path; `None` means: read it as text.
pub fn file_note(path: &str) -> (r: Option<String>)
    ensures
        match r {
            Some(s) => file_note_spec(path@) == Some(s@),
            None => file_note_spec(path@) is None,
        },
{
    let name = file_name(path);
    let (shown, ext): (Vec<char>, Vec<char>) = match name {
        Some(n) => {
            let nv = to_chars(n.as_str());
            let e = match extension(&nv) {
                Some(e) => e,
                None => Vec::new(),
            };
            (nv, e)
        },
        None => (Vec::new(), Vec::new()),
    };
    let ghost ext_spec = path_ext(path@);
    assert(ext@ =~= ext_spec);
    assert(shown@ =~= shown_name(path@));
    let exts = image_ext_vecs();
    let mut i: usize = 0;
    let mut image = false;
    while i < exts.len()
        invariant
            i <= exts@.len(),
            exts@.len() == image_exts().len(),
            forall|j: int| 0 <= j < exts@.len() ==> (#[trigger] exts@[j])@ == image_exts()[j],
            ext@ == path_ext(path@),
            image <==> exists|j: int| 0 <= j < i && path_ext_is(path@, #[trigger] image_exts()[j]),
        decreases exts.len() - i,
    {
        let hit = lower_is_exec(&ext, &exts[i]);
        assert(exts@[i as int]@ == image_exts()[i as int]);
        assert(hit == lower_is(ext@, image_exts()[i as int]));
        assert(hit == path_ext_is(path@, image_exts()[i as int]));
        if hit {
            image = true;
        }
        proof {
            if hit {
                assert(path_ext_is(path@, image_exts()[i as int]));
            }
            assert forall|j: int| 0 <= j < i + 1 && path_ext_is(path@, #[trigger] image_exts()[j]) implies j < i || hit by {}
        }
        i += 1;
    }
    if image {
        let mut s = "[Image file '".to_owned();
        push_chars(&mut s, &shown);
        push_str(&mut s, "' — image content cannot be read as text]");
        return Some(s);
    }
    let pdf = vec!['p', 'd', 'f'];
    assert(pdf@ =~= pdf_ext());
    let is_pdf = lower_is_exec(&ext, &pdf);
    assert(is_pdf == path_ext_is(path@, pdf_ext()));
    if is_pdf {
        let mut s = "[PDF file '".to_owned();
        push_chars(&mut s, &shown);
        push_str(&mut s, "' — PDF text extraction is not supported]");
        return Some(s);
    }
    None
}

/// Longest text, in bytes, passed on from a file.
pub const MAX_FILE_BYTES: usize = 2500;

/// A text that fits is passed on whole; a longer one is cut at byte 2500
/// with a note appended.
pub open spec fn context_text_spec(content: Seq<char>) -> Seq<char> {
    if byte_len(content) > 2500 {
        content.take(fit_prefix(content, 2500) as int)
            + "\n… (truncated — file too large for context window)"@
    } else {
        content
    }
}

/// Cut a file's text to fit the context window. The cut must fall on a
/// character boundary (byte 2500 must start a character).
pub fn context_text(content: &str) -> (r: String)
    requires
        byte_len(content@) <= 2500 || byte_len(content@.take(fit_prefix(content@, 2500) as int))
            == 2500,
    ensures
        r@ == context_text_spec(content@),
{
    let v = to_chars(content);
    let k = fit_prefix_exec(&v, 2500);
    proof {
        lemma_fit_prefix(v@, 2500);
    }
    if k < v.len() {
        proof {
            if byte_len(v@) <= 2500 {
                assert(fit_prefix(v@, 2500) == v@.len());
            }
        }
        let mut s = from_chars(&slice_chars(&v, 0, k));
        push_str(&mut s, "\n… (truncated — file too large for context window)");
        s
    } else {
        proof {
            assert(v@.take(k as int) =~= v@);
        }
        content.to_owned()
    }
}

/// The image extensions, one by one.
pub open spec fn is_image_word(t: Seq<char>) -> bool {
    ||| t == seq!['p', 'n', 'g']
    ||| t == seq!['j', 'p', 'g']
    ||| t == seq!['j', 'p', 'e', 'g']
    ||| t == seq!['g', 'i', 'f']
    ||| t == seq!['w', 'e', 'b', 'p']
    ||| t == seq!['b', 'm', 'p']
    ||| t == seq!['s', 'v', 'g']
    ||| t == seq!['i', 'c', 'o']
    ||| t == seq!['t', 'i', 'f', 'f']
    ||| t == seq!['h', 'e', 'i', 'c']
}

proof fn lemma_segment_start_at(s: Seq<char>, p0: int, j: int)
    requires
        1 <= p0 <= j <= s.len(),
        s[p0 - 1] == '/',
        forall|k: int| p0 <= k < s.len() ==> s[k] != '/',
    ensures
        crate::paths::segment_start(s, j) == p0,
    decreases j,
{
    if j > p0 {
        lemma_segment_start_at(s, p0, j - 1);
    }
}

proof fn lemma_last_dot_at(s: Seq<char>, d: int, j: int)
    requires
        0 <= d < j <= s.len(),
        s[d] == '.',
        forall|k: int| d < k < s.len() ==> s[k] != '.',
    ensures
        crate::paths::last_dot_before(s, j) == d,
    decreases j,
{
    if j > d + 1 {
        lemma_last_dot_at(s, d, j - 1);
    }
}

/// A file whose extension is one of the image extensions, in any ASCII case,
/// gets the image note with its file name, whatever folder it is in and
/// whatever its name before the extension (even with dots in it).
pub proof fn lemma_image_note(dir: Seq<char>, stem: Seq<char>, e: Seq<char>, t: Seq<char>)
    requires
        stem.len() > 0,
        forall|k: int| 0 <= k < stem.len() ==> stem[k] != '/',
        is_image_word(t),
        lower_is(e, t),
    ensures
        file_note_spec(dir + seq!['/'] + stem + seq!['.'] + e) == Some(
            "[Image file '"@ + (stem + seq!['.'] + e) + "' — image content cannot be read as text]"@,
        ),
{
    let name = stem + seq!['.'] + e;
    let s = dir + seq!['/'] + name;
    let p0: int = dir.len() + 1int;
    assert(dir + seq!['/'] + stem + seq!['.'] + e =~= s);
    assert(t.len() >= 3);
    assert forall|k: int| 0 <= k < t.len() implies ('a' <= #[trigger] t[k] <= 'z') by {}
    assert forall|k: int| 0 <= k < e.len() implies #[trigger] e[k] != '/' && e[k] != '.' by {
        assert(lower_char_is(e[k], t[k]));
        assert('a' <= t[k] <= 'z');
    }
    assert forall|k: int| p0 <= k < s.len() implies #[trigger] s[k] != '/' by {
        assert(s[k] == name[k - p0]);
        if k - p0 < stem.len() {
            assert(name[k - p0] == stem[k - p0]);
        } else if k - p0 > stem.len() {
            assert(name[k - p0] == e[k - p0 - stem.len() - 1]);
        }
    }
    assert(s[p0 - 1] == '/');
    assert(s[s.len() - 1] == e[e.len() - 1]);
    assert(crate::paths::last_segment_end(s, s.len() as int) == s.len());
    lemma_segment_start_at(s, p0, s.len() as int);
    assert(s.subrange(p0, s.len() as int) =~= name);
    assert(name != seq!['.', '.']) by {
        assert(name.len() >= 5);
    }
    assert(file_name_spec(s) == Some(name));
    assert(name[stem.len() as int] == '.');
    assert forall|k: int| stem.len() < k < name.len() implies #[trigger] name[k] != '.' by {
        assert(name[k] == e[k - stem.len() - 1]);
    }
    lemma_last_dot_at(name, stem.len() as int, name.len() as int);
    assert(name.skip(stem.len() + 1int) =~= e);
    assert(extension_spec(name) == Some(e));
    assert(path_ext(s) == e);
    assert(shown_name(s) == name);
    let i: int = if t == seq!['p', 'n', 'g'] {
        0
    } else if t == seq!['j', 'p', 'g'] {
        1
    } else if t == seq!['j', 'p', 'e', 'g'] {
        2
    } else if t == seq!['g', 'i', 'f'] {
        3
    } else if t == seq!['w', 'e', 'b', 'p'] {
        4
    } else if t == seq!['b', 'm', 'p'] {
        5
    } else if t == seq!['s', 'v', 'g'] {
        6
    } else if t == seq!['i', 'c', 'o'] {
        7
    } else if t == seq!['t', 'i', 'f', 'f'] {
        8
    } else {
        9
    };
    assert(image_exts()[i] == t);
    assert(path_ext_is(s, image_exts()[i]));
    assert(is_image_path(s));
}

} // verus!
