//! Content extraction for text-like documents: byte decoding, file-type
//! detection, title selection and body conversion for plain text, Markdown
//! and HTML.
//!
//! The caller reads the file (up to its byte cap) and hands the raw bytes in;
//! everything from the bytes to the (title, text) pair happens here.
use vstd::prelude::*;
use vstd::string::StringSliceAdditionalSpecFns;
use vstd::utf8::*;
use crate::text::{
    chars_of, string_from_chars, trim_chars, trim_spec, copy_range, first_occur_from, line_sep,
    split_lines_from, find_nl, lemma_first_occur, normalize_ws, normalize_ws_spec,
};
use crate::snippet::{
    lower_of, to_lower, find_bytes, next_char_boundary, prev_char_boundary, next_boundary_spec,
    prev_boundary_spec, lemma_boundary_in_prefix,
};

verus! {

broadcast use
    vstd::utf8::group_utf8_lib,
    vstd::string::group_string_axioms,
    vstd::slice::axiom_spec_len,
;

/// What `String::from_utf8_lossy` returns for these bytes: the decoded
/// characters, with each invalid sequence replaced by U+FFFD. The result
/// depends on the bytes alone.
pub uninterp spec fn lossy_of(b: Seq<u8>) -> Seq<char>;

/// Relies on `String::from_utf8_lossy`: the result is a function of the
/// bytes alone, and valid UTF-8 input decodes unchanged.
#[verifier::external_body]
pub fn bytes_to_text(bytes: &[u8]) -> (r: String)
    ensures
        r@ == lossy_of(bytes@),
        valid_utf8(bytes@) ==> r@ == decode_utf8(bytes@),
{
    String::from_utf8_lossy(bytes).into_owned()
}

/// The trailing component of a path string: everything after the last
/// path separator.
pub open spec fn file_name_spec(s: Seq<char>) -> Seq<char>
    decreases s.len(),
{
    if s.len() == 0 {
        Seq::empty()
    } else if s.last() == '/' || s.last() == '\\' {
        Seq::empty()
    } else {
        file_name_spec(s.drop_last()).push(s.last())
    }
}

proof fn lemma_file_name_is_skip(s: Seq<char>, k: int)
    requires
        0 <= k <= s.len(),
        forall|j: int| k <= j < s.len() ==> s[j] != '/' && s[j] != '\\',
        k > 0 ==> s[k - 1] == '/' || s[k - 1] == '\\',
    ensures
        file_name_spec(s) == s.skip(k),
    decreases s.len() - k,
{
    if k == s.len() {
        assert(s.skip(k) =~= Seq::<char>::empty());
    } else {
        lemma_file_name_is_skip(s.drop_last(), k);
        assert(s.drop_last().skip(k) =~= s.skip(k).drop_last());
        assert(file_name_spec(s) =~= s.skip(k));
    }
}

/// Extracts the file name (the part after the last path separator).
pub fn file_name_of(v: &[char]) -> (r: Vec<char>)
    ensures
        r@ == file_name_spec(v@),
{
    let n: usize = v.len();
    let mut k: usize = n;
    while k > 0 && v[k - 1] != '/' && v[k - 1] != '\\'
        invariant
            0 <= k <= n == v@.len(),
            forall|j: int| k <= j < n ==> v@[j] != '/' && v@[j] != '\\',
        decreases k,
    {
        k = k - 1;
    }
    proof {
        lemma_file_name_is_skip(v@, k as int);
    }
    copy_range(v, k, n)
}

/// The extension of a file name: the part after the last dot, unless there
/// is no dot or the only dot starts the name.
pub open spec fn ext_spec(f: Seq<char>) -> Option<Seq<char>>
    decreases f.len(),
{
    if f.len() <= 1 {
        None
    } else if f.last() == '.' {
        Some(Seq::empty())
    } else {
        match ext_spec(f.drop_last()) {
            Some(e) => Some(e.push(f.last())),
            None => None,
        }
    }
}

proof fn lemma_ext_some(f: Seq<char>, d: int)
    requires
        1 <= d < f.len(),
        f[d] == '.',
        forall|j: int| d < j < f.len() ==> f[j] != '.',
    ensures
        ext_spec(f) == Some(f.skip(d + 1)),
    decreases f.len() - d,
{
    if d == f.len() - 1 {
        assert(f.last() == '.');
        assert(f.skip(d + 1) =~= Seq::<char>::empty());
    } else {
        lemma_ext_some(f.drop_last(), d);
        assert(f.drop_last().skip(d + 1) =~= f.skip(d + 1).drop_last());
        assert(f.skip(d + 1).len() > 0);
        assert(ext_spec(f) == Some(f.drop_last().skip(d + 1).push(f.last())));
        assert(f.drop_last().skip(d + 1).push(f.last()) =~= f.skip(d + 1));
    }
}

proof fn lemma_ext_none(f: Seq<char>)
    requires
        forall|j: int| 1 <= j < f.len() ==> f[j] != '.',
    ensures
        ext_spec(f) is None,
    decreases f.len(),
{
    if f.len() > 1 {
        lemma_ext_none(f.drop_last());
    }
}

/// Extracts the extension of a file name, if it has one.
pub fn ext_of_name(f: &[char]) -> (r: Option<Vec<char>>)
    ensures
        match r {
            Some(e) => ext_spec(f@) == Some(e@),
            None => ext_spec(f@) is None,
        },
{
    let n: usize = f.len();
    let mut i: usize = n;
    while i > 0 && f[i - 1] != '.'
        invariant
            0 <= i <= n == f@.len(),
            forall|j: int| i <= j < n ==> f@[j] != '.',
        decreases i,
    {
        i = i - 1;
    }
    if i <= 1 {
        proof {
            if i == 1 {
                assert(f@[0] == '.');
            }
            lemma_ext_none(f@);
        }
        None
    } else {
        proof {
            assert(f@[i - 1] == '.');
            lemma_ext_some(f@, i - 1);
        }
        Some(copy_range(f, i, n))
    }
}

/// Case-insensitive equality of two characters, folding only ASCII letters.
pub open spec fn ci_eq_char(a: char, b: char) -> bool {
    a as u32 == b as u32 || (0x41 <= a as u32 && a as u32 <= 0x5a && a as u32 + 32 == b as u32)
}

/// Whether `a` equals the (lower-case) pattern `b` up to ASCII case.
pub open spec fn eq_ci(a: Seq<char>, b: Seq<char>) -> bool {
    a.len() == b.len() && forall|i: int| 0 <= i < a.len() ==> ci_eq_char(a[i], b[i])
}

/// Compares `a` to the lower-case pattern `b`, folding ASCII case in `a`.
pub fn chars_eq_ci(a: &[char], b: &[char]) -> (r: bool)
    ensures
        r == eq_ci(a@, b@),
{
    let n: usize = a.len();
    if n != b.len() {
        return false;
    }
    let mut i: usize = 0;
    while i < n
        invariant
            0 <= i <= n == a@.len() == b@.len(),
            forall|j: int| 0 <= j < i ==> ci_eq_char(a@[j], b@[j]),
        decreases n - i,
    {
        let ua = a[i] as u32;
        let ub = b[i] as u32;
        if !(ua == ub || (0x41 <= ua && ua <= 0x5a && ua + 32 == ub)) {
            proof {
                assert(!ci_eq_char(a@[i as int], b@[i as int]));
            }
            return false;
        }
        i = i + 1;
    }
    true
}

/// The extension of the path, up to ASCII case, is one of the text-like
/// kinds this extractor handles.
pub open spec fn is_supported_spec(p: Seq<char>) -> bool {
    match ext_spec(file_name_spec(p)) {
        Some(e) => eq_ci(e, "txt"@) || eq_ci(e, "md"@) || eq_ci(e, "markdown"@) || eq_ci(
            e,
            "html"@,
        ) || eq_ci(e, "htm"@),
        None => false,
    }
}

/// Whether the path names a plain-text, Markdown or HTML document, going by
/// its extension (ASCII case-insensitively).
pub fn is_supported_text(path: &str) -> (r: bool)
    ensures
        r == is_supported_spec(path@),
{
    let v = chars_of(path);
    let name = file_name_of(v.as_slice());
    match ext_of_name(name.as_slice()) {
        None => false,
        Some(e) => {
            let txt = chars_of("txt");
            let md = chars_of("md");
            let markdown = chars_of("markdown");
            let html = chars_of("html");
            let htm = chars_of("htm");
            chars_eq_ci(e.as_slice(), txt.as_slice()) || chars_eq_ci(e.as_slice(), md.as_slice())
                || chars_eq_ci(e.as_slice(), markdown.as_slice()) || chars_eq_ci(
                e.as_slice(),
                html.as_slice(),
            ) || chars_eq_ci(e.as_slice(), htm.as_slice())
        },
    }
}

/// The first line in the list whose trimmed form is non-empty, trimmed.
pub open spec fn first_nonblank_line(lines: Seq<Seq<char>>) -> Option<Seq<char>>
    decreases lines.len(),
{
    if lines.len() == 0 {
        None
    } else {
        let t = trim_spec(lines.first());
        if t.len() > 0 {
            Some(t)
        } else {
            first_nonblank_line(lines.drop_first())
        }
    }
}

/// The title of a plain-text document: its first non-empty line trimmed,
/// or the file name when every line is blank.
pub open spec fn plain_title_spec(s: Seq<char>, name: Seq<char>) -> Seq<char> {
    match first_nonblank_line(split_lines_from(s, 0)) {
        Some(t) => t,
        None => name,
    }
}

/// Finds the first non-blank line of `s`, trimmed.
fn first_nonblank_of(s: &[char]) -> (r: Option<Vec<char>>)
    ensures
        match r {
            Some(t) => first_nonblank_line(split_lines_from(s@, 0)) == Some(t@),
            None => first_nonblank_line(split_lines_from(s@, 0)) is None,
        },
{
    let n: usize = s.len();
    let mut pos: usize = 0;
    let mut done: bool = false;
    while !done
        invariant
            0 <= pos <= n == s@.len(),
            !done ==> first_nonblank_line(split_lines_from(s@, 0)) == first_nonblank_line(
                split_lines_from(s@, pos as int),
            ),
            done ==> first_nonblank_line(split_lines_from(s@, 0)) is None,
        decreases n + 1 - pos, (if done { 0int } else { 1int }),
    {
        let nl = find_nl(s, pos);
        let endpos: usize = match nl {
            Some(j) => j,
            None => n,
        };
        proof {
            lemma_first_occur(s@, line_sep(), pos as int);
        }
        let ghost lines = split_lines_from(s@, pos as int);
        let line = copy_range(s, pos, endpos);
        let t = trim_chars(line.as_slice());
        proof {
            match first_occur_from(s@, line_sep(), pos as int) {
                Option::Some(j) => {
                    assert(lines == seq![s@.subrange(pos as int, j)] + split_lines_from(s@, j + 1));
                    assert(lines.first() == s@.subrange(pos as int, endpos as int));
                    assert(lines.drop_first() =~= split_lines_from(s@, j + 1));
                },
                Option::None => {
                    assert(lines == seq![s@.subrange(pos as int, s@.len() as int)]);
                    assert(lines.first() == s@.subrange(pos as int, endpos as int));
                    assert(lines.drop_first() =~= Seq::<Seq<char>>::empty());
                },
            }
        }
        if t.len() > 0 {
            return Some(t);
        }
        proof {
            assert(first_nonblank_line(lines) == first_nonblank_line(lines.drop_first()));
        }
        match nl {
            Some(j) => {
                pos = j + 1;
            },
            None => {
                done = true;
            },
        }
    }
    None
}

/// A heading line with its leading hash marks removed.
pub open spec fn strip_hashes(t: Seq<char>) -> Seq<char>
    decreases t.len(),
{
    if t.len() > 0 && t.first() == '#' {
        strip_hashes(t.drop_first())
    } else {
        t
    }
}

proof fn lemma_strip_hashes_is_skip(t: Seq<char>, h: int)
    requires
        0 <= h <= t.len(),
        forall|j: int| 0 <= j < h ==> t[j] == '#',
        h < t.len() ==> t[h] != '#',
    ensures
        strip_hashes(t) == t.skip(h),
    decreases h,
{
    if h == 0 {
        assert(t.skip(0) =~= t);
    } else {
        lemma_strip_hashes_is_skip(t.drop_first(), h - 1);
        assert(t.drop_first().skip(h - 1) =~= t.skip(h));
    }
}

/// The Markdown heading title drawn from a list of lines: the first line
/// whose trimmed form starts with a hash mark, with the hash marks stripped
/// and the rest trimmed.
pub open spec fn first_heading(lines: Seq<Seq<char>>) -> Option<Seq<char>>
    decreases lines.len(),
{
    if lines.len() == 0 {
        None
    } else {
        let t = trim_spec(lines.first());
        if t.len() > 0 && t.first() == '#' {
            Some(trim_spec(strip_hashes(t)))
        } else {
            first_heading(lines.drop_first())
        }
    }
}

/// The title of a Markdown document: its first heading, or the file name
/// when there is none or it is empty.
pub open spec fn md_title_spec(s: Seq<char>, name: Seq<char>) -> Seq<char> {
    match first_heading(split_lines_from(s, 0)) {
        Some(t) => if t.len() == 0 {
            name
        } else {
            t
        },
        None => name,
    }
}

/// Strips the leading hash marks of a trimmed heading line.
fn strip_hashes_chars(t: &[char]) -> (r: Vec<char>)
    ensures
        r@ == strip_hashes(t@),
{
    let n: usize = t.len();
    let mut h: usize = 0;
    while h < n && t[h] == '#'
        invariant
            0 <= h <= n == t@.len(),
            forall|j: int| 0 <= j < h ==> t@[j] == '#',
        decreases n - h,
    {
        h = h + 1;
    }
    proof {
        lemma_strip_hashes_is_skip(t@, h as int);
    }
    copy_range(t, h, n)
}

/// Finds the Markdown heading title among the lines of `s`, if any.
fn md_heading_of(s: &[char]) -> (r: Option<Vec<char>>)
    ensures
        match r {
            Some(t) => first_heading(split_lines_from(s@, 0)) == Some(t@),
            None => first_heading(split_lines_from(s@, 0)) is None,
        },
{
    let n: usize = s.len();
    let mut pos: usize = 0;
    let mut done: bool = false;
    let mut found: Option<Vec<char>> = None;
    while !done
        invariant
            0 <= pos <= n == s@.len(),
            found is None,
            !done ==> first_heading(split_lines_from(s@, 0)) == first_heading(
                split_lines_from(s@, pos as int),
            ),
            done ==> first_heading(split_lines_from(s@, 0)) is None,
        decreases n + 1 - pos, (if done { 0int } else { 1int }),
    {
        let nl = find_nl(s, pos);
        let endpos: usize = match nl {
            Some(j) => j,
            None => n,
        };
        proof {
            lemma_first_occur(s@, line_sep(), pos as int);
        }
        let ghost lines = split_lines_from(s@, pos as int);
        let line = copy_range(s, pos, endpos);
        let t = trim_chars(line.as_slice());
        proof {
            match first_occur_from(s@, line_sep(), pos as int) {
                Option::Some(j) => {
                    assert(lines == seq![s@.subrange(pos as int, j)] + split_lines_from(s@, j + 1));
                    assert(lines.first() == s@.subrange(pos as int, endpos as int));
                    assert(lines.drop_first() =~= split_lines_from(s@, j + 1));
                },
                Option::None => {
                    assert(lines == seq![s@.subrange(pos as int, s@.len() as int)]);
                    assert(lines.first() == s@.subrange(pos as int, endpos as int));
                    assert(lines.drop_first() =~= Seq::<Seq<char>>::empty());
                },
            }
        }
        if t.len() > 0 && t[0] == '#' {
            proof {
                assert(t@.first() == t@[0]);
            }
            let stripped = strip_hashes_chars(t.as_slice());
            let title = trim_chars(stripped.as_slice());
            return Some(title);
        }
        proof {
            assert(t@.len() == 0 || t@.first() != '#');
            assert(first_heading(lines) == first_heading(lines.drop_first()));
        }
        match nl {
            Some(j) => {
                pos = j + 1;
            },
            None => {
                done = true;
            },
        }
    }
    None
}

/// What `pulldown_cmark` leaves of a Markdown document when only its text
/// events are kept: headings, emphasis and links reduced to their text. The
/// result depends on the input alone.
pub uninterp spec fn markdown_text_of(s: Seq<char>) -> Seq<char>;

/// Relies on `pulldown_cmark::Parser`: the concatenated `Text` events of the
/// parse are a function of the input alone.
#[verifier::external_body]
pub fn markdown_to_text(input: &str) -> (r: String)
    ensures
        r@ == markdown_text_of(input@),
{
    let mut out = String::new();
    let parser = pulldown_cmark::Parser::new_ext(input, pulldown_cmark::Options::empty());
    for event in parser {
        if let pulldown_cmark::Event::Text(text) = event {
            out.push_str(&text);
        }
    }
    out
}

/// What `html2text` renders a successfully converted HTML document to. The
/// result depends on the input alone.
pub uninterp spec fn html_text_of(s: Seq<char>) -> Seq<char>;

/// Relies on `html2text::from_read` at a fixed 80-column width: on success
/// the rendered text is a function of the HTML input alone.
#[verifier::external_body]
pub(crate) fn html_to_text(input: &str) -> (r: Result<String, String>)
    ensures
        r matches Ok(t) ==> t@ == html_text_of(input@),
{
    html2text::from_read(input.as_bytes(), 80).map_err(|e| e.to_string())
}

/// The title drawn from an HTML document: the text between the first
/// case-insensitive `<title>` tag and the following closing tag, clamped to
/// character boundaries and trimmed; the file name when absent or empty.
pub open spec fn html_title_spec(s: Seq<char>, name: Seq<char>) -> Seq<char> {
    let sb = encode_utf8(s);
    let lb = encode_utf8(lower_of(s));
    let open_pat = encode_utf8("<title>"@);
    let close_pat = encode_utf8("</title>"@);
    match first_occur_from(lb, open_pat, 0) {
        None => name,
        Some(st) => {
            let a0 = st + open_pat.len();
            let a = next_boundary_spec(
                sb,
                if a0 <= sb.len() {
                    a0
                } else {
                    sb.len() as int
                },
            );
            let tail = sb.skip(a);
            match first_occur_from(tail, close_pat, 0) {
                None => name,
                Some(e) => {
                    let b = prev_boundary_spec(tail, e);
                    let t = trim_spec(decode_utf8(tail.subrange(0, b)));
                    if t.len() == 0 {
                        name
                    } else {
                        t
                    }
                },
            }
        },
    }
}

/// Finds the HTML title of `text`, falling back to `name`.
fn html_title_of(text: &str, name: &[char]) -> (r: String)
    ensures
        r@ == html_title_spec(text@, name@),
{
    let lowered = to_lower(text);
    let lb: &[u8] = lowered.as_str().as_bytes();
    let open_pat = "<title>";
    let close_pat = "</title>";
    // Taking the slice's length brings its bound into scope for the
    // overflow reasoning below.
    let lbn: usize = lb.len();
    proof {
        assert(lbn == lb@.len());
    }
    let found = find_bytes(lb, open_pat.as_bytes());
    let ghost sb = text.spec_bytes();
    match found {
        None => string_from_chars(name),
        Some(st) => {
            let a0: usize = st + open_pat.as_bytes().len();
            let a = next_char_boundary(text, a0);
            proof {
                is_char_boundary_start_end_of_seq(sb);
                if a0 > sb.len() {
                    assert(next_boundary_spec(sb, sb.len() as int) == sb.len() as int);
                }
            }
            let (_head, tail) = text.split_at(a);
            proof {
                assert(tail.spec_bytes() =~= sb.skip(a as int));
            }
            let close_found = find_bytes(tail.as_bytes(), close_pat.as_bytes());
            match close_found {
                None => string_from_chars(name),
                Some(e) => {
                    let b = prev_char_boundary(tail, e);
                    proof {
                        lemma_boundary_in_prefix(
                            tail.spec_bytes(),
                            b as int,
                            b as int,
                        );
                    }
                    let (piece, _rest) = tail.split_at(b);
                    proof {
                        assert(piece.spec_bytes() =~= tail.spec_bytes().subrange(0, b as int));
                        assert(decode_utf8(encode_utf8(piece@)) == piece@);
                    }
                    let pv = chars_of(piece);
                    let t = trim_chars(pv.as_slice());
                    if t.len() == 0 {
                        string_from_chars(name)
                    } else {
                        string_from_chars(t.as_slice())
                    }
                },
            }
        },
    }
}

/// Which branch of the extractor a path selects.
pub open spec fn ext_matches(p: Seq<char>, pat: Seq<char>) -> bool {
    match ext_spec(file_name_spec(p)) {
        Some(e) => eq_ci(e, pat),
        None => false,
    }
}

/// Extracts the title and searchable text of a text-like document from its
/// raw bytes, decoded leniently as UTF-8. HTML is stripped of markup and its
/// `<title>` becomes the title; Markdown is reduced to its text with the
/// first heading as title; anything else is treated as plain text titled by
/// its first line. The file name is the fallback title throughout. Only the
/// HTML renderer can fail.
pub fn extract_title_and_text(path: &str, raw: &[u8]) -> (r: Result<(String, String), String>)
    ensures
        !(ext_matches(path@, "html"@) || ext_matches(path@, "htm"@)) ==> r is Ok,
        r matches Ok((title, body)) ==> {
            let s = lossy_of(raw@);
            let name = file_name_spec(path@);
            if ext_matches(path@, "html"@) || ext_matches(path@, "htm"@) {
                title@ == html_title_spec(s, name) && body@ == html_text_of(s)
            } else if ext_matches(path@, "md"@) || ext_matches(path@, "markdown"@) {
                title@ == md_title_spec(s, name) && body@ == markdown_text_of(s)
            } else {
                title@ == plain_title_spec(s, name) && body@ == normalize_ws_spec(s)
            }
        },
{
    let decoded = bytes_to_text(raw);
    let pv = chars_of(path);
    let name = file_name_of(pv.as_slice());
    let ext = ext_of_name(name.as_slice());
    let html = chars_of("html");
    let htm = chars_of("htm");
    let md = chars_of("md");
    let markdown = chars_of("markdown");
    let is_html = match &ext {
        Some(e) => chars_eq_ci(e.as_slice(), html.as_slice()) || chars_eq_ci(
            e.as_slice(),
            htm.as_slice(),
        ),
        None => false,
    };
    let is_md = match &ext {
        Some(e) => chars_eq_ci(e.as_slice(), md.as_slice()) || chars_eq_ci(
            e.as_slice(),
            markdown.as_slice(),
        ),
        None => false,
    };
    if is_html {
        let body = html_to_text(decoded.as_str())?;
        let title = html_title_of(decoded.as_str(), name.as_slice());
        Ok((title, body))
    } else if is_md {
        let body = markdown_to_text(decoded.as_str());
        let dv = chars_of(decoded.as_str());
        let title = match md_heading_of(dv.as_slice()) {
            Some(t) => if t.len() == 0 {
                string_from_chars(name.as_slice())
            } else {
                string_from_chars(t.as_slice())
            },
            None => string_from_chars(name.as_slice()),
        };
        Ok((title, body))
    } else {
        let body = normalize_ws(decoded.as_str());
        let dv = chars_of(decoded.as_str());
        let title = match first_nonblank_of(dv.as_slice()) {
            Some(t) => string_from_chars(t.as_slice()),
            None => string_from_chars(name.as_slice()),
        };
        Ok((title, body))
    }
}

} // verus!
