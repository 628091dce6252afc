//! Character classification and whitespace normalization for extracted text.
//!
//! Body text stored in the index is normalized: intra-line whitespace is
//! collapsed to single spaces, paragraph breaks survive as blank-line
//! separators, and control or invisible characters are stripped.
use vstd::prelude::*;
use vstd::string::StringSliceAdditionalSpecFns;

verus! {

/// Whether `c` has the Unicode `White_Space` property, the class that
/// `char::is_whitespace` and `str::trim` go by.
pub open spec fn is_ws_char(c: char) -> bool {
    let u = c as u32;
    (0x09 <= u && u <= 0x0d) || u == 0x20 || u == 0x85 || u == 0xa0 || u == 0x1680 || (0x2000
        <= u && u <= 0x200a) || u == 0x2028 || u == 0x2029 || u == 0x202f || u == 0x205f || u
        == 0x3000
}

/// Whether `c` is in the Unicode `Cc` (control) category, the class that
/// `char::is_control` goes by.
pub open spec fn is_control_char(c: char) -> bool {
    let u = c as u32;
    u <= 0x1f || (0x7f <= u && u <= 0x9f)
}

/// Executable test for the Unicode `White_Space` property.
pub fn char_is_ws(c: char) -> (r: bool)
    ensures
        r == is_ws_char(c),
{
    let u = c as u32;
    (0x09 <= u && u <= 0x0d) || u == 0x20 || u == 0x85 || u == 0xa0 || u == 0x1680 || (0x2000 <= u
        && u <= 0x200a) || u == 0x2028 || u == 0x2029 || u == 0x202f || u == 0x205f || u == 0x3000
}

/// Executable test for the Unicode `Cc` (control) category.
pub fn char_is_control(c: char) -> (r: bool)
    ensures
        r == is_control_char(c),
{
    let u = c as u32;
    u <= 0x1f || (0x7f <= u && u <= 0x9f)
}

/// Collects the characters of a string slice into a vector.
pub fn chars_of(s: &str) -> (v: Vec<char>)
    ensures
        v@ == s@,
{
    broadcast use vstd::string::group_string_axioms;

    let mut v: Vec<char> = Vec::new();
    let mut it = s.chars();
    proof {
        assert(vstd::std_specs::iter::IteratorSpec::remaining(&it) == s@);
    }
    loop
        invariant
            vstd::std_specs::iter::IteratorSpec::obeys_prophetic_iter_laws(&it),
            vstd::std_specs::iter::IteratorSpec::decrease(&it) is Some,
            v@ + vstd::std_specs::iter::IteratorSpec::remaining(&it) == s@,
        ensures
            v@ + vstd::std_specs::iter::IteratorSpec::remaining(&it) == s@,
            vstd::std_specs::iter::IteratorSpec::remaining(&it).len() == 0,
        decreases vstd::std_specs::iter::IteratorSpec::decrease(&it)->0,
    {
        let c_opt = it.next();
        match c_opt {
            Some(c) => {
                v.push(c);
            },
            None => {
                break ;
            },
        }
    }
    proof {
        assert(v@ =~= s@);
    }
    v
}

/// Builds a `String` holding exactly the given characters.
///
/// Relies on `String`'s `FromIterator` implementation (via `collect`): the
/// resulting string consists of the iterated characters in order.
#[verifier::external_body]
pub(crate) fn string_from_chars(v: &[char]) -> (r: String)
    ensures
        r@ == v@,
{
    v.iter().collect()
}

/// The suffix of `s` that remains after removing leading whitespace.
pub open spec fn trim_start_spec(s: Seq<char>) -> Seq<char>
    decreases s.len(),
{
    if s.len() > 0 && is_ws_char(s.first()) {
        trim_start_spec(s.drop_first())
    } else {
        s
    }
}

/// The prefix of `s` that remains after removing trailing whitespace.
pub open spec fn trim_end_spec(s: Seq<char>) -> Seq<char>
    decreases s.len(),
{
    if s.len() > 0 && is_ws_char(s.last()) {
        trim_end_spec(s.drop_last())
    } else {
        s
    }
}

/// `s` with leading and trailing whitespace removed, as `str::trim` does.
pub open spec fn trim_spec(s: Seq<char>) -> Seq<char> {
    trim_end_spec(trim_start_spec(s))
}

proof fn lemma_trim_start_is_skip(s: Seq<char>, i: int)
    requires
        0 <= i <= s.len(),
        forall|j: int| 0 <= j < i ==> is_ws_char(s[j]),
        i < s.len() ==> !is_ws_char(s[i]),
    ensures
        trim_start_spec(s) == s.skip(i),
    decreases i,
{
    if i == 0 {
        assert(s.skip(0) =~= s);
    } else {
        lemma_trim_start_is_skip(s.drop_first(), i - 1);
        assert(s.drop_first().skip(i - 1) =~= s.skip(i));
    }
}

proof fn lemma_trim_end_is_take(s: Seq<char>, i: int)
    requires
        0 <= i <= s.len(),
        forall|j: int| i <= j < s.len() ==> is_ws_char(s[j]),
        i > 0 ==> !is_ws_char(s[i - 1]),
    ensures
        trim_end_spec(s) == s.take(i),
    decreases s.len() - i,
{
    if i == s.len() {
        assert(s.take(i) =~= s);
    } else {
        lemma_trim_end_is_take(s.drop_last(), i);
        assert(s.drop_last().take(i) =~= s.take(i));
    }
}

/// The subslice of `v` with leading and trailing whitespace removed.
pub fn trim_chars(v: &[char]) -> (r: Vec<char>)
    ensures
        r@ == trim_spec(v@),
{
    let n: usize = v.len();
    let mut start: usize = 0;
    while start < n && char_is_ws(v[start])
        invariant
            0 <= start <= n == v@.len(),
            forall|j: int| 0 <= j < start ==> is_ws_char(v@[j]),
        decreases n - start,
    {
        start = start + 1;
    }
    proof {
        lemma_trim_start_is_skip(v@, start as int);
    }
    let ghost t = v@.skip(start as int);
    let mut end: usize = n;
    while end > start && char_is_ws(v[end - 1])
        invariant
            start <= end <= n == v@.len(),
            forall|j: int| end <= j < n ==> is_ws_char(v@[j]),
        decreases end,
    {
        end = end - 1;
    }
    proof {
        lemma_trim_end_is_take(t, end - start);
        assert(forall|j: int|
            end - start <= j < t.len() ==> t[j] == v@[j + start] && is_ws_char(#[trigger] t[j]));
    }
    let mut r: Vec<char> = Vec::new();
    let mut i: usize = start;
    while i < end
        invariant
            start <= i <= end <= v@.len(),
            r@ =~= v@.subrange(start as int, i as int),
        decreases end - i,
    {
        r.push(v[i]);
        i = i + 1;
    }
    proof {
        assert(r@ =~= t.take(end - start));
    }
    r
}

/// The whitespace-collapsed form of `s`: every maximal run of whitespace
/// becomes one space, except a leading run when `after_space` is already true,
/// which disappears. Mirrors a left-to-right scan that emits a single space
/// at the start of each whitespace run.
pub open spec fn collapse_ws(s: Seq<char>, after_space: bool) -> Seq<char>
    decreases s.len(),
{
    if s.len() == 0 {
        Seq::empty()
    } else if is_ws_char(s.first()) {
        (if after_space {
            Seq::<char>::empty()
        } else {
            seq![' ']
        }) + collapse_ws(s.drop_first(), true)
    } else {
        seq![s.first()] + collapse_ws(s.drop_first(), false)
    }
}

/// `s` with whitespace runs collapsed to single spaces and the ends trimmed.
pub open spec fn normalize_ws_spec(s: Seq<char>) -> Seq<char> {
    trim_spec(collapse_ws(s, false))
}

/// Collapses whitespace runs in `v` to single spaces.
pub fn collapse_ws_chars(v: &[char]) -> (r: Vec<char>)
    ensures
        r@ == collapse_ws(v@, false),
{
    let n: usize = v.len();
    let mut r: Vec<char> = Vec::new();
    let mut after_space: bool = false;
    let mut i: usize = 0;
    proof {
        assert(v@.skip(0) =~= v@);
    }
    while i < n
        invariant
            0 <= i <= n == v@.len(),
            collapse_ws(v@, false) == r@ + collapse_ws(v@.skip(i as int), after_space),
        decreases n - i,
    {
        let c = v[i];
        proof {
            assert(v@.skip(i as int).drop_first() =~= v@.skip(i + 1));
            assert(v@.skip(i as int).first() == v@[i as int]);
        }
        if char_is_ws(c) {
            if !after_space {
                r.push(' ');
            }
            after_space = true;
        } else {
            r.push(c);
            after_space = false;
        }
        i = i + 1;
    }
    proof {
        assert(v@.skip(n as int) =~= Seq::<char>::empty());
        assert(collapse_ws(v@, false) =~= r@);
    }
    r
}

/// Collapses all whitespace (including line breaks) to single spaces and
/// trims the ends, as the plain-text normalizer does.
pub fn normalize_ws(s: &str) -> (r: String)
    ensures
        r@ == normalize_ws_spec(s@),
{
    let v = chars_of(s);
    let collapsed = collapse_ws_chars(v.as_slice());
    let trimmed = trim_chars(collapsed.as_slice());
    string_from_chars(trimmed.as_slice())
}

/// Whether the text sanitizer keeps `c`: replacement characters, zero-width
/// and invisible formatting characters, and controls other than tab, newline
/// and carriage return are dropped.
pub open spec fn keep_char(c: char) -> bool {
    let u = c as u32;
    !(u == 0xfffd || (is_control_char(c) && c != '\n' && c != '\r' && c != '\t') || (0x200b <= u
        && u <= 0x200f) || (0x2028 <= u && u <= 0x202f) || (0x2060 <= u && u <= 0x206f) || u
        == 0xfeff)
}

/// The subsequence of `s` made of the characters the sanitizer keeps.
pub open spec fn sanitize_spec(s: Seq<char>) -> Seq<char>
    decreases s.len(),
{
    if s.len() == 0 {
        Seq::empty()
    } else if keep_char(s.first()) {
        seq![s.first()] + sanitize_spec(s.drop_first())
    } else {
        sanitize_spec(s.drop_first())
    }
}

/// Drops control, invisible and replacement characters from `s`, keeping tab,
/// newline and carriage return.
pub fn sanitize_text(s: &str) -> (r: String)
    ensures
        r@ == sanitize_spec(s@),
{
    let v = chars_of(s);
    let n: usize = v.len();
    let mut out: Vec<char> = Vec::new();
    let mut i: usize = 0;
    proof {
        assert(v@.skip(0) =~= v@);
    }
    while i < n
        invariant
            0 <= i <= n == v@.len(),
            v@ == s@,
            sanitize_spec(s@) == out@ + sanitize_spec(v@.skip(i as int)),
        decreases n - i,
    {
        let c = v[i];
        proof {
            assert(v@.skip(i as int).drop_first() =~= v@.skip(i + 1));
            assert(v@.skip(i as int).first() == v@[i as int]);
        }
        let u = c as u32;
        let drop_it = u == 0xfffd || (char_is_control(c) && c != '\n' && c != '\r' && c != '\t')
            || (0x200b <= u && u <= 0x200f) || (0x2028 <= u && u <= 0x202f) || (0x2060 <= u && u
            <= 0x206f) || u == 0xfeff;
        if !drop_it {
            out.push(c);
        }
        i = i + 1;
    }
    proof {
        assert(v@.skip(n as int) =~= Seq::<char>::empty());
        assert(sanitize_spec(s@) =~= out@);
    }
    string_from_chars(out.as_slice())
}

/// Element-wise comparison of two byte slices.
pub fn bytes_eq(a: &[u8], b: &[u8]) -> (r: bool)
    ensures
        r <==> a@ == b@,
{
    let n: usize = a.len();
    if n != b.len() {
        return false;
    }
    let mut i: usize = 0;
    while i < n
        invariant
            0 <= i <= n == a@.len() == b@.len(),
            forall|j: int| 0 <= j < i ==> a@[j] == b@[j],
        decreases n - i,
    {
        if a[i] != b[i] {
            proof {
                assert(a@[i as int] != b@[i as int]);
            }
            return false;
        }
        i = i + 1;
    }
    proof {
        assert(a@ =~= b@);
    }
    true
}

/// Comparison of two string slices by their characters.
pub fn str_eq(a: &str, b: &str) -> (r: bool)
    ensures
        r <==> a@ == b@,
{
    broadcast use vstd::utf8::group_utf8_lib;

    let r = bytes_eq(a.as_bytes(), b.as_bytes());
    proof {
        if a.spec_bytes() == b.spec_bytes() {
            assert(vstd::utf8::decode_utf8(vstd::utf8::encode_utf8(a@)) == a@);
            assert(vstd::utf8::decode_utf8(vstd::utf8::encode_utf8(b@)) == b@);
        }
    }
    r
}

/// Whether `pat` occurs in `h` starting at position `i`.
pub open spec fn match_at<T>(h: Seq<T>, pat: Seq<T>, i: int) -> bool {
    0 <= i && i + pat.len() <= h.len() && h.subrange(i, i + pat.len()) == pat
}

/// The least `j >= i` at which `pat` occurs in `h`, if any.
pub open spec fn first_occur_from<T>(h: Seq<T>, pat: Seq<T>, i: int) -> Option<int>
    recommends
        pat.len() > 0,
        0 <= i,
    decreases h.len() - i,
{
    if i < 0 || pat.len() == 0 || i + pat.len() > h.len() {
        None
    } else if match_at(h, pat, i) {
        Some(i)
    } else {
        first_occur_from(h, pat, i + 1)
    }
}

/// A found occurrence is a real one, lies at or after the starting point, and
/// is the first; `None` means there is none at all.
pub proof fn lemma_first_occur<T>(h: Seq<T>, pat: Seq<T>, i: int)
    requires
        pat.len() > 0,
        0 <= i,
    ensures
        match first_occur_from(h, pat, i) {
            Some(j) => i <= j && match_at(h, pat, j) && forall|k: int|
                i <= k < j ==> !match_at(h, pat, k),
            None => forall|k: int| i <= k ==> !match_at(h, pat, k),
        },
    decreases h.len() - i,
{
    if i + pat.len() > h.len() {
        assert(forall|k: int| i <= k ==> !match_at(h, pat, k));
    } else if match_at(h, pat, i) {
    } else {
        lemma_first_occur(h, pat, i + 1);
    }
}

/// Newline canonicalization: CRLF pairs and lone CRs both become LF.
pub open spec fn fix_newlines_spec(s: Seq<char>) -> Seq<char>
    decreases s.len(),
{
    if s.len() == 0 {
        Seq::empty()
    } else if s.first() == '\r' && s.len() >= 2 && s[1] == '\n' {
        seq!['\n'] + fix_newlines_spec(s.skip(2))
    } else if s.first() == '\r' {
        seq!['\n'] + fix_newlines_spec(s.skip(1))
    } else {
        seq![s.first()] + fix_newlines_spec(s.skip(1))
    }
}

/// Replaces CRLF and lone CR line endings by LF.
pub fn fix_newlines(v: &[char]) -> (r: Vec<char>)
    ensures
        r@ == fix_newlines_spec(v@),
{
    let n: usize = v.len();
    let mut r: Vec<char> = Vec::new();
    let mut i: usize = 0;
    proof {
        assert(v@.skip(0) =~= v@);
    }
    while i < n
        invariant
            0 <= i <= n == v@.len(),
            fix_newlines_spec(v@) == r@ + fix_newlines_spec(v@.skip(i as int)),
        decreases n - i,
    {
        proof {
            assert(v@.skip(i as int).first() == v@[i as int]);
            assert(v@.skip(i as int).skip(1) =~= v@.skip(i + 1));
            if i + 1 < n {
                assert(v@.skip(i as int)[1] == v@[i + 1]);
                assert(v@.skip(i as int).skip(2) =~= v@.skip(i + 2));
            }
        }
        if v[i] == '\r' && i + 1 < n && v[i + 1] == '\n' {
            r.push('\n');
            i = i + 2;
        } else if v[i] == '\r' {
            r.push('\n');
            i = i + 1;
        } else {
            r.push(v[i]);
            i = i + 1;
        }
    }
    proof {
        assert(v@.skip(n as int) =~= Seq::<char>::empty());
        assert(fix_newlines_spec(v@) =~= r@);
    }
    r
}

/// The blank-line separator that delimits paragraphs.
pub open spec fn para_sep() -> Seq<char> {
    seq!['\n', '\n']
}

/// The paragraphs of `s` from position `pos` on: the pieces between
/// occurrences of the blank-line separator, in order, empty pieces included.
pub open spec fn split_paras_from(s: Seq<char>, pos: int) -> Seq<Seq<char>>
    recommends
        0 <= pos <= s.len(),
    decreases s.len() - pos,
        when 0 <= pos <= s.len()
    via split_paras_from_decreases
{
    match first_occur_from(s, para_sep(), pos) {
        Option::None => seq![s.subrange(pos, s.len() as int)],
        Option::Some(j) => seq![s.subrange(pos, j)] + split_paras_from(s, j + 2),
    }
}

#[via_fn]
proof fn split_paras_from_decreases(s: Seq<char>, pos: int) {
    lemma_first_occur(s, para_sep(), pos);
}

/// Left fold that appends each paragraph's collapsed form, separating the
/// non-empty ones by blank lines and dropping the empty ones.
pub open spec fn assemble_paras(paras: Seq<Seq<char>>, acc: Seq<char>) -> Seq<char>
    decreases paras.len(),
{
    if paras.len() == 0 {
        acc
    } else {
        let p = normalize_ws_spec(paras.first());
        assemble_paras(
            paras.drop_first(),
            if p.len() == 0 {
                acc
            } else if acc.len() == 0 {
                p
            } else {
                acc + para_sep() + p
            },
        )
    }
}

/// The paragraph-preserving normal form of `s`: line endings canonicalized,
/// each paragraph's whitespace collapsed and trimmed, empty paragraphs
/// dropped, and the rest joined by blank lines.
pub open spec fn normalize_pn_spec(s: Seq<char>) -> Seq<char> {
    assemble_paras(split_paras_from(fix_newlines_spec(s), 0), Seq::empty())
}

/// Copies `v[a..b]` into a fresh vector.
pub fn copy_range(v: &[char], a: usize, b: usize) -> (r: Vec<char>)
    requires
        a <= b <= v@.len(),
    ensures
        r@ == v@.subrange(a as int, b as int),
{
    let mut r: Vec<char> = Vec::new();
    let mut i: usize = a;
    while i < b
        invariant
            a <= i <= b <= v@.len(),
            r@ =~= v@.subrange(a as int, i as int),
        decreases b - i,
    {
        r.push(v[i]);
        i = i + 1;
    }
    r
}

/// Finds the first blank-line separator in `v` at or after `from`.
pub(crate) fn find_para_sep(v: &[char], from: usize) -> (r: Option<usize>)
    ensures
        match r {
            Some(j) => from <= j && j + 2 <= v@.len() && first_occur_from(
                v@,
                para_sep(),
                from as int,
            ) == Some(j as int),
            None => first_occur_from(v@, para_sep(), from as int) is None,
        },
{
    let n: usize = v.len();
    let mut j: usize = from;
    while j < n && j + 1 < n
        invariant
            from <= j,
            n == v@.len(),
            first_occur_from(v@, para_sep(), from as int) == first_occur_from(
                v@,
                para_sep(),
                j as int,
            ),
        decreases n - j,
    {
        if v[j] == '\n' && v[j + 1] == '\n' {
            proof {
                assert(v@.subrange(j as int, j + 2) =~= para_sep());
                assert(match_at(v@, para_sep(), j as int));
            }
            return Some(j);
        }
        proof {
            assert(v@.subrange(j as int, j + 2)[0] == v@[j as int]);
            assert(v@.subrange(j as int, j + 2)[1] == v@[j + 1]);
            assert(!match_at(v@, para_sep(), j as int));
        }
        j = j + 1;
    }
    None
}

/// Canonicalizes line endings, collapses whitespace inside each paragraph,
/// drops paragraphs that collapse to nothing, and joins the rest with blank
/// lines — the normalizer applied to extracted page text.
pub fn normalize_ws_preserve_newlines(s: &str) -> (r: String)
    ensures
        r@ == normalize_pn_spec(s@),
{
    let raw = chars_of(s);
    let fixed = fix_newlines(raw.as_slice());
    let ghost f = fixed@;
    let n: usize = fixed.len();
    let mut out: Vec<char> = Vec::new();
    let mut pos: usize = 0;
    let mut done: bool = false;
    while !done
        invariant
            0 <= pos <= n == f.len(),
            fixed@ == f,
            !done ==> normalize_pn_spec(s@) == assemble_paras(split_paras_from(f, pos as int), out@),
            done ==> normalize_pn_spec(s@) == out@,
        decreases n + 1 - pos, (if done { 0int } else { 1int }),
    {
        let sep = find_para_sep(fixed.as_slice(), pos);
        let endpos: usize = match sep {
            Some(j) => j,
            None => n,
        };
        proof {
            lemma_first_occur(f, para_sep(), pos as int);
        }
        let para = copy_range(fixed.as_slice(), pos, endpos);
        let collapsed = collapse_ws_chars(para.as_slice());
        let mut norm = trim_chars(collapsed.as_slice());
        let ghost paras = split_paras_from(f, pos as int);
        let ghost out0 = out@;
        let ghost p = norm@;
        proof {
            match first_occur_from(f, para_sep(), pos as int) {
                Option::Some(j) => {
                    assert(paras == seq![f.subrange(pos as int, j)] + split_paras_from(f, j + 2));
                    assert(paras.first() == f.subrange(pos as int, endpos as int));
                },
                Option::None => {
                    assert(paras == seq![f.subrange(pos as int, f.len() as int)]);
                    assert(paras.first() == f.subrange(pos as int, endpos as int));
                },
            }
            assert(p == normalize_ws_spec(paras.first()));
        }
        if norm.len() > 0 {
            if out.len() > 0 {
                out.push('\n');
                out.push('\n');
            }
            out.append(&mut norm);
        }
        proof {
            if p.len() == 0 {
                assert(out@ == out0);
            } else if out0.len() == 0 {
                assert(out@ =~= p);
            } else {
                assert(out@ =~= out0 + para_sep() + p);
            }
            assert(paras.len() > 0);
            assert(assemble_paras(paras, out0) == assemble_paras(paras.drop_first(), out@));
        }
        match sep {
            Some(j) => {
                proof {
                    assert(paras.drop_first() =~= split_paras_from(f, j + 2));
                }
                pos = j + 2;
            },
            None => {
                proof {
                    assert(paras.drop_first() =~= Seq::<Seq<char>>::empty());
                    assert(assemble_paras(paras.drop_first(), out@) == out@);
                }
                done = true;
            },
        }
    }
    string_from_chars(out.as_slice())
}

/// The line separator.
pub open spec fn line_sep() -> Seq<char> {
    seq!['\n']
}

/// The lines of `s` from position `pos` on: the pieces between newline
/// characters, in order, empty pieces included.
pub open spec fn split_lines_from(s: Seq<char>, pos: int) -> Seq<Seq<char>>
    recommends
        0 <= pos <= s.len(),
    decreases s.len() - pos,
        when 0 <= pos <= s.len()
    via split_lines_from_decreases
{
    match first_occur_from(s, line_sep(), pos) {
        Option::None => seq![s.subrange(pos, s.len() as int)],
        Option::Some(j) => seq![s.subrange(pos, j)] + split_lines_from(s, j + 1),
    }
}

#[via_fn]
proof fn split_lines_from_decreases(s: Seq<char>, pos: int) {
    lemma_first_occur(s, line_sep(), pos);
}

/// Finds the first newline in `v` at or after `from`.
pub(crate) fn find_nl(v: &[char], from: usize) -> (r: Option<usize>)
    ensures
        match r {
            Some(j) => from <= j && j + 1 <= v@.len() && first_occur_from(
                v@,
                line_sep(),
                from as int,
            ) == Some(j as int),
            None => first_occur_from(v@, line_sep(), from as int) is None,
        },
{
    let n: usize = v.len();
    let mut j: usize = from;
    while j < n
        invariant
            from <= j,
            n == v@.len(),
            first_occur_from(v@, line_sep(), from as int) == first_occur_from(
                v@,
                line_sep(),
                j as int,
            ),
        decreases n - j,
    {
        if v[j] == '\n' {
            proof {
                assert(v@.subrange(j as int, j + 1) =~= line_sep());
                assert(match_at(v@, line_sep(), j as int));
            }
            return Some(j);
        }
        proof {
            assert(v@.subrange(j as int, j + 1)[0] == v@[j as int]);
            assert(!match_at(v@, line_sep(), j as int));
        }
        j = j + 1;
    }
    None
}

} // verus!
