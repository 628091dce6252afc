//! Unicode-safe excerpt generation around query matches.
//!
//! A snippet is centered on the first case-insensitive occurrence of the
//! query, extended half the requested length in each direction, clamped to
//! character boundaries of the text's UTF-8 encoding, and trimmed.
use vstd::prelude::*;
use vstd::string::StringSliceAdditionalSpecFns;
use vstd::utf8::*;
use crate::text::{
    match_at, first_occur_from, trim_spec, trim_chars, chars_of, string_from_chars, copy_range,
    find_para_sep, para_sep, split_paras_from, lemma_first_occur,
};

verus! {

broadcast use
    vstd::utf8::group_utf8_lib,
    vstd::string::group_string_axioms,
    vstd::slice::axiom_spec_len,
;

/// What `str::to_lowercase` returns for a string holding these characters.
/// The result depends on the characters alone.
pub uninterp spec fn lower_of(s: Seq<char>) -> Seq<char>;

/// Relies on `str::to_lowercase`: the result is a function of the characters
/// alone, it is empty exactly when the input is empty, and lowercasing never
/// drops a character's output entirely.
#[verifier::external_body]
pub(crate) fn to_lower(s: &str) -> (r: String)
    ensures
        r@ == lower_of(s@),
        r@.len() == 0 <==> s@.len() == 0,
{
    s.to_lowercase()
}

/// Finds the first occurrence of `pat` in `h`, scanning left to right.
pub fn find_bytes(h: &[u8], pat: &[u8]) -> (r: Option<usize>)
    ensures
        r matches Some(j) ==> j + pat@.len() <= h@.len() && first_occur_from(h@, pat@, 0) == Some(
            j as int,
        ),
        r is None ==> first_occur_from(h@, pat@, 0) is None,
{
    let plen: usize = pat.len();
    let hlen: usize = h.len();
    if plen == 0 || plen > hlen {
        return None;
    }
    let mut j: usize = 0;
    while j <= hlen - plen
        invariant
            0 < plen <= hlen == h@.len(),
            plen == pat@.len(),
            j <= hlen - plen + 1,
            first_occur_from(h@, pat@, 0) == first_occur_from(h@, pat@, j as int),
        decreases hlen - j,
    {
        let mut k: usize = 0;
        let mut hit: bool = true;
        while k < plen
            invariant
                0 <= k <= plen == pat@.len(),
                j + plen <= hlen == h@.len(),
                hit ==> forall|m: int| 0 <= m < k ==> h@[j + m] == pat@[m],
                !hit ==> exists|m: int| 0 <= m < plen && h@[j + m] != pat@[m],
            decreases plen - k,
        {
            if h[j + k] != pat[k] {
                proof {
                    assert(h@[j + k] != pat@[k as int]);
                }
                hit = false;
                k = plen;
            } else {
                proof {
                    assert(h@[j + k] == pat@[k as int]);
                }
                k = k + 1;
            }
        }
        if hit {
            proof {
                assert(h@.subrange(j as int, j + plen) =~= pat@);
                assert(match_at(h@, pat@, j as int));
            }
            return Some(j);
        }
        proof {
            if match_at(h@, pat@, j as int) {
                assert(forall|m: int|
                    0 <= m < plen ==> #[trigger] h@.subrange(j as int, j + plen)[m] == h@[j + m]);
                assert(false);
            }
        }
        j = j + 1;
    }
    proof {
        assert(j + plen > hlen);
    }
    None
}

/// The nearest character boundary at or before `i` in the valid UTF-8
/// sequence `b`.
pub open spec fn prev_boundary_spec(b: Seq<u8>, i: int) -> int
    recommends
        valid_utf8(b),
        0 <= i <= b.len(),
    decreases i,
        when valid_utf8(b) && 0 <= i <= b.len()
    via prev_boundary_decreases
{
    if is_char_boundary(b, i) {
        i
    } else {
        prev_boundary_spec(b, i - 1)
    }
}

#[via_fn]
proof fn prev_boundary_decreases(b: Seq<u8>, i: int) {
    assert(is_char_boundary(b, 0));
}

/// The nearest character boundary at or after `i` in the valid UTF-8
/// sequence `b`.
pub open spec fn next_boundary_spec(b: Seq<u8>, i: int) -> int
    recommends
        valid_utf8(b),
        0 <= i <= b.len(),
    decreases b.len() - i,
        when valid_utf8(b) && 0 <= i <= b.len()
    via next_boundary_decreases
{
    if is_char_boundary(b, i) {
        i
    } else {
        next_boundary_spec(b, i + 1)
    }
}

#[via_fn]
proof fn next_boundary_decreases(b: Seq<u8>, i: int) {
    is_char_boundary_start_end_of_seq(b);
}

/// The backward boundary search lands on a boundary at or before its start.
pub proof fn lemma_prev_boundary(b: Seq<u8>, i: int)
    requires
        valid_utf8(b),
        0 <= i <= b.len(),
    ensures
        0 <= prev_boundary_spec(b, i) <= i,
        is_char_boundary(b, prev_boundary_spec(b, i)),
    decreases i,
{
    assert(is_char_boundary(b, 0));
    if !is_char_boundary(b, i) {
        lemma_prev_boundary(b, i - 1);
    }
}

/// The forward boundary search lands on a boundary between its start and the
/// end of the sequence.
pub proof fn lemma_next_boundary(b: Seq<u8>, i: int)
    requires
        valid_utf8(b),
        0 <= i <= b.len(),
    ensures
        i <= next_boundary_spec(b, i) <= b.len(),
        is_char_boundary(b, next_boundary_spec(b, i)),
    decreases b.len() - i,
{
    is_char_boundary_start_end_of_seq(b);
    if !is_char_boundary(b, i) {
        lemma_next_boundary(b, i + 1);
    }
}

/// The largest byte index `<= idx` (clamped to the string's length) that is a
/// character boundary.
pub fn prev_char_boundary(s: &str, idx: usize) -> (r: usize)
    ensures
        r as int == prev_boundary_spec(
            s.spec_bytes(),
            if idx <= s.spec_bytes().len() {
                idx as int
            } else {
                s.spec_bytes().len() as int
            },
        ),
        is_char_boundary(s.spec_bytes(), r as int),
        r <= idx,
{
    let n: usize = s.as_bytes().len();
    let mut i: usize = if idx > n {
        n
    } else {
        idx
    };
    let ghost b = s.spec_bytes();
    let ghost start = i as int;
    while i > 0 && !s.is_char_boundary(i)
        invariant
            0 <= i <= start <= b.len(),
            b == s.spec_bytes(),
            valid_utf8(b),
            prev_boundary_spec(b, start) == prev_boundary_spec(b, i as int),
        decreases i,
    {
        i = i - 1;
    }
    proof {
        assert(is_char_boundary(b, 0));
        assert(is_char_boundary(b, i as int));
    }
    i
}

/// The smallest byte index `>= idx` that is a character boundary, or the
/// string's length if `idx` lies beyond it.
pub fn next_char_boundary(s: &str, idx: usize) -> (r: usize)
    ensures
        r as int == (if idx <= s.spec_bytes().len() {
            next_boundary_spec(s.spec_bytes(), idx as int)
        } else {
            s.spec_bytes().len() as int
        }),
        is_char_boundary(s.spec_bytes(), r as int),
        idx <= s.spec_bytes().len() ==> idx <= r,
{
    let n: usize = s.as_bytes().len();
    if idx > n {
        proof {
            is_char_boundary_start_end_of_seq(s.spec_bytes());
        }
        return n;
    }
    let mut i: usize = idx;
    let ghost b = s.spec_bytes();
    let ghost start = i as int;
    while i < n && !s.is_char_boundary(i)
        invariant
            start <= i as int <= b.len(),
            n == b.len(),
            b == s.spec_bytes(),
            valid_utf8(b),
            next_boundary_spec(b, start) == next_boundary_spec(b, i as int),
        decreases n - i,
    {
        i = i + 1;
    }
    proof {
        is_char_boundary_start_end_of_seq(b);
        assert(is_char_boundary(b, i as int));
    }
    i
}

/// The byte range of `t`'s UTF-8 encoding that the snippet is cut from, and
/// whether the query was found. Mirrors the centering arithmetic: half the
/// requested length on each side of the first case-insensitive match, clamped
/// outward to character boundaries; with no match, the head of the text.
pub open spec fn snippet_range_spec(t: Seq<char>, q: Seq<char>, max_len: nat) -> (int, int) {
    let tb = encode_utf8(t);
    let ltb = encode_utf8(lower_of(t));
    let lqb = encode_utf8(lower_of(q));
    let half = max_len / 2;
    match first_occur_from(ltb, lqb, 0) {
        Some(pos) => {
            let raw_start = if pos >= half {
                pos - half
            } else {
                0
            };
            let rs = if raw_start <= tb.len() {
                raw_start
            } else {
                tb.len() as int
            };
            let raw_end = if pos + lqb.len() + half <= tb.len() {
                pos + lqb.len() + half
            } else {
                tb.len() as int
            };
            let start = prev_boundary_spec(tb, rs);
            let end0 = next_boundary_spec(tb, raw_end);
            let end1 = if end0 >= start {
                end0
            } else {
                start
            };
            let end = if end1 <= tb.len() {
                end1
            } else {
                tb.len() as int
            };
            (start, end)
        },
        None => {
            let cap = if max_len <= tb.len() {
                max_len as int
            } else {
                tb.len() as int
            };
            (0, next_boundary_spec(tb, cap))
        },
    }
}

/// The snippet for `t` and `q`: empty when the text is empty or the query is
/// blank, else the boundary-clamped byte range decoded and trimmed.
pub open spec fn make_snippet_spec(t: Seq<char>, q: Seq<char>, max_len: nat) -> Seq<char> {
    if t.len() == 0 || trim_spec(q).len() == 0 {
        Seq::empty()
    } else {
        let tb = encode_utf8(t);
        let (start, end) = snippet_range_spec(t, q, max_len);
        trim_spec(decode_utf8(tb.subrange(start, end)))
    }
}

/// The snippet range always lies at character boundaries of the text's UTF-8
/// encoding, so the cut never lands inside a code point and the bytes between
/// the cuts are themselves valid UTF-8.
pub proof fn lemma_snippet_boundary_safety(t: Seq<char>, q: Seq<char>, max_len: nat)
    ensures
        ({
            let tb = encode_utf8(t);
            let (start, end) = snippet_range_spec(t, q, max_len);
            0 <= start <= end <= tb.len() && is_char_boundary(tb, start) && is_char_boundary(
                tb,
                end,
            ) && valid_utf8(tb.subrange(start, end))
        }),
{
    let tb = encode_utf8(t);
    let ltb = encode_utf8(lower_of(t));
    let lqb = encode_utf8(lower_of(q));
    let half = max_len / 2;
    assert(valid_utf8(tb));
    is_char_boundary_start_end_of_seq(tb);
    let (start, end) = snippet_range_spec(t, q, max_len);
    match first_occur_from(ltb, lqb, 0) {
        Some(pos) => {
            lemma_first_occur(ltb, lqb, 0);
            let raw_start = if pos >= half {
                pos - half
            } else {
                0
            };
            let rs = if raw_start <= tb.len() {
                raw_start
            } else {
                tb.len() as int
            };
            let raw_end = if pos + lqb.len() + half <= tb.len() {
                pos + lqb.len() + half
            } else {
                tb.len() as int
            };
            lemma_prev_boundary(tb, rs);
            lemma_next_boundary(tb, raw_end);
            lemma_valid_between(tb, start, end);
        },
        None => {
            let cap = if max_len <= tb.len() {
                max_len as int
            } else {
                tb.len() as int
            };
            lemma_next_boundary(tb, cap);
            lemma_valid_between(tb, start, end);
        },
    }
}

/// Bytes between two character boundaries of a valid UTF-8 sequence are valid
/// UTF-8.
pub proof fn lemma_valid_between(b: Seq<u8>, start: int, end: int)
    requires
        valid_utf8(b),
        0 <= start <= end <= b.len(),
        is_char_boundary(b, start),
        is_char_boundary(b, end),
    ensures
        valid_utf8(b.subrange(start, end)),
{
    valid_utf8_split(b, end);
    let head = b.subrange(0, end);
    lemma_boundary_in_prefix(b, end, start);
    valid_utf8_split(head, start);
    assert(head.subrange(start, head.len() as int) =~= b.subrange(start, end));
}

/// A character boundary of a sequence is a character boundary of any prefix
/// of it that is itself cut at a boundary.
pub proof fn lemma_boundary_in_prefix(b: Seq<u8>, end: int, i: int)
    requires
        valid_utf8(b),
        0 <= i <= end <= b.len(),
        is_char_boundary(b, end),
        is_char_boundary(b, i),
    ensures
        valid_utf8(b.subrange(0, end)),
        is_char_boundary(b.subrange(0, end), i),
{
    valid_utf8_split(b, end);
    let head = b.subrange(0, end);
    is_char_boundary_start_end_of_seq(head);
    if 0 < i < end {
        is_char_boundary_iff_not_is_continuation_byte(b, i);
        assert(head[i] == b[i]);
        is_char_boundary_iff_not_is_continuation_byte(head, i);
    }
}

/// Cuts `text` between the two byte positions, which must be character
/// boundaries, and returns the piece trimmed of surrounding whitespace.
fn cut_and_trim(text: &str, start: usize, end: usize) -> (r: String)
    requires
        start <= end <= text.spec_bytes().len(),
        is_char_boundary(text.spec_bytes(), start as int),
        is_char_boundary(text.spec_bytes(), end as int),
    ensures
        r@ == trim_spec(decode_utf8(text.spec_bytes().subrange(start as int, end as int))),
{
    let ghost tb = text.spec_bytes();
    proof {
        lemma_boundary_in_prefix(tb, end as int, start as int);
    }
    let (head, _tail) = text.split_at(end);
    proof {
        assert(head.spec_bytes() =~= tb.subrange(0, end as int));
    }
    let (_pre, snip) = head.split_at(start);
    proof {
        assert(snip.spec_bytes() =~= tb.subrange(start as int, end as int));
        assert(decode_utf8(encode_utf8(snip@)) == snip@);
        assert(decode_utf8(tb.subrange(start as int, end as int)) == snip@);
    }
    let v = chars_of(snip);
    let trimmed = trim_chars(v.as_slice());
    string_from_chars(trimmed.as_slice())
}

/// Builds the snippet for the first case-insensitive occurrence of `query`
/// in `text`: about `max_len` bytes centered on the match, never cutting
/// inside a code point, trimmed; the head of the text when there is no match;
/// empty when the text is empty or the query is blank.
pub fn make_snippet(text: &str, query: &str, max_len: usize) -> (r: String)
    ensures
        r@ == make_snippet_spec(text@, query@, max_len as nat),
{
    let qv = chars_of(query);
    let qt = trim_chars(qv.as_slice());
    if text.is_empty() || qt.len() == 0 {
        let r = String::new();
        proof {
            assert(r@ =~= make_snippet_spec(text@, query@, max_len as nat));
        }
        return r;
    }
    let ghost tb = text.spec_bytes();
    let lc_text = to_lower(text);
    let lc_query = to_lower(query);
    let half: usize = max_len / 2;
    let tlen: usize = text.as_bytes().len();
    let lt: &[u8] = lc_text.as_str().as_bytes();
    let lq: &[u8] = lc_query.as_str().as_bytes();
    // Taking the slices' lengths brings their bounds into scope for the
    // overflow reasoning below.
    let lt_len: usize = lt.len();
    let lq_len: usize = lq.len();
    proof {
        assert(lt_len == lt@.len() && lq_len == lq@.len());
    }
    let found = find_bytes(lt, lq);
    match found {
        Some(pos) => {
            let raw_start: usize = if pos >= half {
                pos - half
            } else {
                0
            };
            let sum1: usize = pos + lq_len;
            let raw_end: usize = if sum1 >= tlen {
                tlen
            } else if half >= tlen - sum1 {
                tlen
            } else {
                sum1 + half
            };
            let start = prev_char_boundary(text, raw_start);
            let end0 = next_char_boundary(text, raw_end);
            let end1: usize = if end0 >= start {
                end0
            } else {
                start
            };
            let end: usize = if end1 <= tlen {
                end1
            } else {
                tlen
            };
            proof {
                is_char_boundary_start_end_of_seq(tb);
                assert((start as int, end as int) == snippet_range_spec(
                    text@,
                    query@,
                    max_len as nat,
                ));
            }
            cut_and_trim(text, start, end)
        },
        None => {
            let cap: usize = if max_len <= tlen {
                max_len
            } else {
                tlen
            };
            let end = next_char_boundary(text, cap);
            proof {
                is_char_boundary_start_end_of_seq(tb);
                assert((0int, end as int) == snippet_range_spec(text@, query@, max_len as nat));
            }
            cut_and_trim(text, 0, end)
        },
    }
}

/// Whether the lowercased form of `p` contains the lowercased form of `q`.
pub open spec fn para_contains_query(p: Seq<char>, q: Seq<char>) -> bool {
    first_occur_from(encode_utf8(lower_of(p)), encode_utf8(lower_of(q)), 0) is Some
}

/// One snippet per paragraph that contains the query, in paragraph order.
pub open spec fn snippets_of_paras(paras: Seq<Seq<char>>, q: Seq<char>, max_len: nat) -> Seq<
    Seq<char>,
>
    decreases paras.len(),
{
    if paras.len() == 0 {
        Seq::empty()
    } else {
        (if para_contains_query(paras.first(), q) {
            seq![make_snippet_spec(paras.first(), q, max_len)]
        } else {
            Seq::<Seq<char>>::empty()
        }) + snippets_of_paras(paras.drop_first(), q, max_len)
    }
}

/// The per-paragraph snippets of `t`: the text is split on blank lines, and
/// every paragraph containing a case-insensitive occurrence of the query
/// yields one centered snippet.
pub open spec fn make_snippets_spec(t: Seq<char>, q: Seq<char>, max_len: nat) -> Seq<Seq<char>> {
    if t.len() == 0 || trim_spec(q).len() == 0 {
        Seq::empty()
    } else {
        snippets_of_paras(split_paras_from(t, 0), q, max_len)
    }
}

/// Splits `text` on blank lines and returns one snippet for every paragraph
/// that contains a case-insensitive occurrence of `query`.
pub fn make_snippets(text: &str, query: &str, max_len: usize) -> (r: Vec<String>)
    ensures
        r.deep_view() == make_snippets_spec(text@, query@, max_len as nat),
{
    let mut r: Vec<String> = Vec::new();
    let qv = chars_of(query);
    let qt = trim_chars(qv.as_slice());
    if text.is_empty() || qt.len() == 0 {
        proof {
            assert(r.deep_view() =~= make_snippets_spec(text@, query@, max_len as nat));
        }
        return r;
    }
    let tv = chars_of(text);
    let lc_query = to_lower(query);
    let n: usize = tv.len();
    let mut pos: usize = 0;
    let mut done: bool = false;
    while !done
        invariant
            0 <= pos <= n == text@.len(),
            tv@ == text@,
            lc_query@ == lower_of(query@),
            text@.len() > 0 && trim_spec(query@).len() != 0,
            !done ==> make_snippets_spec(text@, query@, max_len as nat) =~= r.deep_view()
                + snippets_of_paras(split_paras_from(text@, pos as int), query@, max_len as nat),
            done ==> make_snippets_spec(text@, query@, max_len as nat) =~= r.deep_view(),
        decreases n + 1 - pos, (if done { 0int } else { 1int }),
    {
        let sep = find_para_sep(tv.as_slice(), pos);
        let endpos: usize = match sep {
            Some(j) => j,
            None => n,
        };
        proof {
            lemma_first_occur(text@, para_sep(), pos as int);
        }
        let ghost paras = split_paras_from(text@, pos as int);
        let para = copy_range(tv.as_slice(), pos, endpos);
        let para_str = string_from_chars(para.as_slice());
        proof {
            match first_occur_from(text@, para_sep(), pos as int) {
                Option::Some(j) => {
                    assert(paras == seq![text@.subrange(pos as int, j)] + split_paras_from(
                        text@,
                        j + 2,
                    ));
                    assert(paras.first() == text@.subrange(pos as int, endpos as int));
                },
                Option::None => {
                    assert(paras == seq![text@.subrange(pos as int, text@.len() as int)]);
                    assert(paras.first() == text@.subrange(pos as int, endpos as int));
                },
            }
        }
        let lc_para = to_lower(para_str.as_str());
        let ghost r0 = r.deep_view();
        let hit = find_bytes(lc_para.as_str().as_bytes(), lc_query.as_str().as_bytes());
        if hit.is_some() {
            let snip = make_snippet(para_str.as_str(), query, max_len);
            r.push(snip);
            proof {
                assert(para_contains_query(paras.first(), query@));
                assert(r.deep_view() =~= r0 + seq![
                    make_snippet_spec(paras.first(), query@, max_len as nat),
                ]);
            }
        } else {
            proof {
                assert(!para_contains_query(paras.first(), query@));
                assert(r.deep_view() =~= r0);
            }
        }
        proof {
            assert(snippets_of_paras(paras, query@, max_len as nat) == (if para_contains_query(
                paras.first(),
                query@,
            ) {
                seq![make_snippet_spec(paras.first(), query@, max_len as nat)]
            } else {
                Seq::<Seq<char>>::empty()
            }) + snippets_of_paras(paras.drop_first(), query@, max_len as nat));
        }
        match sep {
            Some(j) => {
                proof {
                    assert(paras.drop_first() =~= split_paras_from(text@, j + 2));
                }
                pos = j + 2;
            },
            None => {
                proof {
                    assert(paras.drop_first() =~= Seq::<Seq<char>>::empty());
                    assert(snippets_of_paras(paras.drop_first(), query@, max_len as nat)
                        =~= Seq::<Seq<char>>::empty());
                }
                done = true;
            },
        }
    }
    r
}

/// How many paragraphs contain the query.
pub open spec fn count_matching_paras(paras: Seq<Seq<char>>, q: Seq<char>) -> int
    decreases paras.len(),
{
    if paras.len() == 0 {
        0
    } else {
        (if para_contains_query(paras.first(), q) {
            1int
        } else {
            0int
        }) + count_matching_paras(paras.drop_first(), q)
    }
}

proof fn lemma_snippets_count(paras: Seq<Seq<char>>, q: Seq<char>, max_len: nat)
    ensures
        snippets_of_paras(paras, q, max_len).len() == count_matching_paras(paras, q),
    decreases paras.len(),
{
    if paras.len() > 0 {
        lemma_snippets_count(paras.drop_first(), q, max_len);
    }
}

/// Paragraph snippet completeness: for a non-empty text and a non-blank
/// query, the per-paragraph snippets are exactly one per paragraph that
/// contains a case-insensitive occurrence of the query.
pub proof fn lemma_one_snippet_per_matching_paragraph(t: Seq<char>, q: Seq<char>, max_len: nat)
    requires
        t.len() > 0,
        trim_spec(q).len() > 0,
    ensures
        make_snippets_spec(t, q, max_len).len() == count_matching_paras(
            split_paras_from(t, 0),
            q,
        ),
{
    lemma_snippets_count(split_paras_from(t, 0), q, max_len);
}

} // verus!
