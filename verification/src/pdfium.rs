//! The search plan for the native PDF rendering library: the ordered list
//! of directories to probe for a bundled copy before falling back to a
//! system-installed one.
//!
//! Paths are plain strings here; a parent is everything before the last
//! path separator, and a path without separators has none. The caller
//! probes each directory in order, tries a `PDFIUM_PATH` override first,
//! and binds the first copy that loads.
use vstd::prelude::*;
use crate::text::{chars_of, string_from_chars};

verus! {

/// Whether `c` separates path components.
pub open spec fn is_sep(c: char) -> bool {
    c == '/' || c == '\\'
}

/// Whether `s` has a parent directory in the plain-string model: it
/// contains a separator.
pub open spec fn has_sep(s: Seq<char>) -> bool {
    exists|i: int| 0 <= i < s.len() && is_sep(s[i])
}

/// The parent directory of `s`: everything before its last separator.
pub open spec fn parent_spec(s: Seq<char>) -> Seq<char>
    decreases s.len(),
{
    if s.len() == 0 {
        Seq::empty()
    } else if is_sep(s.last()) {
        s.drop_last()
    } else {
        parent_spec(s.drop_last())
    }
}

proof fn lemma_parent_at(s: Seq<char>, k: int)
    requires
        0 <= k <= s.len(),
        forall|j: int| k <= j < s.len() ==> !is_sep(s[j]),
        k > 0 ==> is_sep(s[k - 1]),
    ensures
        k > 0 ==> parent_spec(s) == s.take(k - 1),
        k == 0 ==> parent_spec(s) == Seq::<char>::empty() && !has_sep(s),
    decreases s.len() - k,
{
    if k == s.len() {
        if k > 0 {
            assert(s.take(k - 1) =~= s.drop_last());
        }
    } else {
        lemma_parent_at(s.drop_last(), k);
        if k > 0 {
            assert(s.drop_last().take(k - 1) =~= s.take(k - 1));
        } else {
            if has_sep(s) {
                let j = choose|j: int| 0 <= j < s.len() && is_sep(s[j]);
                assert(!is_sep(s[j]));
            }
        }
    }
}

/// The parent directory of `v`, and whether it has one.
pub fn parent_dir(v: &[char]) -> (r: Option<Vec<char>>)
    ensures
        match r {
            Some(p) => has_sep(v@) && p@ == parent_spec(v@),
            None => !has_sep(v@),
        },
{
    let n: usize = v.len();
    let mut k: usize = n;
    while k > 0 && v[k - 1] != '/' && v[k - 1] != '\\'
        invariant
            0 <= k <= n == v@.len(),
            forall|j: int| k <= j < n ==> !is_sep(v@[j]),
        decreases k,
    {
        k = k - 1;
    }
    proof {
        lemma_parent_at(v@, k as int);
    }
    if k == 0 {
        None
    } else {
        proof {
            assert(is_sep(v@[k - 1]));
        }
        Some(crate::text::copy_range(v, 0, k - 1))
    }
}

/// `a` and `b` joined by a forward slash.
pub open spec fn join_spec(a: Seq<char>, b: Seq<char>) -> Seq<char> {
    a + seq!['/'] + b
}

/// Joins a directory and a relative part with a forward slash.
pub fn join_dir(a: &str, b: &str) -> (r: String)
    ensures
        r@ == join_spec(a@, b@),
{
    let mut s = a.to_owned();
    s.append("/");
    s.append(b);
    proof {
        reveal_strlit("/");
        assert(s@ =~= join_spec(a@, b@));
    }
    s
}

/// The parent of `d`, or `d` itself when it has none.
pub open spec fn parent_or_self(d: Seq<char>) -> Seq<char> {
    if has_sep(d) {
        parent_spec(d)
    } else {
        d
    }
}

/// The grandparent of `d`, or `d` itself when the chain runs out.
pub open spec fn grandparent_or_self(d: Seq<char>) -> Seq<char> {
    if has_sep(d) && has_sep(parent_spec(d)) {
        parent_spec(parent_spec(d))
    } else {
        d
    }
}

/// The project-tree resource directories under an ancestor.
pub open spec fn tree_dirs(anc: Seq<char>) -> Seq<Seq<char>> {
    seq![join_spec(anc, "src-tauri/resources"@), join_spec(anc, "src-tauri/resources/pdfium"@)]
}

/// The strongly preferred directories: the repository-bundled resource
/// locations under the working directory, most specific first.
pub open spec fn preferred_dirs_spec(cwd: Option<Seq<char>>) -> Seq<Seq<char>> {
    match cwd {
        None => Seq::empty(),
        Some(c) => seq![
            join_spec(c, "src-tauri/resources/pdfium"@),
            join_spec(c, "src-tauri/resources"@),
            join_spec(c, "resources/pdfium"@),
            join_spec(c, "resources"@),
        ],
    }
}

/// The remaining candidate directories, in probe order: the executable's
/// directory and two ancestors, resource directories beside the executable,
/// the project tree above it, the working directory and its resource
/// directories, the conventional installation directories on Windows, and a
/// per-user directory under the home directory.
pub open spec fn candidate_dirs_spec(
    exe_dir: Option<Seq<char>>,
    cwd: Option<Seq<char>>,
    windows: bool,
    home: Option<Seq<char>>,
) -> Seq<Seq<char>> {
    (match exe_dir {
        None => Seq::<Seq<char>>::empty(),
        Some(d) => seq![d] + (if has_sep(d) {
            seq![parent_spec(d)] + (if has_sep(parent_spec(d)) {
                seq![parent_spec(parent_spec(d))]
            } else {
                Seq::<Seq<char>>::empty()
            })
        } else {
            Seq::<Seq<char>>::empty()
        }) + seq![join_spec(d, "resources"@), join_spec(d, "resources/pdfium"@)] + tree_dirs(d)
            + tree_dirs(parent_or_self(d)) + tree_dirs(grandparent_or_self(d)),
    }) + (match cwd {
        None => Seq::<Seq<char>>::empty(),
        Some(c) => seq![
            c,
            join_spec(c, "resources"@),
            join_spec(c, "resources/pdfium"@),
            join_spec(c, "src-tauri/resources"@),
            join_spec(c, "src-tauri/resources/pdfium"@),
        ],
    }) + (if windows {
        seq!["C:\\Program Files\\PDFium"@, "C:\\Program Files (x86)\\PDFium"@]
    } else {
        Seq::<Seq<char>>::empty()
    }) + (match home {
        None => Seq::<Seq<char>>::empty(),
        Some(h) => seq![join_spec(h, ".pdfium"@)],
    })
}

/// The view of an optional string.
pub open spec fn opt_view(s: Option<&str>) -> Option<Seq<char>> {
    match s {
        Some(x) => Some(x@),
        None => None,
    }
}

/// Pushes the two project-tree resource directories under `anc`.
fn push_tree_dirs(out: &mut Vec<String>, anc: &str)
    ensures
        final(out).deep_view() == old(out).deep_view() + tree_dirs(anc@),
{
    let a = join_dir(anc, "src-tauri/resources");
    let b = join_dir(anc, "src-tauri/resources/pdfium");
    out.push(a);
    out.push(b);
    proof {
        assert(final(out).deep_view() =~= old(out).deep_view() + tree_dirs(anc@));
    }
}

/// Builds the ordered probe plan for the native PDF library: the preferred
/// repository-bundled directories first, then the wider candidate list. The
/// caller supplies the working directory, the executable's directory, the
/// home directory and whether this is a Windows host.
pub fn pdfium_candidate_dirs(
    cwd: Option<&str>,
    exe_dir: Option<&str>,
    home: Option<&str>,
    windows: bool,
) -> (r: (Vec<String>, Vec<String>))
    ensures
        r.0.deep_view() == preferred_dirs_spec(opt_view(cwd)),
        r.1.deep_view() == candidate_dirs_spec(opt_view(exe_dir), opt_view(cwd), windows, opt_view(home)),
{
    let mut preferred: Vec<String> = Vec::new();
    match cwd {
        Some(c) => {
            let p1 = join_dir(c, "src-tauri/resources/pdfium");
            let p2 = join_dir(c, "src-tauri/resources");
            let p3 = join_dir(c, "resources/pdfium");
            let p4 = join_dir(c, "resources");
            preferred.push(p1);
            preferred.push(p2);
            preferred.push(p3);
            preferred.push(p4);
        },
        None => {},
    }
    proof {
        assert(preferred.deep_view() =~= preferred_dirs_spec(opt_view(cwd)));
    }
    let mut candidates: Vec<String> = Vec::new();
    match exe_dir {
        Some(d) => {
            candidates.push(d.to_owned());
            let dv = chars_of(d);
            match parent_dir(dv.as_slice()) {
                Some(p) => {
                    let ps = string_from_chars(p.as_slice());
                    candidates.push(ps);
                    match parent_dir(p.as_slice()) {
                        Some(pp) => {
                            let pps = string_from_chars(pp.as_slice());
                            candidates.push(pps);
                        },
                        None => {},
                    }
                },
                None => {},
            }
            let r1 = join_dir(d, "resources");
            let r2 = join_dir(d, "resources/pdfium");
            candidates.push(r1);
            candidates.push(r2);
            push_tree_dirs(&mut candidates, d);
            let anc1 = match parent_dir(dv.as_slice()) {
                Some(p) => string_from_chars(p.as_slice()),
                None => d.to_owned(),
            };
            push_tree_dirs(&mut candidates, anc1.as_str());
            let anc2v = chars_of(d);
            let anc2 = match parent_dir(anc2v.as_slice()) {
                Some(p) => match parent_dir(p.as_slice()) {
                    Some(pp) => string_from_chars(pp.as_slice()),
                    None => d.to_owned(),
                },
                None => d.to_owned(),
            };
            push_tree_dirs(&mut candidates, anc2.as_str());
            proof {
                assert(anc1@ == parent_or_self(d@));
                assert(anc2@ == grandparent_or_self(d@));
            }
        },
        None => {},
    }
    let ghost after_exe = candidates.deep_view();
    proof {
        assert(after_exe =~= (match opt_view(exe_dir) {
            None => Seq::<Seq<char>>::empty(),
            Some(d) => seq![d] + (if has_sep(d) {
                seq![parent_spec(d)] + (if has_sep(parent_spec(d)) {
                    seq![parent_spec(parent_spec(d))]
                } else {
                    Seq::<Seq<char>>::empty()
                })
            } else {
                Seq::<Seq<char>>::empty()
            }) + seq![join_spec(d, "resources"@), join_spec(d, "resources/pdfium"@)] + tree_dirs(d)
                + tree_dirs(parent_or_self(d)) + tree_dirs(grandparent_or_self(d)),
        }));
    }
    match cwd {
        Some(c) => {
            candidates.push(c.to_owned());
            let c1 = join_dir(c, "resources");
            let c2 = join_dir(c, "resources/pdfium");
            let c3 = join_dir(c, "src-tauri/resources");
            let c4 = join_dir(c, "src-tauri/resources/pdfium");
            candidates.push(c1);
            candidates.push(c2);
            candidates.push(c3);
            candidates.push(c4);
        },
        None => {},
    }
    if windows {
        candidates.push(String::from_str("C:\\Program Files\\PDFium"));
        candidates.push(String::from_str("C:\\Program Files (x86)\\PDFium"));
    }
    match home {
        Some(h) => {
            let hp = join_dir(h, ".pdfium");
            candidates.push(hp);
        },
        None => {},
    }
    proof {
        assert(candidates.deep_view() =~= candidate_dirs_spec(
            opt_view(exe_dir),
            opt_view(cwd),
            windows,
            opt_view(home),
        ));
    }
    (preferred, candidates)
}

} // verus!
