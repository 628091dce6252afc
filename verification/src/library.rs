//! Watched folders and bookmarks: the pure list operations behind the
//! library's persistence. The caller loads and stores the JSON files; the
//! rules for adding, filtering and removing entries live here.
use vstd::prelude::*;
use crate::text::str_eq;

verus! {

/// A saved location in a document.
#[derive(Clone, Debug)]
pub struct Bookmark {
    pub id: String,
    pub path: String,
    pub page: Option<u32>,
    pub section: Option<String>,
    pub note: Option<String>,
    pub created_at: String,
}

/// A target a viewer is asked to open.
pub struct OpenTarget {
    pub url: String,
    pub path: String,
    pub page: Option<u32>,
    pub section: Option<String>,
}

/// Whether some element of `s` reads `p`.
pub open spec fn contains_str(s: Seq<String>, p: Seq<char>) -> bool {
    exists|i: int| 0 <= i < s.len() && s[i]@ == p
}

/// Adds a folder to the watched list unless an equal path is already there.
pub fn add_watched_folder(folders: &mut Vec<String>, path: String)
    ensures
        contains_str(old(folders)@, path@) ==> final(folders)@ == old(folders)@,
        !contains_str(old(folders)@, path@) ==> final(folders)@ == old(folders)@.push(path),
{
    let n: usize = folders.len();
    let mut i: usize = 0;
    while i < n
        invariant
            0 <= i <= n == folders@.len(),
            folders@ == old(folders)@,
            forall|j: int| 0 <= j < i ==> folders@[j]@ != path@,
        decreases n - i,
    {
        if str_eq(folders[i].as_str(), path.as_str()) {
            return ;
        }
        i = i + 1;
    }
    proof {
        assert(!contains_str(folders@, path@));
    }
    folders.push(path);
}

/// The elements of `s` that do not read `p`.
pub open spec fn without_str(s: Seq<String>, p: Seq<char>) -> Seq<String>
    decreases s.len(),
{
    if s.len() == 0 {
        Seq::empty()
    } else {
        (if s.first()@ == p {
            Seq::<String>::empty()
        } else {
            seq![s.first()]
        }) + without_str(s.drop_first(), p)
    }
}

/// Removes every watched folder whose path reads `path`.
pub fn remove_watched_folder(folders: Vec<String>, path: &str) -> (r: Vec<String>)
    ensures
        r@ == without_str(folders@, path@),
{
    let ghost all = folders@;
    let mut rest = folders;
    let mut out: Vec<String> = Vec::new();
    proof {
        assert(all.skip(0) =~= all);
        assert(out@ + without_str(all.skip(0), path@) =~= without_str(all, path@));
    }
    while rest.len() > 0
        invariant
            rest@.len() <= all.len(),
            rest@ == all.skip(all.len() - rest@.len()),
            without_str(all, path@) == out@ + without_str(rest@, path@),
        decreases rest@.len(),
    {
        let ghost c = all.len() - rest@.len();
        let ghost o0 = out@;
        let e = rest.remove(0);
        proof {
            assert(e == all.skip(c)[0]);
            assert(e == all[c]);
            assert(rest@ =~= all.skip(c + 1));
            assert(all.skip(c).drop_first() =~= all.skip(c + 1));
        }
        if !str_eq(e.as_str(), path) {
            out.push(e);
            proof {
                assert(out@ =~= o0 + seq![all[c]]);
            }
        }
    }
    proof {
        assert(rest@ =~= Seq::<String>::empty());
        assert(out@ =~= without_str(all, path@));
    }
    out
}

/// Appends a bookmark to the list.
pub fn add_bookmark(list: &mut Vec<Bookmark>, b: Bookmark)
    ensures
        final(list)@ == old(list)@.push(b),
{
    list.push(b);
}

/// The bookmarks whose path reads `p`.
pub open spec fn bookmarks_at(s: Seq<Bookmark>, p: Seq<char>) -> Seq<Bookmark>
    decreases s.len(),
{
    if s.len() == 0 {
        Seq::empty()
    } else {
        (if s.first().path@ == p {
            seq![s.first()]
        } else {
            Seq::<Bookmark>::empty()
        }) + bookmarks_at(s.drop_first(), p)
    }
}

/// Keeps only the bookmarks at the given path when one is asked for.
pub fn list_bookmarks(list: Vec<Bookmark>, path: Option<&str>) -> (r: Vec<Bookmark>)
    ensures
        match path {
            Some(p) => r@ == bookmarks_at(list@, p@),
            None => r@ == list@,
        },
{
    let p = match path {
        Some(p) => p,
        None => {
            return list;
        },
    };
    let ghost all = list@;
    let mut rest = list;
    let mut out: Vec<Bookmark> = Vec::new();
    proof {
        assert(all.skip(0) =~= all);
        assert(out@ + bookmarks_at(all.skip(0), p@) =~= bookmarks_at(all, p@));
    }
    while rest.len() > 0
        invariant
            rest@.len() <= all.len(),
            rest@ == all.skip(all.len() - rest@.len()),
            bookmarks_at(all, p@) == out@ + bookmarks_at(rest@, p@),
        decreases rest@.len(),
    {
        let ghost c = all.len() - rest@.len();
        let ghost o0 = out@;
        let e = rest.remove(0);
        proof {
            assert(e == all.skip(c)[0]);
            assert(e == all[c]);
            assert(rest@ =~= all.skip(c + 1));
            assert(all.skip(c).drop_first() =~= all.skip(c + 1));
        }
        if str_eq(e.path.as_str(), p) {
            out.push(e);
            proof {
                assert(out@ =~= o0 + seq![all[c]]);
            }
        }
    }
    proof {
        assert(rest@ =~= Seq::<Bookmark>::empty());
        assert(out@ =~= bookmarks_at(all, p@));
    }
    out
}

/// The bookmarks whose identifier does not read `id`.
pub open spec fn without_bookmark(s: Seq<Bookmark>, id: Seq<char>) -> Seq<Bookmark>
    decreases s.len(),
{
    if s.len() == 0 {
        Seq::empty()
    } else {
        (if s.first().id@ == id {
            Seq::<Bookmark>::empty()
        } else {
            seq![s.first()]
        }) + without_bookmark(s.drop_first(), id)
    }
}

/// Removes every bookmark carrying the given identifier.
pub fn remove_bookmark(list: Vec<Bookmark>, id: &str) -> (r: Vec<Bookmark>)
    ensures
        r@ == without_bookmark(list@, id@),
{
    let ghost all = list@;
    let mut rest = list;
    let mut out: Vec<Bookmark> = Vec::new();
    proof {
        assert(all.skip(0) =~= all);
        assert(out@ + without_bookmark(all.skip(0), id@) =~= without_bookmark(all, id@));
    }
    while rest.len() > 0
        invariant
            rest@.len() <= all.len(),
            rest@ == all.skip(all.len() - rest@.len()),
            without_bookmark(all, id@) == out@ + without_bookmark(rest@, id@),
        decreases rest@.len(),
    {
        let ghost c = all.len() - rest@.len();
        let ghost o0 = out@;
        let e = rest.remove(0);
        proof {
            assert(e == all.skip(c)[0]);
            assert(e == all[c]);
            assert(rest@ =~= all.skip(c + 1));
            assert(all.skip(c).drop_first() =~= all.skip(c + 1));
        }
        if !str_eq(e.id.as_str(), id) {
            out.push(e);
            proof {
                assert(out@ =~= o0 + seq![all[c]]);
            }
        }
    }
    proof {
        assert(rest@ =~= Seq::<Bookmark>::empty());
        assert(out@ =~= without_bookmark(all, id@));
    }
    out
}

} // verus!
