//! The inverted-index lifecycle: a session over a `tantivy` index with a
//! single writer, the full-rebuild and incremental write paths, and query
//! execution.
//!
//! A session's state is modeled by two quantities: the multiset of rows a
//! fresh reader sees (the committed rows) and the ordered list of pending
//! operations queued on the writer. Adds and deletes queue operations;
//! committing folds the pending operations into the committed rows in queue
//! order, which is how the engine orders document adds against term deletes.
use vstd::prelude::*;
use vstd::multiset::Multiset;
use tantivy::collector::TopDocs;
use tantivy::query::{BooleanQuery, Occur, Query, QueryParser, TermQuery};
use tantivy::Term;
use tantivy::schema::{IndexRecordOption, Value};
use crate::snippet::{make_snippet, make_snippets, make_snippet_spec, make_snippets_spec};

verus! {

broadcast use vstd::multiset::group_multiset_axioms;

#[verifier::external_type_specification]
#[verifier::external_body]
pub struct ExIndex(tantivy::Index);

#[verifier::external_type_specification]
#[verifier::external_body]
pub struct ExSchema(tantivy::schema::Schema);

#[verifier::external_type_specification]
#[verifier::external_body]
pub struct ExTantivyDocument(tantivy::TantivyDocument);

#[verifier::external_type_specification]
#[verifier::external_body]
pub struct ExBooleanQuery(BooleanQuery);

/// The mathematical content of one index row: title, path, page, section
/// and body.
pub type RowV = (Seq<char>, Seq<char>, Option<u64>, Option<Seq<char>>, Seq<char>);

/// One document row to be written to the index. The `path` is the document's
/// identity: it is indexed untokenized, so deletion by path removes exactly
/// the rows of one document.
pub struct IndexRow {
    pub title: String,
    pub path: String,
    pub page: Option<u64>,
    pub section: Option<String>,
    pub body: String,
}

/// The view of an optional string field.
pub open spec fn opt_str_view(s: Option<String>) -> Option<Seq<char>> {
    match s {
        Some(x) => Some(x@),
        None => None,
    }
}

/// The mathematical view of a row.
pub open spec fn row_view(r: IndexRow) -> RowV {
    (r.title@, r.path@, r.page, opt_str_view(r.section), r.body@)
}

/// Whether a path fits in one indexed term: the engine drops tokens longer
/// than 65530 bytes, which would leave a row unreachable by delete-by-path
/// and by exact path queries.
pub open spec fn path_term_fits(p: Seq<char>) -> bool {
    vstd::utf8::encode_utf8(p).len() <= 65530
}

/// The row a delete-by-path operation carries: only its path matters.
pub open spec fn del_row(p: Seq<char>) -> RowV {
    (Seq::empty(), p, None, None, Seq::empty())
}

/// A stored document retrieved by a query.
pub struct SearchHit {
    pub title: String,
    pub path: String,
    pub page: Option<u64>,
    pub section: Option<String>,
    pub body: String,
}

/// An index session: the index, its schema fields and its single writer.
/// The index directory is its persisted state; a session is the one writer
/// over it.
#[verifier::external_body]
pub struct IndexSession {
    index: tantivy::Index,
    writer: tantivy::IndexWriter<tantivy::TantivyDocument>,
    title: tantivy::schema::Field,
    path: tantivy::schema::Field,
    page: tantivy::schema::Field,
    section: tantivy::schema::Field,
    body: tantivy::schema::Field,
}

/// The rows a fresh reader of the session's index sees, as it reads them
/// back: its committed contents, with an absent stored text field reading
/// as empty and an absent page or section as `None`.
pub uninterp spec fn session_rows(s: IndexSession) -> Multiset<RowV>;

/// The operations queued on the session's writer and not yet committed, in
/// queue order: `(true, row)` adds the row, `(false, row)` deletes every row
/// whose path equals the carried path.
pub uninterp spec fn session_pending(s: IndexSession) -> Seq<(bool, RowV)>;

/// One pending operation applied to the committed rows.
pub open spec fn apply_op(m: Multiset<RowV>, op: (bool, RowV)) -> Multiset<RowV> {
    if op.0 {
        m.insert(op.1)
    } else {
        m.filter(|r: RowV| r.1 != op.1.1)
    }
}

/// Pending operations applied in queue order.
pub open spec fn apply_ops(m: Multiset<RowV>, ops: Seq<(bool, RowV)>) -> Multiset<RowV>
    decreases ops.len(),
{
    if ops.len() == 0 {
        m
    } else {
        apply_ops(apply_op(m, ops.first()), ops.drop_first())
    }
}

/// Relies on `tantivy::Schema::get_field` and `Index::writer`: wires a
/// session up from an index carrying the fixed five-field schema.
#[verifier::external_body]
fn make_session(index: tantivy::Index) -> Result<IndexSession, String> {
    let schema = index.schema();
    let title = schema.get_field("title").map_err(|e| e.to_string())?;
    let path = schema.get_field("path").map_err(|e| e.to_string())?;
    let page = schema.get_field("page").map_err(|e| e.to_string())?;
    let section = schema.get_field("section").map_err(|e| e.to_string())?;
    let body = schema.get_field("body").map_err(|e| e.to_string())?;
    let writer = index.writer(128 * 1024 * 1024).map_err(|e| e.to_string())?;
    Ok(IndexSession { index, writer, title, path, page, section, body })
}

/// Relies on `tantivy::schema::SchemaBuilder`: the fixed schema — `title`
/// and `body` tokenized with positions and stored, `path` and `section`
/// untokenized and stored, `page` a stored indexed integer.
#[verifier::external_body]
fn build_schema() -> tantivy::schema::Schema {
    let mut sb = tantivy::schema::SchemaBuilder::default();
    let indexing = tantivy::schema::TextFieldIndexing::default().set_tokenizer(
        "default",
    ).set_index_option(tantivy::schema::IndexRecordOption::WithFreqsAndPositions);
    let opts = tantivy::schema::TextOptions::default().set_stored().set_indexing_options(indexing);
    sb.add_text_field("title", opts.clone());
    sb.add_text_field("path", tantivy::schema::STRING | tantivy::schema::STORED);
    sb.add_u64_field("page", tantivy::schema::STORED | tantivy::schema::INDEXED);
    sb.add_text_field("section", tantivy::schema::STRING | tantivy::schema::STORED);
    sb.add_text_field("body", opts);
    sb.build()
}

/// Relies on `tantivy::Index::create_in_dir` with the fixed five-field
/// schema, and on `Index::writer`: creating an index in a fresh directory
/// yields an empty index, and a new writer has nothing queued.
#[verifier::external_body]
pub fn create_session_in_dir(dir: &str) -> (r: Result<IndexSession, String>)
    ensures
        r matches Ok(s) ==> session_rows(s) == Multiset::<RowV>::empty() && session_pending(s)
            == Seq::<(bool, RowV)>::empty(),
{
    let index = tantivy::Index::create_in_dir(dir, build_schema()).map_err(|e| e.to_string())?;
    make_session(index)
}

/// Relies on `tantivy::Index::open_in_dir` and `Index::writer`: opening an
/// existing index directory leaves its committed rows as they are, with
/// nothing queued on the new writer.
#[verifier::external_body]
pub fn open_session_in_dir(dir: &str) -> (r: Result<IndexSession, String>)
    ensures
        r matches Ok(s) ==> session_pending(s) == Seq::<(bool, RowV)>::empty(),
{
    let index = tantivy::Index::open_in_dir(dir).map_err(|e| e.to_string())?;
    make_session(index)
}

/// Relies on `tantivy::Index::create_in_ram` and `Index::writer`: a fresh
/// in-memory index is empty and its writer has nothing queued.
#[verifier::external_body]
pub fn create_session_in_ram() -> (r: Result<IndexSession, String>)
    ensures
        r matches Ok(s) ==> session_rows(s) == Multiset::<RowV>::empty() && session_pending(s)
            == Seq::<(bool, RowV)>::empty(),
{
    let index = tantivy::Index::create_in_ram(build_schema());
    make_session(index)
}

/// Relies on `IndexWriter::add_document`: on success the document joins the
/// writer's queue after everything queued before it; on failure nothing was
/// queued. Committed rows are untouched either way. The path must fit in
/// one indexed term, else the engine would drop its token and the row could
/// never be matched by path again.
#[verifier::external_body]
fn session_add(s: &mut IndexSession, row: &IndexRow) -> (r: Result<(), String>)
    requires
        path_term_fits(row.path@),
    ensures
        session_rows(*final(s)) == session_rows(*old(s)),
        r is Ok ==> session_pending(*final(s)) == session_pending(*old(s)).push(
            (true, row_view(*row)),
        ),
        r is Err ==> session_pending(*final(s)) == session_pending(*old(s)),
{
    let mut doc = tantivy::TantivyDocument::new();
    doc.add_text(s.title, &row.title);
    doc.add_text(s.path, &row.path);
    if let Some(p) = row.page {
        doc.add_u64(s.page, p);
    }
    if let Some(sec) = &row.section {
        doc.add_text(s.section, sec);
    }
    doc.add_text(s.body, &row.body);
    s.writer.add_document(doc).map(|_| ()).map_err(|e| e.to_string())
}

/// Relies on `IndexWriter::delete_term` on the untokenized `path` field:
/// queues the deletion of every row of that exact path, after everything
/// queued before it. Committed rows are untouched until commit. The path
/// must fit in one indexed term for the match to be exact.
#[verifier::external_body]
fn session_delete_path(s: &mut IndexSession, path: &str)
    requires
        path_term_fits(path@),
    ensures
        session_rows(*final(s)) == session_rows(*old(s)),
        session_pending(*final(s)) == session_pending(*old(s)).push((false, del_row(path@))),
{
    let term = tantivy::Term::from_field_text(s.path, path);
    s.writer.delete_term(term);
}

/// Relies on `IndexWriter::commit`: on success the queued operations become
/// visible to fresh readers, applied in queue order (the engine orders adds
/// against deletes by their queueing stamps), and the queue empties.
#[verifier::external_body]
fn session_commit(s: &mut IndexSession) -> (r: Result<(), String>)
    ensures
        r is Ok ==> session_rows(*final(s)) == apply_ops(
            session_rows(*old(s)),
            session_pending(*old(s)),
        ) && session_pending(*final(s)) == Seq::<(bool, RowV)>::empty(),
{
    s.writer.commit().map(|_| ()).map_err(|e| e.to_string())
}

/// Whether the default query-parser grammar accepts `q` against this
/// crate's fixed schema. The schema and its tokenizers are constants of the
/// library, so parse success is a function of the query string alone.
pub uninterp spec fn query_parses(q: Seq<char>) -> bool;

/// The row view of a retrieved hit: its stored fields.
pub open spec fn hit_view(h: SearchHit) -> RowV {
    (h.title@, h.path@, h.page, opt_str_view(h.section), h.body@)
}

/// Relies on `tantivy`'s query parser, searcher and `TopDocs` collector:
/// parse success depends on the query string alone; at most `limit` stored
/// documents come back, ranked by the engine's relevance score over the
/// `title` and `body` fields; and each hit reads off a committed row of the
/// session's index.
#[verifier::external_body]
fn run_query(s: &IndexSession, query: &str, limit: usize) -> (r: Result<Vec<SearchHit>, String>)
    requires
        limit >= 1,
    ensures
        r matches Ok(h) ==> h@.len() <= limit,
        r is Ok ==> query_parses(query@),
        r matches Ok(h) ==> forall|i: int|
            0 <= i < h@.len() ==> session_rows(*s).count(hit_view(#[trigger] h@[i])) > 0,
{
    let searcher = s.index.reader().map_err(|e| e.to_string())?.searcher();
    let qp = QueryParser::for_index(&s.index, vec![s.title, s.body]);
    let q = qp.parse_query(query).map_err(|e| e.to_string())?;
    let collector = TopDocs::with_limit(limit).order_by_score();
    let top = searcher.search(&q, &collector).map_err(|e| e.to_string())?;
    let mut hits = Vec::new();
    for (_s, a) in top {
        hits.push(doc_to_hit(s, &searcher.doc(a).map_err(|e| e.to_string())?));
    }
    Ok(hits)
}

/// Relies on `tantivy::TantivyDocument::get_first`: copies the stored
/// fields of a retrieved document into a hit.
#[verifier::external_body]
fn doc_to_hit(s: &IndexSession, doc: &tantivy::TantivyDocument) -> SearchHit {
    SearchHit {
        title: doc.get_first(s.title).and_then(|v| v.as_str()).unwrap_or("").to_string(),
        path: doc.get_first(s.path).and_then(|v| v.as_str()).unwrap_or("").to_string(),
        page: doc.get_first(s.page).and_then(|v| v.as_u64()),
        section: doc.get_first(s.section).and_then(|v| v.as_str()).map(|x| x.to_string()),
        body: doc.get_first(s.body).and_then(|v| v.as_str()).unwrap_or("").to_string(),
    }
}

/// Relies on `tantivy`'s boolean query, searcher and `TopDocs` collector:
/// an exact term match on the untokenized `path` field conjoined with the
/// parsed free-text query on `body`; at most `limit` stored page numbers
/// come back, each read off a committed row of that exact path.
#[verifier::external_body]
fn run_page_query(s: &IndexSession, path: &str, query: &str, limit: usize) -> (r: Result<
    Vec<u64>,
    String,
>)
    requires
        limit >= 1,
    ensures
        r matches Ok(p) ==> p@.len() <= limit,
        r is Ok ==> query_parses(query@),
        r matches Ok(p) ==> forall|i: int|
            0 <= i < p@.len() ==> page_of_committed_row(*s, path@, #[trigger] p@[i]),
{
    let pq = TermQuery::new(Term::from_field_text(s.path, path), IndexRecordOption::Basic);
    let bq = QueryParser::for_index(&s.index, vec![s.body]).parse_query(query).map_err(|e| e.to_string())?;
    let q = BooleanQuery::new(vec![(Occur::Must, Box::new(pq) as Box<dyn Query>), (Occur::Must, bq)]);
    let mut pages = Vec::new();
    for d in search_top(s, &q, limit)? {
        if let Some(p) = d.get_first(s.page).and_then(|v| v.as_u64()) {
            pages.push(p);
        }
    }
    Ok(pages)
}

/// Relies on `tantivy`'s searcher and `TopDocs` collector: retrieves the
/// stored documents of at most `limit` top-ranked matches of the query.
#[verifier::external_body]
fn search_top(s: &IndexSession, q: &BooleanQuery, limit: usize) -> (r: Result<
    Vec<tantivy::TantivyDocument>,
    String,
>)
    requires
        limit >= 1,
    ensures
        r matches Ok(d) ==> d@.len() <= limit,
{
    let searcher = s.index.reader().map_err(|e| e.to_string())?.searcher();
    let top = searcher.search(q, &TopDocs::with_limit(limit).order_by_score()).map_err(|e| e.to_string())?;
    top.into_iter().map(|(_s, a)| searcher.doc(a).map_err(|e| e.to_string())).collect()
}

/// The add operations for a list of rows, in order.
pub open spec fn add_ops(rows: Seq<IndexRow>) -> Seq<(bool, RowV)> {
    rows.map_values(|r: IndexRow| (true, row_view(r)))
}

/// The delete operations for a list of paths, in order.
pub open spec fn del_ops(paths: Seq<String>) -> Seq<(bool, RowV)> {
    paths.map_values(|p: String| (false, del_row(p@)))
}

/// Queues one add per row, in order. On failure the queue holds the adds of
/// a prefix of the rows.
fn index_documents(s: &mut IndexSession, rows: &Vec<IndexRow>) -> (r: Result<(), String>)
    requires
        forall|i: int| 0 <= i < rows@.len() ==> path_term_fits((#[trigger] rows@[i]).path@),
    ensures
        session_rows(*final(s)) == session_rows(*old(s)),
        r is Ok ==> session_pending(*final(s)) == session_pending(*old(s)) + add_ops(rows@),
{
    let n: usize = rows.len();
    let mut i: usize = 0;
    proof {
        assert(session_pending(*s) =~= session_pending(*old(s)) + add_ops(rows@.take(0)));
    }
    while i < n
        invariant
            0 <= i <= n == rows@.len(),
            forall|j: int| 0 <= j < rows@.len() ==> path_term_fits((#[trigger] rows@[j]).path@),
            session_rows(*s) == session_rows(*old(s)),
            session_pending(*s) == session_pending(*old(s)) + add_ops(rows@.take(i as int)),
        decreases n - i,
    {
        session_add(s, &rows[i])?;
        proof {
            assert(add_ops(rows@.take(i + 1)) =~= add_ops(rows@.take(i as int)).push(
                (true, row_view(rows@[i as int])),
            ));
            assert(session_pending(*s) =~= session_pending(*old(s)) + add_ops(rows@.take(i + 1)));
        }
        i = i + 1;
    }
    proof {
        assert(rows@.take(n as int) =~= rows@);
    }
    Ok(())
}

/// Queues one delete per path, in order.
fn delete_paths(s: &mut IndexSession, paths: &Vec<String>)
    requires
        forall|i: int| 0 <= i < paths@.len() ==> path_term_fits((#[trigger] paths@[i])@),
    ensures
        session_rows(*final(s)) == session_rows(*old(s)),
        session_pending(*final(s)) == session_pending(*old(s)) + del_ops(paths@),
{
    let n: usize = paths.len();
    let mut i: usize = 0;
    proof {
        assert(session_pending(*s) =~= session_pending(*old(s)) + del_ops(paths@.take(0)));
    }
    while i < n
        invariant
            0 <= i <= n == paths@.len(),
            forall|j: int| 0 <= j < paths@.len() ==> path_term_fits((#[trigger] paths@[j])@),
            session_rows(*s) == session_rows(*old(s)),
            session_pending(*s) == session_pending(*old(s)) + del_ops(paths@.take(i as int)),
        decreases n - i,
    {
        session_delete_path(s, paths[i].as_str());
        proof {
            assert(del_ops(paths@.take(i + 1)) =~= del_ops(paths@.take(i as int)).push(
                (false, del_row(paths@[i as int]@)),
            ));
            assert(session_pending(*s) =~= session_pending(*old(s)) + del_ops(paths@.take(i + 1)));
        }
        i = i + 1;
    }
    proof {
        assert(paths@.take(n as int) =~= paths@);
    }
}

/// The multiset of row views of a row list.
pub open spec fn rows_multiset(rows: Seq<IndexRow>) -> Multiset<RowV> {
    rows.map_values(|r: IndexRow| row_view(r)).to_multiset()
}

/// The rows of `m` whose path is none of `paths`.
pub open spec fn remove_paths(m: Multiset<RowV>, paths: Seq<Seq<char>>) -> Multiset<RowV> {
    m.filter(|r: RowV| !paths.contains(r.1))
}

/// Applying a concatenation of operation lists applies them in turn.
proof fn lemma_apply_ops_append(m: Multiset<RowV>, a: Seq<(bool, RowV)>, b: Seq<(bool, RowV)>)
    ensures
        apply_ops(m, a + b) == apply_ops(apply_ops(m, a), b),
    decreases a.len(),
{
    if a.len() == 0 {
        assert(a + b =~= b);
    } else {
        assert((a + b).first() == a.first());
        assert((a + b).drop_first() =~= a.drop_first() + b);
        lemma_apply_ops_append(apply_op(m, a.first()), a.drop_first(), b);
    }
}

/// A run of deletes removes exactly the rows whose path is among the
/// deleted ones.
proof fn lemma_apply_deletes(m: Multiset<RowV>, paths: Seq<String>)
    ensures
        apply_ops(m, del_ops(paths)) == remove_paths(
            m,
            paths.map_values(|p: String| p@),
        ),
    decreases paths.len(),
{
    broadcast use vstd::seq_lib::group_seq_properties;

    let views = paths.map_values(|p: String| p@);
    if paths.len() == 0 {
        assert(del_ops(paths).len() == 0);
        assert forall|r: RowV| #[trigger] remove_paths(m, views).count(r) == m.count(r) by {
            assert(!views.contains(r.1));
        }
        assert(apply_ops(m, del_ops(paths)) =~= remove_paths(m, views));
    } else {
        let p0 = paths.first();
        let rest = paths.drop_first();
        assert(del_ops(paths).first() == (false, del_row(p0@)));
        assert(del_ops(paths).drop_first() =~= del_ops(rest));
        let m1 = apply_op(m, (false, del_row(p0@)));
        lemma_apply_deletes(m1, rest);
        let rest_views = rest.map_values(|p: String| p@);
        assert forall|r: RowV| #[trigger] remove_paths(m1, rest_views).count(r) == remove_paths(
            m,
            views,
        ).count(r) by {
            assert(m1.count(r) == if r.1 != p0@ {
                m.count(r)
            } else {
                0
            });
            if views.contains(r.1) {
                let k = choose|k: int| 0 <= k < views.len() && views[k] == r.1;
                if k == 0 {
                    assert(r.1 == p0@);
                } else {
                    assert(rest_views[k - 1] == r.1);
                    assert(rest_views.contains(r.1));
                }
            } else {
                assert(r.1 != p0@) by {
                    assert(views[0] == p0@);
                }
                assert(!rest_views.contains(r.1)) by {
                    if rest_views.contains(r.1) {
                        let k = choose|k: int|
                            0 <= k < rest_views.len() && rest_views[k] == r.1;
                        assert(views[k + 1] == r.1);
                    }
                }
            }
        }
        assert(apply_ops(m, del_ops(paths)) =~= remove_paths(m, views));
    }
}

/// A run of adds inserts exactly the added rows.
proof fn lemma_apply_adds(m: Multiset<RowV>, rows: Seq<IndexRow>)
    ensures
        apply_ops(m, add_ops(rows)) == m.add(rows_multiset(rows)),
    decreases rows.len(),
{
    broadcast use vstd::seq_lib::group_to_multiset_ensures;

    let views = rows.map_values(|r: IndexRow| row_view(r));
    if rows.len() == 0 {
        views.to_multiset_ensures();
        assert(views.to_multiset().len() == 0);
        assert(apply_ops(m, add_ops(rows)) =~= m.add(rows_multiset(rows)));
    } else {
        assert(add_ops(rows).first() == (true, row_view(rows.first())));
        assert(add_ops(rows).drop_first() =~= add_ops(rows.drop_first()));
        lemma_apply_adds(m.insert(row_view(rows.first())), rows.drop_first());
        let tail_views = rows.drop_first().map_values(|r: IndexRow| row_view(r));
        let head = seq![row_view(rows.first())];
        assert(views =~= head + tail_views);
        vstd::seq_lib::lemma_multiset_commutative(head, tail_views);
        Seq::<RowV>::empty().to_multiset_ensures();
        assert(Seq::<RowV>::empty().to_multiset() =~= Multiset::<RowV>::empty());
        assert(head =~= Seq::<RowV>::empty().push(row_view(rows.first())));
        assert(head.to_multiset() =~= Multiset::<RowV>::empty().insert(row_view(rows.first())));
        assert(views.to_multiset() =~= head.to_multiset().add(tail_views.to_multiset()));
        assert(apply_ops(m, add_ops(rows)) =~= m.add(rows_multiset(rows)));
    }
}

/// Full rebuild: queues every row and commits. Run on a session over a
/// freshly created index directory, the committed rows afterwards are
/// exactly the given rows.
pub fn rebuild_index(s: &mut IndexSession, rows: &Vec<IndexRow>) -> (r: Result<(), String>)
    requires
        session_pending(*old(s)) == Seq::<(bool, RowV)>::empty(),
        forall|i: int| 0 <= i < rows@.len() ==> path_term_fits((#[trigger] rows@[i]).path@),
    ensures
        r is Ok ==> session_rows(*final(s)) == session_rows(*old(s)).add(rows_multiset(rows@))
            && session_pending(*final(s)) == Seq::<(bool, RowV)>::empty(),
{
    index_documents(s, rows)?;
    proof {
        assert(session_pending(*s) =~= add_ops(rows@));
    }
    session_commit(s)?;
    proof {
        lemma_apply_adds(session_rows(*old(s)), rows@);
    }
    Ok(())
}

/// Incremental update: deletes every row of the changed and deleted paths,
/// queues the freshly extracted rows, and commits. On success the committed
/// rows are the old ones minus every row whose path was changed or deleted,
/// plus the new rows.
pub fn incremental_update(
    s: &mut IndexSession,
    changed: &Vec<String>,
    deleted: &Vec<String>,
    rows: &Vec<IndexRow>,
) -> (r: Result<(), String>)
    requires
        session_pending(*old(s)) == Seq::<(bool, RowV)>::empty(),
        forall|i: int| 0 <= i < changed@.len() ==> path_term_fits((#[trigger] changed@[i])@),
        forall|i: int| 0 <= i < deleted@.len() ==> path_term_fits((#[trigger] deleted@[i])@),
        forall|i: int| 0 <= i < rows@.len() ==> path_term_fits((#[trigger] rows@[i]).path@),
    ensures
        r is Ok ==> session_rows(*final(s)) == remove_paths(
            session_rows(*old(s)),
            deleted@.map_values(|p: String| p@) + changed@.map_values(|p: String| p@),
        ).add(rows_multiset(rows@)) && session_pending(*final(s)) == Seq::<(bool, RowV)>::empty(),
{
    delete_paths(s, deleted);
    delete_paths(s, changed);
    index_documents(s, rows)?;
    proof {
        assert(session_pending(*s) =~= (del_ops(deleted@) + del_ops(changed@)) + add_ops(rows@));
    }
    session_commit(s)?;
    proof {
        let base = session_rows(*old(s));
        let dels = del_ops(deleted@) + del_ops(changed@);
        lemma_apply_ops_append(base, dels, add_ops(rows@));
        lemma_apply_ops_append(base, del_ops(deleted@), del_ops(changed@));
        lemma_apply_deletes(base, deleted@);
        lemma_apply_deletes(remove_paths(base, deleted@.map_values(|p: String| p@)), changed@);
        lemma_apply_adds(apply_ops(base, dels), rows@);
        assert(remove_paths(
            remove_paths(base, deleted@.map_values(|p: String| p@)),
            changed@.map_values(|p: String| p@),
        ) =~= remove_paths(
            base,
            deleted@.map_values(|p: String| p@) + changed@.map_values(|p: String| p@),
        )) by {
            broadcast use vstd::seq_lib::group_seq_properties;

        }
    }
    Ok(())
}

/// Incremental consistency: after an update for the given changed and
/// deleted paths, a deleted path contributes no rows, a changed path's rows
/// are exactly its freshly extracted ones, and any other path's rows are
/// exactly what they were before — provided the fresh rows belong to changed
/// paths only, as extraction of the changed files guarantees.
pub proof fn lemma_incremental_consistency(
    base: Multiset<RowV>,
    changed: Seq<Seq<char>>,
    deleted: Seq<Seq<char>>,
    fresh_rows: Multiset<RowV>,
    p: Seq<char>,
)
    requires
        forall|r: RowV| fresh_rows.count(r) > 0 ==> changed.contains(#[trigger] r.1),
    ensures
        deleted.contains(p) && !changed.contains(p) ==> rows_with_path(
            remove_paths(base, deleted + changed).add(fresh_rows),
            p,
        ) == Multiset::<RowV>::empty(),
        changed.contains(p) ==> rows_with_path(
            remove_paths(base, deleted + changed).add(fresh_rows),
            p,
        ) == rows_with_path(fresh_rows, p),
        !deleted.contains(p) && !changed.contains(p) ==> rows_with_path(
            remove_paths(base, deleted + changed).add(fresh_rows),
            p,
        ) == rows_with_path(base, p),
{
    broadcast use vstd::seq_lib::group_seq_properties;

    let all = deleted + changed;
    let m = remove_paths(base, all).add(fresh_rows);
    if deleted.contains(p) && !changed.contains(p) {
        assert forall|r: RowV| #[trigger] rows_with_path(m, p).count(r) == 0 by {
            if r.1 == p {
                assert(all.contains(p));
                assert(fresh_rows.count(r) == 0);
            }
        }
        assert(rows_with_path(m, p) =~= Multiset::<RowV>::empty());
    }
    if changed.contains(p) {
        assert forall|r: RowV| #[trigger] rows_with_path(m, p).count(r) == rows_with_path(
            fresh_rows,
            p,
        ).count(r) by {
            if r.1 == p {
                assert(all.contains(p));
            }
        }
        assert(rows_with_path(m, p) =~= rows_with_path(fresh_rows, p));
    }
    if !deleted.contains(p) && !changed.contains(p) {
        assert forall|r: RowV| #[trigger] rows_with_path(m, p).count(r) == rows_with_path(
            base,
            p,
        ).count(r) by {
            if r.1 == p {
                assert(!all.contains(p)) by {
                    if all.contains(p) {
                        let k = choose|k: int| 0 <= k < all.len() && all[k] == p;
                        if k < deleted.len() {
                            assert(deleted[k] == p);
                        } else {
                            assert(changed[k - deleted.len()] == p);
                        }
                    }
                }
                assert(fresh_rows.count(r) == 0);
            }
        }
        assert(rows_with_path(m, p) =~= rows_with_path(base, p));
    }
}

/// The rows of `m` whose path is `p`.
pub open spec fn rows_with_path(m: Multiset<RowV>, p: Seq<char>) -> Multiset<RowV> {
    m.filter(|r: RowV| r.1 == p)
}

/// One ranked result row: a hit's stored fields with one snippet. A single
/// document contributes one row per matching paragraph.
pub struct ResultRow {
    pub title: String,
    pub path: String,
    pub page: Option<u64>,
    pub section: Option<String>,
    pub snippet: String,
    /// Which hit (by rank) this row came from.
    pub hit: usize,
}

/// The snippets a hit contributes: its per-paragraph snippets, or one
/// centered snippet when no paragraph split matches, or nothing.
pub open spec fn hit_snippets(body: Seq<char>, q: Seq<char>) -> Seq<Seq<char>> {
    let many = make_snippets_spec(body, q, 400);
    if many.len() > 0 {
        many
    } else {
        let one = make_snippet_spec(body, q, 400);
        if one.len() > 0 {
            seq![one]
        } else {
            Seq::empty()
        }
    }
}

/// The view of one result row.
pub type ResultRowV = (Seq<char>, Seq<char>, Option<u64>, Option<Seq<char>>, Seq<char>, int);

/// The mathematical view of a result row.
pub open spec fn result_row_view(r: ResultRow) -> ResultRowV {
    (r.title@, r.path@, r.page, opt_str_view(r.section), r.snippet@, r.hit as int)
}

/// The rows one hit contributes: one per snippet, tagged with the hit's
/// rank.
pub open spec fn hit_block(h: SearchHit, q: Seq<char>, i: int) -> Seq<ResultRowV> {
    hit_snippets(h.body@, q).map_values(
        |sn: Seq<char>| (h.title@, h.path@, h.page, opt_str_view(h.section), sn, i),
    )
}

/// The uncut row list of the ranked hits from rank `i` on: each hit's block
/// of snippet rows, in hit order.
pub open spec fn rows_from(hits: Seq<SearchHit>, q: Seq<char>, i: int) -> Seq<ResultRowV>
    decreases hits.len() - i,
        when 0 <= i <= hits.len()
{
    if i >= hits.len() {
        Seq::empty()
    } else {
        hit_block(hits[i], q, i) + rows_from(hits, q, i + 1)
    }
}

/// Builds the result rows for the ranked hits: each hit contributes one row
/// per snippet, in hit order, cut off at `limit` rows in all — exactly the
/// length-`limit` prefix of the uncut row list.
pub fn collect_result_rows(hits: &Vec<SearchHit>, q: &str, limit: usize) -> (r: Vec<ResultRow>)
    ensures
        r@.len() <= limit,
        r@.len() == (if (limit as int) <= rows_from(hits@, q@, 0).len() {
            limit as int
        } else {
            rows_from(hits@, q@, 0).len() as int
        }),
        forall|k: int|
            0 <= k < r@.len() ==> result_row_view(#[trigger] r@[k]) == rows_from(hits@, q@, 0)[k],
        forall|k: int|
            0 <= k < r@.len() ==> {
                let row = #[trigger] r@[k];
                &&& row.hit < hits@.len()
                &&& row.title@ == hits@[row.hit as int].title@
                &&& row.path@ == hits@[row.hit as int].path@
                &&& row.page == hits@[row.hit as int].page
                &&& hit_snippets(hits@[row.hit as int].body@, q@).contains(row.snippet@)
            },
{
    let ghost full = rows_from(hits@, q@, 0);
    let n: usize = hits.len();
    let mut r: Vec<ResultRow> = Vec::new();
    let mut i: usize = 0;
    proof {
        assert(full.skip(0) =~= full);
    }
    while i < n
        invariant
            0 <= i <= n == hits@.len(),
            full == rows_from(hits@, q@, 0),
            r@.len() <= limit,
            r@.len() <= full.len(),
            rows_from(hits@, q@, i as int) == full.skip(r@.len() as int),
            forall|k: int|
                0 <= k < r@.len() ==> result_row_view(#[trigger] r@[k]) == full[k],
            forall|k: int|
                0 <= k < r@.len() ==> {
                    let row = #[trigger] r@[k];
                    &&& row.hit < hits@.len()
                    &&& row.title@ == hits@[row.hit as int].title@
                    &&& row.path@ == hits@[row.hit as int].path@
                    &&& row.page == hits@[row.hit as int].page
                    &&& hit_snippets(hits@[row.hit as int].body@, q@).contains(row.snippet@)
                },
        decreases n - i,
    {
        let hit = &hits[i];
        let mut snippets = make_snippets(hit.body.as_str(), q, 400);
        if snippets.len() == 0 {
            let one = make_snippet(hit.body.as_str(), q, 400);
            if !one.as_str().is_empty() {
                snippets.push(one);
            }
        }
        let ghost block = hit_block(hits@[i as int], q@, i as int);
        let ghost base = r@.len() as int;
        proof {
            assert(snippets@.len() == hit_snippets(hits@[i as int].body@, q@).len());
            assert forall|k: int| 0 <= k < snippets@.len() implies hit_snippets(
                hits@[i as int].body@,
                q@,
            ).contains(#[trigger] snippets@[k]@) by {
                assert(hit_snippets(hits@[i as int].body@, q@)[k] == snippets@[k]@);
            }
            assert(rows_from(hits@, q@, i as int) == block + rows_from(hits@, q@, i + 1));
            assert(block.len() == snippets@.len());
        }
        let m: usize = snippets.len();
        let mut k: usize = 0;
        while k < m
            invariant
                0 <= k <= m == snippets@.len(),
                0 <= i < n == hits@.len(),
                full == rows_from(hits@, q@, 0),
                hit == hits@[i as int],
                block == hit_block(hits@[i as int], q@, i as int),
                block.len() == m,
                0 <= base <= full.len(),
                base + block.len() <= full.len(),
                r@.len() == base + k,
                r@.len() <= limit,
                full.skip(base) == block + rows_from(hits@, q@, i + 1),
                forall|j: int| 0 <= j < m ==> hit_snippets(hits@[i as int].body@, q@).contains(
                    #[trigger] snippets@[j]@,
                ),
                forall|j: int| 0 <= j < m ==> #[trigger] snippets@[j]@ == hit_snippets(
                    hits@[i as int].body@,
                    q@,
                )[j],
                forall|j: int|
                    0 <= j < r@.len() ==> result_row_view(#[trigger] r@[j]) == full[j],
                forall|j: int|
                    0 <= j < r@.len() ==> {
                        let row = #[trigger] r@[j];
                        &&& row.hit < hits@.len()
                        &&& row.title@ == hits@[row.hit as int].title@
                        &&& row.path@ == hits@[row.hit as int].path@
                        &&& row.page == hits@[row.hit as int].page
                        &&& hit_snippets(hits@[row.hit as int].body@, q@).contains(row.snippet@)
                    },
            decreases m - k,
        {
            proof {
                assert(base + k <= full.len()) by {
                    assert(full.skip(base).len() == full.len() - base);
                }
            }
            if r.len() >= limit {
                proof {
                    assert(r@.len() == limit);
                }
                return r;
            }
            let row = ResultRow {
                title: hit.title.clone(),
                path: hit.path.clone(),
                page: hit.page,
                section: match &hit.section {
                    Some(sec) => Some(sec.clone()),
                    None => None,
                },
                snippet: snippets[k].clone(),
                hit: i,
            };
            r.push(row);
            proof {
                let h = hits@[i as int];
                assert(block[k as int] == (
                    h.title@,
                    h.path@,
                    h.page,
                    opt_str_view(h.section),
                    hit_snippets(h.body@, q@)[k as int],
                    i as int,
                ));
                assert(full[base + k] == full.skip(base)[k as int]);
                assert(full.skip(base)[k as int] == block[k as int]);
                assert(result_row_view(r@[base + k]) == full[base + k]);
            }
            k = k + 1;
        }
        proof {
            assert(full.skip(base + m) =~= rows_from(hits@, q@, i + 1)) by {
                assert forall|j: int| 0 <= j < full.skip(base).len() - m implies #[trigger] full.skip(
                    base + m,
                )[j] == rows_from(hits@, q@, i + 1)[j] by {
                    assert(full.skip(base + m)[j] == full.skip(base)[m + j]);
                    assert(full.skip(base)[m + j] == rows_from(hits@, q@, i + 1)[j]);
                }
            }
        }
        i = i + 1;
    }
    proof {
        assert(rows_from(hits@, q@, n as int) =~= Seq::<ResultRowV>::empty());
        assert(full.skip(r@.len() as int).len() == 0);
    }
    r
}

/// Runs a free-text query over the `title` and `body` fields and returns up
/// to `limit` ranked snippet rows. A query the grammar rejects is surfaced
/// as `Err`; every returned row reads off a committed row of the index,
/// with a snippet that row's body yields for the query. A zero limit asks
/// for nothing and gets an empty result without touching the engine.
pub fn search_index(s: &IndexSession, q: &str, limit: usize) -> (r: Result<Vec<ResultRow>, String>)
    ensures
        r matches Ok(rows) ==> rows@.len() <= limit,
        limit >= 1 && r is Ok ==> query_parses(q@),
        r matches Ok(rows) ==> forall|k: int|
            0 <= k < rows@.len() ==> exists|row: RowV|
                session_rows(*s).count(row) > 0 && (#[trigger] rows@[k]).title@ == row.0
                    && rows@[k].path@ == row.1 && rows@[k].page == row.2 && hit_snippets(
                    row.4,
                    q@,
                ).contains(rows@[k].snippet@),
{
    if limit == 0 {
        return Ok(Vec::new());
    }
    let hits = run_query(s, q, limit)?;
    let rows = collect_result_rows(&hits, q, limit);
    proof {
        assert forall|k: int| 0 <= k < rows@.len() implies exists|row: RowV|
            session_rows(*s).count(row) > 0 && (#[trigger] rows@[k]).title@ == row.0
                && rows@[k].path@ == row.1 && rows@[k].page == row.2 && hit_snippets(
                row.4,
                q@,
            ).contains(rows@[k].snippet@) by {
            let i = rows@[k].hit as int;
            let w = hit_view(hits@[i]);
            assert(session_rows(*s).count(w) > 0);
            assert(rows@[k].title@ == w.0 && rows@[k].path@ == w.1 && rows@[k].page == w.2
                && hit_snippets(w.4, q@).contains(rows@[k].snippet@));
        }
    }
    Ok(rows)
}

/// Whether `v` is strictly ascending.
pub open spec fn strictly_ascending(v: Seq<u64>) -> bool {
    forall|a: int, b: int| 0 <= a < b < v.len() ==> v[a] < v[b]
}

/// Inserts the values of `v` into ascending order, dropping duplicates.
pub fn sorted_distinct(v: &Vec<u64>) -> (r: Vec<u64>)
    ensures
        strictly_ascending(r@),
        forall|x: u64| r@.contains(x) <==> v@.contains(x),
{
    broadcast use vstd::seq_lib::group_seq_properties;

    let n: usize = v.len();
    let mut r: Vec<u64> = Vec::new();
    let mut i: usize = 0;
    proof {
        assert(v@.take(0) =~= Seq::<u64>::empty());
    }
    while i < n
        invariant
            0 <= i <= n == v@.len(),
            strictly_ascending(r@),
            forall|x: u64| r@.contains(x) <==> v@.take(i as int).contains(x),
        decreases n - i,
    {
        let x = v[i];
        let ghost r0 = r@;
        // find the insertion point
        let mut k: usize = 0;
        while k < r.len() && r[k] < x
            invariant
                0 <= k <= r@.len(),
                forall|j: int| 0 <= j < k ==> r@[j] < x,
                r@ == r0,
            decreases r@.len() - k,
        {
            k = k + 1;
        }
        let present = k < r.len() && r[k] == x;
        if !present {
            r.insert(k, x);
            proof {
                r0.insert_ensures(k as int, x);
                assert forall|a: int, b: int| 0 <= a < b < r@.len() implies r@[a] < r@[b] by {
                    if (k as int) < r0.len() {
                        assert(r0[k as int] > x);
                    }
                    assert(forall|j: int| k < j < r0.len() ==> r0[k as int] < #[trigger] r0[j]);
                    if a < k && b < k {
                    } else if a == k {
                        assert(r@[b] == r0[b - 1] && r0[b - 1] >= r0[k as int]);
                    } else if b == k {
                        assert(r@[a] == r0[a] && r0[a] < x);
                    } else if a < k && b > k {
                        assert(r@[a] == r0[a] && r@[b] == r0[b - 1] && r0[a] < x);
                        assert(r0[b - 1] >= r0[k as int]);
                    } else {
                        assert(r@[a] == r0[a - 1] && r@[b] == r0[b - 1]);
                    }
                }
                assert forall|y: u64| r@.contains(y) <==> (r0.contains(y) || y == x) by {
                    if r@.contains(y) {
                        let j = choose|j: int| 0 <= j < r@.len() && r@[j] == y;
                        if j < k {
                            assert(r0[j] == y);
                        } else if j == k {
                        } else {
                            assert(r0[j - 1] == y);
                        }
                    }
                    if r0.contains(y) {
                        let j = choose|j: int| 0 <= j < r0.len() && r0[j] == y;
                        if j < k {
                            assert(r@[j] == y);
                        } else {
                            assert(r@[j + 1] == y);
                        }
                    }
                    if y == x {
                        assert(r@[k as int] == y);
                    }
                }
            }
        } else {
            proof {
                assert(r@[k as int] == x);
                assert(r@.contains(x));
            }
        }
        proof {
            assert(v@.take(i + 1) =~= v@.take(i as int).push(x));
            assert forall|y: u64| r@.contains(y) <==> v@.take(i + 1).contains(y) by {
                assert(r0.contains(y) <==> v@.take(i as int).contains(y));
                assert(r@.contains(y) <==> (r0.contains(y) || y == x)) by {
                    if present {
                        if y == x {
                            assert(r0.contains(y));
                        }
                    } else {
                        assert(r@.contains(y) <==> (r0.contains(y) || y == x));
                    }
                }
                if v@.take(i + 1).contains(y) {
                    let j = choose|j: int| 0 <= j < i + 1 && #[trigger] v@.take(i + 1)[j] == y;
                    if j < i {
                        assert(v@.take(i as int)[j] == y);
                        assert(v@.take(i as int).contains(y));
                    } else {
                        assert(y == x);
                    }
                }
                if v@.take(i as int).contains(y) {
                    let j = choose|j: int| 0 <= j < i && #[trigger] v@.take(i as int)[j] == y;
                    assert(v@.take(i + 1)[j] == y);
                    assert(v@.take(i + 1).contains(y));
                }
                if y == x {
                    assert(v@.take(i + 1)[i as int] == y);
                    assert(v@.take(i + 1).contains(y));
                }
            }
        }
        i = i + 1;
    }
    proof {
        assert(v@.take(n as int) =~= v@);
    }
    r
}

/// Some committed row of the index carries this exact path and this stored
/// page number.
pub open spec fn page_of_committed_row(s: IndexSession, path: Seq<char>, page: u64) -> bool {
    exists|row: RowV| session_rows(s).count(row) > 0 && row.1 == path && row.2 == Some(page)
}

/// Returns the sorted distinct page numbers of the rows of one document
/// that match the free-text query: which pages of the document contain a
/// hit. A query the grammar rejects is surfaced as `Err`; every returned
/// number is the stored page of a committed row of that exact path. A zero
/// limit asks for nothing and gets an empty result without touching the
/// engine.
pub fn search_pages_for_document(s: &IndexSession, path: &str, q: &str, limit: usize) -> (r: Result<
    Vec<u64>,
    String,
>)
    ensures
        r matches Ok(pages) ==> strictly_ascending(pages@) && pages@.len() <= limit,
        limit >= 1 && r is Ok ==> query_parses(q@),
        r matches Ok(pages) ==> forall|k: int|
            0 <= k < pages@.len() ==> page_of_committed_row(*s, path@, #[trigger] pages@[k]),
{
    if limit == 0 {
        return Ok(Vec::new());
    }
    let raw = run_page_query(s, path, q, limit)?;
    let sorted = sorted_distinct(&raw);
    let ghost s0 = sorted@;
    proof {
        assert forall|k: int| 0 <= k < s0.len() implies page_of_committed_row(
            *s,
            path@,
            #[trigger] s0[k],
        ) by {
            assert(sorted@.contains(s0[k]));
            assert(raw@.contains(s0[k]));
            let i = choose|i: int| 0 <= i < raw@.len() && #[trigger] raw@[i] == s0[k];
            assert(0 <= i < raw@.len() && raw@[i] == s0[k]);
            assert(page_of_committed_row(*s, path@, raw@[i]));
        }
    }
    let mut out = sorted;
    if out.len() > limit {
        out.truncate(limit);
        proof {
            assert(out@ =~= s0.take(limit as int));
        }
    }
    proof {
        assert forall|k: int| 0 <= k < out@.len() implies page_of_committed_row(
            *s,
            path@,
            #[trigger] out@[k],
        ) by {
            assert(out@[k] == s0[k]);
        }
    }
    Ok(out)
}

} // verus!
