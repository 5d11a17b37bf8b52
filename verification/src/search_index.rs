//! Full-text search over the articles, kept in an in-memory Tantivy index
//! with jieba word segmentation, rebuilt from scratch whenever the article
//! list changes.
//!
//! The index is modelled by the documents a reader of it sees: each
//! document is the sequence of its field values (path, title, content,
//! date). Rebuilding replaces them; searching queries the title and the
//! content fields separately, lists title hits first (without a snippet),
//! then content hits with a highlighted snippet, each article once.
//! Searching never touches the file system.

use vstd::prelude::*;
use vstd::multiset::Multiset;
use vstd::utf8::encode_utf8;
use tantivy::query::{BooleanQuery, Occur, Query, TermQuery};
use tantivy::schema::{Field, Schema, SchemaBuilder, Value};
use tantivy::snippet::SnippetGenerator;
use tantivy::{Index, IndexReader, IndexWriter, TantivyDocument, TantivyError, Term};
use crate::articles::{opt_view, Article};
use crate::text::{chars_of, trim, trim_bounds, utf8_lossy, utf8_lossy_of};

verus! {

broadcast use vstd::string::group_string_axioms;

#[verifier::external_type_specification]
#[verifier::external_body]
pub struct ExIndex(Index);

#[verifier::external_type_specification]
#[verifier::external_body]
pub struct ExIndexReader(IndexReader);

#[verifier::external_type_specification]
#[verifier::external_body]
pub struct ExSchema(Schema);

#[verifier::external_type_specification]
#[verifier::external_body]
pub struct ExSchemaBuilder(SchemaBuilder);

#[verifier::external_type_specification]
#[verifier::external_body]
pub struct ExTantivyDocument(TantivyDocument);

#[verifier::external_type_specification]
#[verifier::external_body]
pub struct ExTantivyError(TantivyError);

#[verifier::external_type_specification]
#[verifier::external_body]
pub struct ExBooleanQuery(BooleanQuery);

/// An open writer of the index. Held behind a type of this library:
/// `tantivy::IndexWriter<D: Document>` cannot be declared to Verus, whose
/// declaration of it would need the outside `Document` trait.
#[verifier::external_body]
pub struct IndexSession {
    writer: IndexWriter,
}

/// Name of the analyzer registered for the title and content fields.
pub const JIEBA_TOKENIZER: &'static str = "jieba";

/// A field of a schema: its name, and whether it is segmented by the
/// `jieba` analyzer (else it is indexed as one untokenized string). Every
/// field made here is a stored text field.
pub type FieldSpec = (Seq<char>, bool);

/// The names of the fields.
pub open spec fn field_names(fs: Seq<FieldSpec>) -> Seq<Seq<char>> {
    fs.map_values(|f: FieldSpec| f.0)
}

/// Tantivy's rule for field names (`is_valid_field_name`): not empty, not
/// starting with `-`.
pub open spec fn valid_field_name(n: Seq<char>) -> bool {
    n.len() > 0 && n[0] != '-'
}

/// The fields added to a schema builder, in order; a field's position is
/// its `Field` id.
pub uninterp spec fn builder_fields(b: SchemaBuilder) -> Seq<FieldSpec>;

/// The fields of a schema, in order.
pub uninterp spec fn schema_fields(s: Schema) -> Seq<FieldSpec>;

/// The fields of an index's schema, in order.
pub uninterp spec fn index_fields(i: Index) -> Seq<FieldSpec>;

/// The documents an index holds as of its last commit; each document is
/// the sequence of its field values, by field id.
pub uninterp spec fn index_docs(i: Index) -> Multiset<Seq<Seq<char>>>;

/// Identity of an index, shared by its clones, readers and writers.
pub uninterp spec fn index_id(i: Index) -> int;

/// The documents a searcher of this reader sees: the index as of the last
/// time the reader was opened or reloaded.
pub uninterp spec fn reader_docs(r: IndexReader) -> Multiset<Seq<Seq<char>>>;

/// The index a reader reads.
pub uninterp spec fn reader_index(r: IndexReader) -> int;

/// The fields of the index a reader reads.
pub uninterp spec fn reader_fields(r: IndexReader) -> Seq<FieldSpec>;

/// The documents a writer would commit: the committed ones, as changed by
/// what the writer did since.
pub uninterp spec fn session_docs(s: IndexSession) -> Multiset<Seq<Seq<char>>>;

/// The index a writer writes.
pub uninterp spec fn session_index(s: IndexSession) -> int;

/// The fields of the index a writer writes.
pub uninterp spec fn session_fields(s: IndexSession) -> Seq<FieldSpec>;

/// No document was added since the writer was opened or last committed.
pub uninterp spec fn session_clean(s: IndexSession) -> bool;

/// The field values of a document, by field id.
pub uninterp spec fn doc_values(d: TantivyDocument) -> Seq<Seq<char>>;

/// The field a query searches (by id).
pub uninterp spec fn query_field(q: BooleanQuery) -> u32;

/// The terms a query looks for, any of which may match.
pub uninterp spec fn query_term_list(q: BooleanQuery) -> Seq<Seq<char>>;

/// An integer that orders the documents as Tantivy's BM25 score of `doc`
/// does, for a query for any of `terms` in `field` over the documents
/// `docs` (the score depends on the term statistics of all of them).
pub uninterp spec fn bm25_relevance(docs: Multiset<Seq<Seq<char>>>, field: int, terms: Seq<Seq<char>>, doc: Seq<Seq<char>>) -> int;

/// A schema builder with no field (`Schema::builder`).
#[verifier::external_body]
fn schema_builder() -> (r: SchemaBuilder)
    ensures
        builder_fields(r) == Seq::<FieldSpec>::empty(),
{
    Schema::builder()
}

/// Adds a stored field indexed as one untokenized string
/// (`SchemaBuilder::add_text_field` with `STRING | STORED`), which panics
/// on an invalid or repeated name.
#[verifier::external_body]
fn add_keyword_field(builder: &mut SchemaBuilder, name: &str)
    requires
        valid_field_name(name@),
        !field_names(builder_fields(*old(builder))).contains(name@),
    ensures
        builder_fields(*final(builder)) == builder_fields(*old(builder)).push((name@, false)),
{
    builder.add_text_field(name, tantivy::schema::STRING | tantivy::schema::STORED);
}

/// Adds a stored field indexed with positions by the `jieba` analyzer
/// (`SchemaBuilder::add_text_field` with those `TextOptions`), which panics
/// on an invalid or repeated name.
#[verifier::external_body]
fn add_segmented_field(builder: &mut SchemaBuilder, name: &str)
    requires
        valid_field_name(name@),
        !field_names(builder_fields(*old(builder))).contains(name@),
    ensures
        builder_fields(*final(builder)) == builder_fields(*old(builder)).push((name@, true)),
{
    builder.add_text_field(
        name,
        tantivy::schema::TextOptions::default().set_indexing_options(
            tantivy::schema::TextFieldIndexing::default().set_index_option(
                tantivy::schema::IndexRecordOption::WithFreqsAndPositions,
            ).set_tokenizer(JIEBA_TOKENIZER),
        ).set_stored(),
    );
}

/// The schema built so far (`SchemaBuilder::build`).
#[verifier::external_body]
fn build_schema(builder: SchemaBuilder) -> (r: Schema)
    ensures
        schema_fields(r) == builder_fields(builder),
{
    builder.build()
}

/// An empty index held in memory (`Index::create_in_ram`).
#[verifier::external_body]
fn create_in_ram(schema: Schema) -> (r: Index)
    ensures
        index_fields(r) == schema_fields(schema),
        index_docs(r) == Multiset::<Seq<Seq<char>>>::empty(),
{
    Index::create_in_ram(schema)
}

/// Registers, under the name `jieba`, jieba segmentation in search mode
/// followed by lower-casing (`TokenizerManager::register` of a
/// `TextAnalyzer` built from `JiebaTokenizer::with_search_mode(true)` and
/// `LowerCaser`): the analyzer whose tokens `jieba_tokens_of` names.
#[verifier::external_body]
fn register_jieba(index: &Index) {
    index.tokenizers().register(
        JIEBA_TOKENIZER,
        tantivy::tokenizer::TextAnalyzer::builder(
            tantivy_jieba::JiebaTokenizer::with_search_mode(true),
        ).filter(tantivy::tokenizer::LowerCaser).build(),
    );
}

/// A reader of the index that changes only when reloaded
/// (`Index::reader_builder` with `ReloadPolicy::Manual`, `try_into`). It
/// sees the index as committed now.
#[verifier::external_body]
fn open_reader(index: &Index) -> (r: Result<IndexReader, TantivyError>)
    ensures
        r matches Ok(rd) ==> reader_docs(rd) == index_docs(*index) && reader_index(rd) == index_id(
            *index,
        ) && reader_fields(rd) == index_fields(*index),
{
    index.reader_builder().reload_policy(tantivy::ReloadPolicy::Manual).try_into()
}

/// Memory budget of the index writer, in bytes.
pub const WRITER_MEMORY_BUDGET: usize = 50_000_000;

/// A writer of the index with the given memory budget (`Index::writer`);
/// it starts from the committed documents.
#[verifier::external_body]
fn open_session(index: &Index, budget: usize) -> (r: Result<IndexSession, TantivyError>)
    ensures
        r matches Ok(s) ==> session_docs(s) == index_docs(*index) && session_index(s) == index_id(
            *index,
        ) && session_fields(s) == index_fields(*index) && session_clean(s),
{
    index.writer(budget).map(|writer| IndexSession { writer })
}

/// Deletes every document (`IndexWriter::delete_all_documents`, which
/// always succeeds); takes effect at the next commit.
#[verifier::external_body]
fn delete_all_documents(session: &mut IndexSession) -> (r: Result<u64, TantivyError>)
    requires
        session_clean(*old(session)),
    ensures
        r is Ok,
        session_docs(*final(session)) == Multiset::<Seq<Seq<char>>>::empty(),
        session_index(*final(session)) == session_index(*old(session)),
        session_fields(*final(session)) == session_fields(*old(session)),
        session_clean(*final(session)),
{
    session.writer.delete_all_documents()
}

/// Adds a document (`IndexWriter::add_document`); nothing is added when it
/// fails.
#[verifier::external_body]
fn add_document(session: &mut IndexSession, doc: TantivyDocument) -> (r: Result<u64, TantivyError>)
    requires
        doc_values(doc).len() == session_fields(*old(session)).len(),
    ensures
        r is Ok ==> session_docs(*final(session)) == session_docs(*old(session)).insert(
            doc_values(doc),
        ),
        r is Err ==> session_docs(*final(session)) == session_docs(*old(session)),
        session_index(*final(session)) == session_index(*old(session)),
        session_fields(*final(session)) == session_fields(*old(session)),
{
    session.writer.add_document(doc)
}

/// Commits what was written (`IndexWriter::commit`): on success the index
/// holds the writer's documents. `index` is the index the writer writes;
/// the call goes through the writer, and `index` only carries the change.
#[verifier::external_body]
fn commit(session: &mut IndexSession, index: &mut Index) -> (r: Result<u64, TantivyError>)
    requires
        session_index(*old(session)) == index_id(*old(index)),
    ensures
        r is Ok ==> index_docs(*final(index)) == session_docs(*old(session)),
        r is Ok ==> session_docs(*final(session)) == session_docs(*old(session)) && session_clean(
            *final(session),
        ),
        index_id(*final(index)) == index_id(*old(index)),
        index_fields(*final(index)) == index_fields(*old(index)),
        session_index(*final(session)) == session_index(*old(session)),
        session_fields(*final(session)) == session_fields(*old(session)),
{
    session.writer.commit()
}

/// Makes the reader see the index as last committed
/// (`IndexReader::reload`); on failure it keeps what it saw.
#[verifier::external_body]
fn reload(reader: &mut IndexReader, index: &Index) -> (r: Result<(), TantivyError>)
    requires
        reader_index(*old(reader)) == index_id(*index),
    ensures
        r is Ok ==> reader_docs(*final(reader)) == index_docs(*index),
        r is Err ==> reader_docs(*final(reader)) == reader_docs(*old(reader)),
        reader_index(*final(reader)) == reader_index(*old(reader)),
        reader_fields(*final(reader)) == reader_fields(*old(reader)),
{
    reader.reload()
}

/// An empty document (`TantivyDocument::default`).
#[verifier::external_body]
fn empty_document() -> (r: TantivyDocument)
    ensures
        doc_values(r) == Seq::<Seq<char>>::empty(),
{
    TantivyDocument::default()
}

/// Adds the value of the next field to a document
/// (`TantivyDocument::add_text` with the field of that id, which panics on
/// an id above `u16::MAX`).
#[verifier::external_body]
fn add_text(doc: &mut TantivyDocument, field: u32, text: &str)
    requires
        field == doc_values(*old(doc)).len(),
        field <= 65535,
    ensures
        doc_values(*final(doc)) == doc_values(*old(doc)).push(text@),
{
    doc.add_text(Field::from_field_id(field), text);
}

/// The stored value of the field with id `field`
/// (`TantivyDocument::get_first`).
#[verifier::external_body]
fn first_text(doc: &TantivyDocument, field: u32) -> (r: String)
    ensures
        field < doc_values(*doc).len() ==> r@ == doc_values(*doc)[field as int],
{
    doc.get_first(Field::from_field_id(field)).and_then(|v| v.as_str()).unwrap_or("").to_string()
}

/// A query for any of `terms` in the field with id `field`
/// (`BooleanQuery::new` of one `TermQuery` per term, with frequencies and
/// positions, each clause `Occur::Should`).
#[verifier::external_body]
fn any_term_query(field: u32, terms: &Vec<String>) -> (r: BooleanQuery)
    ensures
        query_field(r) == field,
        query_term_list(r) == views(terms@),
{
    BooleanQuery::new(
        terms.iter().map(
            |t| (
                Occur::Should,
                Box::new(
                    TermQuery::new(
                        Term::from_field_text(Field::from_field_id(field), t),
                        tantivy::schema::IndexRecordOption::WithFreqsAndPositions,
                    ),
                ) as Box<dyn Query>,
            ),
        ).collect(),
    )
}

/// Longest token Tantivy indexes, in bytes (`MAX_TOKEN_LEN`); longer
/// tokens are dropped when a document is indexed.
pub const MAX_TOKEN_BYTES: usize = 65530;

/// `d` holds one of `terms` among the `jieba` tokens of its field `field`,
/// a term short enough to be indexed.
pub open spec fn doc_matches(d: Seq<Seq<char>>, field: int, terms: Seq<Seq<char>>) -> bool {
    exists|k: int|
        0 <= k < terms.len() && encode_utf8(terms[k]).len() <= MAX_TOKEN_BYTES
            && #[trigger] jieba_tokens_of(d[field]).contains(terms[k])
}

/// The documents of `docs` that match any of `terms` in `field`.
pub open spec fn matching_docs(docs: Multiset<Seq<Seq<char>>>, field: int, terms: Seq<Seq<char>>) -> Multiset<
    Seq<Seq<char>>,
> {
    docs.filter(|d: Seq<Seq<char>>| doc_matches(d, field, terms))
}

/// `hits` are the best `limit` documents of `docs` for any of `terms` in
/// `field`, best first by `score`: as many as match, up to `limit`, each a
/// matching document (none more often than it is held), by non-increasing
/// score, and no matching document left out scores above the last hit.
pub open spec fn top_hits(
    docs: Multiset<Seq<Seq<char>>>,
    field: int,
    terms: Seq<Seq<char>>,
    limit: nat,
    hits: Seq<Seq<Seq<char>>>,
    score: spec_fn(Seq<Seq<char>>) -> int,
) -> bool {
    let m = matching_docs(docs, field, terms);
    &&& hits.len() == (if m.len() < limit {
        m.len()
    } else {
        limit
    })
    &&& hits.to_multiset().subset_of(m)
    &&& forall|a: int, b: int|
        0 <= a < b < hits.len() ==> score(#[trigger] hits[b]) <= score(#[trigger] hits[a])
    &&& forall|d: Seq<Seq<char>>|
        #![trigger m.count(d)]
        m.count(d) > hits.to_multiset().count(d) && hits.len() > 0 ==> score(d) <= score(hits.last())
}

/// The best `limit` documents for `query`, best first, with their stored
/// values; `None` when the search or a fetch fails (`Searcher::search`
/// with `TopDocs::with_limit(limit).order_by_score()`, which panics on a
/// limit of 0, then `Searcher::doc` of each address, from the same
/// searcher of `reader`). The field searched is segmented by `jieba`.
#[verifier::external_body]
fn field_hits(reader: &IndexReader, query: &BooleanQuery, limit: usize) -> (r: Option<
    Vec<TantivyDocument>,
>)
    requires
        limit >= 1,
        query_field(*query) < reader_fields(*reader).len(),
        reader_fields(*reader)[query_field(*query) as int].1,
    ensures
        r matches Some(v) ==> top_hits(
            reader_docs(*reader),
            query_field(*query) as int,
            query_term_list(*query),
            limit as nat,
            v@.map_values(|d: TantivyDocument| doc_values(d)),
            |d: Seq<Seq<char>>|
                bm25_relevance(
                    reader_docs(*reader),
                    query_field(*query) as int,
                    query_term_list(*query),
                    d,
                ),
        ),
{
    let searcher = reader.searcher();
    let top = searcher.search(query, &tantivy::collector::TopDocs::with_limit(limit).order_by_score()).ok()?;
    top.into_iter().map(|(_score, address)| searcher.doc::<TantivyDocument>(address).ok()).collect()
}

/// The highlighted snippet Tantivy makes of the text `text` of a field
/// `field` for a query for any of `terms`, over the documents `docs` (whose
/// term frequencies weigh the terms): fragments of at most `max_chars`
/// characters, HTML-escaped, each highlighted word between `prefix` and
/// `postfix`. A function of these arguments alone.
pub uninterp spec fn snippet_html_of(docs: Multiset<Seq<Seq<char>>>, field: int, terms: Seq<Seq<char>>, text: Seq<char>, max_chars: usize, prefix: Seq<char>, postfix: Seq<char>) -> Seq<char>;

/// The snippet of the field with id `field` of `doc` for `query`, over a
/// searcher of `reader` (`SnippetGenerator::create`, `set_max_num_chars`,
/// `snippet_from_doc`, `set_snippet_prefix_postfix`, `Snippet::to_html`).
/// Creating the generator looks the field up in the schema, which panics on
/// an unknown one, and may fail.
#[verifier::external_body]
fn content_snippet(
    reader: &IndexReader,
    query: &BooleanQuery,
    doc: &TantivyDocument,
    field: u32,
    max_chars: usize,
    prefix: &str,
    postfix: &str,
) -> (r: Result<String, TantivyError>)
    requires
        field < reader_fields(*reader).len(),
        query_field(*query) == field,
        field < doc_values(*doc).len(),
    ensures
        r matches Ok(s) ==> s@ == snippet_html_of(
            reader_docs(*reader),
            field as int,
            query_term_list(*query),
            doc_values(*doc)[field as int],
            max_chars,
            prefix@,
            postfix@,
        ),
{
    let mut generator = SnippetGenerator::create(&reader.searcher(), query, Field::from_field_id(field))?;
    generator.set_max_num_chars(max_chars);
    let mut snippet = generator.snippet_from_doc(doc);
    snippet.set_snippet_prefix_postfix(prefix, postfix);
    Ok(snippet.to_html())
}

/// An article as it is indexed.
pub struct IndexDocument {
    pub path: String,
    pub title: String,
    pub content: String,
    /// The date, empty when the article has none.
    pub date: String,
}

/// What an indexed document holds, as character sequences.
pub struct IndexDocumentView {
    pub path: Seq<char>,
    pub title: Seq<char>,
    pub content: Seq<char>,
    pub date: Seq<char>,
}

impl View for IndexDocument {
    type V = IndexDocumentView;

    open spec fn view(&self) -> IndexDocumentView {
        IndexDocumentView {
            path: self.path@,
            title: self.title@,
            content: self.content@,
            date: self.date@,
        }
    }
}

/// The optional bytes read for an article are indexed: they were read and
/// are at most `max_file_size` long.
pub open spec fn indexable(content: Option<Vec<u8>>, max_file_size: u64) -> bool {
    content matches Some(b) && b@.len() <= max_file_size
}

/// The document indexed for `a` with content bytes `b`.
pub open spec fn document_of(a: Article, b: Seq<u8>) -> IndexDocumentView {
    IndexDocumentView {
        path: a.path@,
        title: a.title@,
        content: utf8_lossy_of(b),
        date: match opt_view(a.date) {
            Some(d) => d,
            None => Seq::empty(),
        },
    }
}

/// The documents indexed for `arts`, whose files gave `contents`: those
/// that were read and are not too large, in order.
pub open spec fn documents_for(
    arts: Seq<Article>,
    contents: Seq<Option<Vec<u8>>>,
    max_file_size: u64,
) -> Seq<IndexDocumentView>
    decreases arts.len(),
{
    if arts.len() == 0 || contents.len() == 0 {
        Seq::empty()
    } else {
        let prev = documents_for(arts.drop_last(), contents.drop_last(), max_file_size);
        if indexable(contents.last(), max_file_size) {
            prev.push(document_of(arts.last(), contents.last()->0@))
        } else {
            prev
        }
    }
}

/// A read article that is not too large is indexed whole: among the
/// documents of a rebuild is one with its path, its title, the whole text
/// of its bytes (decoded lossily, every line kept) and its date (empty when
/// it has none).
pub proof fn law_read_articles_are_indexed_whole(
    arts: Seq<Article>,
    contents: Seq<Option<Vec<u8>>>,
    max_file_size: u64,
    i: int,
)
    requires
        arts.len() == contents.len(),
        0 <= i < arts.len(),
        contents[i] matches Some(b) && b@.len() <= max_file_size,
    ensures
        exists|j: int|
            0 <= j < documents_for(arts, contents, max_file_size).len() && #[trigger] documents_for(
                arts,
                contents,
                max_file_size,
            )[j] == (IndexDocumentView {
                path: arts[i].path@,
                title: arts[i].title@,
                content: utf8_lossy_of(contents[i]->0@),
                date: match arts[i].date {
                    Some(d) => d@,
                    None => Seq::empty(),
                },
            }),
    decreases arts.len(),
{
    let docs = documents_for(arts, contents, max_file_size);
    let prev = documents_for(arts.drop_last(), contents.drop_last(), max_file_size);
    if i == arts.len() - 1 {
        assert(indexable(contents.last(), max_file_size));
        assert(docs == prev.push(document_of(arts.last(), contents.last()->0@)));
        assert(docs[prev.len() as int] == document_of(arts[i], contents[i]->0@));
    } else {
        law_read_articles_are_indexed_whole(arts.drop_last(), contents.drop_last(), max_file_size, i);
        let j = choose|j: int|
            0 <= j < prev.len() && #[trigger] prev[j] == (IndexDocumentView {
                path: arts.drop_last()[i].path@,
                title: arts.drop_last()[i].title@,
                content: utf8_lossy_of(contents.drop_last()[i]->0@),
                date: match arts.drop_last()[i].date {
                    Some(d) => d@,
                    None => Seq::empty(),
                },
            });
        assert(docs[j] == prev[j]);
    }
}

/// Every indexed document is the document of a read article that is not
/// too large: its path, title and date, and the whole text of its bytes.
pub proof fn law_indexed_documents_come_from_read_articles(
    arts: Seq<Article>,
    contents: Seq<Option<Vec<u8>>>,
    max_file_size: u64,
    j: int,
)
    requires
        arts.len() == contents.len(),
        0 <= j < documents_for(arts, contents, max_file_size).len(),
    ensures
        exists|i: int|
            #![trigger contents[i]]
            0 <= i < arts.len() && (contents[i] matches Some(b) && b@.len() <= max_file_size
                && documents_for(arts, contents, max_file_size)[j] == (IndexDocumentView {
                path: arts[i].path@,
                title: arts[i].title@,
                content: utf8_lossy_of(b@),
                date: match arts[i].date {
                    Some(d) => d@,
                    None => Seq::empty(),
                },
            })),
    decreases arts.len(),
{
    let docs = documents_for(arts, contents, max_file_size);
    let prev = documents_for(arts.drop_last(), contents.drop_last(), max_file_size);
    let last = arts.len() - 1;
    if j < prev.len() {
        law_indexed_documents_come_from_read_articles(
            arts.drop_last(),
            contents.drop_last(),
            max_file_size,
            j,
        );
        let i = choose|i: int|
            #![trigger contents.drop_last()[i]]
            0 <= i < arts.drop_last().len() && (contents.drop_last()[i] matches Some(b) && b@.len()
                <= max_file_size && documents_for(
                arts.drop_last(),
                contents.drop_last(),
                max_file_size,
            )[j] == (IndexDocumentView {
                path: arts.drop_last()[i].path@,
                title: arts.drop_last()[i].title@,
                content: utf8_lossy_of(b@),
                date: match arts.drop_last()[i].date {
                    Some(d) => d@,
                    None => Seq::empty(),
                },
            }));
        assert(arts[i] == arts.drop_last()[i]);
        assert(contents[i] == contents.drop_last()[i]);
        assert(docs[j] == prev[j]);
    } else {
        assert(indexable(contents.last(), max_file_size));
        assert(docs[j] == document_of(arts[last], contents[last]->0@));
    }
}

/// The documents to index: for each article whose file was read
/// (`contents[i]` holds at most `max_file_size + 1` bytes of it), those not
/// longer than `max_file_size`, decoded lossily.
pub fn documents_to_index(
    articles: &Vec<Article>,
    contents: &Vec<Option<Vec<u8>>>,
    max_file_size: u64,
) -> (r: Vec<IndexDocument>)
    requires
        articles@.len() == contents@.len(),
    ensures
        r@.len() == documents_for(articles@, contents@, max_file_size).len(),
        forall|k: int|
            0 <= k < r@.len() ==> #[trigger] r@[k]@ == documents_for(
                articles@,
                contents@,
                max_file_size,
            )[k],
{
    let mut out: Vec<IndexDocument> = Vec::new();
    let mut i: usize = 0;
    while i < articles.len()
        invariant
            articles@.len() == contents@.len(),
            i <= articles@.len(),
            out@.len() == documents_for(
                articles@.subrange(0, i as int),
                contents@.subrange(0, i as int),
                max_file_size,
            ).len(),
            forall|k: int|
                0 <= k < out@.len() ==> #[trigger] out@[k]@ == documents_for(
                    articles@.subrange(0, i as int),
                    contents@.subrange(0, i as int),
                    max_file_size,
                )[k],
        decreases articles@.len() - i,
    {
        let ghost pa = articles@.subrange(0, i as int);
        let ghost pc = contents@.subrange(0, i as int);
        let ghost na = articles@.subrange(0, i + 1);
        let ghost nc = contents@.subrange(0, i + 1);
        assert(na.drop_last() =~= pa);
        assert(nc.drop_last() =~= pc);
        match &contents[i] {
            Some(bytes) => {
                if bytes.len() as u64 <= max_file_size {
                    let a = &articles[i];
                    let date = match &a.date {
                        Some(d) => d.clone(),
                        None => String::new(),
                    };
                    let doc = IndexDocument {
                        path: a.path.clone(),
                        title: a.title.clone(),
                        content: utf8_lossy(bytes),
                        date,
                    };
                    out.push(doc);
                }
            },
            None => {},
        }
        i = i + 1;
    }
    assert(articles@.subrange(0, i as int) =~= articles@);
    assert(contents@.subrange(0, i as int) =~= contents@);
    out
}

/// What went wrong while rebuilding the index.
#[derive(Debug)]
pub enum RebuildIssue {
    /// No writer could be opened; nothing changed.
    OpenWriter(TantivyError),
    /// The old documents could not be deleted; nothing changed.
    Clear(TantivyError),
    /// The article at this path could not be added; the others were.
    AddDocument(String, TantivyError),
    /// The commit failed; searches still see the old index.
    Commit(TantivyError),
    /// The reader could not be reloaded.
    Reload(TantivyError),
}
/// The tokens into which the `jieba` analyzer cuts `text`: jieba
/// segmentation in search mode over its built-in dictionary, then
/// lower-casing. A function of the text alone.
pub uninterp spec fn jieba_tokens_of(text: Seq<char>) -> Seq<Seq<char>>;

/// The texts of the tokens, in order, of `text` cut by an analyzer built
/// as the registered `jieba` one (`TextAnalyzer::token_stream` of
/// `JiebaTokenizer::with_search_mode(true)` and `LowerCaser`, the stream
/// drained).
#[verifier::external_body]
fn jieba_tokens(text: &str) -> (r: Vec<String>)
    ensures
        views(r@) == jieba_tokens_of(text@),
{
    let mut analyzer = tantivy::tokenizer::TextAnalyzer::builder(
        tantivy_jieba::JiebaTokenizer::with_search_mode(true),
    ).filter(tantivy::tokenizer::LowerCaser).build();
    let mut stream = analyzer.token_stream(text);
    let mut out = Vec::new();
    while let Some(tok) = stream.next() {
        out.push(tok.text.to_string());
    }
    out
}

/// The query terms of a search for `q`: its distinct non-blank tokens, in
/// order of first appearance.
pub open spec fn search_terms(q: Seq<char>) -> Seq<Seq<char>> {
    query_terms_of(jieba_tokens_of(q))
}

/// Longest snippet, in characters.
pub const SNIPPET_MAX_CHARS: usize = 200;

/// One search result.
#[derive(Debug, Clone)]
pub struct SearchResult {
    pub title: String,
    pub path: String,
    pub date: Option<String>,
    /// Highlighted excerpt; empty for title hits.
    pub snippet: String,
    /// `title` or `content`: which field matched.
    pub match_in: String,
}

/// The result matched on its title.
pub open spec fn is_title_hit(r: SearchResult) -> bool {
    r.match_in@ == "title"@
}

/// The result matched on its content.
pub open spec fn is_content_hit(r: SearchResult) -> bool {
    r.match_in@ == "content"@
}

/// The query terms for the tokens `raw`: each non-blank token once, in
/// order of first appearance.
pub open spec fn query_terms_of(raw: Seq<Seq<char>>) -> Seq<Seq<char>>
    decreases raw.len(),
{
    if raw.len() == 0 {
        Seq::empty()
    } else {
        let prev = query_terms_of(raw.drop_last());
        let t = raw.last();
        if trim(t).len() > 0 && !prev.contains(t) {
            prev.push(t)
        } else {
            prev
        }
    }
}

/// The views of a list of strings.
pub open spec fn views(v: Seq<String>) -> Seq<Seq<char>> {
    v.map_values(|s: String| s@)
}

/// Whether `v` holds a string equal to `s`.
pub fn holds_string(v: &Vec<String>, s: &String) -> (r: bool)
    ensures
        r == views(v@).contains(s@),
{
    let mut i: usize = 0;
    while i < v.len()
        invariant
            i <= v@.len(),
            forall|k: int| 0 <= k < i ==> (#[trigger] v@[k])@ != s@,
        decreases v@.len() - i,
    {
        if v[i] == *s {
            assert(views(v@)[i as int] == s@);
            return true;
        }
        i = i + 1;
    }
    proof {
        if views(v@).contains(s@) {
            let k = choose|k: int| 0 <= k < views(v@).len() && views(v@)[k] == s@;
            assert(v@[k]@ == s@);
        }
    }
    false
}

/// The query terms of `raw` are exactly its non-blank tokens, each once,
/// in order of first appearance: none is blank, none repeats, every one is
/// a token of `raw`, and every non-blank token of `raw` is among them.
pub proof fn law_query_terms_are_the_distinct_nonblank_tokens(raw: Seq<Seq<char>>)
    ensures
        forall|k: int| 0 <= k < query_terms_of(raw).len() ==> trim(#[trigger] query_terms_of(raw)[k]).len() > 0,
        forall|a: int, b: int|
            0 <= a < b < query_terms_of(raw).len() ==> #[trigger] query_terms_of(raw)[a]
                != #[trigger] query_terms_of(raw)[b],
        forall|k: int| 0 <= k < query_terms_of(raw).len() ==> raw.contains(#[trigger] query_terms_of(raw)[k]),
        forall|i: int| 0 <= i < raw.len() && trim(#[trigger] raw[i]).len() > 0 ==> query_terms_of(raw).contains(raw[i]),
    decreases raw.len(),
{
    if raw.len() > 0 {
        let pre = raw.drop_last();
        law_query_terms_are_the_distinct_nonblank_tokens(pre);
        let p = query_terms_of(pre);
        let q = query_terms_of(raw);
        assert forall|k: int| 0 <= k < q.len() implies raw.contains(#[trigger] q[k]) by {
            if k < p.len() {
                assert(pre.contains(p[k]));
                let j = choose|j: int| 0 <= j < pre.len() && pre[j] == p[k];
                assert(raw[j] == pre[j]);
            } else {
                assert(raw[raw.len() - 1] == q[k]);
            }
        }
        assert forall|i: int| 0 <= i < raw.len() && trim(#[trigger] raw[i]).len() > 0 implies q.contains(
            raw[i],
        ) by {
            if i < raw.len() - 1 {
                assert(pre[i] == raw[i]);
                assert(p.contains(raw[i]));
                let j = choose|j: int| 0 <= j < p.len() && p[j] == raw[i];
                assert(q[j] == p[j]);
            } else if !p.contains(raw[i]) {
                assert(q[q.len() - 1] == raw[i]);
            } else {
                let j = choose|j: int| 0 <= j < p.len() && p[j] == raw[i];
                assert(q[j] == p[j]);
            }
        }
    }
}

/// The query terms for the tokens `raw`: every token that is not blank,
/// each once, in order of first appearance.
pub fn query_terms(raw: &Vec<String>) -> (r: Vec<String>)
    ensures
        views(r@) == query_terms_of(views(raw@)),
{
    let mut out: Vec<String> = Vec::new();
    let mut i: usize = 0;
    while i < raw.len()
        invariant
            i <= raw@.len(),
            views(out@) == query_terms_of(views(raw@).subrange(0, i as int)),
        decreases raw@.len() - i,
    {
        let t = &raw[i];
        let ghost pre = views(raw@).subrange(0, i as int);
        let ghost nxt = views(raw@).subrange(0, i + 1);
        assert(nxt.drop_last() =~= pre);
        assert(nxt.last() == t@);
        let cs = chars_of(t.as_str());
        let (a, b) = trim_bounds(&cs);
        if a < b && !holds_string(&out, t) {
            out.push(t.clone());
            assert(views(out@) =~= views(out@).drop_last().push(t@));
        } else {
            assert(views(out@) == query_terms_of(nxt));
        }
        i = i + 1;
    }
    assert(views(raw@).subrange(0, i as int) =~= views(raw@));
    out
}

/// Which of the hits with paths `paths` a result list that already holds
/// `taken` takes, up to `max` results in all: in order, each hit whose
/// path is not held yet, until the list is full. Positions count from
/// `offset`.
pub open spec fn picks(taken: Seq<Seq<char>>, paths: Seq<Seq<char>>, max: nat, offset: int) -> Seq<
    int,
>
    decreases paths.len(),
{
    if paths.len() == 0 || taken.len() >= max {
        Seq::empty()
    } else if taken.contains(paths[0]) {
        picks(taken, paths.drop_first(), max, offset + 1)
    } else {
        seq![offset] + picks(taken.push(paths[0]), paths.drop_first(), max, offset + 1)
    }
}

/// No two elements of `s` are equal.
pub open spec fn distinct(s: Seq<Seq<char>>) -> bool {
    forall|i: int, j: int| 0 <= i < j < s.len() ==> s[i] != s[j]
}

/// The paths `paths[p - offset]` of the picked positions `p`.
pub open spec fn picked_paths(paths: Seq<Seq<char>>, picked: Seq<int>, offset: int) -> Seq<
    Seq<char>,
> {
    picked.map_values(|p: int| paths[p - offset])
}

/// Picked positions are in range and ascending; the list stays within
/// `max` and holds no path twice.
pub proof fn lemma_picks(taken: Seq<Seq<char>>, paths: Seq<Seq<char>>, max: nat, offset: int)
    ensures
        forall|k: int|
            0 <= k < picks(taken, paths, max, offset).len() ==> offset <= #[trigger] picks(
                taken,
                paths,
                max,
                offset,
            )[k] < offset + paths.len(),
        taken.len() <= max ==> taken.len() + picks(taken, paths, max, offset).len() <= max,
        distinct(taken) ==> distinct(
            taken + picked_paths(paths, picks(taken, paths, max, offset), offset),
        ),
    decreases paths.len(),
{
    if paths.len() == 0 || taken.len() >= max {
        assert(picked_paths(paths, picks(taken, paths, max, offset), offset) =~= Seq::<
            Seq<char>,
        >::empty());
        assert(taken + Seq::<Seq<char>>::empty() =~= taken);
    } else {
        let rest = paths.drop_first();
        if taken.contains(paths[0]) {
            lemma_picks(taken, rest, max, offset + 1);
            let p = picks(taken, rest, max, offset + 1);
            assert(picked_paths(paths, p, offset) =~= picked_paths(rest, p, offset + 1));
        } else {
            let t2 = taken.push(paths[0]);
            lemma_picks(t2, rest, max, offset + 1);
            let p = picks(t2, rest, max, offset + 1);
            let whole = seq![offset] + p;
            assert(picks(taken, paths, max, offset) == whole);
            assert(picked_paths(paths, whole, offset) =~= seq![paths[0]] + picked_paths(
                rest,
                p,
                offset + 1,
            ));
            assert(taken + picked_paths(paths, whole, offset) =~= t2 + picked_paths(
                rest,
                p,
                offset + 1,
            ));
            if distinct(taken) {
                assert forall|i: int, j: int| 0 <= i < j < t2.len() implies t2[i] != t2[j] by {
                    if j == taken.len() {
                        assert(taken[i] == t2[i]);
                        if t2[i] == t2[j] {
                            assert(taken.contains(paths[0]));
                        }
                    }
                }
            }
        }
    }
}

/// Which hits, whose paths are `paths`, a result list already holding the
/// paths `taken` takes: positions in `paths`, in order, of each hit whose
/// path is not held yet, until the list has `max` results.
pub fn pick_hits(taken: &Vec<String>, paths: &Vec<String>, max: usize) -> (r: Vec<usize>)
    ensures
        r@.map_values(|p: usize| p as int) == picks(views(taken@), views(paths@), max as nat, 0),
{
    let ghost goal = picks(views(taken@), views(paths@), max as nat, 0);
    let mut held: Vec<String> = Vec::new();
    let mut j: usize = 0;
    while j < taken.len()
        invariant
            j <= taken@.len(),
            views(held@) == views(taken@).subrange(0, j as int),
        decreases taken@.len() - j,
    {
        let ghost hv = views(held@);
        held.push(taken[j].clone());
        assert(views(held@) =~= hv.push(taken@[j as int]@));
        assert(views(taken@).subrange(0, j + 1) =~= views(taken@).subrange(0, j as int).push(
            taken@[j as int]@,
        ));
        j = j + 1;
    }
    assert(views(taken@).subrange(0, j as int) =~= views(taken@));
    let mut out: Vec<usize> = Vec::new();
    let mut i: usize = 0;
    assert(views(paths@).subrange(0, paths@.len() as int) =~= views(paths@));
    assert(out@.map_values(|p: usize| p as int) =~= Seq::<int>::empty());
    assert(goal =~= out@.map_values(|p: usize| p as int) + goal);
    while i < paths.len() && held.len() < max
        invariant
            i <= paths@.len(),
            goal == out@.map_values(|p: usize| p as int) + picks(
                views(held@),
                views(paths@).subrange(i as int, paths@.len() as int),
                max as nat,
                i as int,
            ),
        decreases paths@.len() - i,
    {
        let ghost rest = views(paths@).subrange(i as int, paths@.len() as int);
        assert(rest.drop_first() =~= views(paths@).subrange(i + 1, paths@.len() as int));
        assert(rest[0] == paths@[i as int]@);
        assert(views(held@).len() == held@.len());
        if holds_string(&held, &paths[i]) {
        } else {
            let ghost before = out@;
            out.push(i);
            assert(out@.map_values(|p: usize| p as int) =~= before.map_values(|p: usize| p as int)
                + seq![i as int]);
            let ghost hv = views(held@);
            held.push(paths[i].clone());
            assert(views(held@) =~= hv.push(paths@[i as int]@));
        }
        i = i + 1;
    }
    proof {
        let rest = views(paths@).subrange(i as int, paths@.len() as int);
        assert(views(held@).len() == held@.len());
        assert(goal =~= out@.map_values(|p: usize| p as int));
    }
    out
}

/// The paths of the results, in order.
pub open spec fn result_paths(r: Seq<SearchResult>) -> Seq<Seq<char>> {
    r.map_values(|x: SearchResult| x.path@)
}

/// The paths a search lists when the title search found documents with
/// paths `th` and the content search documents with paths `ch`, best
/// first: the title paths, each once, then the content paths not listed
/// yet, each once, `max` in all.
pub open spec fn merged_paths(th: Seq<Seq<char>>, ch: Seq<Seq<char>>, max: nat) -> Seq<Seq<char>> {
    let a = picked_paths(th, picks(Seq::empty(), th, max, 0), 0);
    a + picked_paths(ch, picks(a, ch, max, 0), 0)
}

/// Search results are well shaped: at most `max` of them, each a title
/// or content hit, title hits (without snippet) before content hits, no
/// path twice.
pub open spec fn well_shaped(r: Seq<SearchResult>, max: nat) -> bool {
    &&& r.len() <= max
    &&& forall|k: int| 0 <= k < r.len() ==> is_title_hit(#[trigger] r[k]) || is_content_hit(r[k])
    &&& forall|k: int| 0 <= k < r.len() && is_title_hit(#[trigger] r[k]) ==> r[k].snippet@.len() == 0
    &&& forall|i: int, j: int|
        0 <= i < j < r.len() && is_title_hit(#[trigger] r[j]) ==> is_title_hit(#[trigger] r[i])
    &&& forall|i: int, j: int| 0 <= i < j < r.len() ==> (#[trigger] r[i]).path@ != (#[trigger] r[j]).path@
}

/// Field id of the article's path.
pub const PATH_FIELD: u32 = 0;
/// Field id of the article's title.
pub const TITLE_FIELD: u32 = 1;
/// Field id of the article's content.
pub const CONTENT_FIELD: u32 = 2;
/// Field id of the article's date (empty when it has none).
pub const DATE_FIELD: u32 = 3;

/// The fields of the index, by id: path and date untokenized, title and
/// content segmented by `jieba`.
pub open spec fn index_layout() -> Seq<FieldSpec> {
    seq![("path"@, false), ("title"@, true), ("content"@, true), ("date"@, false)]
}

/// The field values, by id, of the document indexed for `d`.
pub open spec fn doc_fields(d: IndexDocumentView) -> Seq<Seq<char>> {
    seq![d.path, d.title, d.content, d.date]
}

/// The documents the index holds after a rebuild from `arts`, whose files
/// gave `contents`.
pub open spec fn rebuilt_docs(
    arts: Seq<Article>,
    contents: Seq<Option<Vec<u8>>>,
    max_file_size: u64,
) -> Multiset<Seq<Seq<char>>> {
    documents_for(arts, contents, max_file_size).map_values(|d: IndexDocumentView| doc_fields(d)).to_multiset()
}

/// What a search of one field gave: the best hits, or nothing when the
/// search failed.
pub open spec fn hit_list(
    docs: Multiset<Seq<Seq<char>>>,
    field: int,
    terms: Seq<Seq<char>>,
    limit: nat,
    hits: Seq<Seq<Seq<char>>>,
) -> bool {
    hits.len() == 0 || top_hits(
        docs,
        field,
        terms,
        limit,
        hits,
        |d: Seq<Seq<char>>| bm25_relevance(docs, field, terms, d),
    )
}

/// The paths of found documents.
pub open spec fn hit_paths_of(hits: Seq<Seq<Seq<char>>>) -> Seq<Seq<char>> {
    hits.map_values(|d: Seq<Seq<char>>| d[PATH_FIELD as int])
}

/// `h` is the document indexed for one of the articles of a rebuild from
/// `arts` and `contents`.
pub open spec fn indexed_by_rebuild(
    h: Seq<Seq<char>>,
    arts: Seq<Article>,
    contents: Seq<Option<Vec<u8>>>,
    max_file_size: u64,
) -> bool {
    exists|j: int|
        0 <= j < documents_for(arts, contents, max_file_size).len() && h == doc_fields(
            #[trigger] documents_for(arts, contents, max_file_size)[j],
        )
}

/// A search finds only documents of the last rebuild: when the index holds
/// what a rebuild from `arts` and `contents` put in it, every hit of a
/// search of any field is the document indexed for one of those articles
/// (so an article left out, unread or too large, is never found).
pub proof fn law_hits_come_from_rebuild(
    arts: Seq<Article>,
    contents: Seq<Option<Vec<u8>>>,
    max_file_size: u64,
    field: int,
    terms: Seq<Seq<char>>,
    limit: nat,
    hits: Seq<Seq<Seq<char>>>,
)
    requires
        hit_list(rebuilt_docs(arts, contents, max_file_size), field, terms, limit, hits),
    ensures
        forall|k: int|
            0 <= k < hits.len() ==> indexed_by_rebuild(#[trigger] hits[k], arts, contents, max_file_size),
{
    broadcast use vstd::seq_lib::group_to_multiset_ensures;
    broadcast use vstd::multiset::group_multiset_axioms;

    let target = documents_for(arts, contents, max_file_size);
    let vals = target.map_values(|d: IndexDocumentView| doc_fields(d));
    let docs = rebuilt_docs(arts, contents, max_file_size);
    let m = matching_docs(docs, field, terms);
    assert forall|k: int| 0 <= k < hits.len() implies indexed_by_rebuild(
        #[trigger] hits[k],
        arts,
        contents,
        max_file_size,
    ) by {
        let h = hits[k];
        assert(hits.contains(h));
        assert(hits.to_multiset().count(h) > 0);
        assert(m.count(h) > 0);
        assert(docs.count(h) > 0);
        assert(vals.contains(h));
        let j = choose|j: int| 0 <= j < vals.len() && vals[j] == h;
        assert(vals[j] == doc_fields(target[j]));
    }
}

/// The stored values of a document found by a search of one field.
#[derive(Debug, Clone)]
pub struct FieldHit {
    pub path: String,
    pub title: String,
    /// The date, absent when the stored one is empty.
    pub date: Option<String>,
}

/// `h` holds the values `d` of its document: path, title, and the date
/// when it is not empty.
pub open spec fn hit_of(h: FieldHit, d: Seq<Seq<char>>) -> bool {
    &&& h.path@ == d[PATH_FIELD as int]
    &&& h.title@ == d[TITLE_FIELD as int]
    &&& (d[DATE_FIELD as int].len() == 0 ==> h.date is None)
    &&& (d[DATE_FIELD as int].len() > 0 ==> (h.date matches Some(s) && s@ == d[DATE_FIELD as int]))
}

/// The paths of the hits, in order.
pub open spec fn hit_path_seq(hs: Seq<FieldHit>) -> Seq<Seq<char>> {
    hs.map_values(|h: FieldHit| h.path@)
}

/// `r` is the result for the hit `h`, with the snippet `snippet` and the
/// label `label`.
pub open spec fn result_from_hit(r: SearchResult, h: FieldHit, snippet: Seq<char>, label: Seq<char>) -> bool {
    &&& r.title@ == h.title@
    &&& r.path@ == h.path@
    &&& opt_view(r.date) == opt_view(h.date)
    &&& r.snippet@ == snippet
    &&& r.match_in@ == label
}

/// `r` is what the title hits `th` and the content hits `ch` (whose
/// snippets are `sn`) give: the title hits not listed yet, in order, as
/// title results without snippet; then, while there is room for `max`
/// results, the content hits not listed yet, with their snippets.
pub open spec fn merged_results(
    th: Seq<FieldHit>,
    ch: Seq<FieldHit>,
    sn: Seq<String>,
    max: nat,
    r: Seq<SearchResult>,
) -> bool {
    let tp = picks(Seq::empty(), hit_path_seq(th), max, 0);
    let a = picked_paths(hit_path_seq(th), tp, 0);
    let cp = picks(a, hit_path_seq(ch), max, 0);
    &&& r.len() == tp.len() + cp.len()
    &&& forall|k: int|
        0 <= k < tp.len() ==> result_from_hit(#[trigger] r[k], th[tp[k]], Seq::empty(), "title"@)
    &&& forall|k: int|
        0 <= k < cp.len() ==> result_from_hit(
            #[trigger] r[tp.len() + k],
            ch[cp[k]],
            sn[cp[k]]@,
            "content"@,
        )
}

/// `hs` are the hits of a search of `field` whose documents are `ds`: the
/// best `limit` documents, or none when the search failed.
pub open spec fn found_hits(
    docs: Multiset<Seq<Seq<char>>>,
    field: int,
    terms: Seq<Seq<char>>,
    limit: nat,
    hs: Seq<FieldHit>,
    ds: Seq<Seq<Seq<char>>>,
) -> bool {
    &&& hs.len() == ds.len()
    &&& hit_list(docs, field, terms, limit, ds)
    &&& forall|k: int| 0 <= k < hs.len() ==> hit_of(#[trigger] hs[k], ds[k])
}

/// `s` is the content snippet of the document with values `d` for
/// `terms`: Tantivy's highlighted snippet of 200 characters at most, or
/// nothing when it could not be made.
pub open spec fn snippet_for_hit(
    docs: Multiset<Seq<Seq<char>>>,
    terms: Seq<Seq<char>>,
    d: Seq<Seq<char>>,
    s: Seq<char>,
) -> bool {
    s.len() == 0 || s == snippet_html_of(
        docs,
        CONTENT_FIELD as int,
        terms,
        d[CONTENT_FIELD as int],
        SNIPPET_MAX_CHARS,
        "<mark>"@,
        "</mark>"@,
    )
}

/// What the two field searches of one search gave.
pub struct SearchOutcome {
    pub title_hits: Seq<FieldHit>,
    pub title_docs: Seq<Seq<Seq<char>>>,
    pub content_hits: Seq<FieldHit>,
    pub content_docs: Seq<Seq<Seq<char>>>,
    pub snippets: Seq<String>,
}

/// `o` is a possible outcome of the field searches for `terms` over `docs`:
/// the best hits of each field (or none, when that search failed or was not
/// needed), and a snippet for each content hit.
pub open spec fn outcome_of(
    docs: Multiset<Seq<Seq<char>>>,
    terms: Seq<Seq<char>>,
    max: nat,
    o: SearchOutcome,
) -> bool {
    &&& found_hits(docs, TITLE_FIELD as int, terms, max, o.title_hits, o.title_docs)
    &&& found_hits(docs, CONTENT_FIELD as int, terms, max, o.content_hits, o.content_docs)
    &&& o.snippets.len() == o.content_hits.len()
    &&& forall|k: int|
        0 <= k < o.snippets.len() ==> snippet_for_hit(
            docs,
            terms,
            o.content_docs[k],
            #[trigger] o.snippets[k]@,
        )
}

/// The hit at `j` of a field search is the hit of a document of `docs`.
proof fn lemma_found_hit_in_docs(
    docs: Multiset<Seq<Seq<char>>>,
    field: int,
    terms: Seq<Seq<char>>,
    limit: nat,
    hs: Seq<FieldHit>,
    ds: Seq<Seq<Seq<char>>>,
    j: int,
)
    requires
        found_hits(docs, field, terms, limit, hs, ds),
        0 <= j < hs.len(),
    ensures
        docs.count(ds[j]) > 0,
        hit_of(hs[j], ds[j]),
{
    broadcast use vstd::seq_lib::group_to_multiset_ensures;
    broadcast use vstd::multiset::group_multiset_axioms;

    let m = matching_docs(docs, field, terms);
    assert(ds.contains(ds[j]));
    assert(ds.to_multiset().count(ds[j]) > 0);
    assert(m.count(ds[j]) > 0);
}

/// `r` reports the document with values `d`: its path, its title, and its
/// stored date, none exactly when that is empty.
pub open spec fn reports_document(r: SearchResult, d: Seq<Seq<char>>) -> bool {
    &&& r.path@ == d[PATH_FIELD as int]
    &&& r.title@ == d[TITLE_FIELD as int]
    &&& (d[DATE_FIELD as int].len() == 0 ==> r.date is None)
    &&& (d[DATE_FIELD as int].len() > 0 ==> opt_view(r.date) == Some(d[DATE_FIELD as int]))
}

/// `r` reports some document of `docs`.
pub open spec fn reports_indexed_document(docs: Multiset<Seq<Seq<char>>>, r: SearchResult) -> bool {
    exists|d: Seq<Seq<char>>| #![trigger reports_document(r, d)] docs.count(d) > 0 && reports_document(r, d)
}

/// Every result of a search, title hit or content hit alike, reports a
/// document the index holds: its path, title and stored date (a stored
/// date that is not empty is always carried).
pub proof fn law_search_results_report_indexed_documents(
    docs: Multiset<Seq<Seq<char>>>,
    terms: Seq<Seq<char>>,
    max: nat,
    o: SearchOutcome,
    r: Seq<SearchResult>,
)
    requires
        outcome_of(docs, terms, max, o),
        merged_results(o.title_hits, o.content_hits, o.snippets, max, r),
    ensures
        forall|k: int| 0 <= k < r.len() ==> reports_indexed_document(docs, #[trigger] r[k]),
{
    let th = hit_path_seq(o.title_hits);
    let ch = hit_path_seq(o.content_hits);
    let tp = picks(Seq::empty(), th, max, 0);
    let a = picked_paths(th, tp, 0);
    let cp = picks(a, ch, max, 0);
    lemma_picks(Seq::empty(), th, max, 0);
    lemma_picks(a, ch, max, 0);
    assert forall|k: int| 0 <= k < r.len() implies reports_indexed_document(docs, #[trigger] r[k]) by {
        if k < tp.len() {
            let j = tp[k];
            assert(0 <= j < th.len());
            lemma_found_hit_in_docs(docs, TITLE_FIELD as int, terms, max, o.title_hits, o.title_docs, j);
            let d = o.title_docs[j];
            assert(result_from_hit(r[k], o.title_hits[j], Seq::empty(), "title"@));
            assert(reports_document(r[k], d));
        } else {
            let m = k - tp.len();
            let j = cp[m];
            assert(0 <= j < ch.len());
            lemma_found_hit_in_docs(docs, CONTENT_FIELD as int, terms, max, o.content_hits, o.content_docs, j);
            let d = o.content_docs[j];
            assert(result_from_hit(r[tp.len() + m], o.content_hits[j], o.snippets[j]@, "content"@));
            assert(r[tp.len() + m] == r[k]);
            assert(reports_document(r[k], d));
        }
    }
}

/// The paths of the hits, in order.
fn hit_paths(hits: &Vec<FieldHit>) -> (r: Vec<String>)
    ensures
        r@.len() == hits@.len(),
        forall|m: int| 0 <= m < hits@.len() ==> #[trigger] r@[m]@ == hits@[m].path@,
{
    let mut out: Vec<String> = Vec::new();
    let mut i: usize = 0;
    while i < hits.len()
        invariant
            i <= hits@.len(),
            out@.len() == i,
            forall|m: int| 0 <= m < i ==> #[trigger] out@[m]@ == hits@[m].path@,
        decreases hits@.len() - i,
    {
        out.push(hits[i].path.clone());
        i = i + 1;
    }
    out
}

/// The results of a search from the hits of its title search and of its
/// content search, best first each (`snippets[k]` is the snippet of
/// `content_hits[k]`): the title hits whose path is not listed yet, as
/// title results without snippet; then, while there are fewer than
/// `max_results`, the content hits whose path is not listed yet, with their
/// snippets.
pub fn merge_results(
    title_hits: &Vec<FieldHit>,
    content_hits: &Vec<FieldHit>,
    snippets: &Vec<String>,
    max_results: usize,
) -> (r: Vec<SearchResult>)
    requires
        snippets@.len() == content_hits@.len(),
    ensures
        merged_results(title_hits@, content_hits@, snippets@, max_results as nat, r@),
        well_shaped(r@, max_results as nat),
        result_paths(r@) == merged_paths(
            hit_path_seq(title_hits@),
            hit_path_seq(content_hits@),
            max_results as nat,
        ),
{
    proof {
        reveal_strlit("title");
        reveal_strlit("content");
    }
    let mut results: Vec<SearchResult> = Vec::new();
    let mut taken: Vec<String> = Vec::new();
    let ghost th: Seq<Seq<char>> = hit_path_seq(title_hits@);
    let ghost ch: Seq<Seq<char>> = hit_path_seq(content_hits@);
    let ghost tp = picks(Seq::empty(), th, max_results as nat, 0);
    {
        let hits = title_hits;
        let paths = hit_paths(hits);
        proof {
            assert(views(paths@) =~= th);
        }
        let picked = pick_hits(&taken, &paths, max_results);
        proof {
            lemma_picks(views(taken@), views(paths@), max_results as nat, 0);
            assert(views(taken@) =~= Seq::<Seq<char>>::empty());
            assert forall|m: int| 0 <= m < picked@.len() implies 0 <= #[trigger] picked@[m] < paths@.len() by {
                assert(picked@.map_values(|p: usize| p as int)[m] == picked@[m] as int);
            }
        }
        let ghost pp = picked_paths(views(paths@), picked@.map_values(|p: usize| p as int), 0);
        let mut k: usize = 0;
        while k < picked.len()
            invariant
                paths@.len() == hits@.len(),
                hits@ == title_hits@,
                views(paths@) == th,
                forall|m: int| 0 <= m < hits@.len() ==> #[trigger] paths@[m]@ == hits@[m].path@,
                picked@.map_values(|p: usize| p as int) == picks(Seq::empty(), views(paths@), max_results as nat, 0),
                picked@.map_values(|p: usize| p as int) == tp,
                forall|m: int|
                    0 <= m < k ==> result_from_hit(
                        #[trigger] results@[m],
                        title_hits@[tp[m]],
                        Seq::empty(),
                        "title"@,
                    ),
                forall|m: int| 0 <= m < picked@.len() ==> 0 <= #[trigger] picked@[m] < paths@.len(),
                pp.len() == picked@.len(),
                forall|m: int| 0 <= m < picked@.len() ==> #[trigger] pp[m] == views(paths@)[picked@[m] as int],
                distinct(pp),
                picked@.len() <= max_results,
                k <= picked@.len(),
                results@.len() == k,
                views(taken@) == pp.subrange(0, k as int),
                forall|m: int| 0 <= m < k ==> (#[trigger] results@[m]).path@ == pp[m],
                forall|m: int| 0 <= m < k ==> is_title_hit(#[trigger] results@[m]) && results@[m].snippet@.len() == 0,
            decreases picked@.len() - k,
        {
            proof {
                assert(picked@.map_values(|p: usize| p as int)[k as int] == picked@[k as int] as int);
            }
            let h = &hits[picked[k]];
            let r = SearchResult {
                title: h.title.clone(),
                path: h.path.clone(),
                date: h.date.clone(),
                snippet: String::new(),
                match_in: "title".to_string(),
            };
            assert(tp[k as int] == picked@[k as int] as int);
            assert(result_from_hit(r, title_hits@[tp[k as int]], Seq::empty(), "title"@));
            let ghost before = results@;
            results.push(r);
            assert forall|m: int| 0 <= m < k + 1 implies result_from_hit(
                #[trigger] results@[m],
                title_hits@[tp[m]],
                Seq::empty(),
                "title"@,
            ) by {
                if m < k {
                    assert(results@[m] == before[m]);
                }
            }
            let ghost tv = views(taken@);
            taken.push(h.path.clone());
            assert(views(taken@) =~= tv.push(h.path@));
            assert(pp.subrange(0, k + 1) =~= pp.subrange(0, k as int).push(pp[k as int]));
            k = k + 1;
        }
        proof {
            assert(pp.subrange(0, k as int) =~= pp);
            assert(result_paths(results@) =~= pp);
        }
    }
    proof {
        if th.len() == 0 {
            assert(picks(Seq::empty(), th, max_results as nat, 0) =~= Seq::<int>::empty());
            assert(picked_paths(th, Seq::<int>::empty(), 0) =~= Seq::<Seq<char>>::empty());
            assert(result_paths(results@) =~= Seq::<Seq<char>>::empty());
        }
    }
    let ghost title_part = picked_paths(th, picks(Seq::empty(), th, max_results as nat, 0), 0);
    assert(result_paths(results@) == title_part);
    assert(views(taken@) == title_part);
    assert(well_shaped(results@, max_results as nat));
    let ghost n_title = results@.len();
    assert(distinct(views(taken@)));
    let ghost rt = results@;
    assert(rt.len() == tp.len());
    if results.len() < max_results {
        {
            let hits = content_hits;
            let paths = hit_paths(hits);
            proof {
                assert(views(paths@) =~= ch);
            }
            let picked = pick_hits(&taken, &paths, max_results);
            let ghost t0 = views(taken@);
            proof {
                lemma_picks(t0, views(paths@), max_results as nat, 0);
                assert forall|m: int| 0 <= m < picked@.len() implies 0 <= #[trigger] picked@[m] < paths@.len() by {
                    assert(picked@.map_values(|p: usize| p as int)[m] == picked@[m] as int);
                }
            }
            let ghost pp = picked_paths(views(paths@), picked@.map_values(|p: usize| p as int), 0);
            let ghost r0 = results@;
            let mut k: usize = 0;
            while k < picked.len()
                invariant
                    paths@.len() == hits@.len(),
                    hits@ == content_hits@,
                    snippets@.len() == content_hits@.len(),
                    views(paths@) == ch,
                    r0 == rt,
                    r0.len() == tp.len(),
                    t0 == picked_paths(th, tp, 0),
                    forall|m: int|
                        0 <= m < r0.len() ==> result_from_hit(
                            #[trigger] r0[m],
                            title_hits@[tp[m]],
                            Seq::empty(),
                            "title"@,
                        ),
                    forall|m: int| 0 <= m < hits@.len() ==> #[trigger] paths@[m]@ == hits@[m].path@,
                    picked@.map_values(|p: usize| p as int) == picks(t0, views(paths@), max_results as nat, 0),
                    forall|m: int|
                        0 <= m < k ==> result_from_hit(
                            #[trigger] results@[r0.len() + m],
                            content_hits@[picked@[m] as int],
                            snippets@[picked@[m] as int]@,
                            "content"@,
                        ),
                    forall|m: int| 0 <= m < picked@.len() ==> 0 <= #[trigger] picked@[m] < paths@.len(),
                    pp.len() == picked@.len(),
                    forall|m: int| 0 <= m < picked@.len() ==> #[trigger] pp[m] == views(paths@)[picked@[m] as int],
                    distinct(t0 + pp),
                    t0.len() + picked@.len() <= max_results,
                    r0.len() == t0.len(),
                    forall|m: int| 0 <= m < r0.len() ==> (#[trigger] r0[m]).path@ == t0[m],
                    forall|m: int| 0 <= m < r0.len() ==> is_title_hit(#[trigger] r0[m]) && r0[m].snippet@.len() == 0,
                    k <= picked@.len(),
                    results@.len() == r0.len() + k,
                    forall|m: int| 0 <= m < r0.len() ==> #[trigger] results@[m] == r0[m],
                    forall|m: int| 0 <= m < k ==> (#[trigger] results@[r0.len() + m]).path@ == pp[m],
                    forall|m: int| 0 <= m < k ==> is_content_hit(#[trigger] results@[r0.len() + m]),
                decreases picked@.len() - k,
            {
                proof {
                    assert(picked@.map_values(|p: usize| p as int)[k as int] == picked@[k as int] as int);
                }
                let h = &hits[picked[k]];
                let snippet = snippets[picked[k]].clone();
                let r = SearchResult {
                    title: h.title.clone(),
                    path: h.path.clone(),
                    date: h.date.clone(),
                    snippet,
                    match_in: "content".to_string(),
                };
                assert(result_from_hit(r, content_hits@[picked@[k as int] as int], snippets@[picked@[k as int] as int]@, "content"@));
                let ghost before = results@;
                results.push(r);
                assert forall|m: int| 0 <= m < k + 1 implies result_from_hit(
                    #[trigger] results@[r0.len() + m],
                    content_hits@[picked@[m] as int],
                    snippets@[picked@[m] as int]@,
                    "content"@,
                ) by {
                    if m < k {
                        assert(results@[r0.len() + m] == before[r0.len() + m]);
                    }
                }
                k = k + 1;
            }
            proof {
                reveal_strlit("title");
                reveal_strlit("content");
                assert("content"@.len() == 7);
                assert("title"@.len() == 5);
                assert("content"@ != "title"@);
                let all = t0 + pp;
                assert forall|i: int, j: int| 0 <= i < j < results@.len() implies (#[trigger] results@[i]).path@ != (#[trigger] results@[j]).path@ by {
                    if i < r0.len() {
                        assert(results@[i] == r0[i]);
                        assert(results@[i].path@ == all[i]);
                    } else {
                        assert(results@[r0.len() + (i - r0.len())].path@ == pp[i - r0.len()]);
                        assert(results@[i].path@ == all[i]);
                    }
                    if j < r0.len() {
                        assert(results@[j] == r0[j]);
                        assert(results@[j].path@ == all[j]);
                    } else {
                        assert(results@[r0.len() + (j - r0.len())].path@ == pp[j - r0.len()]);
                        assert(results@[j].path@ == all[j]);
                    }
                }
                assert forall|i: int| 0 <= i < results@.len() implies (is_title_hit(#[trigger] results@[i])
                    && results@[i].snippet@.len() == 0) || (is_content_hit(results@[i]) && !is_title_hit(results@[i])) by {
                    if i < r0.len() {
                        assert(results@[i] == r0[i]);
                    } else {
                        assert(is_content_hit(results@[r0.len() + (i - r0.len())]));
                        assert(is_content_hit(results@[i]));
                        assert(!is_title_hit(results@[i]));
                    }
                }
                assert(results@.len() <= max_results);
                assert forall|i: int, j: int|
                    0 <= i < j < results@.len() && is_title_hit(#[trigger] results@[j]) implies is_title_hit(#[trigger] results@[i]) by {
                    if j >= r0.len() {
                        assert(results@[r0.len() + (j - r0.len())] == results@[j]);
                    }
                    assert(i < r0.len());
                    assert(results@[i] == r0[i]);
                }
                assert(well_shaped(results@, max_results as nat));
                assert forall|i: int| 0 <= i < results@.len() implies #[trigger] result_paths(
                    results@,
                )[i] == (t0 + pp)[i] by {
                    if i < r0.len() {
                        assert(results@[i] == r0[i]);
                    } else {
                        assert(results@[r0.len() + (i - r0.len())].path@ == pp[i - r0.len()]);
                    }
                }
                assert(result_paths(results@) =~= t0 + pp);
                let cp = picks(t0, ch, max_results as nat, 0);
                assert(picked@.map_values(|p: usize| p as int) == cp);
                assert forall|m: int| 0 <= m < cp.len() implies result_from_hit(
                    #[trigger] results@[tp.len() + m],
                    content_hits@[cp[m]],
                    snippets@[cp[m]]@,
                    "content"@,
                ) by {
                    assert(cp[m] == picked@[m] as int);
                }
                assert forall|m: int| 0 <= m < tp.len() implies result_from_hit(
                    #[trigger] results@[m],
                    title_hits@[tp[m]],
                    Seq::empty(),
                    "title"@,
                ) by {
                    assert(results@[m] == r0[m]);
                }
                assert(merged_results(title_hits@, content_hits@, snippets@, max_results as nat, results@));
            }
        }
    } else {
        proof {
            assert(picks(title_part, ch, max_results as nat, 0) =~= Seq::<int>::empty());
            assert(merged_results(title_hits@, content_hits@, snippets@, max_results as nat, results@));
        }
    }
    proof {
        if ch.len() == 0 || title_part.len() >= max_results {
            assert(picks(title_part, ch, max_results as nat, 0) =~= Seq::<int>::empty());
            assert(picked_paths(ch, Seq::<int>::empty(), 0) =~= Seq::<Seq<char>>::empty());
            assert(title_part + Seq::<Seq<char>>::empty() =~= title_part);
        }
        assert(merged_paths(th, ch, max_results as nat) == result_paths(results@));
    }
    results
}

/// Why the index could not be set up.
#[derive(Debug)]
pub enum SearchIndexError {
    /// Tantivy refused an operation.
    Tantivy(TantivyError),
}

/// The in-memory full-text index of the articles.
pub struct SearchIndex {
    index: Index,
    reader: IndexReader,
}

impl SearchIndex {
    /// The documents a search sees, each as its field values by id.
    pub closed spec fn docs(&self) -> Multiset<Seq<Seq<char>>> {
        reader_docs(self.reader)
    }

    /// The reader reads the index, both have the fields of
    /// `index_layout`, and every document has a value for each field.
    pub closed spec fn wf(&self) -> bool {
        &&& reader_index(self.reader) == index_id(self.index)
        &&& reader_fields(self.reader) == index_layout()
        &&& index_fields(self.index) == index_layout()
        &&& forall|d: Seq<Seq<char>>| #[trigger] reader_docs(self.reader).count(d) > 0 ==> d.len() == 4
    }

    /// An empty in-memory index with the fields `path` and `date` (stored,
    /// untokenized) and `title` and `content` (stored, segmented by jieba
    /// and lower-cased). Fails only when Tantivy cannot open a reader.
    pub fn new() -> (r: Result<SearchIndex, SearchIndexError>)
        ensures
            r matches Ok(ix) ==> ix.wf() && ix.docs() == Multiset::<Seq<Seq<char>>>::empty(),
    {
        proof {
            reveal_strlit("path");
            reveal_strlit("title");
            reveal_strlit("content");
            reveal_strlit("date");
        }
        assert("path"@ != "title"@ && "path"@ != "content"@ && "title"@ != "content"@) by {
            assert("path"@.len() == 4 && "title"@.len() == 5 && "content"@.len() == 7);
        }
        assert("date"@ != "path"@ && "date"@ != "title"@ && "date"@ != "content"@) by {
            assert("date"@[0] == 'd' && "path"@[0] == 'p' && "date"@.len() == 4);
        }
        let mut builder = schema_builder();
        add_keyword_field(&mut builder, "path");
        assert(field_names(builder_fields(builder)) =~= seq!["path"@]);
        add_segmented_field(&mut builder, "title");
        assert(field_names(builder_fields(builder)) =~= seq!["path"@, "title"@]);
        add_segmented_field(&mut builder, "content");
        assert(field_names(builder_fields(builder)) =~= seq!["path"@, "title"@, "content"@]);
        add_keyword_field(&mut builder, "date");
        assert(builder_fields(builder) =~= index_layout());
        let schema = build_schema(builder);
        let index = create_in_ram(schema);
        register_jieba(&index);
        match open_reader(&index) {
            Ok(reader) => {
                let ix = SearchIndex { index, reader };
                assert(ix.wf());
                Ok(ix)
            },
            Err(e) => Err(SearchIndexError::Tantivy(e)),
        }
    }

    /// The query for `q` on the field with id `field`: any of the distinct
    /// non-blank tokens of `q` (as the `jieba` analyzer cuts it); `None`
    /// when there is no such token.
    fn parse_query(&self, q: &str, field: u32) -> (r: Option<BooleanQuery>)
        ensures
            r is None <==> search_terms(q@).len() == 0,
            r matches Some(b) ==> query_field(b) == field && query_term_list(b) == search_terms(q@),
    {
        let raw = jieba_tokens(q);
        let tokens = query_terms(&raw);
        if tokens.len() == 0 {
            return None;
        }
        Some(any_term_query(field, &tokens))
    }

    /// The best documents for `q` in the field with id `field`, at most
    /// `limit`, with their path, title and date; `None` when there is no
    /// query term or the search fails.
    fn search_field(&self, q: &str, field: u32, limit: usize) -> (r: Option<
        (Vec<TantivyDocument>, Vec<FieldHit>),
    >)
        requires
            self.wf(),
            limit >= 1,
            field == TITLE_FIELD || field == CONTENT_FIELD,
        ensures
            search_terms(q@).len() == 0 ==> r is None,
            r matches Some((found, hits)) ==> {
                &&& top_hits(
                    self.docs(),
                    field as int,
                    search_terms(q@),
                    limit as nat,
                    found@.map_values(|d: TantivyDocument| doc_values(d)),
                    |d: Seq<Seq<char>>| bm25_relevance(self.docs(), field as int, search_terms(q@), d),
                )
                &&& hits@.len() == found@.len()
                &&& forall|k: int| 0 <= k < hits@.len() ==> hit_of(#[trigger] hits@[k], doc_values(found@[k]))
                &&& forall|k: int| 0 <= k < found@.len() ==> doc_values(#[trigger] found@[k]).len() == 4
            },
    {
        let query = match self.parse_query(q, field) {
            Some(query) => query,
            None => {
                return None;
            },
        };
        let found = match field_hits(&self.reader, &query, limit) {
            Some(f) => f,
            None => {
                return None;
            },
        };
        let ghost vals = found@.map_values(|d: TantivyDocument| doc_values(d));
        proof {
            assert forall|k: int| 0 <= k < found@.len() implies doc_values(#[trigger] found@[k]).len() == 4 by {
                assert(vals[k] == doc_values(found@[k]));
                assert(vals.to_multiset().count(vals[k]) > 0) by {
                    vals.to_multiset_ensures();
                    assert(vals.contains(vals[k]));
                }
            }
        }
        let mut hits: Vec<FieldHit> = Vec::new();
        let mut i: usize = 0;
        while i < found.len()
            invariant
                i <= found@.len(),
                hits@.len() == i,
                forall|k: int| 0 <= k < found@.len() ==> doc_values(#[trigger] found@[k]).len() == 4,
                forall|k: int| 0 <= k < i ==> hit_of(#[trigger] hits@[k], doc_values(found@[k])),
            decreases found@.len() - i,
        {
            let d = &found[i];
            let path = first_text(d, PATH_FIELD);
            let title = first_text(d, TITLE_FIELD);
            let date_text = first_text(d, DATE_FIELD);
            let date = if date_text.as_str().is_empty() {
                None
            } else {
                Some(date_text)
            };
            hits.push(FieldHit { path, title, date });
            i = i + 1;
        }
        Some((found, hits))
    }

    /// The highlighted excerpt of the content of `doc` for `q`: at most
    /// 200 characters, text HTML-escaped, matches in `<mark>`; empty when
    /// there is no query term or no snippet can be made.
    fn build_snippet(&self, q: &str, doc: &TantivyDocument) -> (r: String)
        requires
            self.wf(),
            doc_values(*doc).len() == 4,
        ensures
            search_terms(q@).len() == 0 ==> r@.len() == 0,
            snippet_for_hit(self.docs(), search_terms(q@), doc_values(*doc), r@),
    {
        let query = match self.parse_query(q, CONTENT_FIELD) {
            Some(query) => query,
            None => {
                return String::new();
            },
        };
        match content_snippet(&self.reader, &query, doc, CONTENT_FIELD, SNIPPET_MAX_CHARS, "<mark>", "</mark>") {
            Ok(s) => s,
            Err(_) => String::new(),
        }
    }

    /// Searches the titles, then the contents, for `q`: at most
    /// `max_results` results, each article once; title hits first, best
    /// first and without a snippet; then, while there is room, content hits
    /// with a snippet. Only the in-memory index is read. The results are
    /// what `merge_results` makes of the hits of the two field searches.
    pub fn search(&self, q: &str, max_results: usize) -> (r: Vec<SearchResult>)
        requires
            max_results >= 1,
            self.wf(),
        ensures
            well_shaped(r@, max_results as nat),
            search_terms(q@).len() == 0 ==> r@.len() == 0,
            exists|o: SearchOutcome|
                #[trigger] outcome_of(self.docs(), search_terms(q@), max_results as nat, o)
                    && merged_results(
                    o.title_hits,
                    o.content_hits,
                    o.snippets,
                    max_results as nat,
                    r@,
                ),
    {
        let ghost docs = self.docs();
        let ghost terms = search_terms(q@);
        let mut title_hits: Vec<FieldHit> = Vec::new();
        let ghost mut tdocs: Seq<Seq<Seq<char>>> = Seq::empty();
        if let Some((found, hits)) = self.search_field(q, TITLE_FIELD, max_results) {
            proof {
                tdocs = found@.map_values(|d: TantivyDocument| doc_values(d));
            }
            title_hits = hits;
        }
        let none_held: Vec<String> = Vec::new();
        let title_paths = hit_paths(&title_hits);
        let title_picked = pick_hits(&none_held, &title_paths, max_results);
        let mut content_hits: Vec<FieldHit> = Vec::new();
        let mut snippets: Vec<String> = Vec::new();
        let ghost mut cdocs: Seq<Seq<Seq<char>>> = Seq::empty();
        if title_picked.len() < max_results {
            if let Some((found, hits)) = self.search_field(q, CONTENT_FIELD, max_results) {
                let mut k: usize = 0;
                while k < found.len()
                    invariant
                        self.wf(),
                        k <= found@.len(),
                        snippets@.len() == k,
                        forall|m: int| 0 <= m < found@.len() ==> doc_values(#[trigger] found@[m]).len() == 4,
                        forall|m: int|
                            0 <= m < k ==> snippet_for_hit(
                                self.docs(),
                                search_terms(q@),
                                doc_values(found@[m]),
                                #[trigger] snippets@[m]@,
                            ),
                    decreases found@.len() - k,
                {
                    let sn = self.build_snippet(q, &found[k]);
                    snippets.push(sn);
                    k = k + 1;
                }
                proof {
                    cdocs = found@.map_values(|d: TantivyDocument| doc_values(d));
                }
                content_hits = hits;
            }
        }
        let r = merge_results(&title_hits, &content_hits, &snippets, max_results);
        proof {
            let o = SearchOutcome {
                title_hits: title_hits@,
                title_docs: tdocs,
                content_hits: content_hits@,
                content_docs: cdocs,
                snippets: snippets@,
            };
            assert(outcome_of(docs, terms, max_results as nat, o));
        }
        r
    }

    /// Replaces the whole index with the given articles. `contents[i]` is
    /// what reading the file of `articles[i]` with a limit of
    /// `max_file_size + 1` bytes gave (`None` when it could not be read);
    /// articles not read, or longer than `max_file_size`, are left out.
    /// Deletes everything, adds the documents, commits and reloads the
    /// reader; returns what went wrong on the way (empty when all went
    /// well, and then the index holds exactly the new documents). A failure
    /// to open a writer or to commit stops the rebuild, so only the last
    /// issue can be other than a document that could not be added; each of
    /// those names a document to be indexed.
    pub fn rebuild(
        &mut self,
        articles: &Vec<Article>,
        contents: &Vec<Option<Vec<u8>>>,
        max_file_size: u64,
    ) -> (issues: Vec<RebuildIssue>)
        requires
            old(self).wf(),
            articles@.len() == contents@.len(),
        ensures
            final(self).wf(),
            issues@.len() == 0 ==> final(self).docs() == rebuilt_docs(
                articles@,
                contents@,
                max_file_size,
            ),
            issues@.len() > 0 && !(issues@.last() is AddDocument) ==> final(self).docs() == old(
                self,
            ).docs(),
            (forall|k: int| 0 <= k < issues@.len() ==> #[trigger] issues@[k] is AddDocument)
                ==> final(self).docs().subset_of(rebuilt_docs(articles@, contents@, max_file_size)),
            forall|k: int| 0 <= k < issues@.len() - 1 ==> #[trigger] issues@[k] is AddDocument,
            forall|k: int|
                0 <= k < issues@.len() ==> (#[trigger] issues@[k] matches RebuildIssue::AddDocument(
                    p,
                    _,
                ) ==> exists|j: int|
                    0 <= j < documents_for(articles@, contents@, max_file_size).len()
                        && #[trigger] documents_for(articles@, contents@, max_file_size)[j].path
                        == p@),
    {
        let docs = documents_to_index(articles, contents, max_file_size);
        let ghost target = documents_for(articles@, contents@, max_file_size);
        let ghost vals = target.map_values(|d: IndexDocumentView| doc_fields(d));
        let mut issues: Vec<RebuildIssue> = Vec::new();
        let mut session = match open_session(&self.index, WRITER_MEMORY_BUDGET) {
            Ok(s) => s,
            Err(e) => {
                issues.push(RebuildIssue::OpenWriter(e));
                return issues;
            },
        };
        if let Err(e) = delete_all_documents(&mut session) {
            issues.push(RebuildIssue::Clear(e));
            return issues;
        }
        proof {
            broadcast use vstd::seq_lib::group_to_multiset_ensures;
            assert(vals.subrange(0, 0) =~= Seq::<Seq<Seq<char>>>::empty());
            assert(vals.subrange(0, 0).to_multiset() =~= Multiset::<Seq<Seq<char>>>::empty()) by {
                assert forall|x: Seq<Seq<char>>| vals.subrange(0, 0).to_multiset().count(x) == 0 by {
                    assert(!vals.subrange(0, 0).contains(x));
                }
            }
        }
        let mut i: usize = 0;
        while i < docs.len()
            invariant
                self.wf(),
                i <= docs@.len(),
                docs@.len() == target.len(),
                vals.len() == target.len(),
                forall|k: int| 0 <= k < target.len() ==> #[trigger] vals[k] == doc_fields(target[k]),
                forall|k: int| 0 <= k < docs@.len() ==> #[trigger] docs@[k]@ == target[k],
                session_index(session) == index_id(self.index),
                session_fields(session) == index_layout(),
                forall|d: Seq<Seq<char>>| #[trigger] session_docs(session).count(d) > 0 ==> d.len() == 4,
                issues@.len() == 0 ==> session_docs(session) == vals.subrange(0, i as int).to_multiset(),
                session_docs(session).subset_of(vals.subrange(0, i as int).to_multiset()),
                self.docs() == old(self).docs(),
                forall|k: int| 0 <= k < issues@.len() ==> #[trigger] issues@[k] is AddDocument,
                forall|k: int|
                    0 <= k < issues@.len() ==> (#[trigger] issues@[k] matches RebuildIssue::AddDocument(
                        p,
                        _,
                    ) ==> exists|j: int| 0 <= j < target.len() && #[trigger] target[j].path == p@),
            decreases docs@.len() - i,
        {
            let d = &docs[i];
            let mut doc = empty_document();
            add_text(&mut doc, PATH_FIELD, d.path.as_str());
            add_text(&mut doc, TITLE_FIELD, d.title.as_str());
            add_text(&mut doc, CONTENT_FIELD, d.content.as_str());
            add_text(&mut doc, DATE_FIELD, d.date.as_str());
            assert(docs@[i as int]@ == target[i as int]);
            assert(doc_values(doc) =~= vals[i as int]);
            let ghost before = session_docs(session);
            proof {
                assert(vals.subrange(0, i + 1) =~= vals.subrange(0, i as int).push(vals[i as int]));
                broadcast use vstd::seq_lib::group_to_multiset_ensures;
                assert(vals.subrange(0, i + 1).to_multiset() =~= vals.subrange(0, i as int).to_multiset().insert(vals[i as int]));
            }
            proof {
                broadcast use vstd::multiset::group_multiset_axioms;
                let nxt = vals.subrange(0, i as int).to_multiset().insert(vals[i as int]);
                assert(before.subset_of(nxt));
                assert(before.insert(vals[i as int]).subset_of(nxt));
            }
            if let Err(e) = add_document(&mut session, doc) {
                let path = d.path.clone();
                assert(target[i as int].path == path@);
                issues.push(RebuildIssue::AddDocument(path, e));
            }
            i = i + 1;
        }
        proof {
            assert(vals.subrange(0, i as int) =~= vals);
        }
        if let Err(e) = commit(&mut session, &mut self.index) {
            issues.push(RebuildIssue::Commit(e));
            return issues;
        }
        if let Err(e) = reload(&mut self.reader, &self.index) {
            issues.push(RebuildIssue::Reload(e));
        }
        issues
    }
}
} // verus!
