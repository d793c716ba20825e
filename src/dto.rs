//! Requests and results of the query use cases.

use crate::value_objects::{BlockId, PageId, PageReference, Url};
use vstd::prelude::*;

verus! {

/// How a search matches.
#[derive(Debug, Clone, Copy, PartialEq, Eq, Structural)]
pub enum SearchType {
    /// Keyword matching.
    Traditional,
    /// Vector similarity; keyword matching stands in while no embedder is wired in.
    Semantic,
}

/// Which kinds of result a search reports.
#[derive(Debug, Clone, Copy, PartialEq, Eq, Structural)]
pub enum ResultType {
    PagesOnly,
    BlocksOnly,
    UrlsOnly,
    All,
}

/// A search query with its options.
#[derive(Debug)]
pub struct SearchRequest {
    pub query: String,
    pub search_type: SearchType,
    pub result_type: ResultType,
    pub page_filters: Option<Vec<PageId>>,
}

impl SearchRequest {
    /// A keyword search over everything.
    pub fn new(query: &str) -> (r: SearchRequest)
        ensures
            r.query@ == query@,
            r.search_type == SearchType::Traditional,
            r.result_type == ResultType::All,
            r.page_filters is None,
    {
        SearchRequest {
            query: query.to_string(),
            search_type: SearchType::Traditional,
            result_type: ResultType::All,
            page_filters: None,
        }
    }

    pub fn with_search_type(self, search_type: SearchType) -> (r: SearchRequest)
        ensures
            r.query == self.query,
            r.search_type == search_type,
            r.result_type == self.result_type,
            r.page_filters == self.page_filters,
    {
        SearchRequest { search_type, ..self }
    }

    pub fn with_result_type(self, result_type: ResultType) -> (r: SearchRequest)
        ensures
            r.query == self.query,
            r.search_type == self.search_type,
            r.result_type == result_type,
            r.page_filters == self.page_filters,
    {
        SearchRequest { result_type, ..self }
    }

    pub fn with_page_filters(self, page_filters: Vec<PageId>) -> (r: SearchRequest)
        ensures
            r.query == self.query,
            r.search_type == self.search_type,
            r.result_type == self.result_type,
            r.page_filters == Some(page_filters),
    {
        SearchRequest { page_filters: Some(page_filters), ..self }
    }
}

/// A page whose title matched.
#[derive(Debug)]
pub struct PageResult {
    pub page_id: PageId,
    pub title: String,
    pub block_count: usize,
    pub urls: Vec<Url>,
    pub page_references: Vec<PageReference>,
}

/// A block whose content matched, with its place in the tree and its related links.
#[derive(Debug)]
pub struct BlockResult {
    pub block_id: BlockId,
    pub content: String,
    pub page_id: PageId,
    pub page_title: String,
    pub hierarchy_path: Vec<String>,
    pub related_pages: Vec<PageReference>,
    pub related_urls: Vec<Url>,
}

/// A URL that matched, with the block that holds it and the references around it.
#[derive(Debug)]
pub struct UrlResult {
    pub url: Url,
    pub containing_block_id: BlockId,
    pub containing_block_content: String,
    pub page_id: PageId,
    pub page_title: String,
    pub ancestor_page_refs: Vec<PageReference>,
    pub descendant_page_refs: Vec<PageReference>,
}

/// One search hit.
#[derive(Debug)]
pub enum SearchItem {
    Page(PageResult),
    Block(BlockResult),
    Url(UrlResult),
}

/// A search hit with its score, in tenths (10 is an exact match).
#[derive(Debug)]
pub struct SearchResult {
    pub item: SearchItem,
    pub score_tenths: u32,
}

/// A page that cites a URL, with the blocks that hold it.
#[derive(Debug)]
pub struct PageConnection {
    pub page_id: PageId,
    pub page_title: String,
    pub blocks_with_url: Vec<BlockId>,
}

/// A URL of a page with the block that holds it, the path down to that block and the
/// references around it.
#[derive(Debug)]
pub struct UrlWithContext {
    pub url: Url,
    pub block_id: BlockId,
    pub block_content: String,
    pub hierarchy_path: Vec<String>,
    pub related_page_refs: Vec<PageReference>,
}

} // verus!
