//! The embedding pipeline's own logic: which chunks a page yields, how they are
//! grouped into batches, and the counts reported. The model and the vector store
//! are the caller's.

use crate::aggregates::{path_of, Page};
use crate::entities::BlockView;
use crate::preprocess::{chunks_of, cleaned, spliced, TextPreprocessor};
use crate::text::is_blank;
use crate::use_cases::{contents, contents_of};
use crate::value_objects::{chunk_id_text, ChunkId, EmbeddingModel};
use vstd::prelude::*;

verus! {

/// Settings of the embedding pipeline.
#[derive(Debug)]
pub struct EmbeddingServiceConfig {
    pub model: EmbeddingModel,
    pub qdrant_url: String,
    pub collection_name: String,
    pub max_words_per_chunk: usize,
    pub overlap_words: usize,
    pub batch_size: usize,
}

impl Default for EmbeddingServiceConfig {
    fn default() -> (r: Self)
        ensures
            r.model == EmbeddingModel::AllMiniLML6V2,
            r.max_words_per_chunk == 150,
            r.overlap_words == 50,
            r.batch_size == 32,
    {
        EmbeddingServiceConfig {
            model: EmbeddingModel::AllMiniLML6V2,
            qdrant_url: "http://localhost:6334".to_string(),
            collection_name: "logseq_blocks".to_string(),
            max_words_per_chunk: 150,
            overlap_words: 50,
            batch_size: 32,
        }
    }
}

/// Counts of an embedding run.
#[derive(Debug)]
pub struct EmbeddingStats {
    pub blocks_processed: usize,
    pub chunks_created: usize,
    pub chunks_stored: usize,
    pub errors: usize,
}

impl Default for EmbeddingStats {
    fn default() -> (r: Self)
        ensures
            r.blocks_processed == 0,
            r.chunks_created == 0,
            r.chunks_stored == 0,
            r.errors == 0,
    {
        EmbeddingStats { blocks_processed: 0, chunks_created: 0, chunks_stored: 0, errors: 0 }
    }
}

impl EmbeddingStats {
    /// Adds the counts of one page's run.
    pub fn absorb(&mut self, other: &EmbeddingStats)
        requires
            old(self).blocks_processed + other.blocks_processed <= usize::MAX,
            old(self).chunks_created + other.chunks_created <= usize::MAX,
            old(self).chunks_stored + other.chunks_stored <= usize::MAX,
        ensures
            final(self).blocks_processed == old(self).blocks_processed + other.blocks_processed,
            final(self).chunks_created == old(self).chunks_created + other.chunks_created,
            final(self).chunks_stored == old(self).chunks_stored + other.chunks_stored,
            final(self).errors == old(self).errors,
    {
        self.blocks_processed = self.blocks_processed + other.blocks_processed;
        self.chunks_created = self.chunks_created + other.chunks_created;
        self.chunks_stored = self.chunks_stored + other.chunks_stored;
    }
}

/// One chunk of a block, with what the vector store keeps beside its vector.
#[derive(Debug)]
pub struct ChunkMetadata {
    pub chunk_id: String,
    pub block_id: String,
    pub page_id: String,
    pub page_title: String,
    pub chunk_index: usize,
    pub total_chunks: usize,
    pub original_content: String,
    pub preprocessed_content: String,
    pub hierarchy_path: Vec<String>,
}

/// What the vector store reports of a collection.
#[derive(Debug)]
pub struct CollectionInfo {
    pub name: String,
    pub vectors_count: Option<u64>,
    pub points_count: Option<u64>,
}

/// Chunk `c` belongs to block `b` of a page with identifier `page_id` and title `title`, and
/// carries the block's canonical chunk identifier, content and hierarchy path.
pub open spec fn chunk_of_block(c: ChunkMetadata, bs: Seq<BlockView>, b: int, page_id: Seq<char>, title: Seq<char>) -> bool {
    &&& c.block_id@ == bs[b].id
    &&& c.page_id@ == page_id
    &&& c.page_title@ == title
    &&& c.original_content@ == bs[b].content
    &&& c.chunk_id@ == chunk_id_text(bs[b].id, c.chunk_index as nat)
    &&& c.chunk_index < c.total_chunks
    &&& c.hierarchy_path@.map_values(|s: String| s@) == contents(path_of(bs, b))
}

/// Chunk `c` belongs to some block of the page whose content is not blank.
pub open spec fn chunk_of_page(c: ChunkMetadata, bs: Seq<BlockView>, page_id: Seq<char>, title: Seq<char>) -> bool {
    exists|b: int| 0 <= b < bs.len() && !is_blank(bs[b].content) && #[trigger] chunk_of_block(c, bs, b, page_id, title)
}

/// How many of the first `n` blocks have content that is not blank.
pub open spec fn nonblank_count(bs: Seq<BlockView>, n: int) -> nat
    decreases n,
{
    if n <= 0 || n > bs.len() {
        0
    } else {
        nonblank_count(bs, n - 1) + (if is_blank(bs[n - 1].content) { 0nat } else { 1nat })
    }
}

/// Copies of the strings, in order.
fn copy_strings(v: &Vec<String>) -> (r: Vec<String>)
    ensures
        r@.map_values(|s: String| s@) == v@.map_values(|s: String| s@),
{
    let mut out: Vec<String> = Vec::new();
    let mut i: usize = 0;
    while i < v.len()
        invariant
            i <= v@.len(),
            out@.map_values(|s: String| s@) == v@.map_values(|s: String| s@).take(i as int),
        decreases v.len() - i,
    {
        let ghost before = out@;
        out.push(v[i].clone());
        proof {
            assert(out@.map_values(|s: String| s@) =~= before.map_values(|s: String| s@).push(v@[i as int]@));
            assert(v@.map_values(|s: String| s@).take(i + 1) =~= v@.map_values(|s: String| s@).take(i as int).push(v@[i as int]@));
        }
        i = i + 1;
    }
    proof {
        assert(v@.map_values(|s: String| s@).take(v@.len() as int) =~= v@.map_values(|s: String| s@));
    }
    out
}

/// The chunk texts of block `i`: its content cleaned, with the page title and its path spliced
/// in front, cut into word windows.
pub open spec fn block_pieces(bs: Seq<BlockView>, title: Seq<char>, i: int, max: nat, overlap: nat) -> Seq<Seq<char>> {
    chunks_of(spliced(title, contents(path_of(bs, i)), cleaned(bs[i].content)), max, overlap)
}

/// For the first `n` blocks whose content is not blank, in order: each chunk's block
/// identifier, index, the block's chunk count and the chunk text.
pub open spec fn chunk_plan(bs: Seq<BlockView>, title: Seq<char>, n: int, max: nat, overlap: nat) -> Seq<(Seq<char>, nat, nat, Seq<char>)>
    decreases n,
{
    if n <= 0 || n > bs.len() {
        Seq::empty()
    } else {
        let ps = block_pieces(bs, title, n - 1, max, overlap);
        chunk_plan(bs, title, n - 1, max, overlap) + (if is_blank(bs[n - 1].content) {
            Seq::empty()
        } else {
            Seq::new(ps.len(), |k: int| (bs[n - 1].id, k as nat, ps.len(), ps[k]))
        })
    }
}

pub open spec fn chunk_plan_views(v: Seq<ChunkMetadata>) -> Seq<(Seq<char>, nat, nat, Seq<char>)> {
    v.map_values(|c: ChunkMetadata| (c.block_id@, c.chunk_index as nat, c.total_chunks as nat, c.preprocessed_content@))
}

/// The chunks of every block of the page whose content is not blank, in block order: each
/// block's text is preprocessed with the page title and its hierarchy path, then cut into
/// windows of at most `max_words` words overlapping by `overlap_words`. Also returns how many
/// blocks were processed.
pub fn chunks_for_page(
    page: &Page,
    preprocessor: &TextPreprocessor,
    max_words: usize,
    overlap_words: usize,
) -> (r: (Vec<ChunkMetadata>, usize))
    requires
        page.wf(),
        overlap_words < max_words,
    ensures
        r.1 == nonblank_count(page.blocks_view(), page.blocks_view().len() as int),
        r.0@.len() >= r.1,
        forall|k: int| 0 <= k < r.0@.len() ==> chunk_of_page(#[trigger] r.0@[k], page.blocks_view(), page.id_view(), page.title_view()),
        chunk_plan_views(r.0@) == chunk_plan(page.blocks_view(), page.title_view(), page.blocks_view().len() as int, max_words as nat, overlap_words as nat),
{
    let ghost bs = page.blocks_view();
    let blocks = page.blocks();
    let mut out: Vec<ChunkMetadata> = Vec::new();
    let mut processed: usize = 0;
    let mut i: usize = 0;
    while i < blocks.len()
        invariant
            page.wf(),
            bs == page.blocks_view(),
            bs == blocks@.map_values(|b: crate::entities::Block| b@),
            overlap_words < max_words,
            i <= bs.len(),
            processed <= i,
            processed == nonblank_count(bs, i as int),
            out@.len() >= processed,
            forall|k: int| 0 <= k < out@.len() ==> chunk_of_page(#[trigger] out@[k], bs, page.id_view(), page.title_view()),
            chunk_plan_views(out@) == chunk_plan(bs, page.title_view(), i as int, max_words as nat, overlap_words as nat),
        decreases blocks.len() - i,
    {
        let block = &blocks[i];
        if !block.content().is_empty() {
            proof {
                crate::aggregates::lemma_index_of(bs, i as int);
            }
            let path_blocks = page.get_hierarchy_path(block.id());
            let path = contents_of(&path_blocks);
            let text = preprocessor.preprocess(block.content().as_str(), page.title(), path.as_slice());
            let pieces = preprocessor.chunk_text(text.as_str(), max_words, overlap_words);
            let total = pieces.len();
            let ghost start_len = out@.len();
            let ghost ps = block_pieces(bs, page.title_view(), i as int, max_words as nat, overlap_words as nat);
            proof {
                assert(crate::preprocess::string_views(path@) == contents(path_of(bs, i as int)));
                assert(pieces@.map_values(|c: String| c@) == ps);
            }
            let mut k: usize = 0;
            while k < total
                invariant
                    page.wf(),
                    bs == page.blocks_view(),
                    i < bs.len(),
                    block@ == bs[i as int],
                    !is_blank(bs[i as int].content),
                    total == pieces@.len(),
                    path@.map_values(|s: String| s@) == contents(path_of(bs, i as int)),
                    k <= total,
                    total >= 1,
                    out@.len() == start_len + k,
                    forall|m: int| 0 <= m < out@.len() ==> chunk_of_page(#[trigger] out@[m], bs, page.id_view(), page.title_view()),
                    ps == block_pieces(bs, page.title_view(), i as int, max_words as nat, overlap_words as nat),
                    pieces@.map_values(|c: String| c@) == ps,
                    chunk_plan_views(out@) == chunk_plan(bs, page.title_view(), i as int, max_words as nat, overlap_words as nat)
                        + Seq::new(k as nat, |m: int| (bs[i as int].id, m as nat, ps.len(), ps[m])),
                decreases total - k,
            {
                let chunk_id = ChunkId::from_block(block.id(), k);
                let c = ChunkMetadata {
                    chunk_id: chunk_id.as_str().to_string(),
                    block_id: block.id().as_str().to_string(),
                    page_id: page.page_id().as_str().to_string(),
                    page_title: page.title().to_string(),
                    chunk_index: k,
                    total_chunks: total,
                    original_content: block.content().as_str().to_string(),
                    preprocessed_content: pieces[k].clone(),
                    hierarchy_path: copy_strings(&path),
                };
                proof {
                    assert(chunk_of_block(c, bs, i as int, page.id_view(), page.title_view()));
                }
                let ghost before = out@;
                out.push(c);
                proof {
                    assert(ps[k as int] == pieces@[k as int]@);
                    assert(out@.last() == c);
                    assert(c.block_id@ == bs[i as int].id && c.total_chunks as nat == ps.len() && c.preprocessed_content@ == ps[k as int]);
                    assert(chunk_plan_views(out@) =~= chunk_plan_views(before).push((bs[i as int].id, k as nat, ps.len(), ps[k as int])));
                    assert(chunk_plan_views(out@) =~= chunk_plan(bs, page.title_view(), i as int, max_words as nat, overlap_words as nat)
                        + Seq::new((k + 1) as nat, |m: int| (bs[i as int].id, m as nat, ps.len(), ps[m])));
                    assert forall|m: int| 0 <= m < out@.len() implies chunk_of_page(#[trigger] out@[m], bs, page.id_view(), page.title_view()) by {
                        if m < before.len() {
                            assert(out@[m] == before[m]);
                        } else {
                            assert(chunk_of_block(out@[m], bs, i as int, page.id_view(), page.title_view()));
                        }
                    }
                }
                k = k + 1;
            }
            processed = processed + 1;
            proof {
                assert(Seq::new(total as nat, |m: int| (bs[i as int].id, m as nat, ps.len(), ps[m])) =~= Seq::new(ps.len(), |m: int| (bs[i as int].id, m as nat, ps.len(), ps[m])));
            }
        } else {
            proof {
                assert(chunk_plan(bs, page.title_view(), i + 1, max_words as nat, overlap_words as nat) =~= chunk_plan(bs, page.title_view(), i as int, max_words as nat, overlap_words as nat));
            }
        }
        i = i + 1;
    }
    (out, processed)
}

/// The batches of `n` items taken `batch_size` at a time: consecutive ranges covering
/// `0..n`, all of `batch_size` items but the last, which holds the rest.
pub fn batch_bounds(n: usize, batch_size: usize) -> (r: Vec<(usize, usize)>)
    requires
        batch_size > 0,
    ensures
        n == 0 ==> r@.len() == 0,
        n > 0 ==> r@.len() > 0 && r@[0].0 == 0 && r@.last().1 == n,
        forall|k: int| 0 <= k < r@.len() ==> (#[trigger] r@[k]).0 < r@[k].1 <= n && r@[k].1 - r@[k].0 <= batch_size,
        forall|k: int| 0 <= k < r@.len() - 1 ==> (#[trigger] r@[k]).1 == r@[k + 1].0 && r@[k].1 - r@[k].0 == batch_size,
{
    let mut out: Vec<(usize, usize)> = Vec::new();
    let mut start: usize = 0;
    while start < n
        invariant
            batch_size > 0,
            start <= n,
            out@.len() == 0 <==> start == 0,
            out@.len() > 0 ==> out@[0].0 == 0 && out@.last().1 == start,
            forall|k: int| 0 <= k < out@.len() ==> (#[trigger] out@[k]).0 < out@[k].1 <= start && out@[k].1 - out@[k].0 <= batch_size,
            forall|k: int| 0 <= k < out@.len() - 1 ==> (#[trigger] out@[k]).1 == out@[k + 1].0 && out@[k].1 - out@[k].0 == batch_size,
            out@.len() > 0 && start < n ==> out@.last().1 - out@.last().0 == batch_size,
        decreases n - start,
    {
        let end = if batch_size < n - start { start + batch_size } else { n };
        let ghost before = out@;
        out.push((start, end));
        proof {
            assert forall|k: int| 0 <= k < out@.len() - 1 implies (#[trigger] out@[k]).1 == out@[k + 1].0 && out@[k].1 - out@[k].0 == batch_size by {
                assert(out@[k] == before[k]);
                if k + 1 < before.len() {
                    assert(out@[k + 1] == before[k + 1]);
                }
            }
        }
        start = end;
    }
    out
}

} // verus!
