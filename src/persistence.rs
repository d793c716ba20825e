//! The relational form of a page: the rows that saving writes and loading reads.
//! Running the statements is the caller's; this module decides what the rows are
//! and how a page is rebuilt from them.

use crate::aggregates::{as_stored, has_id, lemma_child_ids_skeleton, Page};
use crate::base::{DomainError, DomainResult};
use crate::entities::{Block, BlockView};
use crate::parser::dedup;
use crate::value_objects::{BlockContent, BlockId, IndentLevel, PageId, PageReference, Url};
use vstd::prelude::*;

verus! {

/// A row of the `blocks` table.
#[derive(Debug)]
pub struct BlockRow {
    pub id: String,
    pub parent_id: Option<String>,
    pub content: String,
    pub indent_level: usize,
    pub position: usize,
}

/// A row of the `block_children` table: `child_id` is the `position`-th child of `parent_id`.
#[derive(Debug)]
pub struct ChildRow {
    pub parent_id: String,
    pub child_id: String,
    pub position: usize,
}

/// A row of the `urls` table.
#[derive(Debug)]
pub struct UrlRow {
    pub block_id: String,
    pub url: String,
}

/// A row of the `page_references` table.
#[derive(Debug)]
pub struct ReferenceRow {
    pub block_id: String,
    pub title: String,
    pub is_tag: bool,
}

/// Everything stored for one page.
#[derive(Debug)]
pub struct PageRows {
    pub page_id: String,
    pub title: String,
    pub blocks: Vec<BlockRow>,
    pub children: Vec<ChildRow>,
    pub urls: Vec<UrlRow>,
    pub references: Vec<ReferenceRow>,
}

pub open spec fn opt_view(o: Option<String>) -> Option<Seq<char>> {
    match o {
        Some(s) => Some(s@),
        None => None,
    }
}

/// The block row that stores block `b` at position `i`.
pub open spec fn row_of(b: BlockView, i: int) -> (Seq<char>, Option<Seq<char>>, Seq<char>, nat, int) {
    (b.id, b.parent, b.content, b.indent, i)
}

pub open spec fn block_row_views(v: Seq<BlockRow>) -> Seq<(Seq<char>, Option<Seq<char>>, Seq<char>, nat, int)> {
    v.map_values(|r: BlockRow| (r.id@, opt_view(r.parent_id), r.content@, r.indent_level as nat, r.position as int))
}

/// The URL rows of the first `n` blocks, block after block.
pub open spec fn url_rows_of(bs: Seq<BlockView>, n: int) -> Seq<(Seq<char>, Seq<char>)>
    decreases n,
{
    if n <= 0 || n > bs.len() {
        Seq::empty()
    } else {
        url_rows_of(bs, n - 1) + bs[n - 1].urls.map_values(|u: Seq<char>| (bs[n - 1].id, u))
    }
}

/// The reference rows of the first `n` blocks, block after block.
pub open spec fn reference_rows_of(bs: Seq<BlockView>, n: int) -> Seq<(Seq<char>, (Seq<char>, bool))>
    decreases n,
{
    if n <= 0 || n > bs.len() {
        Seq::empty()
    } else {
        reference_rows_of(bs, n - 1) + bs[n - 1].refs.map_values(|r: (Seq<char>, bool)| (bs[n - 1].id, r))
    }
}

/// The child rows of the first `n` blocks: each child with its position among its siblings.
pub open spec fn child_rows_of(bs: Seq<BlockView>, n: int) -> Seq<(Seq<char>, Seq<char>, int)>
    decreases n,
{
    if n <= 0 || n > bs.len() {
        Seq::empty()
    } else {
        child_rows_of(bs, n - 1) + Seq::new(
            bs[n - 1].children.len(),
            |k: int| (bs[n - 1].id, bs[n - 1].children[k], k),
        )
    }
}

pub open spec fn url_row_views(v: Seq<UrlRow>) -> Seq<(Seq<char>, Seq<char>)> {
    v.map_values(|r: UrlRow| (r.block_id@, r.url@))
}

pub open spec fn reference_row_views(v: Seq<ReferenceRow>) -> Seq<(Seq<char>, (Seq<char>, bool))> {
    v.map_values(|r: ReferenceRow| (r.block_id@, (r.title@, r.is_tag)))
}

pub open spec fn child_row_views(v: Seq<ChildRow>) -> Seq<(Seq<char>, Seq<char>, int)> {
    v.map_values(|r: ChildRow| (r.parent_id@, r.child_id@, r.position as int))
}

/// The rows that store `page`: its blocks in page order (parents before children), then the
/// children, URLs and references of each block in order.
pub fn page_rows(page: &Page) -> (r: PageRows)
    ensures
        r.page_id@ == page.id_view(),
        r.title@ == page.title_view(),
        block_row_views(r.blocks@) == Seq::new(page.blocks_view().len(), |i: int| row_of(page.blocks_view()[i], i)),
        url_row_views(r.urls@) == url_rows_of(page.blocks_view(), page.blocks_view().len() as int),
        reference_row_views(r.references@) == reference_rows_of(page.blocks_view(), page.blocks_view().len() as int),
        child_row_views(r.children@) == child_rows_of(page.blocks_view(), page.blocks_view().len() as int),
{
    let ghost bs = page.blocks_view();
    let blocks = page.blocks();
    let mut rows: Vec<BlockRow> = Vec::new();
    let mut children: Vec<ChildRow> = Vec::new();
    let mut urls: Vec<UrlRow> = Vec::new();
    let mut references: Vec<ReferenceRow> = Vec::new();
    let mut i: usize = 0;
    while i < blocks.len()
        invariant
            bs == blocks@.map_values(|b: Block| b@),
            i <= bs.len(),
            block_row_views(rows@) == Seq::new(i as nat, |j: int| row_of(bs[j], j)),
            url_row_views(urls@) == url_rows_of(bs, i as int),
            reference_row_views(references@) == reference_rows_of(bs, i as int),
            child_row_views(children@) == child_rows_of(bs, i as int),
        decreases blocks.len() - i,
    {
        let b = &blocks[i];
        let id = b.id().as_str().to_string();
        let parent_id = match b.parent_id() {
            Some(p) => Some(p.as_str().to_string()),
            None => None,
        };
        let ghost r0 = rows@;
        proof {
            assert(b@ == bs[i as int]);
            assert(opt_view(parent_id) == bs[i as int].parent);
        }
        rows.push(BlockRow {
            id: id.clone(),
            parent_id,
            content: b.content().as_str().to_string(),
            indent_level: b.indent_level().value(),
            position: i,
        });
        proof {
            assert(block_row_views(rows@) =~= block_row_views(r0).push(row_of(bs[i as int], i as int)));
            assert(block_row_views(rows@) =~= Seq::new((i + 1) as nat, |j: int| row_of(bs[j], j)));
        }
        let us = b.urls();
        let ghost u0 = url_row_views(urls@);
        let mut k: usize = 0;
        while k < us.len()
            invariant
                k <= us@.len(),
                b@ == bs[i as int],
                id@ == bs[i as int].id,
                crate::entities::url_texts(us@) == bs[i as int].urls,
                url_row_views(urls@) == u0 + bs[i as int].urls.take(k as int).map_values(|u: Seq<char>| (bs[i as int].id, u)),
            decreases us.len() - k,
        {
            let ghost before = urls@;
            urls.push(UrlRow { block_id: id.clone(), url: us[k].as_str().to_string() });
            proof {
                assert(bs[i as int].urls[k as int] == us@[k as int]@);
                assert(url_row_views(urls@) =~= url_row_views(before).push((bs[i as int].id, us@[k as int]@)));
                assert(bs[i as int].urls.take(k + 1).map_values(|u: Seq<char>| (bs[i as int].id, u)) =~= bs[i as int].urls.take(k as int).map_values(|u: Seq<char>| (bs[i as int].id, u)).push((bs[i as int].id, us@[k as int]@)));
            }
            k = k + 1;
        }
        proof {
            assert(bs[i as int].urls.take(us@.len() as int) =~= bs[i as int].urls);
        }
        let rs = b.page_references();
        let ghost f0 = reference_row_views(references@);
        let mut k: usize = 0;
        while k < rs.len()
            invariant
                k <= rs@.len(),
                b@ == bs[i as int],
                id@ == bs[i as int].id,
                crate::entities::ref_values(rs@) == bs[i as int].refs,
                reference_row_views(references@) == f0 + bs[i as int].refs.take(k as int).map_values(|r: (Seq<char>, bool)| (bs[i as int].id, r)),
            decreases rs.len() - k,
        {
            let ghost before = references@;
            references.push(ReferenceRow { block_id: id.clone(), title: rs[k].title().to_string(), is_tag: rs[k].is_tag() });
            proof {
                assert(bs[i as int].refs[k as int] == rs@[k as int]@);
                assert(reference_row_views(references@) =~= reference_row_views(before).push((bs[i as int].id, rs@[k as int]@)));
                assert(bs[i as int].refs.take(k + 1).map_values(|r: (Seq<char>, bool)| (bs[i as int].id, r)) =~= bs[i as int].refs.take(k as int).map_values(|r: (Seq<char>, bool)| (bs[i as int].id, r)).push((bs[i as int].id, rs@[k as int]@)));
            }
            k = k + 1;
        }
        proof {
            assert(bs[i as int].refs.take(rs@.len() as int) =~= bs[i as int].refs);
        }
        let cs = b.child_ids();
        let ghost c0 = child_row_views(children@);
        let mut k: usize = 0;
        while k < cs.len()
            invariant
                k <= cs@.len(),
                b@ == bs[i as int],
                id@ == bs[i as int].id,
                crate::entities::ids(cs@) == bs[i as int].children,
                child_row_views(children@) == c0 + Seq::new(k as nat, |m: int| (bs[i as int].id, bs[i as int].children[m], m)),
            decreases cs.len() - k,
        {
            let ghost before = children@;
            children.push(ChildRow { parent_id: id.clone(), child_id: cs[k].as_str().to_string(), position: k });
            proof {
                assert(bs[i as int].children[k as int] == cs@[k as int]@);
                assert(child_row_views(children@) =~= child_row_views(before).push((bs[i as int].id, bs[i as int].children[k as int], k as int)));
                assert(child_row_views(children@) =~= c0 + Seq::new((k + 1) as nat, |m: int| (bs[i as int].id, bs[i as int].children[m], m)));
            }
            k = k + 1;
        }
        proof {
            assert(Seq::new(cs@.len() as nat, |m: int| (bs[i as int].id, bs[i as int].children[m], m)) =~= Seq::new(bs[i as int].children.len(), |m: int| (bs[i as int].id, bs[i as int].children[m], m)));
            assert(url_rows_of(bs, i + 1) == url_rows_of(bs, i as int) + bs[i as int].urls.map_values(|u: Seq<char>| (bs[i as int].id, u)));
            assert(reference_rows_of(bs, i + 1) == reference_rows_of(bs, i as int) + bs[i as int].refs.map_values(|r: (Seq<char>, bool)| (bs[i as int].id, r)));
        }
        i = i + 1;
    }
    PageRows {
        page_id: page.page_id().as_str().to_string(),
        title: page.title().to_string(),
        blocks: rows,
        children,
        urls,
        references,
    }
}

/// The URLs stored for block `id`, in row order.
pub open spec fn urls_for(us: Seq<(Seq<char>, Seq<char>)>, id: Seq<char>) -> Seq<Seq<char>>
    decreases us.len(),
{
    if us.len() == 0 {
        Seq::empty()
    } else {
        urls_for(us.drop_last(), id) + (if us.last().0 == id {
            seq![us.last().1]
        } else {
            Seq::empty()
        })
    }
}

/// The references stored for block `id`, in row order.
pub open spec fn references_for(rs: Seq<(Seq<char>, (Seq<char>, bool))>, id: Seq<char>) -> Seq<(Seq<char>, bool)>
    decreases rs.len(),
{
    if rs.len() == 0 {
        Seq::empty()
    } else {
        references_for(rs.drop_last(), id) + (if rs.last().0 == id {
            seq![rs.last().1]
        } else {
            Seq::empty()
        })
    }
}

pub proof fn lemma_urls_for_push(us: Seq<(Seq<char>, Seq<char>)>, x: (Seq<char>, Seq<char>), id: Seq<char>)
    ensures
        urls_for(us.push(x), id) == urls_for(us, id) + (if x.0 == id {
            seq![x.1]
        } else {
            Seq::<Seq<char>>::empty()
        }),
{
    assert(us.push(x).drop_last() =~= us);
    assert(us.push(x).last() == x);
}

pub proof fn lemma_references_for_push(rs: Seq<(Seq<char>, (Seq<char>, bool))>, x: (Seq<char>, (Seq<char>, bool)), id: Seq<char>)
    ensures
        references_for(rs.push(x), id) == references_for(rs, id) + (if x.0 == id {
            seq![x.1]
        } else {
            Seq::<(Seq<char>, bool)>::empty()
        }),
{
    assert(rs.push(x).drop_last() =~= rs);
    assert(rs.push(x).last() == x);
}

/// The block that row `t` becomes when loaded (its children aside).
pub open spec fn loaded_block(rows: PageRows, t: int) -> BlockView {
    let r = block_row_views(rows.blocks@)[t];
    BlockView {
        id: r.0,
        content: r.2,
        indent: if r.1 is None { 0 } else { r.3 },
        parent: r.1,
        children: Seq::empty(),
        urls: dedup(urls_for(url_row_views(rows.urls@), r.0)),
        refs: dedup(references_for(reference_row_views(rows.references@), r.0)),
    }
}

/// The rows describe a page that loads: identifiers are non-empty and distinct, every parent
/// is an earlier block, and the URLs and references of the blocks are valid.
pub open spec fn loadable(rows: PageRows) -> bool {
    let bv = block_row_views(rows.blocks@);
    let uv = url_row_views(rows.urls@);
    let fv = reference_row_views(rows.references@);
    &&& rows.page_id@.len() > 0
    &&& forall|t: int| 0 <= t < bv.len() ==> (#[trigger] bv[t]).0.len() > 0
    &&& forall|a: int, b: int| 0 <= a < bv.len() && 0 <= b < bv.len() && a != b ==> (#[trigger] bv[a]).0 != (#[trigger] bv[b]).0
    &&& forall|t: int| 0 <= t < bv.len() && (#[trigger] bv[t]).1 is Some ==> exists|p: int| 0 <= p < t && (#[trigger] bv[p]).0 == bv[t].1->0
    &&& forall|t: int, k: int| 0 <= t < bv.len() && 0 <= k < uv.len() && (#[trigger] uv[k]).0 == (#[trigger] bv[t]).0 ==> crate::value_objects::is_url_text(uv[k].1)
    &&& forall|t: int, k: int| 0 <= t < bv.len() && 0 <= k < fv.len() && (#[trigger] fv[k]).0 == (#[trigger] bv[t]).0 ==> fv[k].1.0.len() > 0
}

/// Rebuilds the page stored in `rows`, adding the blocks in row order through the page's own
/// rules. Fails with `InvalidValue` or `InvalidOperation` when the rows do not describe a page.
pub fn page_from_rows(rows: &PageRows) -> (r: DomainResult<Page>)
    ensures
        loadable(*rows) ==> r is Ok,
        r matches Err(e) ==> e is InvalidValue || e is InvalidOperation,
        r matches Ok(page) ==> {
            &&& page.wf()
            &&& page.id_view() == rows.page_id@
            &&& page.title_view() == rows.title@
            &&& page.blocks_view().len() == rows.blocks@.len()
            &&& forall|t: int| 0 <= t < rows.blocks@.len() ==> as_stored(#[trigger] page.blocks_view()[t]) == loaded_block(*rows, t)
        },
{
    let ghost bv = block_row_views(rows.blocks@);
    let ghost uv = url_row_views(rows.urls@);
    let ghost fv = reference_row_views(rows.references@);
    let page_id = PageId::new(rows.page_id.as_str())?;
    let mut page = Page::new(page_id, rows.title.clone());
    let mut t: usize = 0;
    while t < rows.blocks.len()
        invariant
            bv == block_row_views(rows.blocks@),
            uv == url_row_views(rows.urls@),
            fv == reference_row_views(rows.references@),
            t <= bv.len(),
            page.wf(),
            page.id_view() == rows.page_id@,
            page.title_view() == rows.title@,
            page.blocks_view().len() == t,
            forall|m: int| 0 <= m < t ==> as_stored(#[trigger] page.blocks_view()[m]) == loaded_block(*rows, m),
        decreases rows.blocks.len() - t,
    {
        let ghost bs = page.blocks_view();
        let row = &rows.blocks[t];
        proof {
            assert(row.id@ == bv[t as int].0);
        }
        let id = BlockId::new(row.id.as_str())?;
        let content = BlockContent::new(row.content.as_str());
        let mut block = match &row.parent_id {
            None => Block::new_root(id, content),
            Some(p) => {
                let pid = BlockId::new(p.as_str())?;
                Block::new_child(id, content, pid, IndentLevel::new(row.indent_level))
            },
        };
        let mut k: usize = 0;
        while k < rows.urls.len()
            invariant
                bv == block_row_views(rows.blocks@),
                uv == url_row_views(rows.urls@),
                t < bv.len(),
                row.id@ == bv[t as int].0,
                k <= uv.len(),
                block@.id == bv[t as int].0,
                block@.content == bv[t as int].2,
                block@.parent == bv[t as int].1,
                block@.indent == loaded_block(*rows, t as int).indent,
                block@.children == Seq::<Seq<char>>::empty(),
                block@.refs == Seq::<(Seq<char>, bool)>::empty(),
                block@.urls == dedup(urls_for(uv.take(k as int), bv[t as int].0)),
                loadable(*rows) ==> forall|j: int| 0 <= j < uv.len() && (#[trigger] uv[j]).0 == bv[t as int].0 ==> crate::value_objects::is_url_text(uv[j].1),
            decreases rows.urls.len() - k,
        {
            proof {
                assert(uv.take(k + 1).drop_last() =~= uv.take(k as int));
                assert(uv.take(k + 1).last() == uv[k as int]);
                assert(uv[k as int] == (rows.urls@[k as int].block_id@, rows.urls@[k as int].url@));
                assert(uv.take(k + 1) =~= uv.take(k as int).push(uv[k as int]));
                lemma_urls_for_push(uv.take(k as int), uv[k as int], bv[t as int].0);
                assert(bv[t as int].0 == rows.blocks@[t as int].id@);
            }
            if crate::text::same_text(rows.urls[k].block_id.as_str(), row.id.as_str()) {
                let u = Url::new(rows.urls[k].url.as_str());
                match u {
                    Ok(u) => {
                        block.add_url(u);
                        proof {
                            assert(rows.urls@[k as int].block_id@ == row.id@);
                            assert(uv[k as int].0 == bv[t as int].0);
                            assert(urls_for(uv.take(k + 1), bv[t as int].0) =~= urls_for(uv.take(k as int), bv[t as int].0).push(uv[k as int].1));
                            assert(urls_for(uv.take(k + 1), bv[t as int].0).drop_last() =~= urls_for(uv.take(k as int), bv[t as int].0));
                        }
                    },
                    Err(_) => {
                        return Err(DomainError::InvalidOperation("Stored URL is not valid".to_string()));
                    },
                }
            } else {
                proof {
                    assert(urls_for(uv.take(k + 1), bv[t as int].0) =~= urls_for(uv.take(k as int), bv[t as int].0));
                }
            }
            k = k + 1;
        }
        proof {
            assert(uv.take(uv.len() as int) =~= uv);
        }
        let mut k: usize = 0;
        while k < rows.references.len()
            invariant
                bv == block_row_views(rows.blocks@),
                uv == url_row_views(rows.urls@),
                fv == reference_row_views(rows.references@),
                t < bv.len(),
                row.id@ == bv[t as int].0,
                k <= fv.len(),
                block@.id == bv[t as int].0,
                block@.content == bv[t as int].2,
                block@.parent == bv[t as int].1,
                block@.indent == loaded_block(*rows, t as int).indent,
                block@.children == Seq::<Seq<char>>::empty(),
                block@.urls == dedup(urls_for(uv, bv[t as int].0)),
                block@.refs == dedup(references_for(fv.take(k as int), bv[t as int].0)),
                loadable(*rows) ==> forall|j: int| 0 <= j < fv.len() && (#[trigger] fv[j]).0 == bv[t as int].0 ==> fv[j].1.0.len() > 0,
            decreases rows.references.len() - k,
        {
            proof {
                assert(fv.take(k + 1).drop_last() =~= fv.take(k as int));
                assert(fv.take(k + 1).last() == fv[k as int]);
                assert(fv[k as int] == (rows.references@[k as int].block_id@, (rows.references@[k as int].title@, rows.references@[k as int].is_tag)));
                assert(fv.take(k + 1) =~= fv.take(k as int).push(fv[k as int]));
                lemma_references_for_push(fv.take(k as int), fv[k as int], bv[t as int].0);
                assert(bv[t as int].0 == rows.blocks@[t as int].id@);
            }
            if crate::text::same_text(rows.references[k].block_id.as_str(), row.id.as_str()) {
                let rr = &rows.references[k];
                let made = if rr.is_tag {
                    PageReference::from_tag(rr.title.as_str())
                } else {
                    PageReference::from_brackets(rr.title.as_str())
                };
                match made {
                    Ok(pr) => {
                        block.add_page_reference(pr);
                        proof {
                            assert(references_for(fv.take(k + 1), bv[t as int].0) =~= references_for(fv.take(k as int), bv[t as int].0).push(fv[k as int].1));
                            assert(references_for(fv.take(k + 1), bv[t as int].0).drop_last() =~= references_for(fv.take(k as int), bv[t as int].0));
                        }
                    },
                    Err(_) => {
                        return Err(DomainError::InvalidOperation("Stored reference is not valid".to_string()));
                    },
                }
            } else {
                proof {
                    assert(references_for(fv.take(k + 1), bv[t as int].0) =~= references_for(fv.take(k as int), bv[t as int].0));
                }
            }
            k = k + 1;
        }
        proof {
            assert(fv.take(fv.len() as int) =~= fv);
            assert(as_stored(block@) == loaded_block(*rows, t as int));
            if loadable(*rows) {
                if has_id(bs, bv[t as int].0) {
                    let m = choose|m: int| 0 <= m < bs.len() && (#[trigger] bs[m]).id == bv[t as int].0;
                    assert(as_stored(bs[m]) == loaded_block(*rows, m));
                    assert(bv[m].0 == bv[t as int].0);
                }
                if let Some(p) = bv[t as int].1 {
                    let q = choose|q: int| 0 <= q < t && (#[trigger] bv[q]).0 == p;
                    assert(as_stored(bs[q]) == loaded_block(*rows, q));
                    assert(bs[q].id == p);
                }
            }
        }
        if page.contains_block(block.id()) {
            return Err(DomainError::InvalidOperation("Duplicate block row".to_string()));
        }
        page.add_block(block)?;
        proof {
            let nbs = page.blocks_view();
            assert forall|m: int| 0 <= m < t + 1 implies as_stored(#[trigger] nbs[m]) == loaded_block(*rows, m) by {
                if m < t {
                    assert(as_stored(nbs[m]) == as_stored(bs[m]));
                }
            }
        }
        t = t + 1;
    }
    Ok(page)
}

pub proof fn lemma_urls_for_concat(a: Seq<(Seq<char>, Seq<char>)>, b: Seq<(Seq<char>, Seq<char>)>, id: Seq<char>)
    ensures
        urls_for(a + b, id) == urls_for(a, id) + urls_for(b, id),
    decreases b.len(),
{
    if b.len() == 0 {
        assert(a + b =~= a);
        assert(urls_for(a, id) + urls_for(b, id) =~= urls_for(a, id));
    } else {
        assert((a + b).drop_last() =~= a + b.drop_last());
        assert((a + b).last() == b.last());
        lemma_urls_for_concat(a, b.drop_last(), id);
        assert(urls_for(a + b, id) =~= urls_for(a, id) + urls_for(b, id));
    }
}

pub proof fn lemma_urls_for_block(owner: Seq<char>, us: Seq<Seq<char>>, id: Seq<char>)
    ensures
        urls_for(us.map_values(|u: Seq<char>| (owner, u)), id) == (if owner == id { us } else { Seq::<Seq<char>>::empty() }),
    decreases us.len(),
{
    let m = us.map_values(|u: Seq<char>| (owner, u));
    if us.len() > 0 {
        assert(m.drop_last() =~= us.drop_last().map_values(|u: Seq<char>| (owner, u)));
        lemma_urls_for_block(owner, us.drop_last(), id);
        if owner == id {
            assert(us.drop_last().push(us.last()) =~= us);
        }
    } else {
        assert(m =~= Seq::<(Seq<char>, Seq<char>)>::empty());
        assert(us =~= Seq::<Seq<char>>::empty());
    }
}

/// The URL rows of the first `n` blocks that belong to block `t` are exactly its URLs, when
/// identifiers are distinct.
pub proof fn lemma_url_rows_of_block(bs: Seq<BlockView>, n: int, t: int)
    requires
        crate::aggregates::unique_ids(bs),
        0 <= t < bs.len(),
        0 <= n <= bs.len(),
    ensures
        urls_for(url_rows_of(bs, n), bs[t].id) == (if t < n { bs[t].urls } else { Seq::<Seq<char>>::empty() }),
    decreases n,
{
    if n > 0 {
        lemma_url_rows_of_block(bs, n - 1, t);
        lemma_urls_for_concat(url_rows_of(bs, n - 1), bs[n - 1].urls.map_values(|u: Seq<char>| (bs[n - 1].id, u)), bs[t].id);
        lemma_urls_for_block(bs[n - 1].id, bs[n - 1].urls, bs[t].id);
        if n - 1 != t {
            assert(bs[n - 1].id != bs[t].id);
        }
        assert(urls_for(url_rows_of(bs, n), bs[t].id) =~= (if t < n { bs[t].urls } else { Seq::<Seq<char>>::empty() }));
    } else {
        assert(url_rows_of(bs, n) =~= Seq::<(Seq<char>, Seq<char>)>::empty());
    }
}

pub proof fn lemma_references_for_concat(a: Seq<(Seq<char>, (Seq<char>, bool))>, b: Seq<(Seq<char>, (Seq<char>, bool))>, id: Seq<char>)
    ensures
        references_for(a + b, id) == references_for(a, id) + references_for(b, id),
    decreases b.len(),
{
    if b.len() == 0 {
        assert(a + b =~= a);
        assert(references_for(a, id) + references_for(b, id) =~= references_for(a, id));
    } else {
        assert((a + b).drop_last() =~= a + b.drop_last());
        assert((a + b).last() == b.last());
        lemma_references_for_concat(a, b.drop_last(), id);
        assert(references_for(a + b, id) =~= references_for(a, id) + references_for(b, id));
    }
}

pub proof fn lemma_references_for_block(owner: Seq<char>, rs: Seq<(Seq<char>, bool)>, id: Seq<char>)
    ensures
        references_for(rs.map_values(|r: (Seq<char>, bool)| (owner, r)), id) == (if owner == id { rs } else { Seq::<(Seq<char>, bool)>::empty() }),
    decreases rs.len(),
{
    let m = rs.map_values(|r: (Seq<char>, bool)| (owner, r));
    if rs.len() > 0 {
        assert(m.drop_last() =~= rs.drop_last().map_values(|r: (Seq<char>, bool)| (owner, r)));
        lemma_references_for_block(owner, rs.drop_last(), id);
        if owner == id {
            assert(rs.drop_last().push(rs.last()) =~= rs);
        }
    } else {
        assert(m =~= Seq::<(Seq<char>, (Seq<char>, bool))>::empty());
        assert(rs =~= Seq::<(Seq<char>, bool)>::empty());
    }
}

/// The reference rows of the first `n` blocks that belong to block `t` are exactly its
/// references, when identifiers are distinct.
pub proof fn lemma_reference_rows_of_block(bs: Seq<BlockView>, n: int, t: int)
    requires
        crate::aggregates::unique_ids(bs),
        0 <= t < bs.len(),
        0 <= n <= bs.len(),
    ensures
        references_for(reference_rows_of(bs, n), bs[t].id) == (if t < n { bs[t].refs } else { Seq::<(Seq<char>, bool)>::empty() }),
    decreases n,
{
    if n > 0 {
        lemma_reference_rows_of_block(bs, n - 1, t);
        lemma_references_for_concat(reference_rows_of(bs, n - 1), bs[n - 1].refs.map_values(|r: (Seq<char>, bool)| (bs[n - 1].id, r)), bs[t].id);
        lemma_references_for_block(bs[n - 1].id, bs[n - 1].refs, bs[t].id);
        if n - 1 != t {
            assert(bs[n - 1].id != bs[t].id);
        }
        assert(references_for(reference_rows_of(bs, n), bs[t].id) =~= (if t < n { bs[t].refs } else { Seq::<(Seq<char>, bool)>::empty() }));
    } else {
        assert(reference_rows_of(bs, n) =~= Seq::<(Seq<char>, (Seq<char>, bool))>::empty());
    }
}

/// Every URL row of the first `n` blocks carries a URL of the block it names.
pub proof fn lemma_url_rows_from_blocks(bs: Seq<BlockView>, n: int, k: int)
    requires
        0 <= n <= bs.len(),
        0 <= k < url_rows_of(bs, n).len(),
    ensures
        exists|m: int| 0 <= m < n && url_rows_of(bs, n)[k].0 == bs[m].id && #[trigger] bs[m].urls.contains(url_rows_of(bs, n)[k].1),
    decreases n,
{
    let prev = url_rows_of(bs, n - 1);
    let last = bs[n - 1].urls.map_values(|u: Seq<char>| (bs[n - 1].id, u));
    assert(url_rows_of(bs, n) == prev + last);
    if k < prev.len() {
        lemma_url_rows_from_blocks(bs, n - 1, k);
        assert((prev + last)[k] == prev[k]);
    } else {
        let j = k - prev.len();
        assert((prev + last)[k] == last[j]);
        assert(bs[n - 1].urls[j] == last[j].1);
        assert(bs[n - 1].urls.contains(last[j].1));
    }
}

/// Every reference row of the first `n` blocks carries a reference of the block it names.
pub proof fn lemma_reference_rows_from_blocks(bs: Seq<BlockView>, n: int, k: int)
    requires
        0 <= n <= bs.len(),
        0 <= k < reference_rows_of(bs, n).len(),
    ensures
        exists|m: int| 0 <= m < n && reference_rows_of(bs, n)[k].0 == bs[m].id && #[trigger] bs[m].refs.contains(reference_rows_of(bs, n)[k].1),
    decreases n,
{
    let prev = reference_rows_of(bs, n - 1);
    let last = bs[n - 1].refs.map_values(|r: (Seq<char>, bool)| (bs[n - 1].id, r));
    assert(reference_rows_of(bs, n) == prev + last);
    if k < prev.len() {
        lemma_reference_rows_from_blocks(bs, n - 1, k);
        assert((prev + last)[k] == prev[k]);
    } else {
        let j = k - prev.len();
        assert((prev + last)[k] == last[j]);
        assert(bs[n - 1].refs[j] == last[j].1);
        assert(bs[n - 1].refs.contains(last[j].1));
    }
}

/// The rows that saving a well-formed page writes always load back.
pub proof fn lemma_saved_rows_load(page: Page, rows: PageRows)
    requires
        page.wf(),
        rows.page_id@ == page.id_view(),
        block_row_views(rows.blocks@) == Seq::new(page.blocks_view().len(), |i: int| row_of(page.blocks_view()[i], i)),
        url_row_views(rows.urls@) == url_rows_of(page.blocks_view(), page.blocks_view().len() as int),
        reference_row_views(rows.references@) == reference_rows_of(page.blocks_view(), page.blocks_view().len() as int),
    ensures
        loadable(rows),
{
    let bs = page.blocks_view();
    let n = bs.len() as int;
    let bv = block_row_views(rows.blocks@);
    let uv = url_row_views(rows.urls@);
    let fv = reference_row_views(rows.references@);
    assert forall|t: int| 0 <= t < bv.len() implies (#[trigger] bv[t]).0.len() > 0 by {
        assert(bv[t] == row_of(bs[t], t));
        assert(crate::aggregates::links_ok(bs, t));
    }
    assert forall|a: int, b: int| 0 <= a < bv.len() && 0 <= b < bv.len() && a != b implies (#[trigger] bv[a]).0 != (#[trigger] bv[b]).0 by {
        assert(bv[a] == row_of(bs[a], a));
        assert(bv[b] == row_of(bs[b], b));
    }
    assert forall|t: int| 0 <= t < bv.len() && (#[trigger] bv[t]).1 is Some implies exists|p: int| 0 <= p < t && (#[trigger] bv[p]).0 == bv[t].1->0 by {
        assert(bv[t] == row_of(bs[t], t));
        assert(crate::aggregates::parent_ok(bs, t));
        let j = crate::aggregates::index_of(bs, bs[t].parent->0);
        assert(bv[j] == row_of(bs[j], j));
        assert(bs[j].id == bs[t].parent->0) by {
            if !has_id(bs, bs[t].parent->0) {
                assert(j == -1);
            }
        }
    }
    assert forall|t: int, k: int| 0 <= t < bv.len() && 0 <= k < uv.len() && (#[trigger] uv[k]).0 == (#[trigger] bv[t]).0 implies crate::value_objects::is_url_text(uv[k].1) by {
        lemma_url_rows_from_blocks(bs, n, k);
        let m = choose|m: int| 0 <= m < n && url_rows_of(bs, n)[k].0 == bs[m].id && #[trigger] bs[m].urls.contains(url_rows_of(bs, n)[k].1);
        assert(crate::aggregates::links_ok(bs, m));
        let q = choose|q: int| 0 <= q < bs[m].urls.len() && bs[m].urls[q] == uv[k].1;
        assert(crate::value_objects::is_url_text(bs[m].urls[q]));
    }
    assert forall|t: int, k: int| 0 <= t < bv.len() && 0 <= k < fv.len() && (#[trigger] fv[k]).0 == (#[trigger] bv[t]).0 implies fv[k].1.0.len() > 0 by {
        lemma_reference_rows_from_blocks(bs, n, k);
        let m = choose|m: int| 0 <= m < n && reference_rows_of(bs, n)[k].0 == bs[m].id && #[trigger] bs[m].refs.contains(reference_rows_of(bs, n)[k].1);
        assert(crate::aggregates::links_ok(bs, m));
        let q = choose|q: int| 0 <= q < bs[m].refs.len() && bs[m].refs[q] == fv[k].1;
        assert(bs[m].refs[q].0.len() > 0);
    }
}

/// Dropping repeats from a sequence without repeats leaves it as it is.
pub proof fn lemma_dedup_distinct<A>(s: Seq<A>)
    requires
        s.no_duplicates(),
    ensures
        dedup(s) == s,
    decreases s.len(),
{
    if s.len() > 0 {
        let d = s.drop_last();
        assert(d.no_duplicates()) by {
            assert forall|i: int, j: int| 0 <= i < d.len() && 0 <= j < d.len() && i != j implies d[i] != d[j] by {
                assert(d[i] == s[i] && d[j] == s[j]);
            }
        }
        lemma_dedup_distinct(d);
        assert(!d.contains(s.last())) by {
            if d.contains(s.last()) {
                let k = choose|k: int| 0 <= k < d.len() && d[k] == s.last();
                assert(s[k] == s[s.len() - 1]);
            }
        }
        assert(d.push(s.last()) =~= s);
    }
}

/// A page loaded back from the rows its save wrote has the saved page's identifier and title
/// and, block for block in the same order, the same identifiers, contents, parents, ordered
/// children, URLs and references.
pub proof fn lemma_load_after_save(page: Page, rows: PageRows, loaded: Page)
    requires
        page.wf(),
        rows.page_id@ == page.id_view(),
        rows.title@ == page.title_view(),
        block_row_views(rows.blocks@) == Seq::new(page.blocks_view().len(), |i: int| row_of(page.blocks_view()[i], i)),
        url_row_views(rows.urls@) == url_rows_of(page.blocks_view(), page.blocks_view().len() as int),
        reference_row_views(rows.references@) == reference_rows_of(page.blocks_view(), page.blocks_view().len() as int),
        loaded.wf(),
        loaded.id_view() == rows.page_id@,
        loaded.title_view() == rows.title@,
        loaded.blocks_view().len() == rows.blocks@.len(),
        forall|t: int| 0 <= t < rows.blocks@.len() ==> as_stored(#[trigger] loaded.blocks_view()[t]) == loaded_block(rows, t),
    ensures
        loaded.id_view() == page.id_view(),
        loaded.title_view() == page.title_view(),
        loaded.blocks_view().len() == page.blocks_view().len(),
        forall|t: int| 0 <= t < page.blocks_view().len() ==> {
            let a = #[trigger] loaded.blocks_view()[t];
            let b = page.blocks_view()[t];
            &&& a.id == b.id
            &&& a.content == b.content
            &&& a.parent == b.parent
            &&& a.children == b.children
            &&& a.urls == b.urls
            &&& a.refs == b.refs
        },
{
    let bs = page.blocks_view();
    let n = bs.len() as int;
    assert(block_row_views(rows.blocks@).len() == rows.blocks@.len());
    assert forall|i: int| 0 <= i < n implies (#[trigger] loaded.blocks_view()[i]).id == bs[i].id && loaded.blocks_view()[i].parent == bs[i].parent by {
        assert(as_stored(loaded.blocks_view()[i]) == loaded_block(rows, i));
        assert(block_row_views(rows.blocks@)[i] == row_of(bs[i], i));
    }
    assert forall|t: int| 0 <= t < n implies {
        let a = #[trigger] loaded.blocks_view()[t];
        let b = bs[t];
        &&& a.id == b.id
        &&& a.content == b.content
        &&& a.parent == b.parent
        &&& a.children == b.children
        &&& a.urls == b.urls
        &&& a.refs == b.refs
    } by {
        assert(crate::aggregates::links_ok(bs, t));
        lemma_dedup_distinct(bs[t].urls);
        lemma_dedup_distinct(bs[t].refs);
        assert(as_stored(loaded.blocks_view()[t]) == loaded_block(rows, t));
        assert(block_row_views(rows.blocks@)[t] == row_of(bs[t], t));
        lemma_url_rows_of_block(bs, n, t);
        lemma_reference_rows_of_block(bs, n, t);
        assert(crate::aggregates::children_ok(bs, t));
        assert(crate::aggregates::children_ok(loaded.blocks_view(), t));
        lemma_child_ids_skeleton(loaded.blocks_view(), bs, bs[t].id);
    }
}

} // verus!
