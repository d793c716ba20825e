//! Keyword search over pages, blocks and URLs, with the context of each hit.

use crate::aggregates::{
    ancestors_of, blocks_at, descendants_of, path_of, refs_of_blocks,
    urls_of_blocks, Page,
};
use crate::base::DomainResult;
use crate::dto::{
    BlockResult, PageResult, ResultType, SearchItem, SearchRequest, SearchResult, UrlResult,
};
use crate::entities::{ref_values, url_texts};
use crate::repository::PageRepository;
use crate::text::{contains_seq, has_infix, has_prefix, lower_of, lowercase, chars_of, starts_with};
use crate::use_cases::{contents, contents_of, owned_references};
use crate::value_objects::{PageId, Url};
use vstd::prelude::*;

verus! {

/// The value of a search hit.
pub enum HitView {
    PageHit {
        page_id: Seq<char>,
        title: Seq<char>,
        block_count: nat,
        urls: Seq<Seq<char>>,
        refs: Seq<(Seq<char>, bool)>,
    },
    BlockHit {
        block_id: Seq<char>,
        content: Seq<char>,
        page_id: Seq<char>,
        page_title: Seq<char>,
        path: Seq<Seq<char>>,
        related_pages: Seq<(Seq<char>, bool)>,
        related_urls: Seq<Seq<char>>,
    },
    UrlHit {
        url: Seq<char>,
        block_id: Seq<char>,
        block_content: Seq<char>,
        page_id: Seq<char>,
        page_title: Seq<char>,
        ancestor_refs: Seq<(Seq<char>, bool)>,
        descendant_refs: Seq<(Seq<char>, bool)>,
    },
}

/// Score in tenths of a matched title or content: 10 exact, 9 prefix, 7 elsewhere.
pub open spec fn text_score(t: Seq<char>, q: Seq<char>) -> nat {
    if t == q {
        10
    } else if has_prefix(t, q) {
        9
    } else {
        7
    }
}

/// Score in tenths of a matched URL: 10 exact, 9 prefix, 8 elsewhere.
pub open spec fn url_score(t: Seq<char>, q: Seq<char>) -> nat {
    if t == q {
        10
    } else if has_prefix(t, q) {
        9
    } else {
        8
    }
}

/// The page itself as a hit, when its lowered title contains `q`.
pub open spec fn page_hits(p: Page, q: Seq<char>) -> Seq<(HitView, nat)> {
    let t = lower_of(p.title_view());
    let bs = p.blocks_view();
    if has_infix(t, q) {
        seq![
            (
                HitView::PageHit {
                    page_id: p.id_view(),
                    title: p.title_view(),
                    block_count: bs.len(),
                    urls: urls_of_blocks(bs),
                    refs: refs_of_blocks(bs),
                },
                text_score(t, q),
            ),
        ]
    } else {
        Seq::empty()
    }
}

/// The hit for block `i` of page `p`.
pub open spec fn block_hit(p: Page, i: int) -> HitView {
    let bs = p.blocks_view();
    let anc = blocks_at(bs, ancestors_of(bs, i));
    let desc = blocks_at(bs, descendants_of(bs, i));
    HitView::BlockHit {
        block_id: bs[i].id,
        content: bs[i].content,
        page_id: p.id_view(),
        page_title: p.title_view(),
        path: contents(path_of(bs, i)),
        related_pages: refs_of_blocks(anc) + refs_of_blocks(desc),
        related_urls: urls_of_blocks(anc) + urls_of_blocks(desc),
    }
}

/// The blocks among the first `n` of `p` whose lowered content contains `q`.
pub open spec fn block_hits(p: Page, q: Seq<char>, n: int) -> Seq<(HitView, nat)>
    decreases n,
{
    if n <= 0 || n > p.blocks_view().len() {
        Seq::empty()
    } else {
        let c = lower_of(p.blocks_view()[n - 1].content);
        block_hits(p, q, n - 1) + (if has_infix(c, q) {
            seq![(block_hit(p, n - 1), text_score(c, q))]
        } else {
            Seq::empty()
        })
    }
}

/// The hit for URL `u` of block `i` of page `p`, when its lowered text contains `q`.
pub open spec fn url_hit(p: Page, i: int, u: Seq<char>, q: Seq<char>) -> Seq<(HitView, nat)> {
    let bs = p.blocks_view();
    let l = lower_of(u);
    if has_infix(l, q) {
        seq![
            (
                HitView::UrlHit {
                    url: u,
                    block_id: bs[i].id,
                    block_content: bs[i].content,
                    page_id: p.id_view(),
                    page_title: p.title_view(),
                    ancestor_refs: refs_of_blocks(blocks_at(bs, ancestors_of(bs, i))),
                    descendant_refs: refs_of_blocks(blocks_at(bs, descendants_of(bs, i))),
                },
                url_score(l, q),
            ),
        ]
    } else {
        Seq::empty()
    }
}

/// The hits among the first `k` URLs of block `i`.
pub open spec fn block_url_hits(p: Page, q: Seq<char>, i: int, k: int) -> Seq<(HitView, nat)>
    decreases k,
{
    if k <= 0 || k > p.blocks_view()[i].urls.len() {
        Seq::empty()
    } else {
        block_url_hits(p, q, i, k - 1) + url_hit(p, i, p.blocks_view()[i].urls[k - 1], q)
    }
}

/// The URL hits of the first `n` blocks of page `p`, block after block.
pub open spec fn url_hits_upto(p: Page, q: Seq<char>, n: int) -> Seq<(HitView, nat)>
    decreases n,
{
    if n <= 0 || n > p.blocks_view().len() {
        Seq::empty()
    } else {
        url_hits_upto(p, q, n - 1) + block_url_hits(p, q, n - 1, p.blocks_view()[n - 1].urls.len() as int)
    }
}

/// The URL hits of page `p`.
pub open spec fn page_url_hits(p: Page, q: Seq<char>) -> Seq<(HitView, nat)> {
    url_hits_upto(p, q, p.blocks_view().len() as int)
}

pub open spec fn wants_pages(rt: ResultType) -> bool {
    rt == ResultType::PagesOnly || rt == ResultType::All
}

pub open spec fn wants_blocks(rt: ResultType) -> bool {
    rt == ResultType::BlocksOnly || rt == ResultType::All
}

pub open spec fn wants_urls(rt: ResultType) -> bool {
    rt == ResultType::UrlsOnly || rt == ResultType::All
}

/// The hits of the pages in discovery order: per page, the page, then its blocks, then its URLs.
pub open spec fn hits_in_order(ps: Seq<Page>, q: Seq<char>, rt: ResultType) -> Seq<(HitView, nat)>
    decreases ps.len(),
{
    if ps.len() == 0 {
        Seq::empty()
    } else {
        let p = ps.last();
        hits_in_order(ps.drop_last(), q, rt) + (if wants_pages(rt) {
            page_hits(p, q)
        } else {
            Seq::empty()
        }) + (if wants_blocks(rt) {
            block_hits(p, q, p.blocks_view().len() as int)
        } else {
            Seq::empty()
        }) + (if wants_urls(rt) {
            page_url_hits(p, q)
        } else {
            Seq::empty()
        })
    }
}

/// The hits with score `s`, in order.
pub open spec fn scored(hs: Seq<(HitView, nat)>, s: nat) -> Seq<(HitView, nat)>
    decreases hs.len(),
{
    if hs.len() == 0 {
        Seq::empty()
    } else {
        scored(hs.drop_last(), s) + (if hs.last().1 == s {
            seq![hs.last()]
        } else {
            Seq::empty()
        })
    }
}

/// The hits by descending score; equal scores keep their order.
pub open spec fn ranked(hs: Seq<(HitView, nat)>) -> Seq<(HitView, nat)> {
    scored(hs, 10) + scored(hs, 9) + scored(hs, 8) + scored(hs, 7)
}

pub open spec fn hit_view(r: SearchResult) -> (HitView, nat) {
    (
        match r.item {
            SearchItem::Page(p) => HitView::PageHit {
                page_id: p.page_id@,
                title: p.title@,
                block_count: p.block_count as nat,
                urls: url_texts(p.urls@),
                refs: ref_values(p.page_references@),
            },
            SearchItem::Block(b) => HitView::BlockHit {
                block_id: b.block_id@,
                content: b.content@,
                page_id: b.page_id@,
                page_title: b.page_title@,
                path: b.hierarchy_path@.map_values(|s: String| s@),
                related_pages: ref_values(b.related_pages@),
                related_urls: url_texts(b.related_urls@),
            },
            SearchItem::Url(u) => HitView::UrlHit {
                url: u.url@,
                block_id: u.containing_block_id@,
                block_content: u.containing_block_content@,
                page_id: u.page_id@,
                page_title: u.page_title@,
                ancestor_refs: ref_values(u.ancestor_page_refs@),
                descendant_refs: ref_values(u.descendant_page_refs@),
            },
        },
        r.score_tenths as nat,
    )
}

pub open spec fn hit_views(v: Seq<SearchResult>) -> Seq<(HitView, nat)> {
    v.map_values(|r: SearchResult| hit_view(r))
}

/// Score of a matched title or content; `t` must contain `q`.
pub fn score_text(t: &[char], q: &[char]) -> (r: u32)
    ensures
        r == text_score(t@, q@),
{
    if t.len() == q.len() && starts_with(t, q) {
        proof {
            assert(t@ =~= q@);
        }
        10
    } else if starts_with(t, q) {
        proof {
            assert(t@.len() != q@.len());
        }
        9
    } else {
        proof {
            if t@ == q@ {
                assert(t@.subrange(0, q@.len() as int) =~= q@);
            }
        }
        7
    }
}

/// Owned copies of borrowed URLs, in order.
pub fn owned_urls(urls: &Vec<&Url>) -> (r: Vec<Url>)
    ensures
        url_texts(r@) == crate::aggregates::url_ref_views(urls@),
{
    let mut out: Vec<Url> = Vec::new();
    let mut i: usize = 0;
    while i < urls.len()
        invariant
            i <= urls@.len(),
            url_texts(out@) == crate::aggregates::url_ref_views(urls@).take(i as int),
        decreases urls.len() - i,
    {
        let ghost before = out@;
        out.push(urls[i].clone());
        proof {
            assert(url_texts(out@) =~= url_texts(before).push(urls@[i as int]@));
            assert(crate::aggregates::url_ref_views(urls@).take(i + 1) =~= crate::aggregates::url_ref_views(urls@).take(i as int).push(urls@[i as int]@));
        }
        i = i + 1;
    }
    proof {
        assert(crate::aggregates::url_ref_views(urls@).take(urls@.len() as int) =~= crate::aggregates::url_ref_views(urls@));
    }
    out
}

/// The page as a hit when its lowered title contains the lowered query `query_lower`.
pub fn search_page(page: &Page, query_lower: &str) -> (r: Option<SearchResult>)
    requires
        page.wf(),
    ensures
        r matches Some(x) ==> page_hits(*page, query_lower@) == seq![hit_view(x)],
        r is None ==> page_hits(*page, query_lower@) == Seq::<(HitView, nat)>::empty(),
{
    let title_lower = lowercase(page.title());
    let t = chars_of(title_lower.as_str());
    let q = chars_of(query_lower);
    if !contains_seq(t.as_slice(), q.as_slice()) {
        return None;
    }
    let score = score_text(t.as_slice(), q.as_slice());
    let urls = page.all_urls();
    let refs = page.all_page_references();
    let blocks = page.blocks();
    proof {
        assert(blocks@.map_values(|b: crate::entities::Block| b@).len() == blocks@.len());
    }
    let r = SearchResult {
        item: SearchItem::Page(
            PageResult {
                page_id: page.page_id().clone(),
                title: page.title().to_string(),
                block_count: blocks.len(),
                urls: owned_urls(&urls),
                page_references: owned_references(&refs),
            },
        ),
        score_tenths: score,
    };
    Some(r)
}

/// Each block of the page whose lowered content contains the lowered query, with its path
/// and the links of its ancestors and descendants.
pub fn search_blocks(page: &Page, query_lower: &str) -> (r: Vec<SearchResult>)
    requires
        page.wf(),
    ensures
        hit_views(r@) == block_hits(*page, query_lower@, page.blocks_view().len() as int),
{
    let ghost bs = page.blocks_view();
    let q = chars_of(query_lower);
    let blocks = page.blocks();
    let mut out: Vec<SearchResult> = Vec::new();
    let mut i: usize = 0;
    while i < blocks.len()
        invariant
            page.wf(),
            bs == page.blocks_view(),
            bs == blocks@.map_values(|b: crate::entities::Block| b@),
            q@ == query_lower@,
            i <= bs.len(),
            hit_views(out@) == block_hits(*page, q@, i as int),
        decreases blocks.len() - i,
    {
        let block = &blocks[i];
        let c = lowercase(block.content().as_str());
        let cs = chars_of(c.as_str());
        if contains_seq(cs.as_slice(), q.as_slice()) {
            proof {
                crate::aggregates::lemma_index_of(bs, i as int);
            }
            let score = score_text(cs.as_slice(), q.as_slice());
            let path = page.get_hierarchy_path(block.id());
            let ancestors = page.get_ancestors(block.id());
            let descendants = page.get_descendants(block.id());
            let mut related_pages = owned_references(&crate::aggregates::references_in(&ancestors));
            let mut more_pages = owned_references(&crate::aggregates::references_in(&descendants));
            let ghost rp1 = related_pages@;
            let ghost rp2 = more_pages@;
            related_pages.append(&mut more_pages);
            let mut related_urls = owned_urls(&crate::aggregates::urls_in(&ancestors));
            let mut more_urls = owned_urls(&crate::aggregates::urls_in(&descendants));
            let ghost ru1 = related_urls@;
            let ghost ru2 = more_urls@;
            related_urls.append(&mut more_urls);
            proof {
                assert(ref_values(related_pages@) =~= ref_values(rp1) + ref_values(rp2));
                assert(url_texts(related_urls@) =~= url_texts(ru1) + url_texts(ru2));
            }
            let ghost before = out@;
            out.push(
                SearchResult {
                    item: SearchItem::Block(
                        BlockResult {
                            block_id: block.id().clone(),
                            content: block.content().as_str().to_string(),
                            page_id: page.page_id().clone(),
                            page_title: page.title().to_string(),
                            hierarchy_path: contents_of(&path),
                            related_pages,
                            related_urls,
                        },
                    ),
                    score_tenths: score,
                },
            );
            proof {
                assert(hit_views(out@) =~= hit_views(before).push((block_hit(*page, i as int), text_score(cs@, q@))));
            }
        }
        i = i + 1;
    }
    out
}

/// Score of a matched URL; `t` must contain `q`.
pub fn score_url(t: &[char], q: &[char]) -> (r: u32)
    ensures
        r == url_score(t@, q@),
{
    if t.len() == q.len() && starts_with(t, q) {
        proof {
            assert(t@ =~= q@);
        }
        10
    } else if starts_with(t, q) {
        proof {
            assert(t@.len() != q@.len());
        }
        9
    } else {
        proof {
            if t@ == q@ {
                assert(t@.subrange(0, q@.len() as int) =~= q@);
            }
        }
        8
    }
}

/// Each URL of the page whose lowered text contains the lowered query, with the block that
/// holds it and the references around that block; blocks in page order.
pub fn search_urls(page: &Page, query_lower: &str) -> (r: Vec<SearchResult>)
    requires
        page.wf(),
    ensures
        hit_views(r@) == page_url_hits(*page, query_lower@),
{
    let ghost bs = page.blocks_view();
    let q = chars_of(query_lower);
    let blocks = page.blocks();
    let mut out: Vec<SearchResult> = Vec::new();
    let mut i: usize = 0;
    while i < blocks.len()
        invariant
            page.wf(),
            bs == page.blocks_view(),
            bs == blocks@.map_values(|b: crate::entities::Block| b@),
            q@ == query_lower@,
            i <= bs.len(),
            hit_views(out@) == url_hits_upto(*page, q@, i as int),
        decreases blocks.len() - i,
    {
        let block = &blocks[i];
        proof {
            crate::aggregates::lemma_index_of(bs, i as int);
        }
        let ancestors = page.get_ancestors(block.id());
        let descendants = page.get_descendants(block.id());
        let up = crate::aggregates::references_in(&ancestors);
        let down = crate::aggregates::references_in(&descendants);
        let us = block.urls();
        let ghost start = hit_views(out@);
        let mut k: usize = 0;
        while k < us.len()
            invariant
                page.wf(),
                bs == page.blocks_view(),
                i < bs.len(),
                block@ == bs[i as int],
                q@ == query_lower@,
                crate::entities::url_texts(us@) == bs[i as int].urls,
                crate::aggregates::reference_ref_views(up@) == refs_of_blocks(blocks_at(bs, ancestors_of(bs, i as int))),
                crate::aggregates::reference_ref_views(down@) == refs_of_blocks(blocks_at(bs, descendants_of(bs, i as int))),
                k <= us@.len(),
                hit_views(out@) == start + block_url_hits(*page, q@, i as int, k as int),
            decreases us.len() - k,
        {
            let l = lowercase(us[k].as_str());
            let ls = chars_of(l.as_str());
            proof {
                assert(bs[i as int].urls[k as int] == us@[k as int]@);
            }
            if contains_seq(ls.as_slice(), q.as_slice()) {
                let score = score_url(ls.as_slice(), q.as_slice());
                let ghost before = out@;
                out.push(
                    SearchResult {
                        item: SearchItem::Url(
                            UrlResult {
                                url: us[k].clone(),
                                containing_block_id: block.id().clone(),
                                containing_block_content: block.content().as_str().to_string(),
                                page_id: page.page_id().clone(),
                                page_title: page.title().to_string(),
                                ancestor_page_refs: owned_references(&up),
                                descendant_page_refs: owned_references(&down),
                            },
                        ),
                        score_tenths: score,
                    },
                );
                proof {
                    assert(hit_views(out@) =~= hit_views(before) + url_hit(*page, i as int, us@[k as int]@, q@));
                }
            } else {
                proof {
                    assert(url_hit(*page, i as int, us@[k as int]@, q@) =~= Seq::<(HitView, nat)>::empty());
                    assert(hit_views(out@) + url_hit(*page, i as int, us@[k as int]@, q@) =~= hit_views(out@));
                }
            }
            k = k + 1;
        }
        proof {
            assert(url_hits_upto(*page, q@, i + 1) == url_hits_upto(*page, q@, i as int) + block_url_hits(*page, q@, i as int, us@.len() as int));
        }
        i = i + 1;
    }
    out
}

/// Scoring splits over concatenation.
pub proof fn lemma_scored_concat(a: Seq<(HitView, nat)>, b: Seq<(HitView, nat)>, s: nat)
    ensures
        scored(a + b, s) == scored(a, s) + scored(b, s),
    decreases b.len(),
{
    if b.len() == 0 {
        assert(a + b =~= a);
        assert(scored(a, s) + scored(b, s) =~= scored(a, s));
    } else {
        assert((a + b).drop_last() =~= a + b.drop_last());
        assert((a + b).last() == b.last());
        lemma_scored_concat(a, b.drop_last(), s);
    }
}

/// Moves the hits of `batch` into the buckets of their scores, keeping their order.
fn distribute(
    batch: Vec<SearchResult>,
    b10: &mut Vec<SearchResult>,
    b9: &mut Vec<SearchResult>,
    b8: &mut Vec<SearchResult>,
    b7: &mut Vec<SearchResult>,
)
    ensures
        hit_views(final(b10)@) == hit_views(old(b10)@) + scored(hit_views(batch@), 10),
        hit_views(final(b9)@) == hit_views(old(b9)@) + scored(hit_views(batch@), 9),
        hit_views(final(b8)@) == hit_views(old(b8)@) + scored(hit_views(batch@), 8),
        hit_views(final(b7)@) == hit_views(old(b7)@) + scored(hit_views(batch@), 7),
{
    let ghost all = hit_views(batch@);
    let mut rest = batch;
    let ghost mut k: int = 0;
    while rest.len() > 0
        invariant
            0 <= k <= all.len(),
            hit_views(rest@) == all.subrange(k, all.len() as int),
            hit_views(b10@) == hit_views(old(b10)@) + scored(all.take(k), 10),
            hit_views(b9@) == hit_views(old(b9)@) + scored(all.take(k), 9),
            hit_views(b8@) == hit_views(old(b8)@) + scored(all.take(k), 8),
            hit_views(b7@) == hit_views(old(b7)@) + scored(all.take(k), 7),
        decreases rest@.len(),
    {
        let ghost rv = rest@;
        proof {
            assert(hit_views(rv).len() == rv.len());
            assert(hit_views(rv)[0] == hit_view(rv[0]));
            assert(all.subrange(k, all.len() as int)[0] == all[k]);
        }
        let x = rest.remove(0);
        proof {
            assert(x == rv[0]);
            assert(rest@ =~= rv.subrange(1, rv.len() as int));
            assert(hit_view(x) == all[k]);
            assert forall|j: int| 0 <= j < rest@.len() implies hit_views(rest@)[j] == all.subrange(k + 1, all.len() as int)[j] by {
                assert(rest@[j] == rv[j + 1]);
                assert(hit_views(rv)[j + 1] == all.subrange(k, all.len() as int)[j + 1]);
            }
            assert(hit_views(rest@) =~= all.subrange(k + 1, all.len() as int));
            assert(all.take(k + 1).drop_last() =~= all.take(k));
            assert(all.take(k + 1).last() == all[k]);
        }
        let ghost v10 = b10@;
        let ghost v9 = b9@;
        let ghost v8 = b8@;
        let ghost v7 = b7@;
        if x.score_tenths == 10 {
            b10.push(x);
            proof {
                assert(hit_views(b10@) =~= hit_views(v10).push(all[k]));
            }
        } else if x.score_tenths == 9 {
            b9.push(x);
            proof {
                assert(hit_views(b9@) =~= hit_views(v9).push(all[k]));
            }
        } else if x.score_tenths == 8 {
            b8.push(x);
            proof {
                assert(hit_views(b8@) =~= hit_views(v8).push(all[k]));
            }
        } else if x.score_tenths == 7 {
            b7.push(x);
            proof {
                assert(hit_views(b7@) =~= hit_views(v7).push(all[k]));
            }
        }
        proof {
            k = k + 1;
        }
    }
    proof {
        assert(all.take(k) =~= all);
    }
}

/// The hits of `pages` for the lowered query `query_lower`, by descending score; equal scores
/// keep the order in which they were found.
pub fn search_lowered(pages: &Vec<Page>, query_lower: &str, result_type: ResultType) -> (r: Vec<SearchResult>)
    requires
        forall|i: int| 0 <= i < pages@.len() ==> (#[trigger] pages@[i]).wf(),
    ensures
        hit_views(r@) == ranked(hits_in_order(pages@, query_lower@, result_type)),
{
    let ghost q = query_lower@;
    let mut b10: Vec<SearchResult> = Vec::new();
    let mut b9: Vec<SearchResult> = Vec::new();
    let mut b8: Vec<SearchResult> = Vec::new();
    let mut b7: Vec<SearchResult> = Vec::new();
    let mut i: usize = 0;
    while i < pages.len()
        invariant
            i <= pages@.len(),
            q == query_lower@,
            forall|j: int| 0 <= j < pages@.len() ==> (#[trigger] pages@[j]).wf(),
            hit_views(b10@) == scored(hits_in_order(pages@.take(i as int), q, result_type), 10),
            hit_views(b9@) == scored(hits_in_order(pages@.take(i as int), q, result_type), 9),
            hit_views(b8@) == scored(hits_in_order(pages@.take(i as int), q, result_type), 8),
            hit_views(b7@) == scored(hits_in_order(pages@.take(i as int), q, result_type), 7),
        decreases pages.len() - i,
    {
        let page = &pages[i];
        let ghost prev = hits_in_order(pages@.take(i as int), q, result_type);
        let ghost ph: Seq<(HitView, nat)> = if wants_pages(result_type) { page_hits(*page, q) } else { Seq::empty() };
        let ghost bh: Seq<(HitView, nat)> = if wants_blocks(result_type) { block_hits(*page, q, page.blocks_view().len() as int) } else { Seq::empty() };
        let ghost uh: Seq<(HitView, nat)> = if wants_urls(result_type) { page_url_hits(*page, q) } else { Seq::empty() };
        let mut batch: Vec<SearchResult> = Vec::new();
        if result_type == ResultType::PagesOnly || result_type == ResultType::All {
            match search_page(page, query_lower) {
                Some(x) => {
                    batch.push(x);
                },
                None => {},
            }
        }
        proof {
            assert(hit_views(batch@) =~= ph);
        }
        if result_type == ResultType::BlocksOnly || result_type == ResultType::All {
            let mut bl = search_blocks(page, query_lower);
            batch.append(&mut bl);
        }
        proof {
            assert(hit_views(batch@) =~= ph + bh);
        }
        if result_type == ResultType::UrlsOnly || result_type == ResultType::All {
            let mut ul = search_urls(page, query_lower);
            batch.append(&mut ul);
        }
        proof {
            assert(hit_views(batch@) =~= ph + bh + uh);
            assert(pages@.take(i + 1).drop_last() =~= pages@.take(i as int));
            assert(pages@.take(i + 1).last() == *page);
            assert(hits_in_order(pages@.take(i + 1), q, result_type) == prev + ph + bh + uh);
            assert(prev + ph + bh + uh =~= prev + (ph + bh + uh));
            lemma_scored_concat(prev, ph + bh + uh, 10);
            lemma_scored_concat(prev, ph + bh + uh, 9);
            lemma_scored_concat(prev, ph + bh + uh, 8);
            lemma_scored_concat(prev, ph + bh + uh, 7);
        }
        distribute(batch, &mut b10, &mut b9, &mut b8, &mut b7);
        i = i + 1;
    }
    proof {
        assert(pages@.take(pages@.len() as int) =~= pages@);
    }
    let ghost v10 = b10@;
    let ghost v9 = b9@;
    let ghost v8 = b8@;
    let ghost v7 = b7@;
    b10.append(&mut b9);
    b10.append(&mut b8);
    b10.append(&mut b7);
    proof {
        assert(hit_views(b10@) =~= hit_views(v10) + hit_views(v9) + hit_views(v8) + hit_views(v7));
    }
    b10
}

/// The hits of `pages` for the request: its query lowered, then ranked.
pub fn traditional_search(pages: &Vec<Page>, request: &SearchRequest) -> (r: Vec<SearchResult>)
    requires
        forall|i: int| 0 <= i < pages@.len() ==> (#[trigger] pages@[i]).wf(),
    ensures
        hit_views(r@) == ranked(hits_in_order(pages@, lower_of(request.query@), request.result_type)),
{
    let query_lower = lowercase(request.query.as_str());
    search_lowered(pages, query_lower.as_str(), request.result_type)
}

/// The pages agree pairwise in identifier, title, blocks and roots.
pub open spec fn same_pages(a: Seq<Page>, b: Seq<Page>) -> bool {
    a.len() == b.len() && forall|i: int| 0 <= i < a.len() ==> crate::repository::same_page(#[trigger] a[i], b[i])
}

pub open spec fn page_id_views(v: Seq<PageId>) -> Seq<Seq<char>> {
    v.map_values(|p: PageId| p@)
}

/// The stored pages among identifiers `ids`, in their order; absent ones are skipped.
pub open spec fn stored_among<R: PageRepository>(repo: R, ids: Seq<Seq<char>>) -> Seq<Page>
    decreases ids.len(),
{
    if ids.len() == 0 {
        Seq::empty()
    } else {
        stored_among(repo, ids.drop_last()) + match repo.stored_page(ids.last()) {
            Some(p) => seq![p],
            None => Seq::empty(),
        }
    }
}

/// Keyword search over the pages of a repository.
pub struct SearchPagesAndBlocks<'a, R: PageRepository> {
    repository: &'a R,
}

impl<'a, R: PageRepository> SearchPagesAndBlocks<'a, R> {
    /// The repository searched.
    pub closed spec fn repository_view(&self) -> R {
        *self.repository
    }

    pub fn new(repository: &'a R) -> (r: Self) {
        SearchPagesAndBlocks { repository }
    }

    /// The stored pages named by `page_ids`, skipping those that are absent.
    fn get_filtered_pages(&self, page_ids: &Vec<PageId>) -> (r: DomainResult<Vec<Page>>)
        ensures
            r matches Ok(v) ==> forall|i: int| 0 <= i < v@.len() ==> (#[trigger] v@[i]).wf(),
            self.repository.modeled() ==> (r matches Ok(v) ==> v@.len() == stored_among(*self.repository, page_id_views(page_ids@)).len()
                && forall|i: int| 0 <= i < v@.len() ==> crate::repository::same_page(
                #[trigger] v@[i],
                stored_among(*self.repository, page_id_views(page_ids@))[i],
            )),
    {
        let ghost ids = page_id_views(page_ids@);
        let mut pages: Vec<Page> = Vec::new();
        let mut i: usize = 0;
        while i < page_ids.len()
            invariant
                i <= page_ids@.len(),
                ids == page_id_views(page_ids@),
                forall|j: int| 0 <= j < pages@.len() ==> (#[trigger] pages@[j]).wf(),
                self.repository.modeled() ==> pages@.len() == stored_among(*self.repository, ids.take(i as int)).len(),
                self.repository.modeled() ==> forall|j: int| 0 <= j < pages@.len() ==> crate::repository::same_page(
                    #[trigger] pages@[j],
                    stored_among(*self.repository, ids.take(i as int))[j],
                ),
            decreases page_ids.len() - i,
        {
            proof {
                assert(ids.take(i + 1).drop_last() =~= ids.take(i as int));
                assert(ids.take(i + 1).last() == page_ids@[i as int]@);
            }
            let ghost before = pages@;
            match self.repository.find_by_id(&page_ids[i])? {
                Some(p) => {
                    pages.push(p);
                    proof {
                        if self.repository.modeled() {
                            assert forall|j: int| 0 <= j < pages@.len() implies crate::repository::same_page(
                                #[trigger] pages@[j],
                                stored_among(*self.repository, ids.take(i + 1))[j],
                            ) by {
                                if j < before.len() {
                                    assert(pages@[j] == before[j]);
                                }
                            }
                        }
                    }
                },
                None => {},
            }
            i = i + 1;
        }
        proof {
            assert(ids.take(page_ids@.len() as int) =~= ids);
        }
        Ok(pages)
    }

    /// Runs the search: over the filtered pages when filters are given, else over all pages.
    /// A semantic request is answered by keyword matching.
    pub fn execute(&self, request: SearchRequest) -> (r: DomainResult<Vec<SearchResult>>)
        ensures
            r matches Ok(v) ==> exists|ps: Seq<Page>|
                hit_views(v@) == ranked(#[trigger] hits_in_order(ps, lower_of(request.query@), request.result_type)),
            self.repository_view().modeled() ==> (r matches Ok(v) ==> (request.page_filters matches Some(ids)
                ==> exists|ps: Seq<Page>|
                #[trigger] same_pages(ps, stored_among(self.repository_view(), page_id_views(ids@))) && hit_views(v@)
                == ranked(hits_in_order(ps, lower_of(request.query@), request.result_type)))),
    {
        let pages = match &request.page_filters {
            Some(ids) => self.get_filtered_pages(ids)?,
            None => self.repository.find_all()?,
        };
        let r = traditional_search(&pages, &request);
        proof {
            if self.repository.modeled() {
                if let Some(ids) = request.page_filters {
                    assert(same_pages(pages@, stored_among(*self.repository, page_id_views(ids@))));
                }
            }
        }
        Ok(r)
    }
}

} // verus!
