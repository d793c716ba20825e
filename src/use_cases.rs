//! Query and indexing use cases over a page repository.

use crate::aggregates::{
    ancestors_of, block_views, blocks_at, descendants_of, index_of, path_of, reference_ref_views, refs_of_blocks, Page,
};
use crate::base::{DomainError, DomainResult};
use crate::dto::{PageConnection, UrlWithContext};
use crate::entities::{ids, ref_values, BlockView};
use crate::repository::PageRepository;
use crate::value_objects::{BlockId, PageId, PageReference, Url};
use vstd::prelude::*;

verus! {

/// Identifiers of the blocks that hold URL `u`, in block order.
pub open spec fn holders(bs: Seq<BlockView>, u: Seq<char>) -> Seq<Seq<char>>
    decreases bs.len(),
{
    if bs.len() == 0 {
        Seq::empty()
    } else {
        holders(bs.drop_last(), u) + (if bs.last().urls.contains(u) {
            seq![bs.last().id]
        } else {
            Seq::empty()
        })
    }
}

/// For each page with a block holding `u`: its identifier, title and those blocks.
pub open spec fn connections(ps: Seq<Page>, u: Seq<char>) -> Seq<(Seq<char>, Seq<char>, Seq<Seq<char>>)>
    decreases ps.len(),
{
    if ps.len() == 0 {
        Seq::empty()
    } else {
        let p = ps.last();
        let h = holders(p.blocks_view(), u);
        connections(ps.drop_last(), u) + (if h.len() > 0 {
            seq![(p.id_view(), p.title_view(), h)]
        } else {
            Seq::empty()
        })
    }
}

pub open spec fn connection_views(v: Seq<PageConnection>) -> Seq<(Seq<char>, Seq<char>, Seq<Seq<char>>)> {
    v.map_values(|c: PageConnection| (c.page_id@, c.page_title@, ids(c.blocks_with_url@)))
}

/// Whether the URLs hold one equal to `url`.
pub fn holds_url(urls: &[Url], url: &Url) -> (r: bool)
    ensures
        r == crate::entities::url_texts(urls@).contains(url@),
{
    let mut i: usize = 0;
    while i < urls.len()
        invariant
            i <= urls@.len(),
            forall|j: int| 0 <= j < i ==> (#[trigger] urls@[j])@ != url@,
        decreases urls.len() - i,
    {
        if urls[i].same(url) {
            proof {
                assert(crate::entities::url_texts(urls@)[i as int] == url@);
            }
            return true;
        }
        i = i + 1;
    }
    proof {
        if crate::entities::url_texts(urls@).contains(url@) {
            let j = choose|j: int| 0 <= j < urls@.len() && crate::entities::url_texts(urls@)[j] == url@;
            assert(urls@[j]@ == url@);
        }
    }
    false
}

/// The pages among `pages` that cite `url`, each with the blocks that hold it.
pub fn pages_citing(pages: &Vec<Page>, url: &Url) -> (r: Vec<PageConnection>)
    ensures
        connection_views(r@) == connections(pages@, url@),
{
    let mut out: Vec<PageConnection> = Vec::new();
    let mut i: usize = 0;
    while i < pages.len()
        invariant
            i <= pages@.len(),
            connection_views(out@) == connections(pages@.take(i as int), url@),
        decreases pages.len() - i,
    {
        let page = &pages[i];
        let blocks = page.blocks();
        let ghost bs = page.blocks_view();
        let mut found: Vec<BlockId> = Vec::new();
        let mut k: usize = 0;
        while k < blocks.len()
            invariant
                k <= blocks@.len(),
                bs == blocks@.map_values(|b: crate::entities::Block| b@),
                ids(found@) == holders(bs.take(k as int), url@),
            decreases blocks.len() - k,
        {
            proof {
                assert(bs.take(k + 1).drop_last() =~= bs.take(k as int));
                assert(bs.take(k + 1).last() == blocks@[k as int]@);
            }
            if holds_url(blocks[k].urls(), url) {
                let ghost before = found@;
                found.push(blocks[k].id().clone());
                proof {
                    assert(ids(found@) =~= ids(before).push(blocks@[k as int]@.id));
                }
            } else {
                proof {
                    assert(holders(bs.take(k + 1), url@) =~= holders(bs.take(k as int), url@));
                }
            }
            k = k + 1;
        }
        proof {
            assert(bs.take(blocks@.len() as int) =~= bs);
            assert(pages@.take(i + 1).drop_last() =~= pages@.take(i as int));
            assert(pages@.take(i + 1).last() == pages@[i as int]);
        }
        if found.len() > 0 {
            let ghost before = out@;
            out.push(
                PageConnection {
                    page_id: page.page_id().clone(),
                    page_title: page.title().to_string(),
                    blocks_with_url: found,
                },
            );
            proof {
                assert(connection_views(out@) =~= connection_views(before).push((page.id_view(), page.title_view(), holders(bs, url@))));
            }
        } else {
            proof {
                assert(connections(pages@.take(i + 1), url@) =~= connections(pages@.take(i as int), url@));
            }
        }
        i = i + 1;
    }
    proof {
        assert(pages@.take(pages@.len() as int) =~= pages@);
    }
    out
}

/// Finds the pages that cite a URL.
pub struct GetPagesForUrl<'a, R: PageRepository> {
    repository: &'a R,
}

impl<'a, R: PageRepository> GetPagesForUrl<'a, R> {
    pub fn new(repository: &'a R) -> (r: Self) {
        GetPagesForUrl { repository }
    }

    /// Every stored page that cites `url`, with the blocks that hold it.
    pub fn execute(&self, url: &Url) -> (r: DomainResult<Vec<PageConnection>>)
        ensures
            r matches Ok(v) ==> exists|ps: Seq<Page>| connection_views(v@) == connections(ps, url@),
    {
        let pages = self.repository.find_all()?;
        let r = pages_citing(&pages, url);
        Ok(r)
    }
}

/// The contents of blocks.
pub open spec fn contents(vs: Seq<BlockView>) -> Seq<Seq<char>> {
    vs.map_values(|b: BlockView| b.content)
}

/// The references of the ancestors of block `i` (nearest first) followed by those of its
/// descendants (pre-order).
pub open spec fn related_refs(bs: Seq<BlockView>, i: int) -> Seq<(Seq<char>, bool)> {
    refs_of_blocks(blocks_at(bs, ancestors_of(bs, i))) + refs_of_blocks(blocks_at(bs, descendants_of(bs, i)))
}

/// The links of block `i`: for each of its URLs, the URL, the block, its content, the contents
/// along its path, and the references around it.
pub open spec fn block_links(bs: Seq<BlockView>, i: int) -> Seq<
    (Seq<char>, Seq<char>, Seq<char>, Seq<Seq<char>>, Seq<(Seq<char>, bool)>),
> {
    bs[i].urls.map_values(
        |u: Seq<char>| (u, bs[i].id, bs[i].content, contents(path_of(bs, i)), related_refs(bs, i)),
    )
}

/// The links of the first `n` blocks, block after block.
pub open spec fn links_upto(bs: Seq<BlockView>, n: int) -> Seq<
    (Seq<char>, Seq<char>, Seq<char>, Seq<Seq<char>>, Seq<(Seq<char>, bool)>),
>
    decreases n,
{
    if n <= 0 || n > bs.len() {
        Seq::empty()
    } else {
        links_upto(bs, n - 1) + block_links(bs, n - 1)
    }
}

pub open spec fn link_views(v: Seq<UrlWithContext>) -> Seq<
    (Seq<char>, Seq<char>, Seq<char>, Seq<Seq<char>>, Seq<(Seq<char>, bool)>),
> {
    v.map_values(
        |l: UrlWithContext|
            (
                l.url@,
                l.block_id@,
                l.block_content@,
                l.hierarchy_path@.map_values(|s: String| s@),
                ref_values(l.related_page_refs@),
            ),
    )
}

/// The contents of the borrowed blocks, as strings.
pub fn contents_of(blocks: &Vec<&crate::entities::Block>) -> (r: Vec<String>)
    ensures
        r@.map_values(|s: String| s@) == contents(block_views(blocks@)),
{
    let ghost vs = block_views(blocks@);
    let mut out: Vec<String> = Vec::new();
    let mut i: usize = 0;
    while i < blocks.len()
        invariant
            i <= blocks@.len(),
            vs == block_views(blocks@),
            out@.map_values(|s: String| s@) == contents(vs.take(i as int)),
        decreases blocks.len() - i,
    {
        let ghost before = out@;
        out.push(blocks[i].content().as_str().to_string());
        proof {
            assert(out@.map_values(|s: String| s@) =~= before.map_values(|s: String| s@).push(vs[i as int].content));
            assert(contents(vs.take(i + 1)) =~= contents(vs.take(i as int)).push(vs[i as int].content));
        }
        i = i + 1;
    }
    proof {
        assert(vs.take(blocks@.len() as int) =~= vs);
    }
    out
}

/// Owned copies of borrowed references, in order.
pub fn owned_references(refs: &Vec<&PageReference>) -> (r: Vec<PageReference>)
    ensures
        ref_values(r@) == reference_ref_views(refs@),
{
    let mut out: Vec<PageReference> = Vec::new();
    let mut i: usize = 0;
    while i < refs.len()
        invariant
            i <= refs@.len(),
            ref_values(out@) == reference_ref_views(refs@).take(i as int),
        decreases refs.len() - i,
    {
        let ghost before = out@;
        out.push(refs[i].clone());
        proof {
            assert(ref_values(out@) =~= ref_values(before).push(refs@[i as int]@));
            assert(reference_ref_views(refs@).take(i + 1) =~= reference_ref_views(refs@).take(i as int).push(refs@[i as int]@));
        }
        i = i + 1;
    }
    proof {
        assert(reference_ref_views(refs@).take(refs@.len() as int) =~= reference_ref_views(refs@));
    }
    out
}

/// Each URL of the page, with the block that holds it, the path down to that block and the
/// references of that block's ancestors then descendants; blocks in page order.
pub fn links_of_page(page: &Page) -> (r: Vec<UrlWithContext>)
    requires
        page.wf(),
    ensures
        link_views(r@) == links_upto(page.blocks_view(), page.blocks_view().len() as int),
{
    let ghost bs = page.blocks_view();
    let blocks = page.blocks();
    let mut out: Vec<UrlWithContext> = Vec::new();
    let mut i: usize = 0;
    while i < blocks.len()
        invariant
            page.wf(),
            bs == page.blocks_view(),
            bs == blocks@.map_values(|b: crate::entities::Block| b@),
            i <= bs.len(),
            link_views(out@) == links_upto(bs, i as int),
        decreases blocks.len() - i,
    {
        let block = &blocks[i];
        proof {
            crate::aggregates::lemma_index_of(bs, i as int);
        }
        let path = page.get_hierarchy_path(block.id());
        let ancestors = page.get_ancestors(block.id());
        let descendants = page.get_descendants(block.id());
        let up = crate::aggregates::references_in(&ancestors);
        let down = crate::aggregates::references_in(&descendants);
        let us = block.urls();
        let ghost start = link_views(out@);
        let mut k: usize = 0;
        while k < us.len()
            invariant
                page.wf(),
                bs == page.blocks_view(),
                i < bs.len(),
                block@ == bs[i as int],
                index_of(bs, bs[i as int].id) == i,
                crate::entities::url_texts(us@) == bs[i as int].urls,
                block_views(path@) == path_of(bs, i as int),
                reference_ref_views(up@) == refs_of_blocks(blocks_at(bs, ancestors_of(bs, i as int))),
                reference_ref_views(down@) == refs_of_blocks(blocks_at(bs, descendants_of(bs, i as int))),
                k <= us@.len(),
                link_views(out@) == start + block_links(bs, i as int).take(k as int),
            decreases us.len() - k,
        {
            let mut related = owned_references(&up);
            let mut more = owned_references(&down);
            let ghost r1 = related@;
            let ghost r2 = more@;
            related.append(&mut more);
            proof {
                assert(ref_values(related@) =~= ref_values(r1) + ref_values(r2));
            }
            let ghost before = out@;
            out.push(
                UrlWithContext {
                    url: us[k].clone(),
                    block_id: block.id().clone(),
                    block_content: block.content().as_str().to_string(),
                    hierarchy_path: contents_of(&path),
                    related_page_refs: related,
                },
            );
            proof {
                assert(bs[i as int].urls[k as int] == us@[k as int]@);
                assert(link_views(out@) =~= link_views(before).push(block_links(bs, i as int)[k as int]));
                assert(block_links(bs, i as int).take(k + 1) =~= block_links(bs, i as int).take(k as int).push(block_links(bs, i as int)[k as int]));
            }
            k = k + 1;
        }
        proof {
            assert(block_links(bs, i as int).take(us@.len() as int) =~= block_links(bs, i as int));
        }
        i = i + 1;
    }
    out
}

/// The answer of the link query for what the repository returned for the page: `NotFound`
/// when it had no such page, else the page's links.
pub fn links_for_found(found: Option<Page>) -> (r: DomainResult<Vec<UrlWithContext>>)
    requires
        found matches Some(p) ==> p.wf(),
    ensures
        found is None ==> (r matches Err(e) && e is NotFound),
        found matches Some(p) ==> (r matches Ok(v) && link_views(v@) == links_upto(p.blocks_view(), p.blocks_view().len() as int)),
{
    match found {
        Some(page) => Ok(links_of_page(&page)),
        None => Err(DomainError::NotFound("Page not found".to_string())),
    }
}

/// Lists the URLs of one page with their context.
pub struct GetLinksForPage<'a, R: PageRepository> {
    repository: &'a R,
}

impl<'a, R: PageRepository> GetLinksForPage<'a, R> {
    pub fn new(repository: &'a R) -> (r: Self) {
        GetLinksForPage { repository }
    }

    /// The URLs of page `page_id` with their context; `NotFound` when no such page is stored.
    pub fn execute(&self, page_id: &PageId) -> (r: DomainResult<Vec<UrlWithContext>>)
        ensures
            r matches Ok(v) ==> exists|p: Page| p.wf() && p.id_view() == page_id@ && link_views(v@) == links_upto(p.blocks_view(), p.blocks_view().len() as int),
    {
        let found = self.repository.find_by_id(page_id)?;
        links_for_found(found)
    }
}

/// The page stored under `id` once `pages` are saved in order over the store `before`.
pub open spec fn after_saving<R: PageRepository>(before: R, pages: Seq<Page>, id: Seq<char>) -> Option<Page>
    decreases pages.len(),
{
    if pages.len() == 0 {
        before.stored_page(id)
    } else if pages.last().id_view() == id {
        Some(pages.last())
    } else {
        after_saving(before, pages.drop_last(), id)
    }
}

/// Store `now` holds what saving `pages` in order over `before` leaves.
pub open spec fn holds_after_saving<R: PageRepository>(now: R, before: R, pages: Seq<Page>) -> bool {
    forall|id: Seq<char>| #[trigger] now.stored_page(id) == after_saving(before, pages, id)
}

/// Saves one page to the repository.
pub struct IndexPage<'a, R: PageRepository> {
    repository: &'a mut R,
}

impl<'a, R: PageRepository> IndexPage<'a, R> {
    /// The repository the use case saves to.
    pub closed spec fn repository_view(&self) -> R {
        *self.repository
    }

    pub fn new(repository: &'a mut R) -> (r: Self) {
        IndexPage { repository }
    }

    /// Saves `page`, replacing a stored page with the same identifier.
    pub fn execute(&mut self, page: Page) -> (r: DomainResult<()>)
        requires
            page.wf(),
        ensures
            final(self).repository_view().modeled() == old(self).repository_view().modeled(),
            old(self).repository_view().modeled() && r is Ok ==> final(self).repository_view().stored_page(
                page.id_view(),
            ) == Some(page),
    {
        self.repository.save(page)
    }
}

/// Saves several pages to the repository.
pub struct BatchIndexPages<'a, R: PageRepository> {
    repository: &'a mut R,
}

impl<'a, R: PageRepository> BatchIndexPages<'a, R> {
    /// The repository the use case saves to.
    pub closed spec fn repository_view(&self) -> R {
        *self.repository
    }

    pub fn new(repository: &'a mut R) -> (r: Self) {
        BatchIndexPages { repository }
    }

    /// Saves the pages in order, stopping at the first failure; on success, the count saved.
    /// For a modeled store: on success every page is stored (the last of each identifier); on a
    /// failure the pages before the failing one are stored and none after it was tried.
    pub fn execute(&mut self, pages: Vec<Page>) -> (r: DomainResult<usize>)
        requires
            forall|i: int| 0 <= i < pages@.len() ==> (#[trigger] pages@[i]).wf(),
        ensures
            r matches Ok(n) ==> n == pages@.len(),
            final(self).repository_view().modeled() == old(self).repository_view().modeled(),
            old(self).repository_view().modeled() && r is Ok ==> forall|id: Seq<char>|
                #[trigger] final(self).repository_view().stored_page(id) == after_saving(
                    old(self).repository_view(),
                    pages@,
                    id,
                ),
            old(self).repository_view().modeled() && r is Err ==> exists|k: int|
                0 <= k < pages@.len() && #[trigger] holds_after_saving(
                    final(self).repository_view(),
                    old(self).repository_view(),
                    pages@.take(k),
                ),
    {
        let ghost r0 = self.repository_view();
        let mut count: usize = 0;
        let mut pages = pages;
        let ghost all = pages@;
        let n = pages.len();
        let mut failure: Option<DomainError> = None;
        proof {
            assert forall|id: Seq<char>| #[trigger] self.repository_view().stored_page(id) == after_saving(r0, all.take(0), id) by {
                assert(all.take(0).len() == 0);
            }
        }
        while failure.is_none() && pages.len() > 0
            invariant
                n == all.len(),
                failure is None ==> count + pages@.len() == n && pages@ == all.subrange(count as int, n as int),
                failure is Some ==> count < n,
                forall|i: int| 0 <= i < pages@.len() ==> (#[trigger] pages@[i]).wf(),
                self.repository_view().modeled() == r0.modeled(),
                r0.modeled() ==> forall|id: Seq<char>|
                    #[trigger] self.repository_view().stored_page(id) == after_saving(r0, all.take(count as int), id),
            decreases pages@.len() + (if failure is Some { 0int } else { 1int }),
        {
            let ghost before = pages@;
            let page = pages.remove(0);
            proof {
                assert(page == before[0]);
                assert(page == all[count as int]);
                assert forall|i: int| 0 <= i < pages@.len() implies (#[trigger] pages@[i]).wf() by {
                    assert(pages@[i] == before[i + 1]);
                }
                assert(pages@ =~= all.subrange(count + 1, n as int));
            }
            let ghost page_v = page;
            match self.repository.save(page) {
                Ok(()) => {
                    proof {
                        let t = all.take(count + 1);
                        assert(t.drop_last() =~= all.take(count as int));
                        assert(t.last() == page_v);
                    }
                    count = count + 1;
                },
                Err(e) => {
                    failure = Some(e);
                },
            }
        }
        match failure {
            Some(e) => {
                proof {
                    if r0.modeled() {
                        assert(holds_after_saving(self.repository_view(), r0, all.take(count as int)));
                    }
                }
                Err(e)
            },
            None => {
                proof {
                    assert(all.take(n as int) =~= all);
                }
                Ok(count)
            },
        }
    }
}

} // verus!
