//! Storage of pages: the repository capability and an in-memory implementation.

use crate::aggregates::Page;
use crate::base::DomainResult;
use crate::value_objects::PageId;
use vstd::prelude::*;

verus! {

/// Where pages are kept: save, look up and delete whole pages.
pub trait PageRepository {
    /// Whether the store describes its contents through `stored_page`. A store that does not
    /// (the default) is promised nothing about what it holds.
    open spec fn modeled(&self) -> bool {
        false
    }

    /// The page stored under identifier `id`, if any; meaningful for a modeled store.
    open spec fn stored_page(&self, id: Seq<char>) -> Option<Page> {
        None
    }

    /// Stores `page`, replacing any page with the same identifier. A modeled store keeps every
    /// other page as it was, and changes nothing when saving fails.
    fn save(&mut self, page: Page) -> (r: DomainResult<()>)
        requires
            page.wf(),
        ensures
            final(self).modeled() == old(self).modeled(),
            old(self).modeled() && r is Ok ==> final(self).stored_page(page.id_view()) == Some(page),
            old(self).modeled() && r is Ok ==> forall|id: Seq<char>|
                id != page.id_view() ==> #[trigger] final(self).stored_page(id) == old(self).stored_page(id),
            old(self).modeled() && r is Err ==> forall|id: Seq<char>|
                #[trigger] final(self).stored_page(id) == old(self).stored_page(id),
    ;

    /// The page with identifier `id`, if stored.
    fn find_by_id(&self, id: &PageId) -> (r: DomainResult<Option<Page>>)
        ensures
            r matches Ok(Some(p)) ==> p.wf() && p.id_view() == id@,
            self.modeled() ==> (r matches Ok(Some(p)) ==> (self.stored_page(id@) matches Some(q) && same_page(p, q))),
            self.modeled() ==> (r matches Ok(None) ==> self.stored_page(id@) is None),
    ;

    /// A page titled `title`, if one is stored (the first when several are).
    fn find_by_title(&self, title: &str) -> (r: DomainResult<Option<Page>>)
        ensures
            r matches Ok(Some(p)) ==> p.wf() && p.title_view() == title@,
    ;

    /// Every stored page.
    fn find_all(&self) -> (r: DomainResult<Vec<Page>>)
        ensures
            r matches Ok(v) ==> forall|i: int| 0 <= i < v@.len() ==> (#[trigger] v@[i]).wf(),
    ;

    /// Removes the page with identifier `id`; true when one was stored.
    fn delete(&mut self, id: &PageId) -> (r: DomainResult<bool>);
}

/// The two pages agree in identifier, title, blocks and roots.
pub open spec fn same_page(a: Page, b: Page) -> bool {
    &&& a.id_view() == b.id_view()
    &&& a.title_view() == b.title_view()
    &&& a.blocks_view() == b.blocks_view()
    &&& a.roots_view() == b.roots_view()
}

/// The page of `s` with identifier `id`, if any.
pub open spec fn page_in(s: Seq<Page>, id: Seq<char>) -> Option<Page> {
    if exists|i: int| 0 <= i < s.len() && (#[trigger] s[i]).id_view() == id {
        Some(s[choose|i: int| 0 <= i < s.len() && (#[trigger] s[i]).id_view() == id])
    } else {
        None
    }
}

/// After saving `p`, the page stored under its identifier is `p`.
pub proof fn lemma_saved_is_stored(s: Seq<Page>, p: Page)
    requires
        distinct_ids(s),
    ensures
        page_in(saved(s, p), p.id_view()) == Some(p),
{
    lemma_save_idempotent(s, p);
    let t = saved(s, p);
    let j = if exists|i: int| 0 <= i < s.len() && (#[trigger] s[i]).id_view() == p.id_view() {
        choose|i: int| 0 <= i < s.len() && (#[trigger] s[i]).id_view() == p.id_view()
    } else {
        s.len() as int
    };
    assert(t[j] == p);
    let k = choose|i: int| 0 <= i < t.len() && (#[trigger] t[i]).id_view() == p.id_view();
    assert(k == j);
}

/// Saving `p` leaves the pages with other identifiers where they were.
pub proof fn lemma_saved_keeps_others(s: Seq<Page>, p: Page, id: Seq<char>)
    requires
        distinct_ids(s),
        id != p.id_view(),
    ensures
        page_in(saved(s, p), id) == page_in(s, id),
{
    lemma_save_idempotent(s, p);
    let t = saved(s, p);
    if exists|i: int| 0 <= i < s.len() && (#[trigger] s[i]).id_view() == p.id_view() {
        let j = choose|i: int| 0 <= i < s.len() && (#[trigger] s[i]).id_view() == p.id_view();
        assert(t.len() == s.len());
        assert forall|i: int| 0 <= i < t.len() && i != j implies #[trigger] t[i] == s[i] by {}
        if exists|i: int| 0 <= i < s.len() && (#[trigger] s[i]).id_view() == id {
            let a = choose|i: int| 0 <= i < s.len() && (#[trigger] s[i]).id_view() == id;
            assert(a != j);
            assert(t[a].id_view() == id);
            let b = choose|i: int| 0 <= i < t.len() && (#[trigger] t[i]).id_view() == id;
            assert(b != j);
            assert(s[b].id_view() == id);
            if a != b {
                assert(s[a].id_view() != s[b].id_view());
            }
        } else {
            if exists|i: int| 0 <= i < t.len() && (#[trigger] t[i]).id_view() == id {
                let b = choose|i: int| 0 <= i < t.len() && (#[trigger] t[i]).id_view() == id;
                assert(b != j);
                assert(s[b].id_view() == id);
            }
        }
    } else {
        let n = s.len() as int;
        assert(t == s.push(p));
        if exists|i: int| 0 <= i < s.len() && (#[trigger] s[i]).id_view() == id {
            let a = choose|i: int| 0 <= i < s.len() && (#[trigger] s[i]).id_view() == id;
            assert(t[a].id_view() == id);
            let b = choose|i: int| 0 <= i < t.len() && (#[trigger] t[i]).id_view() == id;
            assert(b != n);
            assert(s[b].id_view() == id);
            if a != b {
                assert(s[a].id_view() != s[b].id_view());
            }
        } else {
            if exists|i: int| 0 <= i < t.len() && (#[trigger] t[i]).id_view() == id {
                let b = choose|i: int| 0 <= i < t.len() && (#[trigger] t[i]).id_view() == id;
                assert(b != n);
                assert(s[b].id_view() == id);
            }
        }
    }
}

/// No two pages share an identifier.
pub open spec fn distinct_ids(s: Seq<Page>) -> bool {
    forall|i: int, j: int| 0 <= i < s.len() && 0 <= j < s.len() && i != j ==> (#[trigger] s[i]).id_view() != (#[trigger] s[j]).id_view()
}

/// The stored pages after saving `p`: it replaces the page with its identifier, or is appended.
pub open spec fn saved(s: Seq<Page>, p: Page) -> Seq<Page> {
    if exists|i: int| 0 <= i < s.len() && (#[trigger] s[i]).id_view() == p.id_view() {
        let i = choose|i: int| 0 <= i < s.len() && (#[trigger] s[i]).id_view() == p.id_view();
        s.update(i, p)
    } else {
        s.push(p)
    }
}

/// Saving keeps identifiers distinct, and saving the same page twice leaves what saving it
/// once does: no page is stored twice.
pub proof fn lemma_save_idempotent(s: Seq<Page>, p: Page)
    requires
        distinct_ids(s),
    ensures
        distinct_ids(saved(s, p)),
        saved(saved(s, p), p) == saved(s, p),
{
    let once = saved(s, p);
    if exists|i: int| 0 <= i < s.len() && (#[trigger] s[i]).id_view() == p.id_view() {
        let i = choose|i: int| 0 <= i < s.len() && (#[trigger] s[i]).id_view() == p.id_view();
        assert forall|a: int, b: int| 0 <= a < once.len() && 0 <= b < once.len() && a != b implies (#[trigger] once[a]).id_view() != (#[trigger] once[b]).id_view() by {
            if a != i && b != i {
            } else if a == i {
                assert(s[i].id_view() != s[b].id_view());
            } else {
                assert(s[i].id_view() != s[a].id_view());
            }
        }
        assert(once[i] == p);
        let j = choose|j: int| 0 <= j < once.len() && (#[trigger] once[j]).id_view() == p.id_view();
        assert(j == i);
        assert(once.update(i, p) =~= once);
    } else {
        assert forall|a: int, b: int| 0 <= a < once.len() && 0 <= b < once.len() && a != b implies (#[trigger] once[a]).id_view() != (#[trigger] once[b]).id_view() by {
            if a < s.len() && b < s.len() {
            } else if a < s.len() {
                assert(once[a] == s[a]);
            } else {
                assert(once[b] == s[b]);
            }
        }
        let n = s.len() as int;
        assert(once[n] == p);
        let j = choose|j: int| 0 <= j < once.len() && (#[trigger] once[j]).id_view() == p.id_view();
        assert(j == n);
        assert(once.update(n, p) =~= once);
    }
}

/// Pages kept in memory, at most one per identifier, in the order first saved.
pub struct InMemoryPageRepository {
    pages: Vec<Page>,
}

impl InMemoryPageRepository {
    /// The stored pages.
    pub closed spec fn stored(&self) -> Seq<Page> {
        self.pages@
    }

    /// Every stored page is well formed and no two share an identifier.
    #[verifier::type_invariant]
    closed spec fn inv(self) -> bool {
        &&& forall|i: int| 0 <= i < self.pages@.len() ==> (#[trigger] self.pages@[i]).wf()
        &&& forall|i: int, j: int|
            0 <= i < self.pages@.len() && 0 <= j < self.pages@.len() && i != j
                ==> (#[trigger] self.pages@[i]).id_view() != (#[trigger] self.pages@[j]).id_view()
    }

    pub fn new() -> (r: InMemoryPageRepository)
        ensures
            r.stored().len() == 0,
    {
        InMemoryPageRepository { pages: Vec::new() }
    }

    fn position(&self, id: &PageId) -> (r: Option<usize>)
        ensures
            r matches Some(i) ==> i < self.stored().len() && self.stored()[i as int].id_view() == id@,
            r is None ==> forall|i: int| 0 <= i < self.stored().len() ==> (#[trigger] self.stored()[i]).id_view() != id@,
    {
        let mut i: usize = 0;
        while i < self.pages.len()
            invariant
                i <= self.pages@.len(),
                forall|j: int| 0 <= j < i ==> (#[trigger] self.stored()[j]).id_view() != id@,
            decreases self.pages.len() - i,
        {
            if self.pages[i].page_id() == id {
                return Some(i);
            }
            i = i + 1;
        }
        None
    }

    /// Stores `page` as `saved` describes.
    pub fn store(&mut self, page: Page)
        requires
            page.wf(),
        ensures
            final(self).stored() == saved(old(self).stored(), page),
    {
        proof {
            use_type_invariant(&*self);
        }
        let ghost before = self.stored();
        let pos = self.position(page.page_id());
        let mut pages: Vec<Page> = Vec::new();
        std::mem::swap(&mut pages, &mut self.pages);
        let ghost old_pages = pages@;
        proof {
            lemma_save_idempotent(before, page);
        }
        match pos {
            Some(i) => {
                proof {
                    let k = choose|k: int| 0 <= k < before.len() && (#[trigger] before[k]).id_view() == page.id_view();
                    assert(before[i as int].id_view() == page.id_view());
                    if k != i {
                        assert(before[k].id_view() != before[i as int].id_view());
                    }
                }
                pages.set(i, page);
                proof {
                    assert(pages@ =~= saved(before, page));
                }
            },
            None => {
                pages.push(page);
                proof {
                    assert(pages@ =~= saved(before, page));
                }
            },
        }
        proof {
            assert forall|a: int| 0 <= a < pages@.len() implies (#[trigger] pages@[a]).wf() by {
                if a < old_pages.len() && !(pos matches Some(i) && i == a) {
                    assert(pages@[a] == old_pages[a]);
                }
            }
        }
        self.pages = pages;
    }

    /// The number of stored pages.
    pub fn len(&self) -> (r: usize)
        ensures
            r == self.stored().len(),
    {
        self.pages.len()
    }
}

impl PageRepository for InMemoryPageRepository {
    open spec fn modeled(&self) -> bool {
        true
    }

    open spec fn stored_page(&self, id: Seq<char>) -> Option<Page> {
        page_in(self.stored(), id)
    }

    fn save(&mut self, page: Page) -> (r: DomainResult<()>) {
        proof {
            use_type_invariant(&*self);
            lemma_saved_is_stored(self.stored(), page);
            assert forall|id: Seq<char>| id != page.id_view() implies #[trigger] page_in(saved(self.stored(), page), id)
                == page_in(self.stored(), id) by {
                lemma_saved_keeps_others(self.stored(), page, id);
            }
        }
        self.store(page);
        Ok(())
    }

    fn find_by_id(&self, id: &PageId) -> (r: DomainResult<Option<Page>>) {
        proof {
            use_type_invariant(&*self);
        }
        match self.position(id) {
            Some(i) => {
                proof {
                    let k = choose|k: int| 0 <= k < self.stored().len() && (#[trigger] self.stored()[k]).id_view() == id@;
                    assert(self.stored()[i as int].id_view() == id@);
                    if k != i {
                        assert(self.stored()[k].id_view() != self.stored()[i as int].id_view());
                    }
                }
                Ok(Some(self.pages[i].clone()))
            },
            None => Ok(None),
        }
    }

    fn find_by_title(&self, title: &str) -> (r: DomainResult<Option<Page>>) {
        proof {
            use_type_invariant(&*self);
        }
        let mut i: usize = 0;
        while i < self.pages.len()
            invariant
                i <= self.pages@.len(),
                forall|j: int| 0 <= j < self.pages@.len() ==> (#[trigger] self.pages@[j]).wf(),
            decreases self.pages.len() - i,
        {
            if crate::text::same_text(self.pages[i].title(), title) {
                return Ok(Some(self.pages[i].clone()));
            }
            i = i + 1;
        }
        Ok(None)
    }

    fn find_all(&self) -> (r: DomainResult<Vec<Page>>) {
        proof {
            use_type_invariant(&*self);
        }
        let mut out: Vec<Page> = Vec::new();
        let mut i: usize = 0;
        while i < self.pages.len()
            invariant
                i <= self.pages@.len(),
                out@.len() == i,
                forall|j: int| 0 <= j < self.pages@.len() ==> (#[trigger] self.pages@[j]).wf(),
                forall|j: int| 0 <= j < i ==> (#[trigger] out@[j]).wf(),
            decreases self.pages.len() - i,
        {
            out.push(self.pages[i].clone());
            i = i + 1;
        }
        Ok(out)
    }

    fn delete(&mut self, id: &PageId) -> (r: DomainResult<bool>) {
        proof {
            use_type_invariant(&*self);
        }
        match self.position(id) {
            Some(i) => {
                let mut pages: Vec<Page> = Vec::new();
                std::mem::swap(&mut pages, &mut self.pages);
                let ghost old_pages = pages@;
                let _removed = pages.remove(i);
                proof {
                    assert forall|a: int| 0 <= a < pages@.len() implies (#[trigger] pages@[a]).wf() by {
                        if a < i {
                            assert(pages@[a] == old_pages[a]);
                        } else {
                            assert(pages@[a] == old_pages[a + 1]);
                        }
                    }
                    assert forall|a: int, b: int| 0 <= a < pages@.len() && 0 <= b < pages@.len() && a != b implies (#[trigger] pages@[a]).id_view() != (#[trigger] pages@[b]).id_view() by {
                        let oa = if a < i { a } else { a + 1 };
                        let ob = if b < i { b } else { b + 1 };
                        assert(pages@[a] == old_pages[oa]);
                        assert(pages@[b] == old_pages[ob]);
                    }
                }
                self.pages = pages;
                Ok(true)
            },
            None => Ok(false),
        }
    }
}

} // verus!
