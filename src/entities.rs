//! The block entity: one bullet line of a page.

use crate::base::Entity;
use crate::value_objects::{BlockContent, BlockId, IndentLevel, PageReference, Url};
use vstd::prelude::*;

verus! {

/// The identifiers of a sequence of blocks.
pub open spec fn ids(s: Seq<BlockId>) -> Seq<Seq<char>> {
    s.map_values(|b: BlockId| b@)
}

/// The texts of a sequence of URLs.
pub open spec fn url_texts(s: Seq<Url>) -> Seq<Seq<char>> {
    s.map_values(|u: Url| u@)
}

/// The (title, is-tag) pairs of a sequence of references.
pub open spec fn ref_values(s: Seq<PageReference>) -> Seq<(Seq<char>, bool)> {
    s.map_values(|r: PageReference| r@)
}

/// `s` with every occurrence of `x` taken out, the rest in order.
pub open spec fn without<A>(s: Seq<A>, x: A) -> Seq<A>
    decreases s.len(),
{
    if s.len() == 0 {
        s
    } else if s.last() == x {
        without(s.drop_last(), x)
    } else {
        without(s.drop_last(), x).push(s.last())
    }
}

/// `s` with `x` appended unless it is already there.
pub open spec fn push_new<A>(s: Seq<A>, x: A) -> Seq<A> {
    if s.contains(x) {
        s
    } else {
        s.push(x)
    }
}

pub proof fn lemma_push_new_distinct<A>(s: Seq<A>, x: A)
    requires
        s.no_duplicates(),
        !s.contains(x),
    ensures
        s.push(x).no_duplicates(),
{
    assert forall|i: int, j: int| 0 <= i < s.push(x).len() && 0 <= j < s.push(x).len() && i != j implies s.push(x)[i] != s.push(x)[j] by {
        if i < s.len() && j < s.len() {
        } else if i == s.len() {
            assert(s[j] == s.push(x)[j]);
        } else {
            assert(s[i] == s.push(x)[i]);
        }
    }
}

/// Taking out an element keeps the rest free of repeats, and only drops elements.
pub proof fn lemma_without_distinct<A>(s: Seq<A>, x: A)
    requires
        s.no_duplicates(),
    ensures
        without(s, x).no_duplicates(),
        forall|y: A| #[trigger] without(s, x).contains(y) ==> s.contains(y) && y != x,
    decreases s.len(),
{
    if s.len() > 0 {
        let d = s.drop_last();
        assert(d.no_duplicates()) by {
            assert forall|i: int, j: int| 0 <= i < d.len() && 0 <= j < d.len() && i != j implies d[i] != d[j] by {
                assert(d[i] == s[i] && d[j] == s[j]);
            }
        }
        lemma_without_distinct(d, x);
        assert forall|y: A| #[trigger] without(d, x).contains(y) implies s.contains(y) by {
            let k = choose|k: int| 0 <= k < d.len() && d[k] == y;
            assert(s[k] == y);
        }
        if s.last() != x {
            assert(!d.contains(s.last())) by {
                if d.contains(s.last()) {
                    let k = choose|k: int| 0 <= k < d.len() && d[k] == s.last();
                    assert(s[k] == s[s.len() - 1]);
                }
            }
            assert(!without(d, x).contains(s.last()));
            lemma_push_new_distinct(without(d, x), s.last());
            assert forall|y: A| #[trigger] without(s, x).contains(y) implies s.contains(y) && y != x by {
                let w = without(d, x);
                let k = choose|k: int| 0 <= k < w.push(s.last()).len() && w.push(s.last())[k] == y;
                if k < w.len() {
                    assert(w[k] == y);
                    assert(w.contains(y));
                } else {
                    assert(s[s.len() - 1] == y);
                }
            }
        }
    }
}

/// The mathematical value of a block.
pub struct BlockView {
    pub id: Seq<char>,
    pub content: Seq<char>,
    pub indent: nat,
    pub parent: Option<Seq<char>>,
    pub children: Seq<Seq<char>>,
    pub urls: Seq<Seq<char>>,
    pub refs: Seq<(Seq<char>, bool)>,
}

/// One bullet line of a page: its text, its place in the tree, and the links it holds.
#[derive(Debug)]
pub struct Block {
    id: BlockId,
    content: BlockContent,
    indent_level: IndentLevel,
    parent_id: Option<BlockId>,
    child_ids: Vec<BlockId>,
    urls: Vec<Url>,
    page_references: Vec<PageReference>,
}

pub fn clone_ids(v: &[BlockId]) -> (r: Vec<BlockId>)
    ensures
        ids(r@) == ids(v@),
{
    let mut r: Vec<BlockId> = Vec::new();
    let mut i: usize = 0;
    while i < v.len()
        invariant
            i <= v@.len(),
            ids(r@) == ids(v@.take(i as int)),
        decreases v.len() - i,
    {
        let c = v[i].clone();
        proof {
            assert(c@ == v@[i as int]@);
        }
        let ghost before = r@;
        r.push(c);
        proof {
            assert(ids(r@) =~= ids(before).push(c@));
            assert(v@.take(i + 1) =~= v@.take(i as int).push(v@[i as int]));
            assert(ids(v@.take(i + 1)) =~= ids(v@.take(i as int)).push(v@[i as int]@));
            assert(ids(r@) =~= ids(v@.take(i + 1)));
        }
        i = i + 1;
    }
    proof {
        assert(v@.take(v@.len() as int) =~= v@);
    }
    r
}

pub fn clone_urls(v: &[Url]) -> (r: Vec<Url>)
    ensures
        url_texts(r@) == url_texts(v@),
{
    let mut r: Vec<Url> = Vec::new();
    let mut i: usize = 0;
    while i < v.len()
        invariant
            i <= v@.len(),
            url_texts(r@) == url_texts(v@.take(i as int)),
        decreases v.len() - i,
    {
        let c = v[i].clone();
        proof {
            assert(c@ == v@[i as int]@);
        }
        let ghost before = r@;
        r.push(c);
        proof {
            assert(url_texts(r@) =~= url_texts(before).push(c@));
            assert(v@.take(i + 1) =~= v@.take(i as int).push(v@[i as int]));
            assert(url_texts(v@.take(i + 1)) =~= url_texts(v@.take(i as int)).push(v@[i as int]@));
            assert(url_texts(r@) =~= url_texts(v@.take(i + 1)));
        }
        i = i + 1;
    }
    proof {
        assert(v@.take(v@.len() as int) =~= v@);
    }
    r
}

pub fn clone_refs(v: &[PageReference]) -> (r: Vec<PageReference>)
    ensures
        ref_values(r@) == ref_values(v@),
{
    let mut r: Vec<PageReference> = Vec::new();
    let mut i: usize = 0;
    while i < v.len()
        invariant
            i <= v@.len(),
            ref_values(r@) == ref_values(v@.take(i as int)),
        decreases v.len() - i,
    {
        let c = v[i].clone();
        proof {
            assert(c@ == v@[i as int]@);
        }
        let ghost before = r@;
        r.push(c);
        proof {
            assert(ref_values(r@) =~= ref_values(before).push(c@));
            assert(v@.take(i + 1) =~= v@.take(i as int).push(v@[i as int]));
            assert(ref_values(v@.take(i + 1)) =~= ref_values(v@.take(i as int)).push(v@[i as int]@));
            assert(ref_values(r@) =~= ref_values(v@.take(i + 1)));
        }
        i = i + 1;
    }
    proof {
        assert(v@.take(v@.len() as int) =~= v@);
    }
    r
}

impl View for Block {
    type V = BlockView;

    closed spec fn view(&self) -> BlockView {
        BlockView {
            id: self.id@,
            content: self.content@,
            indent: self.indent_level@,
            parent: match self.parent_id {
                Some(p) => Some(p@),
                None => None,
            },
            children: ids(self.child_ids@),
            urls: url_texts(self.urls@),
            refs: ref_values(self.page_references@),
        }
    }
}

impl Block {
    /// A block lists each child, URL and reference at most once.
    #[verifier::type_invariant]
    pub closed spec fn no_repeats(self) -> bool {
        &&& ids(self.child_ids@).no_duplicates()
        &&& url_texts(self.urls@).no_duplicates()
        &&& ref_values(self.page_references@).no_duplicates()
        &&& self.id@.len() > 0
        &&& forall|k: int| 0 <= k < self.urls@.len() ==> crate::value_objects::is_url_text(#[trigger] url_texts(self.urls@)[k])
        &&& forall|k: int| 0 <= k < self.page_references@.len() ==> (#[trigger] ref_values(self.page_references@)[k]).0.len() > 0
    }

    /// A block lists each child, URL and reference at most once.
    pub proof fn lemma_no_repeats(&self)
        requires
            self.no_repeats(),
        ensures
            self@.children.no_duplicates(),
            self@.urls.no_duplicates(),
            self@.refs.no_duplicates(),
            self@.id.len() > 0,
            forall|k: int| 0 <= k < self@.urls.len() ==> crate::value_objects::is_url_text(#[trigger] self@.urls[k]),
            forall|k: int| 0 <= k < self@.refs.len() ==> (#[trigger] self@.refs[k]).0.len() > 0,
    {
    }

    /// A block at the root level, with no children and no links.
    pub fn new_root(id: BlockId, content: BlockContent) -> (r: Block)
        ensures
            r@ == (BlockView {
                id: id@,
                content: content@,
                indent: 0,
                parent: None,
                children: Seq::empty(),
                urls: Seq::empty(),
                refs: Seq::empty(),
            }),
    {
        proof {
            use_type_invariant(&id);
            id.lemma_nonempty();
        }
        let r = Block {
            id,
            content,
            indent_level: IndentLevel::root(),
            parent_id: None,
            child_ids: Vec::new(),
            urls: Vec::new(),
            page_references: Vec::new(),
        };
        proof {
            assert(ids(r.child_ids@) =~= Seq::empty());
            assert(url_texts(r.urls@) =~= Seq::empty());
            assert(ref_values(r.page_references@) =~= Seq::empty());
        }
        r
    }

    /// A block under `parent_id`, with no children and no links.
    pub fn new_child(id: BlockId, content: BlockContent, parent_id: BlockId, indent_level: IndentLevel) -> (r: Block)
        ensures
            r@ == (BlockView {
                id: id@,
                content: content@,
                indent: indent_level@,
                parent: Some(parent_id@),
                children: Seq::empty(),
                urls: Seq::empty(),
                refs: Seq::empty(),
            }),
    {
        proof {
            use_type_invariant(&id);
            id.lemma_nonempty();
        }
        let r = Block {
            id,
            content,
            indent_level,
            parent_id: Some(parent_id),
            child_ids: Vec::new(),
            urls: Vec::new(),
            page_references: Vec::new(),
        };
        proof {
            assert(ids(r.child_ids@) =~= Seq::empty());
            assert(url_texts(r.urls@) =~= Seq::empty());
            assert(ref_values(r.page_references@) =~= Seq::empty());
        }
        r
    }

    pub fn id(&self) -> (r: &BlockId)
        ensures
            r@ == self@.id,
    {
        &self.id
    }

    pub fn content(&self) -> (r: &BlockContent)
        ensures
            r@ == self@.content,
    {
        &self.content
    }

    pub fn indent_level(&self) -> (r: IndentLevel)
        ensures
            r@ == self@.indent,
    {
        self.indent_level
    }

    pub fn parent_id(&self) -> (r: Option<&BlockId>)
        ensures
            r is None <==> self@.parent is None,
            r matches Some(p) ==> self@.parent == Some(p@),
    {
        match &self.parent_id {
            Some(p) => Some(p),
            None => None,
        }
    }

    pub fn child_ids(&self) -> (r: &[BlockId])
        ensures
            ids(r@) == self@.children,
    {
        self.child_ids.as_slice()
    }

    pub fn is_root(&self) -> (r: bool)
        ensures
            r == (self@.parent is None),
    {
        self.parent_id.is_none()
    }

    pub fn has_children(&self) -> (r: bool)
        ensures
            r == (self@.children.len() > 0),
    {
        self.child_ids.len() > 0
    }

    /// Appends `child_id` to the children unless it is already one of them.
    pub fn add_child(&mut self, child_id: BlockId)
        ensures
            final(self)@ == (BlockView { children: push_new(old(self)@.children, child_id@), ..old(self)@ }),
    {
        let mut i: usize = 0;
        while i < self.child_ids.len()
            invariant
                i <= self.child_ids@.len(),
                self == old(self),
                forall|j: int| 0 <= j < i ==> self.child_ids@[j]@ != child_id@,
            decreases self.child_ids.len() - i,
        {
            if self.child_ids[i].same(&child_id) {
                proof {
                    assert(ids(self.child_ids@)[i as int] == child_id@);
                }
                return;
            }
            i = i + 1;
        }
        proof {
            assert(!ids(self.child_ids@).contains(child_id@));
            use_type_invariant(&*self);
        }
        let mut children: Vec<BlockId> = Vec::new();
        std::mem::swap(&mut children, &mut self.child_ids);
        children.push(child_id);
        proof {
            assert(ids(children@) =~= ids(old(self).child_ids@).push(child_id@));
            lemma_push_new_distinct(ids(old(self).child_ids@), child_id@);
        }
        self.child_ids = children;
    }

    /// Takes `child_id` out of the children.
    pub fn remove_child(&mut self, child_id: &BlockId)
        ensures
            final(self)@ == (BlockView { children: without(old(self)@.children, child_id@), ..old(self)@ }),
    {
        let mut kept: Vec<BlockId> = Vec::new();
        let mut i: usize = 0;
        while i < self.child_ids.len()
            invariant
                i <= self.child_ids@.len(),
                self == old(self),
                ids(kept@) == without(ids(self.child_ids@.take(i as int)), child_id@),
            decreases self.child_ids.len() - i,
        {
            proof {
                assert(ids(self.child_ids@.take(i + 1)).drop_last() =~= ids(self.child_ids@.take(i as int)));
            }
            if !self.child_ids[i].same(child_id) {
                kept.push(self.child_ids[i].clone());
                proof {
                    assert(ids(kept@) =~= without(ids(self.child_ids@.take(i as int)), child_id@).push(self.child_ids@[i as int]@));
                }
            }
            i = i + 1;
        }
        proof {
            assert(self.child_ids@.take(self.child_ids@.len() as int) =~= self.child_ids@);
            use_type_invariant(&*self);
            lemma_without_distinct(ids(self.child_ids@), child_id@);
        }
        self.child_ids = kept;
    }

    pub fn urls(&self) -> (r: &[Url])
        ensures
            url_texts(r@) == self@.urls,
    {
        self.urls.as_slice()
    }

    /// Appends `url` unless the block already holds it.
    pub fn add_url(&mut self, url: Url)
        ensures
            final(self)@ == (BlockView { urls: push_new(old(self)@.urls, url@), ..old(self)@ }),
    {
        let mut i: usize = 0;
        while i < self.urls.len()
            invariant
                i <= self.urls@.len(),
                self == old(self),
                forall|j: int| 0 <= j < i ==> self.urls@[j]@ != url@,
            decreases self.urls.len() - i,
        {
            if self.urls[i].same(&url) {
                proof {
                    assert(url_texts(self.urls@)[i as int] == url@);
                }
                return;
            }
            i = i + 1;
        }
        proof {
            assert(!url_texts(self.urls@).contains(url@));
            use_type_invariant(&*self);
        }
        proof {
            use_type_invariant(&url);
            url.lemma_well_formed();
        }
        let mut urls: Vec<Url> = Vec::new();
        std::mem::swap(&mut urls, &mut self.urls);
        urls.push(url);
        proof {
            assert(url_texts(urls@) =~= url_texts(old(self).urls@).push(url@));
            assert(forall|k: int| 0 <= k < urls@.len() ==> #[trigger] url_texts(urls@)[k] == url_texts(old(self).urls@).push(url@)[k]);
            lemma_push_new_distinct(url_texts(old(self).urls@), url@);
        }
        self.urls = urls;
    }

    pub fn page_references(&self) -> (r: &[PageReference])
        ensures
            ref_values(r@) == self@.refs,
    {
        self.page_references.as_slice()
    }

    /// Appends `reference` unless the block already holds an equal one.
    pub fn add_page_reference(&mut self, reference: PageReference)
        ensures
            final(self)@ == (BlockView { refs: push_new(old(self)@.refs, reference@), ..old(self)@ }),
    {
        let mut i: usize = 0;
        while i < self.page_references.len()
            invariant
                i <= self.page_references@.len(),
                self == old(self),
                forall|j: int| 0 <= j < i ==> self.page_references@[j]@ != reference@,
            decreases self.page_references.len() - i,
        {
            if self.page_references[i].same(&reference) {
                proof {
                    assert(ref_values(self.page_references@)[i as int] == reference@);
                }
                return;
            }
            i = i + 1;
        }
        proof {
            assert(!ref_values(self.page_references@).contains(reference@));
            use_type_invariant(&*self);
        }
        proof {
            use_type_invariant(&reference);
            reference.lemma_titled();
        }
        let mut refs: Vec<PageReference> = Vec::new();
        std::mem::swap(&mut refs, &mut self.page_references);
        refs.push(reference);
        proof {
            assert(ref_values(refs@) =~= ref_values(old(self).page_references@).push(reference@));
            assert(forall|k: int| 0 <= k < refs@.len() ==> #[trigger] ref_values(refs@)[k] == ref_values(old(self).page_references@).push(reference@)[k]);
            lemma_push_new_distinct(ref_values(old(self).page_references@), reference@);
        }
        self.page_references = refs;
    }

    pub fn update_content(&mut self, content: BlockContent)
        ensures
            final(self)@ == (BlockView { content: content@, ..old(self)@ }),
    {
        proof {
            use_type_invariant(&*self);
        }
        self.content = content;
    }

    pub fn set_parent(&mut self, parent_id: Option<BlockId>)
        ensures
            final(self)@ == (BlockView {
                parent: match parent_id {
                    Some(p) => Some(p@),
                    None => None,
                },
                ..old(self)@
            }),
    {
        proof {
            use_type_invariant(&*self);
        }
        self.parent_id = parent_id;
    }

    /// Takes over the children of `other`; the page uses this when a block replaces another.
    pub(crate) fn adopt_children(&mut self, other: &Block)
        ensures
            final(self)@ == (BlockView { children: other@.children, ..old(self)@ }),
    {
        proof {
            use_type_invariant(&*self);
            use_type_invariant(other);
        }
        let children = clone_ids(other.child_ids.as_slice());
        self.child_ids = children;
    }

    /// Forgets every child; the page that owns the block keeps the children up to date.
    pub(crate) fn clear_children(&mut self)
        ensures
            final(self)@ == (BlockView { children: Seq::empty(), ..old(self)@ }),
    {
        proof {
            use_type_invariant(&*self);
        }
        let empty: Vec<BlockId> = Vec::new();
        proof {
            assert(ids(empty@) =~= Seq::empty());
        }
        self.child_ids = empty;
    }
}

impl Clone for Block {
    fn clone(&self) -> (r: Self)
        ensures
            r@ == self@,
    {
        proof {
            use_type_invariant(self);
        }
        let parent_id = match &self.parent_id {
            Some(p) => Some(p.clone()),
            None => None,
        };
        Block {
            id: self.id.clone(),
            content: self.content.clone(),
            indent_level: self.indent_level,
            parent_id,
            child_ids: clone_ids(self.child_ids.as_slice()),
            urls: clone_urls(self.urls.as_slice()),
            page_references: clone_refs(self.page_references.as_slice()),
        }
    }
}

impl Entity for Block {
    type Id = BlockId;

    fn id(&self) -> &BlockId {
        &self.id
    }
}

} // verus!
