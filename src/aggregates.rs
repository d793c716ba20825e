//! The page aggregate: a tree of blocks owned by one page.
//!
//! Blocks are kept in the order in which they were added. A block's parent
//! always comes before it, which is what keeps the tree free of cycles.

use crate::base::{DomainError, DomainResult, Entity};
use crate::entities::{ids, Block, BlockView};
use crate::value_objects::{BlockId, PageId, PageReference, Url};
use vstd::prelude::*;
use vstd::std_specs::iter::IteratorSpec;

verus! {

/// Some block of `bs` has identifier `id`.
pub open spec fn has_id(bs: Seq<BlockView>, id: Seq<char>) -> bool {
    exists|i: int| 0 <= i < bs.len() && (#[trigger] bs[i]).id == id
}

/// The position of the block with identifier `id`, or -1.
pub open spec fn index_of(bs: Seq<BlockView>, id: Seq<char>) -> int {
    if has_id(bs, id) {
        choose|i: int| 0 <= i < bs.len() && (#[trigger] bs[i]).id == id
    } else {
        -1
    }
}

/// No two blocks share an identifier.
pub open spec fn unique_ids(bs: Seq<BlockView>) -> bool {
    forall|i: int, j: int| 0 <= i < bs.len() && 0 <= j < bs.len() && i != j ==> (#[trigger] bs[i]).id != (#[trigger] bs[j]).id
}

/// The parent of block `i` is an earlier block that lists `i` among its children.
pub open spec fn parent_ok(bs: Seq<BlockView>, i: int) -> bool {
    match bs[i].parent {
        None => true,
        Some(p) => {
            let j = index_of(bs, p);
            0 <= j < i && bs[j].children.contains(bs[i].id)
        },
    }
}

/// The identifiers of the blocks whose parent is `p`, in block order.
pub open spec fn child_ids_of(bs: Seq<BlockView>, p: Seq<char>) -> Seq<Seq<char>>
    decreases bs.len(),
{
    if bs.len() == 0 {
        Seq::empty()
    } else {
        child_ids_of(bs.drop_last(), p) + (if bs.last().parent == Some(p) {
            seq![bs.last().id]
        } else {
            Seq::empty()
        })
    }
}

/// Each child of block `i` is a later block whose parent is `i`; no child is listed twice;
/// and the children are exactly the blocks whose parent is `i`, in block order.
pub open spec fn children_ok(bs: Seq<BlockView>, i: int) -> bool {
    &&& bs[i].children == child_ids_of(bs, bs[i].id)
    &&& bs[i].children.no_duplicates()
    &&& forall|k: int| 0 <= k < bs[i].children.len() ==> {
        let c = index_of(bs, #[trigger] bs[i].children[k]);
        i < c < bs.len() && bs[c].parent == Some(bs[i].id)
    }
}

/// Block `i` has an identifier and holds each URL and each reference at most once, every URL
/// well formed and every reference titled.
pub open spec fn links_ok(bs: Seq<BlockView>, i: int) -> bool {
    &&& bs[i].id.len() > 0
    &&& bs[i].urls.no_duplicates()
    &&& bs[i].refs.no_duplicates()
    &&& forall|k: int| 0 <= k < bs[i].urls.len() ==> crate::value_objects::is_url_text(#[trigger] bs[i].urls[k])
    &&& forall|k: int| 0 <= k < bs[i].refs.len() ==> (#[trigger] bs[i].refs[k]).0.len() > 0
}

/// The structural invariants of a page's blocks.
pub open spec fn tree_ok(bs: Seq<BlockView>) -> bool {
    &&& unique_ids(bs)
    &&& forall|i: int| 0 <= i < bs.len() ==> #[trigger] links_ok(bs, i)
    &&& forall|i: int| 0 <= i < bs.len() ==> #[trigger] parent_ok(bs, i)
    &&& forall|i: int| 0 <= i < bs.len() ==> #[trigger] children_ok(bs, i)
}

/// The roots are exactly the parentless blocks, each listed once.
pub open spec fn roots_ok(bs: Seq<BlockView>, roots: Seq<Seq<char>>) -> bool {
    &&& roots.no_duplicates()
    &&& forall|k: int| 0 <= k < roots.len() ==> {
        let i = index_of(bs, #[trigger] roots[k]);
        0 <= i < bs.len() && bs[i].parent is None
    }
    &&& forall|i: int| 0 <= i < bs.len() && (#[trigger] bs[i]).parent is None ==> roots.contains(bs[i].id)
}

/// `b` as the page stores it: the page keeps the children lists itself.
pub open spec fn as_stored(b: BlockView) -> BlockView {
    BlockView { children: Seq::empty(), ..b }
}

/// The blocks after `b` was added to `bs`.
pub open spec fn with_block(bs: Seq<BlockView>, b: BlockView) -> Seq<BlockView> {
    match b.parent {
        None => bs.push(as_stored(b)),
        Some(p) => {
            let j = index_of(bs, p);
            bs.update(j, BlockView { children: crate::entities::push_new(bs[j].children, b.id), ..bs[j] }).push(
                as_stored(b),
            )
        },
    }
}

/// Positions of the ancestors of block `i`, nearest first.
pub open spec fn ancestors_of(bs: Seq<BlockView>, i: int) -> Seq<int>
    decreases i,
{
    if 0 <= i < bs.len() {
        match bs[i].parent {
            Some(p) => {
                let j = index_of(bs, p);
                if 0 <= j < i {
                    seq![j] + ancestors_of(bs, j)
                } else {
                    Seq::empty()
                }
            },
            None => Seq::empty(),
        }
    } else {
        Seq::empty()
    }
}

/// Positions of the descendants of block `i` reached through its children from the `k`-th on,
/// in pre-order.
pub open spec fn descendants_from(bs: Seq<BlockView>, i: int, k: int) -> Seq<int>
    decreases bs.len() - i, bs[i].children.len() - k,
{
    if 0 <= i < bs.len() && 0 <= k < bs[i].children.len() {
        let c = index_of(bs, bs[i].children[k]);
        if i < c < bs.len() {
            seq![c] + descendants_from(bs, c, 0) + descendants_from(bs, i, k + 1)
        } else {
            descendants_from(bs, i, k + 1)
        }
    } else {
        Seq::empty()
    }
}

/// Positions of all descendants of block `i`, in pre-order of the children lists.
pub open spec fn descendants_of(bs: Seq<BlockView>, i: int) -> Seq<int> {
    descendants_from(bs, i, 0)
}

/// The blocks at the given positions.
pub open spec fn blocks_at(bs: Seq<BlockView>, idx: Seq<int>) -> Seq<BlockView> {
    idx.map_values(|k: int| bs[k])
}

/// The values of a sequence of borrowed blocks.
pub open spec fn block_views(v: Seq<&Block>) -> Seq<BlockView> {
    v.map_values(|b: &Block| b@)
}

/// Blocks from the root down to block `i`, inclusive.
pub open spec fn path_of(bs: Seq<BlockView>, i: int) -> Seq<BlockView> {
    if 0 <= i < bs.len() {
        blocks_at(bs, ancestors_of(bs, i)).reverse().push(bs[i])
    } else {
        Seq::empty()
    }
}

/// The URLs of the blocks, block after block.
pub open spec fn urls_of_blocks(vs: Seq<BlockView>) -> Seq<Seq<char>>
    decreases vs.len(),
{
    if vs.len() == 0 {
        Seq::empty()
    } else {
        urls_of_blocks(vs.drop_last()) + vs.last().urls
    }
}

/// The references of the blocks, block after block.
pub open spec fn refs_of_blocks(vs: Seq<BlockView>) -> Seq<(Seq<char>, bool)>
    decreases vs.len(),
{
    if vs.len() == 0 {
        Seq::empty()
    } else {
        refs_of_blocks(vs.drop_last()) + vs.last().refs
    }
}

/// For each URL of the first `n` blocks: the URL, the references of the block's ancestors
/// (nearest first) and those of its descendants (pre-order).
pub open spec fn url_contexts(bs: Seq<BlockView>, n: int) -> Seq<
    (Seq<char>, Seq<(Seq<char>, bool)>, Seq<(Seq<char>, bool)>),
>
    decreases n,
{
    if n <= 0 || n > bs.len() {
        Seq::empty()
    } else {
        url_contexts(bs, n - 1) + bs[n - 1].urls.map_values(
            |u: Seq<char>|
                (
                    u,
                    refs_of_blocks(blocks_at(bs, ancestors_of(bs, n - 1))),
                    refs_of_blocks(blocks_at(bs, descendants_of(bs, n - 1))),
                ),
        )
    }
}

/// For each reference of the first `n` blocks: the reference, the URLs of the block's
/// ancestors (nearest first) and those of its descendants (pre-order).
pub open spec fn reference_contexts(bs: Seq<BlockView>, n: int) -> Seq<
    ((Seq<char>, bool), Seq<Seq<char>>, Seq<Seq<char>>),
>
    decreases n,
{
    if n <= 0 || n > bs.len() {
        Seq::empty()
    } else {
        reference_contexts(bs, n - 1) + bs[n - 1].refs.map_values(
            |r: (Seq<char>, bool)|
                (
                    r,
                    urls_of_blocks(blocks_at(bs, ancestors_of(bs, n - 1))),
                    urls_of_blocks(blocks_at(bs, descendants_of(bs, n - 1))),
                ),
        )
    }
}

pub open spec fn url_ref_views(v: Seq<&Url>) -> Seq<Seq<char>> {
    v.map_values(|u: &Url| u@)
}

pub open spec fn reference_ref_views(v: Seq<&PageReference>) -> Seq<(Seq<char>, bool)> {
    v.map_values(|r: &PageReference| r@)
}

pub open spec fn url_context_views(v: Seq<(&Url, Vec<&PageReference>, Vec<&PageReference>)>) -> Seq<
    (Seq<char>, Seq<(Seq<char>, bool)>, Seq<(Seq<char>, bool)>),
> {
    v.map_values(
        |t: (&Url, Vec<&PageReference>, Vec<&PageReference>)|
            (t.0@, reference_ref_views(t.1@), reference_ref_views(t.2@)),
    )
}

pub open spec fn reference_context_views(v: Seq<(&PageReference, Vec<&Url>, Vec<&Url>)>) -> Seq<
    ((Seq<char>, bool), Seq<Seq<char>>, Seq<Seq<char>>),
> {
    v.map_values(
        |t: (&PageReference, Vec<&Url>, Vec<&Url>)| (t.0@, url_ref_views(t.1@), url_ref_views(t.2@)),
    )
}

/// The URLs of the borrowed blocks, block after block.
pub fn urls_in<'a>(blocks: &Vec<&'a Block>) -> (r: Vec<&'a Url>)
    ensures
        url_ref_views(r@) == urls_of_blocks(block_views(blocks@)),
{
    let ghost vs = block_views(blocks@);
    let mut out: Vec<&'a Url> = Vec::new();
    let mut i: usize = 0;
    while i < blocks.len()
        invariant
            i <= blocks@.len(),
            vs == block_views(blocks@),
            url_ref_views(out@) == urls_of_blocks(vs.take(i as int)),
        decreases blocks.len() - i,
    {
        let us = blocks[i].urls();
        let mut k: usize = 0;
        let ghost start = url_ref_views(out@);
        while k < us.len()
            invariant
                k <= us@.len(),
                url_ref_views(out@) == start + crate::entities::url_texts(us@).take(k as int),
            decreases us.len() - k,
        {
            let ghost before = out@;
            out.push(&us[k]);
            proof {
                assert(url_ref_views(out@) =~= url_ref_views(before).push(us@[k as int]@));
                assert(crate::entities::url_texts(us@).take(k + 1) =~= crate::entities::url_texts(us@).take(k as int).push(us@[k as int]@));
            }
            k = k + 1;
        }
        proof {
            assert(crate::entities::url_texts(us@).take(us@.len() as int) =~= crate::entities::url_texts(us@));
            assert(vs.take(i + 1).drop_last() =~= vs.take(i as int));
            assert(vs.take(i + 1).last() == vs[i as int]);
        }
        i = i + 1;
    }
    proof {
        assert(vs.take(blocks@.len() as int) =~= vs);
    }
    out
}

/// The references of the borrowed blocks, block after block.
pub fn references_in<'a>(blocks: &Vec<&'a Block>) -> (r: Vec<&'a PageReference>)
    ensures
        reference_ref_views(r@) == refs_of_blocks(block_views(blocks@)),
{
    let ghost vs = block_views(blocks@);
    let mut out: Vec<&'a PageReference> = Vec::new();
    let mut i: usize = 0;
    while i < blocks.len()
        invariant
            i <= blocks@.len(),
            vs == block_views(blocks@),
            reference_ref_views(out@) == refs_of_blocks(vs.take(i as int)),
        decreases blocks.len() - i,
    {
        let rs = blocks[i].page_references();
        let mut k: usize = 0;
        let ghost start = reference_ref_views(out@);
        while k < rs.len()
            invariant
                k <= rs@.len(),
                reference_ref_views(out@) == start + crate::entities::ref_values(rs@).take(k as int),
            decreases rs.len() - k,
        {
            let ghost before = out@;
            out.push(&rs[k]);
            proof {
                assert(reference_ref_views(out@) =~= reference_ref_views(before).push(rs@[k as int]@));
                assert(crate::entities::ref_values(rs@).take(k + 1) =~= crate::entities::ref_values(rs@).take(k as int).push(rs@[k as int]@));
            }
            k = k + 1;
        }
        proof {
            assert(crate::entities::ref_values(rs@).take(rs@.len() as int) =~= crate::entities::ref_values(rs@));
            assert(vs.take(i + 1).drop_last() =~= vs.take(i as int));
            assert(vs.take(i + 1).last() == vs[i as int]);
        }
        i = i + 1;
    }
    proof {
        assert(vs.take(blocks@.len() as int) =~= vs);
    }
    out
}

/// Block `k` is block `i` or one of its descendants (`i` lies on `k`'s ancestor chain).
pub open spec fn in_subtree(bs: Seq<BlockView>, i: int, k: int) -> bool {
    k == i || ancestors_of(bs, k).contains(i)
}

/// The blocks agree on everything but their children lists.
pub open spec fn same_but_children(a: BlockView, b: BlockView) -> bool {
    as_stored(a) == as_stored(b)
}

pub proof fn lemma_in_subtree_step(bs: Seq<BlockView>, i: int, k: int)
    requires
        tree_ok(bs),
        0 <= k < bs.len(),
        k != i,
    ensures
        in_subtree(bs, i, k) == (match bs[k].parent {
            None => false,
            Some(p) => in_subtree(bs, i, index_of(bs, p)),
        }),
{
    assert(parent_ok(bs, k));
    match bs[k].parent {
        None => {
        },
        Some(p) => {
            let j = index_of(bs, p);
            let a = ancestors_of(bs, j);
            assert(ancestors_of(bs, k) == seq![j] + a);
            if (seq![j] + a).contains(i) {
                let m = choose|m: int| 0 <= m < (seq![j] + a).len() && (seq![j] + a)[m] == i;
                if m > 0 {
                    assert(a[m - 1] == i);
                }
            }
            if a.contains(i) {
                let m = choose|m: int| 0 <= m < a.len() && a[m] == i;
                assert((seq![j] + a)[m + 1] == i);
            }
            if j == i {
                assert((seq![j] + a)[0] == i);
            }
        },
    }
}

/// The blocks after `b` replaced the block with its identifier, which keeps its children.
pub open spec fn with_replaced(bs: Seq<BlockView>, b: BlockView) -> Seq<BlockView> {
    let j = index_of(bs, b.id);
    bs.update(j, BlockView { children: bs[j].children, ..b })
}

/// Replacing a block by one with the same identifier and parent, keeping its children, keeps
/// the invariants.
pub proof fn lemma_replace(bs: Seq<BlockView>, roots: Seq<Seq<char>>, b: BlockView)
    requires
        tree_ok(bs),
        roots_ok(bs, roots),
        has_id(bs, b.id),
        b.parent == bs[index_of(bs, b.id)].parent,
        b.urls.no_duplicates(),
        b.refs.no_duplicates(),
        b.id.len() > 0,
        forall|k: int| 0 <= k < b.urls.len() ==> crate::value_objects::is_url_text(#[trigger] b.urls[k]),
        forall|k: int| 0 <= k < b.refs.len() ==> (#[trigger] b.refs[k]).0.len() > 0,
    ensures
        tree_ok(with_replaced(bs, b)),
        roots_ok(with_replaced(bs, b), roots),
{
    let j = index_of(bs, b.id);
    let nbs = with_replaced(bs, b);
    assert(0 <= j < bs.len() && bs[j].id == b.id);
    assert(forall|i: int| 0 <= i < bs.len() ==> (#[trigger] nbs[i]).id == bs[i].id && nbs[i].parent == bs[i].parent && nbs[i].children == bs[i].children);
    assert forall|i: int, k: int| 0 <= i < nbs.len() && 0 <= k < nbs.len() && i != k implies (#[trigger] nbs[i]).id != (#[trigger] nbs[k]).id by {
        assert(bs[i].id != bs[k].id);
    }
    assert forall|x: Seq<char>| has_id(bs, x) implies index_of(nbs, x) == index_of(bs, x) by {
        lemma_same_positions(bs, nbs, x);
    }
    assert forall|x: Seq<char>| has_id(nbs, x) implies has_id(bs, x) by {
        let i = choose|i: int| 0 <= i < nbs.len() && (#[trigger] nbs[i]).id == x;
        assert(bs[i].id == x);
    }
    assert forall|x: Seq<char>| #[trigger] child_ids_of(nbs, x) == child_ids_of(bs, x) by {
        lemma_child_ids_skeleton(nbs, bs, x);
    }
    assert forall|i: int| 0 <= i < nbs.len() implies #[trigger] links_ok(nbs, i) by {
        if i != j {
            assert(links_ok(bs, i));
        }
    }
    assert forall|i: int| 0 <= i < nbs.len() implies #[trigger] parent_ok(nbs, i) by {
        assert(parent_ok(bs, i));
        if let Some(p) = bs[i].parent {
            let q = index_of(bs, p);
            assert(0 <= q < i);
            if !has_id(bs, p) {
                assert(q == -1);
            }
            lemma_same_positions(bs, nbs, p);
        }
    }
    assert forall|i: int| 0 <= i < nbs.len() implies #[trigger] children_ok(nbs, i) by {
        assert(children_ok(bs, i));
        assert forall|k: int| 0 <= k < nbs[i].children.len() implies {
            let c = index_of(nbs, #[trigger] nbs[i].children[k]);
            i < c < nbs.len() && nbs[c].parent == Some(nbs[i].id)
        } by {
            let c = index_of(bs, bs[i].children[k]);
            assert(0 <= c < bs.len() && bs[c].id == bs[i].children[k]) by {
                if !has_id(bs, bs[i].children[k]) {
                    assert(c == -1);
                }
            }
            lemma_same_positions(bs, nbs, bs[i].children[k]);
        }
    }
    assert forall|k: int| 0 <= k < roots.len() implies {
        let i = index_of(nbs, #[trigger] roots[k]);
        0 <= i < nbs.len() && nbs[i].parent is None
    } by {
        let i = index_of(bs, roots[k]);
        assert(0 <= i < bs.len() && bs[i].id == roots[k]) by {
            if !has_id(bs, roots[k]) {
                assert(i == -1);
            }
        }
        lemma_same_positions(bs, nbs, roots[k]);
    }
    assert forall|i: int| 0 <= i < nbs.len() && (#[trigger] nbs[i]).parent is None implies roots.contains(nbs[i].id) by {
        assert(bs[i].parent is None);
    }
}

/// What block `j` becomes when block `i` is replaced by `b` under another parent.
pub open spec fn moved_target(bs: Seq<BlockView>, i: int, b: BlockView, j: int) -> BlockView {
    if j == i {
        b
    } else {
        bs[j]
    }
}

/// A page: an identified, titled tree of blocks.
#[derive(Debug)]
pub struct Page {
    id: PageId,
    title: String,
    blocks: Vec<Block>,
    root_block_ids: Vec<BlockId>,
}

pub proof fn lemma_index_of(bs: Seq<BlockView>, i: int)
    requires
        unique_ids(bs),
        0 <= i < bs.len(),
    ensures
        index_of(bs, bs[i].id) == i,
        has_id(bs, bs[i].id),
{
    assert(has_id(bs, bs[i].id));
}

pub proof fn lemma_child_ids_push(bs: Seq<BlockView>, b: BlockView, p: Seq<char>)
    ensures
        child_ids_of(bs.push(b), p) == child_ids_of(bs, p) + (if b.parent == Some(p) {
            seq![b.id]
        } else {
            Seq::<Seq<char>>::empty()
        }),
{
    assert(bs.push(b).drop_last() =~= bs);
}

/// The children lists depend only on the identifiers and parents of the blocks.
pub proof fn lemma_child_ids_skeleton(bs: Seq<BlockView>, cs: Seq<BlockView>, p: Seq<char>)
    requires
        bs.len() == cs.len(),
        forall|i: int| 0 <= i < bs.len() ==> (#[trigger] bs[i]).id == cs[i].id && bs[i].parent == cs[i].parent,
    ensures
        child_ids_of(bs, p) == child_ids_of(cs, p),
    decreases bs.len(),
{
    if bs.len() > 0 {
        let b2 = bs.drop_last();
        let c2 = cs.drop_last();
        assert forall|i: int| 0 <= i < b2.len() implies (#[trigger] b2[i]).id == c2[i].id && b2[i].parent == c2[i].parent by {
            assert(b2[i] == bs[i]);
            assert(c2[i] == cs[i]);
        }
        lemma_child_ids_skeleton(b2, c2, p);
        assert(bs.last() == bs[bs.len() - 1]);
    }
}

/// A block that is not in the tree has no children there.
pub proof fn lemma_child_ids_absent(bs: Seq<BlockView>, x: Seq<char>)
    requires
        forall|i: int| 0 <= i < bs.len() ==> (#[trigger] bs[i]).parent != Some(x),
    ensures
        child_ids_of(bs, x) == Seq::<Seq<char>>::empty(),
    decreases bs.len(),
{
    if bs.len() > 0 {
        let b2 = bs.drop_last();
        assert forall|i: int| 0 <= i < b2.len() implies (#[trigger] b2[i]).parent != Some(x) by {
            assert(b2[i] == bs[i]);
        }
        lemma_child_ids_absent(b2, x);
        assert(bs.last() == bs[bs.len() - 1]);
    }
}

/// In a well-formed tree, no block has as parent a block that is absent.
pub proof fn lemma_no_orphans(bs: Seq<BlockView>, x: Seq<char>)
    requires
        tree_ok(bs),
        !has_id(bs, x),
    ensures
        forall|i: int| 0 <= i < bs.len() ==> (#[trigger] bs[i]).parent != Some(x),
{
    assert forall|i: int| 0 <= i < bs.len() implies (#[trigger] bs[i]).parent != Some(x) by {
        assert(parent_ok(bs, i));
        if bs[i].parent == Some(x) {
            let j = index_of(bs, x);
            assert(0 <= j < i);
            if !has_id(bs, x) {
                assert(j == -1);
            }
        }
    }
}

/// Extending a sequence of blocks without touching the earlier identifiers keeps their positions.
pub proof fn lemma_same_positions(bs: Seq<BlockView>, nbs: Seq<BlockView>, x: Seq<char>)
    requires
        bs.len() <= nbs.len(),
        forall|i: int| 0 <= i < bs.len() ==> (#[trigger] nbs[i]).id == bs[i].id,
        unique_ids(nbs),
        has_id(bs, x),
    ensures
        index_of(nbs, x) == index_of(bs, x),
        has_id(nbs, x),
{
    let i = index_of(bs, x);
    assert(0 <= i < bs.len() && bs[i].id == x);
    assert(nbs[i].id == x);
    lemma_index_of(nbs, i);
}

/// Adding a root block keeps the invariants.
pub proof fn lemma_add_root(bs: Seq<BlockView>, roots: Seq<Seq<char>>, b: BlockView)
    requires
        tree_ok(bs),
        roots_ok(bs, roots),
        !has_id(bs, b.id),
        b.parent is None,
        b.urls.no_duplicates(),
        b.refs.no_duplicates(),
        b.id.len() > 0,
        forall|k: int| 0 <= k < b.urls.len() ==> crate::value_objects::is_url_text(#[trigger] b.urls[k]),
        forall|k: int| 0 <= k < b.refs.len() ==> (#[trigger] b.refs[k]).0.len() > 0,
    ensures
        tree_ok(bs.push(as_stored(b))),
        roots_ok(bs.push(as_stored(b)), roots.push(b.id)),
{
    let nbs = bs.push(as_stored(b));
    let n = bs.len() as int;
    assert forall|i: int, j: int| 0 <= i < nbs.len() && 0 <= j < nbs.len() && i != j implies (#[trigger] nbs[i]).id != (#[trigger] nbs[j]).id by {
        if i < n && j < n {
        } else if i == n {
            assert(bs[j].id != b.id);
        } else {
            assert(bs[i].id != b.id);
        }
    }
    assert forall|p: Seq<char>| #[trigger] child_ids_of(nbs, p) == child_ids_of(bs, p) by {
        lemma_child_ids_push(bs, as_stored(b), p);
        assert(child_ids_of(bs, p) + Seq::<Seq<char>>::empty() =~= child_ids_of(bs, p));
    }
    lemma_no_orphans(bs, b.id);
    lemma_child_ids_absent(bs, b.id);
    assert forall|i: int| 0 <= i < nbs.len() implies #[trigger] links_ok(nbs, i) by {
        if i < n {
            assert(links_ok(bs, i));
        }
    }
    assert forall|i: int| 0 <= i < nbs.len() implies #[trigger] parent_ok(nbs, i) by {
        if i < n {
            assert(parent_ok(bs, i));
            if let Some(p) = bs[i].parent {
                lemma_same_positions(bs, nbs, p);
            }
        }
    }
    assert forall|i: int| 0 <= i < nbs.len() implies #[trigger] children_ok(nbs, i) by {
        if i < n {
            assert(children_ok(bs, i));
            assert forall|k: int| 0 <= k < nbs[i].children.len() implies {
                let c = index_of(nbs, #[trigger] nbs[i].children[k]);
                i < c < nbs.len() && nbs[c].parent == Some(nbs[i].id)
            } by {
                let c = index_of(bs, bs[i].children[k]);
                assert(0 <= c < n && bs[c].id == bs[i].children[k]);
                lemma_same_positions(bs, nbs, bs[i].children[k]);
            }
        } else {
            assert(nbs[i].children =~= Seq::<Seq<char>>::empty());
            assert(child_ids_of(nbs, b.id) == child_ids_of(bs, b.id));
        }
    }
    let nroots = roots.push(b.id);
    assert forall|k: int| 0 <= k < nroots.len() implies {
        let i = index_of(nbs, #[trigger] nroots[k]);
        0 <= i < nbs.len() && nbs[i].parent is None
    } by {
        if k < roots.len() {
            let i = index_of(bs, roots[k]);
            assert(0 <= i < n && bs[i].id == roots[k]);
            lemma_same_positions(bs, nbs, roots[k]);
        } else {
            lemma_index_of(nbs, n);
        }
    }
    assert forall|i: int| 0 <= i < nbs.len() && (#[trigger] nbs[i]).parent is None implies nroots.contains(nbs[i].id) by {
        if i < n {
            assert(roots.contains(bs[i].id));
            let k = choose|k: int| 0 <= k < roots.len() && roots[k] == bs[i].id;
            assert(nroots[k] == nbs[i].id);
        } else {
            assert(nroots[roots.len() as int] == nbs[i].id);
        }
    }
    assert forall|k1: int, k2: int| 0 <= k1 < nroots.len() && 0 <= k2 < nroots.len() && k1 != k2 implies nroots[k1] != nroots[k2] by {
        if k1 < roots.len() && k2 < roots.len() {
        } else if k1 < roots.len() {
            let i = index_of(bs, roots[k1]);
            assert(0 <= i < n && bs[i].id == roots[k1]);
        } else {
            let i = index_of(bs, roots[k2]);
            assert(0 <= i < n && bs[i].id == roots[k2]);
        }
    }
}

/// Adding a block under an existing parent keeps the invariants.
pub proof fn lemma_add_child(bs: Seq<BlockView>, roots: Seq<Seq<char>>, b: BlockView)
    requires
        tree_ok(bs),
        roots_ok(bs, roots),
        !has_id(bs, b.id),
        b.parent is Some,
        has_id(bs, b.parent->0),
        b.urls.no_duplicates(),
        b.refs.no_duplicates(),
        b.id.len() > 0,
        forall|k: int| 0 <= k < b.urls.len() ==> crate::value_objects::is_url_text(#[trigger] b.urls[k]),
        forall|k: int| 0 <= k < b.refs.len() ==> (#[trigger] b.refs[k]).0.len() > 0,
    ensures
        tree_ok(with_block(bs, b)),
        roots_ok(with_block(bs, b), roots),
{
    let p = b.parent->0;
    let j = index_of(bs, p);
    let n = bs.len() as int;
    let nbs = with_block(bs, b);
    assert(0 <= j < n && bs[j].id == p);
    assert(!bs[j].children.contains(b.id)) by {
        if bs[j].children.contains(b.id) {
            let k = choose|k: int| 0 <= k < bs[j].children.len() && bs[j].children[k] == b.id;
            assert(children_ok(bs, j));
            let c = index_of(bs, bs[j].children[k]);
            assert(0 <= c < n && bs[c].id == b.id);
        }
    }
    assert(crate::entities::push_new(bs[j].children, b.id) == bs[j].children.push(b.id));
    assert(nbs.len() == n + 1);
    let mid = bs.update(j, BlockView { children: bs[j].children.push(b.id), ..bs[j] });
    assert(nbs == mid.push(as_stored(b)));
    assert forall|q: Seq<char>| #[trigger] child_ids_of(nbs, q) == child_ids_of(bs, q) + (if q == p {
        seq![b.id]
    } else {
        Seq::<Seq<char>>::empty()
    }) by {
        lemma_child_ids_skeleton(mid, bs, q);
        lemma_child_ids_push(mid, as_stored(b), q);
    }
    lemma_no_orphans(bs, b.id);
    lemma_child_ids_absent(bs, b.id);
    assert(forall|i: int| 0 <= i < n ==> (#[trigger] nbs[i]).id == bs[i].id);
    assert(forall|i: int| 0 <= i < n && i != j ==> (#[trigger] nbs[i]) == bs[i]);
    assert(nbs[j].children == bs[j].children.push(b.id));
    assert(nbs[j].parent == bs[j].parent);
    assert(nbs[n] == as_stored(b));
    assert forall|i: int, k: int| 0 <= i < nbs.len() && 0 <= k < nbs.len() && i != k implies (#[trigger] nbs[i]).id != (#[trigger] nbs[k]).id by {
        if i < n && k < n {
        } else if i == n {
            assert(bs[k].id != b.id);
        } else {
            assert(bs[i].id != b.id);
        }
    }
    assert forall|i: int| 0 <= i < nbs.len() implies #[trigger] links_ok(nbs, i) by {
        if i < n {
            assert(links_ok(bs, i));
        }
    }
    lemma_index_of(nbs, n);
    assert forall|i: int| 0 <= i < nbs.len() implies #[trigger] parent_ok(nbs, i) by {
        if i < n {
            assert(parent_ok(bs, i));
            if let Some(q) = bs[i].parent {
                lemma_same_positions(bs, nbs, q);
                let jq = index_of(bs, q);
                if jq == j {
                    assert(nbs[j].children.contains(bs[i].id)) by {
                        let k = choose|k: int| 0 <= k < bs[j].children.len() && bs[j].children[k] == bs[i].id;
                        assert(nbs[j].children[k] == bs[i].id);
                    }
                }
            }
        } else {
            lemma_same_positions(bs, nbs, p);
            assert(nbs[j].children[bs[j].children.len() as int] == b.id);
        }
    }
    assert forall|i: int| 0 <= i < nbs.len() implies #[trigger] children_ok(nbs, i) by {
        if i < n {
            assert(children_ok(bs, i));
            assert forall|k: int| 0 <= k < nbs[i].children.len() implies {
                let c = index_of(nbs, #[trigger] nbs[i].children[k]);
                i < c < nbs.len() && nbs[c].parent == Some(nbs[i].id)
            } by {
                if k < bs[i].children.len() {
                    assert(nbs[i].children[k] == bs[i].children[k]);
                    let c = index_of(bs, bs[i].children[k]);
                    assert(0 <= c < n && bs[c].id == bs[i].children[k]);
                    lemma_same_positions(bs, nbs, bs[i].children[k]);
                } else {
                    assert(i == j);
                    assert(nbs[i].children[k] == b.id);
                }
            }
            if i == j {
                assert(nbs[j].children.no_duplicates()) by {
                    assert forall|k1: int, k2: int| 0 <= k1 < nbs[j].children.len() && 0 <= k2 < nbs[j].children.len() && k1 != k2 implies nbs[j].children[k1] != nbs[j].children[k2] by {
                        let m = bs[j].children.len() as int;
                        if k1 < m && k2 < m {
                        } else if k1 == m {
                            assert(bs[j].children[k2] != b.id);
                        } else {
                            assert(bs[j].children[k1] != b.id);
                        }
                    }
                }
            }
            if i == j {
                assert(child_ids_of(nbs, nbs[j].id) =~= bs[j].children.push(b.id));
            } else {
                assert(nbs[i].id != p);
                assert(child_ids_of(nbs, nbs[i].id) =~= child_ids_of(bs, bs[i].id));
            }
        } else {
            assert(nbs[i].children =~= Seq::<Seq<char>>::empty());
            assert(child_ids_of(nbs, b.id) =~= Seq::<Seq<char>>::empty());
        }
    }
    assert forall|k: int| 0 <= k < roots.len() implies {
        let i = index_of(nbs, #[trigger] roots[k]);
        0 <= i < nbs.len() && nbs[i].parent is None
    } by {
        let i = index_of(bs, roots[k]);
        assert(0 <= i < n && bs[i].id == roots[k]);
        lemma_same_positions(bs, nbs, roots[k]);
    }
    assert forall|i: int| 0 <= i < nbs.len() && (#[trigger] nbs[i]).parent is None implies roots.contains(nbs[i].id) by {
        if i < n {
            assert(roots.contains(bs[i].id));
        }
    }
}

impl Page {
    pub closed spec fn blocks_view(&self) -> Seq<BlockView> {
        self.blocks@.map_values(|b: Block| b@)
    }

    pub closed spec fn roots_view(&self) -> Seq<Seq<char>> {
        ids(self.root_block_ids@)
    }

    pub closed spec fn id_view(&self) -> Seq<char> {
        self.id@
    }

    pub closed spec fn title_view(&self) -> Seq<char> {
        self.title@
    }

    /// The page's invariants.
    pub open spec fn wf(&self) -> bool {
        &&& self.id_view().len() > 0
        &&& tree_ok(self.blocks_view())
        &&& roots_ok(self.blocks_view(), self.roots_view())
    }

    /// An empty page.
    pub fn new(id: PageId, title: String) -> (r: Page)
        ensures
            r.wf(),
            r.id_view() == id@,
            r.title_view() == title@,
            r.blocks_view() == Seq::<BlockView>::empty(),
            r.roots_view() == Seq::<Seq<char>>::empty(),
    {
        proof {
            use_type_invariant(&id);
            id.lemma_nonempty();
        }
        let r = Page { id, title, blocks: Vec::new(), root_block_ids: Vec::new() };
        proof {
            assert(r.blocks_view() =~= Seq::<BlockView>::empty());
            assert(r.roots_view() =~= Seq::<Seq<char>>::empty());
        }
        r
    }

    pub fn title(&self) -> (r: &str)
        ensures
            r@ == self.title_view(),
    {
        self.title.as_str()
    }

    pub fn set_title(&mut self, title: String)
        ensures
            final(self).title_view() == title@,
            final(self).id_view() == old(self).id_view(),
            final(self).blocks_view() == old(self).blocks_view(),
            final(self).roots_view() == old(self).roots_view(),
    {
        self.title = title;
    }

    pub fn page_id(&self) -> (r: &PageId)
        ensures
            r@ == self.id_view(),
    {
        &self.id
    }

    /// The blocks in the order in which they were added.
    pub fn blocks(&self) -> (r: &[Block])
        ensures
            r@.map_values(|b: Block| b@) == self.blocks_view(),
    {
        self.blocks.as_slice()
    }

    /// The position of the block with identifier `id`.
    pub fn find_index(&self, id: &BlockId) -> (r: Option<usize>)
        requires
            self.wf(),
        ensures
            r is Some <==> has_id(self.blocks_view(), id@),
            r matches Some(i) ==> i == index_of(self.blocks_view(), id@) && i < self.blocks_view().len(),
    {
        let mut i: usize = 0;
        while i < self.blocks.len()
            invariant
                i <= self.blocks@.len(),
                self.wf(),
                forall|j: int| 0 <= j < i ==> (#[trigger] self.blocks_view()[j]).id != id@,
            decreases self.blocks.len() - i,
        {
            if self.blocks[i].id().same(id) {
                proof {
                    lemma_index_of(self.blocks_view(), i as int);
                }
                return Some(i);
            }
            i = i + 1;
        }
        None
    }

    pub fn contains_block(&self, id: &BlockId) -> (r: bool)
        requires
            self.wf(),
        ensures
            r == has_id(self.blocks_view(), id@),
    {
        self.find_index(id).is_some()
    }

    pub fn get_block(&self, id: &BlockId) -> (r: Option<&Block>)
        requires
            self.wf(),
        ensures
            r is Some <==> has_id(self.blocks_view(), id@),
            r matches Some(b) ==> b@ == self.blocks_view()[index_of(self.blocks_view(), id@)],
    {
        match self.find_index(id) {
            Some(i) => Some(&self.blocks[i]),
            None => None,
        }
    }

    /// Adds `block` under its parent, or as a root when it has none; a block with the same
    /// identifier is replaced and keeps its children.
    ///
    /// When the replacing block names another parent, the block and its subtree move there:
    /// it leaves its old parent's children (or the roots) and is appended to the new parent's
    /// children. Fails when the parent is not in the page, or when it lies in the block's own
    /// subtree, since the move would make a cycle. A new block's own children list is dropped:
    /// the page lists children as they are added under it.
    pub fn add_block(&mut self, block: Block) -> (r: DomainResult<()>)
        requires
            old(self).wf(),
        ensures
            final(self).wf(),
            final(self).id_view() == old(self).id_view(),
            final(self).title_view() == old(self).title_view(),
            r is Ok <==> (block@.parent matches Some(p) ==> has_id(old(self).blocks_view(), p) && (has_id(
                old(self).blocks_view(),
                block@.id,
            ) ==> !in_subtree(
                old(self).blocks_view(),
                index_of(old(self).blocks_view(), block@.id),
                index_of(old(self).blocks_view(), p),
            ))),
            r matches Err(e) ==> e is InvalidOperation,
            r is Err ==> final(self).blocks_view() == old(self).blocks_view()
                && final(self).roots_view() == old(self).roots_view(),
            r is Ok && !has_id(old(self).blocks_view(), block@.id) ==> final(self).blocks_view()
                == with_block(old(self).blocks_view(), block@) && final(self).roots_view() == (
            if block@.parent is None {
                old(self).roots_view().push(block@.id)
            } else {
                old(self).roots_view()
            }),
            r is Ok && has_id(old(self).blocks_view(), block@.id) && block@.parent == old(self).blocks_view()[index_of(
                old(self).blocks_view(),
                block@.id,
            )].parent ==> final(self).blocks_view() == with_replaced(old(self).blocks_view(), block@)
                && final(self).roots_view() == old(self).roots_view(),
            r is Ok && has_id(old(self).blocks_view(), block@.id) && block@.parent != old(self).blocks_view()[index_of(
                old(self).blocks_view(),
                block@.id,
            )].parent ==> (forall|x: Seq<char>|
                #![trigger has_id(final(self).blocks_view(), x)]
                has_id(final(self).blocks_view(), x) <==> has_id(old(self).blocks_view(), x)) && (forall|m: int|
                0 <= m < final(self).blocks_view().len() ==> same_but_children(
                    #[trigger] final(self).blocks_view()[m],
                    moved_target(
                        old(self).blocks_view(),
                        index_of(old(self).blocks_view(), block@.id),
                        block@,
                        index_of(old(self).blocks_view(), final(self).blocks_view()[m].id),
                    ),
                )),
    {
        let ghost bs = self.blocks_view();
        let ghost b0 = block@;
        proof {
            use_type_invariant(&block);
            block.lemma_no_repeats();
        }
        if let Some(j) = self.find_index(block.id()) {
            let same_parent = match (block.parent_id(), self.blocks[j].parent_id()) {
                (None, None) => true,
                (Some(a), Some(b)) => a.same(b),
                _ => false,
            };
            proof {
                lemma_index_of(bs, j as int);
            }
            if !same_parent {
                return self.move_block(block, j);
            }
            let mut block = block;
            block.adopt_children(&self.blocks[j]);
            proof {
                lemma_replace(bs, self.roots_view(), b0);
                if let Some(p) = b0.parent {
                    assert(parent_ok(bs, j as int));
                    let jp = index_of(bs, p);
                    assert(0 <= jp < j);
                    lemma_ancestors_end_at_root(bs, jp);
                    assert(bs[jp].id == p) by {
                        if !has_id(bs, p) {
                            assert(jp == -1);
                        }
                    }
                    if ancestors_of(bs, jp).contains(j as int) {
                        let m = choose|m: int| 0 <= m < ancestors_of(bs, jp).len() && ancestors_of(bs, jp)[m] == j;
                        assert(false);
                    }
                }
            }
            self.blocks.set(j, block);
            proof {
                assert(self.blocks_view() =~= with_replaced(bs, b0));
            }
            return Ok(());
        }
        self.insert_new(block)
    }

    /// Adds a block whose identifier is not in the page, under its parent or as a root.
    fn insert_new(&mut self, block: Block) -> (r: DomainResult<()>)
        requires
            old(self).wf(),
            !has_id(old(self).blocks_view(), block@.id),
        ensures
            final(self).wf(),
            final(self).id_view() == old(self).id_view(),
            final(self).title_view() == old(self).title_view(),
            r is Ok <==> (block@.parent matches Some(p) ==> has_id(old(self).blocks_view(), p)),
            r matches Err(e) ==> e is InvalidOperation,
            r is Err ==> final(self).blocks_view() == old(self).blocks_view()
                && final(self).roots_view() == old(self).roots_view(),
            r is Ok ==> final(self).blocks_view() == with_block(old(self).blocks_view(), block@)
                && final(self).roots_view() == (if block@.parent is None {
                old(self).roots_view().push(block@.id)
            } else {
                old(self).roots_view()
            }),
    {
        let ghost bs = self.blocks_view();
        let ghost b0 = block@;
        proof {
            use_type_invariant(&block);
            block.lemma_no_repeats();
        }
        let mut block = block;
        block.clear_children();
        let id = block.id().clone();
        let parent_id: Option<BlockId> = match block.parent_id() {
            Some(p) => Some(p.clone()),
            None => None,
        };
        match parent_id {
            None => {
                self.blocks.push(block);
                self.root_block_ids.push(id);
                proof {
                    let nbs = self.blocks_view();
                    assert(nbs =~= with_block(bs, b0));
                    assert(self.roots_view() =~= old(self).roots_view().push(id@));
                    lemma_add_root(bs, old(self).roots_view(), b0);
                }
                Ok(())
            },
            Some(pid) => {
                let j = match self.find_index(&pid) {
                    Some(j) => j,
                    None => {
                        return Err(DomainError::InvalidOperation("Parent block does not exist".to_string()));
                    },
                };
                let ghost v0 = self.blocks@;
                let mut parent = self.blocks.remove(j);
                let ghost pv = parent@;
                parent.add_child(id.clone());
                let ghost pv2 = parent@;
                self.blocks.insert(j, parent);
                proof {
                    assert(self.blocks@ =~= v0.update(j as int, self.blocks@[j as int]));
                    assert(pv == bs[j as int]);
                }
                self.blocks.push(block);
                proof {
                    let nbs = self.blocks_view();
                    assert(pv2 == BlockView { children: crate::entities::push_new(bs[j as int].children, b0.id), ..bs[j as int] });
                    assert(nbs =~= with_block(bs, b0));
                    lemma_add_child(bs, old(self).roots_view(), b0);
                }
                Ok(())
            },
        }
    }
}

impl Page {
    /// The ancestors of block `block_id`, from its parent up to its root.
    pub fn get_ancestors(&self, block_id: &BlockId) -> (r: Vec<&Block>)
        requires
            self.wf(),
        ensures
            block_views(r@) == blocks_at(
                self.blocks_view(),
                ancestors_of(self.blocks_view(), index_of(self.blocks_view(), block_id@)),
            ),
    {
        let ghost bs = self.blocks_view();
        let mut out: Vec<&Block> = Vec::new();
        let i0 = match self.find_index(block_id) {
            Some(i) => i,
            None => {
                proof {
                    assert(block_views(out@) =~= blocks_at(bs, ancestors_of(bs, -1)));
                }
                return out;
            },
        };
        let mut cur: usize = i0;
        let mut done = false;
        while !done
            invariant
                self.wf(),
                bs == self.blocks_view(),
                cur < bs.len(),
                !done ==> block_views(out@) + blocks_at(bs, ancestors_of(bs, cur as int)) == blocks_at(
                    bs,
                    ancestors_of(bs, i0 as int),
                ),
                done ==> block_views(out@) == blocks_at(bs, ancestors_of(bs, i0 as int)),
            decreases cur + (if done { 0int } else { 1int }),
        {
            proof {
                assert(parent_ok(bs, cur as int));
            }
            match self.blocks[cur].parent_id() {
                None => {
                    proof {
                        assert(ancestors_of(bs, cur as int) =~= Seq::<int>::empty());
                        assert(block_views(out@) + blocks_at(bs, Seq::<int>::empty()) =~= block_views(out@));
                    }
                    done = true;
                },
                Some(pid) => {
                    let j = match self.find_index(pid) {
                        Some(j) => j,
                        None => {
                            proof {
                                assert(false);
                            }
                            return out;
                        },
                    };
                    let ghost before = out@;
                    out.push(&self.blocks[j]);
                    proof {
                        assert(ancestors_of(bs, cur as int) == seq![j as int] + ancestors_of(bs, j as int));
                        assert(blocks_at(bs, seq![j as int] + ancestors_of(bs, j as int)) =~= seq![bs[j as int]] + blocks_at(bs, ancestors_of(bs, j as int)));
                        assert(block_views(out@) =~= block_views(before).push(bs[j as int]));
                        assert(block_views(out@) + blocks_at(bs, ancestors_of(bs, j as int)) =~= block_views(before) + blocks_at(bs, ancestors_of(bs, cur as int)));
                    }
                    cur = j;
                },
            }
        }
        out
    }

    /// The blocks from the root down to block `block_id`, inclusive; empty when it is absent.
    pub fn get_hierarchy_path(&self, block_id: &BlockId) -> (r: Vec<&Block>)
        requires
            self.wf(),
        ensures
            block_views(r@) == path_of(self.blocks_view(), index_of(self.blocks_view(), block_id@)),
    {
        let ghost bs = self.blocks_view();
        let ancestors = self.get_ancestors(block_id);
        let ghost av = block_views(ancestors@);
        let mut path: Vec<&Block> = Vec::new();
        let mut k: usize = ancestors.len();
        while k > 0
            invariant
                k <= ancestors@.len(),
                av == block_views(ancestors@),
                block_views(path@) == av.subrange(k as int, av.len() as int).reverse(),
            decreases k,
        {
            k = k - 1;
            let ghost before = path@;
            path.push(ancestors[k]);
            proof {
                assert(block_views(path@) =~= block_views(before).push(av[k as int]));
                assert(av.subrange(k as int, av.len() as int).reverse() =~= av.subrange(k + 1, av.len() as int).reverse().push(av[k as int]));
            }
        }
        proof {
            assert(av.subrange(0, av.len() as int) =~= av);
        }
        match self.find_index(block_id) {
            Some(i) => {
                let ghost before = path@;
                path.push(&self.blocks[i]);
                proof {
                    assert(block_views(path@) =~= block_views(before).push(bs[i as int]));
                }
            },
            None => {
                proof {
                    assert(block_views(path@) =~= Seq::<BlockView>::empty());
                }
            },
        }
        path
    }

    fn collect_descendants<'a>(&'a self, i: usize, k: usize, out: &mut Vec<&'a Block>)
        requires
            self.wf(),
            i < self.blocks_view().len(),
        ensures
            block_views(final(out)@) == block_views(old(out)@) + blocks_at(
                self.blocks_view(),
                descendants_from(self.blocks_view(), i as int, k as int),
            ),
        decreases self.blocks_view().len() - i, self.blocks_view()[i as int].children.len() - k,
    {
        let ghost bs = self.blocks_view();
        let children = self.blocks[i].child_ids();
        if k >= children.len() {
            proof {
                assert(descendants_from(bs, i as int, k as int) =~= Seq::<int>::empty());
                assert(block_views(out@) + blocks_at(bs, Seq::<int>::empty()) =~= block_views(out@));
            }
            return;
        }
        proof {
            assert(children_ok(bs, i as int));
            assert(crate::entities::ids(children@)[k as int] == bs[i as int].children[k as int]);
        }
        let c = match self.find_index(&children[k]) {
            Some(c) => c,
            None => {
                proof {
                    assert(false);
                }
                return;
            },
        };
        let ghost o0 = out@;
        out.push(&self.blocks[c]);
        let ghost o1 = out@;
        self.collect_descendants(c, 0, out);
        let ghost o2 = out@;
        self.collect_descendants(i, k + 1, out);
        proof {
            let d = descendants_from(bs, i as int, k as int);
            assert(d == seq![c as int] + descendants_of(bs, c as int) + descendants_from(bs, i as int, k + 1));
            assert(blocks_at(bs, d) =~= seq![bs[c as int]] + blocks_at(bs, descendants_of(bs, c as int)) + blocks_at(bs, descendants_from(bs, i as int, k + 1)));
            assert(block_views(o1) =~= block_views(o0).push(bs[c as int]));
            assert(block_views(out@) =~= block_views(o0) + blocks_at(bs, d));
        }
    }

    /// All descendants of block `block_id`, in pre-order of the children lists.
    pub fn get_descendants(&self, block_id: &BlockId) -> (r: Vec<&Block>)
        requires
            self.wf(),
        ensures
            block_views(r@) == blocks_at(
                self.blocks_view(),
                descendants_of(self.blocks_view(), index_of(self.blocks_view(), block_id@)),
            ),
    {
        let mut out: Vec<&Block> = Vec::new();
        match self.find_index(block_id) {
            Some(i) => {
                self.collect_descendants(i, 0, &mut out);
                proof {
                    assert(block_views(Seq::<&Block>::empty()) + blocks_at(self.blocks_view(), descendants_of(self.blocks_view(), i as int)) =~= blocks_at(self.blocks_view(), descendants_of(self.blocks_view(), i as int)));
                }
            },
            None => {
                proof {
                    assert(descendants_of(self.blocks_view(), -1) =~= Seq::<int>::empty());
                    assert(block_views(out@) =~= blocks_at(self.blocks_view(), Seq::<int>::empty()));
                }
            },
        }
        out
    }
}

impl Page {
    /// The root blocks, in the order of the page's root list.
    pub fn root_blocks(&self) -> (r: Vec<&Block>)
        requires
            self.wf(),
        ensures
            block_views(r@) == self.roots_view().map_values(
                |id: Seq<char>| self.blocks_view()[index_of(self.blocks_view(), id)],
            ),
    {
        let ghost bs = self.blocks_view();
        let ghost roots = self.roots_view();
        let ghost target = roots.map_values(|id: Seq<char>| bs[index_of(bs, id)]);
        let mut out: Vec<&Block> = Vec::new();
        let mut k: usize = 0;
        while k < self.root_block_ids.len()
            invariant
                self.wf(),
                bs == self.blocks_view(),
                roots == self.roots_view(),
                target == roots.map_values(|id: Seq<char>| bs[index_of(bs, id)]),
                k <= roots.len(),
                block_views(out@) == target.take(k as int),
            decreases self.root_block_ids.len() - k,
        {
            proof {
                assert(roots[k as int] == self.root_block_ids@[k as int]@);
            }
            match self.find_index(&self.root_block_ids[k]) {
                Some(i) => {
                    let ghost before = out@;
                    out.push(&self.blocks[i]);
                    proof {
                        assert(block_views(out@) =~= block_views(before).push(bs[i as int]));
                        assert(target.take(k + 1) =~= target.take(k as int).push(target[k as int]));
                    }
                },
                None => {
                    proof {
                        let i = index_of(bs, roots[k as int]);
                        assert(0 <= i < bs.len());
                        assert(has_id(bs, roots[k as int]));
                    }
                    return out;
                },
            }
            k = k + 1;
        }
        proof {
            assert(target.take(roots.len() as int) =~= target);
        }
        out
    }

    /// All blocks, in the order in which they were added.
    pub fn all_blocks(&self) -> (r: std::slice::Iter<'_, Block>)
        ensures
            block_views(r.remaining()) == self.blocks_view(),
    {
        let r = self.blocks.as_slice().iter();
        proof {
            broadcast use vstd::std_specs::slice::axiom_spec_slice_iter;
            assert(block_views(r.remaining()) =~= self.blocks_view());
        }
        r
    }

    fn all_block_refs(&self) -> (r: Vec<&Block>)
        ensures
            block_views(r@) == self.blocks_view(),
    {
        let mut out: Vec<&Block> = Vec::new();
        let mut i: usize = 0;
        while i < self.blocks.len()
            invariant
                i <= self.blocks@.len(),
                block_views(out@) == self.blocks_view().take(i as int),
            decreases self.blocks.len() - i,
        {
            let ghost before = out@;
            out.push(&self.blocks[i]);
            proof {
                assert(block_views(out@) =~= block_views(before).push(self.blocks_view()[i as int]));
                assert(self.blocks_view().take(i + 1) =~= self.blocks_view().take(i as int).push(self.blocks_view()[i as int]));
            }
            i = i + 1;
        }
        proof {
            assert(self.blocks_view().take(self.blocks@.len() as int) =~= self.blocks_view());
        }
        out
    }

    /// The URLs of all blocks, block after block.
    pub fn all_urls(&self) -> (r: Vec<&Url>)
        ensures
            url_ref_views(r@) == urls_of_blocks(self.blocks_view()),
    {
        let all = self.all_block_refs();
        urls_in(&all)
    }

    /// The references of all blocks, block after block.
    pub fn all_page_references(&self) -> (r: Vec<&PageReference>)
        ensures
            reference_ref_views(r@) == refs_of_blocks(self.blocks_view()),
    {
        let all = self.all_block_refs();
        references_in(&all)
    }

    /// Each URL with the references of its block's ancestors and of its block's descendants.
    pub fn get_urls_with_context(&self) -> (r: Vec<(&Url, Vec<&PageReference>, Vec<&PageReference>)>)
        requires
            self.wf(),
        ensures
            url_context_views(r@) == url_contexts(self.blocks_view(), self.blocks_view().len() as int),
    {
        let ghost bs = self.blocks_view();
        let mut out: Vec<(&Url, Vec<&PageReference>, Vec<&PageReference>)> = Vec::new();
        let mut i: usize = 0;
        while i < self.blocks.len()
            invariant
                self.wf(),
                bs == self.blocks_view(),
                i <= bs.len(),
                url_context_views(out@) == url_contexts(bs, i as int),
            decreases self.blocks.len() - i,
        {
            let block = &self.blocks[i];
            proof {
                lemma_index_of(bs, i as int);
            }
            let us = block.urls();
            let ghost start = url_context_views(out@);
            let ghost anc = refs_of_blocks(blocks_at(bs, ancestors_of(bs, i as int)));
            let ghost desc = refs_of_blocks(blocks_at(bs, descendants_of(bs, i as int)));
            let mut k: usize = 0;
            while k < us.len()
                invariant
                    self.wf(),
                    bs == self.blocks_view(),
                    i < bs.len(),
                    block@ == bs[i as int],
                    index_of(bs, bs[i as int].id) == i,
                    k <= us@.len(),
                    crate::entities::url_texts(us@) == bs[i as int].urls,
                    anc == refs_of_blocks(blocks_at(bs, ancestors_of(bs, i as int))),
                    desc == refs_of_blocks(blocks_at(bs, descendants_of(bs, i as int))),
                    url_context_views(out@) == start + bs[i as int].urls.take(k as int).map_values(
                        |u: Seq<char>| (u, anc, desc),
                    ),
                decreases us.len() - k,
            {
                let ancestors = self.get_ancestors(block.id());
                let descendants = self.get_descendants(block.id());
                let ghost before = out@;
                out.push((&us[k], references_in(&ancestors), references_in(&descendants)));
                proof {
                    assert(url_context_views(out@) =~= url_context_views(before).push((us@[k as int]@, anc, desc)));
                    assert(bs[i as int].urls.take(k + 1) =~= bs[i as int].urls.take(k as int).push(us@[k as int]@));
                    assert(bs[i as int].urls.take(k + 1).map_values(|u: Seq<char>| (u, anc, desc)) =~= bs[i as int].urls.take(k as int).map_values(|u: Seq<char>| (u, anc, desc)).push((us@[k as int]@, anc, desc)));
                }
                k = k + 1;
            }
            proof {
                assert(bs[i as int].urls.take(us@.len() as int) =~= bs[i as int].urls);
                assert(url_contexts(bs, i + 1) == url_contexts(bs, i as int) + bs[i as int].urls.map_values(|u: Seq<char>| (u, anc, desc)));
            }
            i = i + 1;
        }
        out
    }

    /// Each reference with the URLs of its block's ancestors and of its block's descendants.
    pub fn get_page_references_with_context(&self) -> (r: Vec<(&PageReference, Vec<&Url>, Vec<&Url>)>)
        requires
            self.wf(),
        ensures
            reference_context_views(r@) == reference_contexts(self.blocks_view(), self.blocks_view().len() as int),
    {
        let ghost bs = self.blocks_view();
        let mut out: Vec<(&PageReference, Vec<&Url>, Vec<&Url>)> = Vec::new();
        let mut i: usize = 0;
        while i < self.blocks.len()
            invariant
                self.wf(),
                bs == self.blocks_view(),
                i <= bs.len(),
                reference_context_views(out@) == reference_contexts(bs, i as int),
            decreases self.blocks.len() - i,
        {
            let block = &self.blocks[i];
            proof {
                lemma_index_of(bs, i as int);
            }
            let rs = block.page_references();
            let ghost start = reference_context_views(out@);
            let ghost anc = urls_of_blocks(blocks_at(bs, ancestors_of(bs, i as int)));
            let ghost desc = urls_of_blocks(blocks_at(bs, descendants_of(bs, i as int)));
            let mut k: usize = 0;
            while k < rs.len()
                invariant
                    self.wf(),
                    bs == self.blocks_view(),
                    i < bs.len(),
                    block@ == bs[i as int],
                    index_of(bs, bs[i as int].id) == i,
                    k <= rs@.len(),
                    crate::entities::ref_values(rs@) == bs[i as int].refs,
                    anc == urls_of_blocks(blocks_at(bs, ancestors_of(bs, i as int))),
                    desc == urls_of_blocks(blocks_at(bs, descendants_of(bs, i as int))),
                    reference_context_views(out@) == start + bs[i as int].refs.take(k as int).map_values(
                        |r: (Seq<char>, bool)| (r, anc, desc),
                    ),
                decreases rs.len() - k,
            {
                let ancestors = self.get_ancestors(block.id());
                let descendants = self.get_descendants(block.id());
                let ghost before = out@;
                out.push((&rs[k], urls_in(&ancestors), urls_in(&descendants)));
                proof {
                    assert(reference_context_views(out@) =~= reference_context_views(before).push((rs@[k as int]@, anc, desc)));
                    assert(bs[i as int].refs.take(k + 1) =~= bs[i as int].refs.take(k as int).push(rs@[k as int]@));
                    assert(bs[i as int].refs.take(k + 1).map_values(|r: (Seq<char>, bool)| (r, anc, desc)) =~= bs[i as int].refs.take(k as int).map_values(|r: (Seq<char>, bool)| (r, anc, desc)).push((rs@[k as int]@, anc, desc)));
                }
                k = k + 1;
            }
            proof {
                assert(bs[i as int].refs.take(rs@.len() as int) =~= bs[i as int].refs);
                assert(reference_contexts(bs, i + 1) == reference_contexts(bs, i as int) + bs[i as int].refs.map_values(|r: (Seq<char>, bool)| (r, anc, desc)));
            }
            i = i + 1;
        }
        out
    }
}

impl Page {
    /// Removes block `id` together with all its descendants, detaching it from its parent's
    /// children (or from the roots). Fails with `NotFound` when the block is absent.
    pub fn remove_block(&mut self, id: &BlockId) -> (r: DomainResult<()>)
        requires
            old(self).wf(),
        ensures
            final(self).wf(),
            final(self).id_view() == old(self).id_view(),
            final(self).title_view() == old(self).title_view(),
            r is Ok <==> has_id(old(self).blocks_view(), id@),
            r matches Err(e) ==> e is NotFound,
            r is Err ==> final(self).blocks_view() == old(self).blocks_view()
                && final(self).roots_view() == old(self).roots_view(),
            r is Ok ==> forall|x: Seq<char>|
                #![trigger has_id(final(self).blocks_view(), x)]
                has_id(final(self).blocks_view(), x) <==> has_id(old(self).blocks_view(), x)
                    && !in_subtree(
                    old(self).blocks_view(),
                    index_of(old(self).blocks_view(), id@),
                    index_of(old(self).blocks_view(), x),
                ),
            r is Ok ==> forall|m: int|
                0 <= m < final(self).blocks_view().len() ==> same_but_children(
                    #[trigger] final(self).blocks_view()[m],
                    old(self).blocks_view()[index_of(
                        old(self).blocks_view(),
                        final(self).blocks_view()[m].id,
                    )],
                ),
    {
        let ghost bs = self.blocks_view();
        let i0 = match self.find_index(id) {
            Some(i) => i,
            None => {
                return Err(DomainError::NotFound("Block not found".to_string()));
            },
        };
        let n = self.blocks.len();
        let mut gone: Vec<bool> = Vec::new();
        let mut k: usize = 0;
        while k < n
            invariant
                self.wf(),
                bs == self.blocks_view(),
                n == bs.len(),
                i0 < n,
                k <= n,
                gone@.len() == k,
                forall|m: int| 0 <= m < k ==> gone@[m] == in_subtree(bs, i0 as int, m),
            decreases n - k,
        {
            let g = if k == i0 {
                true
            } else {
                proof {
                    lemma_in_subtree_step(bs, i0 as int, k as int);
                    assert(parent_ok(bs, k as int));
                }
                match self.blocks[k].parent_id() {
                    None => false,
                    Some(p) => match self.find_index(p) {
                        Some(j) => gone[j],
                        None => false,
                    },
                }
            };
            gone.push(g);
            k = k + 1;
        }
        let mut rebuilt = Page::new(self.id.clone(), self.title.clone());
        let mut k: usize = 0;
        while k < n
            invariant
                self.wf(),
                bs == self.blocks_view(),
                n == bs.len(),
                i0 < n,
                k <= n,
                gone@.len() == n,
                forall|m: int| 0 <= m < n ==> gone@[m] == in_subtree(bs, i0 as int, m),
                rebuilt.wf(),
                forall|x: Seq<char>| #![trigger has_id(rebuilt.blocks_view(), x)]
                    has_id(rebuilt.blocks_view(), x) <==> exists|m: int|
                        0 <= m < k && !gone@[m] && (#[trigger] bs[m]).id == x,
                forall|m: int|
                    0 <= m < rebuilt.blocks_view().len() ==> same_but_children(
                        #[trigger] rebuilt.blocks_view()[m],
                        bs[index_of(bs, rebuilt.blocks_view()[m].id)],
                    ),
            decreases n - k,
        {
            if !gone[k] {
                let ghost before = rebuilt.blocks_view();
                let b = self.blocks[k].clone();
                proof {
                    lemma_index_of(bs, k as int);
                    assert(parent_ok(bs, k as int));
                    if has_id(before, bs[k as int].id) {
                        let m = choose|m: int| 0 <= m < k && !gone@[m] && (#[trigger] bs[m]).id == bs[k as int].id;
                        assert(false);
                    }
                    if let Some(p) = bs[k as int].parent {
                        let j = index_of(bs, p);
                        lemma_in_subtree_step(bs, i0 as int, k as int);
                        assert(!gone@[j]);
                        assert(has_id(before, p)) by {
                            assert(bs[j].id == p);
                        }
                    }
                }
                let _ = rebuilt.insert_new(b);
                proof {
                    let after = rebuilt.blocks_view();
                    assert(after.len() == before.len() + 1);
                    assert forall|m: int| 0 <= m < after.len() implies same_but_children(#[trigger] after[m], bs[index_of(bs, after[m].id)]) by {
                        if m < before.len() {
                            assert(same_but_children(after[m], before[m]));
                        } else {
                            assert(after[m] == as_stored(bs[k as int]));
                        }
                    }
                    assert forall|x: Seq<char>| #![trigger has_id(after, x)]
                        has_id(after, x) <==> exists|m: int| 0 <= m < k + 1 && !gone@[m] && (#[trigger] bs[m]).id == x by {
                        if has_id(after, x) {
                            let m = choose|m: int| 0 <= m < after.len() && (#[trigger] after[m]).id == x;
                            if m < before.len() {
                                assert(before[m].id == x);
                                assert(has_id(before, x));
                            } else {
                                assert(bs[k as int].id == x);
                            }
                        }
                        if exists|m: int| 0 <= m < k + 1 && !gone@[m] && (#[trigger] bs[m]).id == x {
                            let m = choose|m: int| 0 <= m < k + 1 && !gone@[m] && (#[trigger] bs[m]).id == x;
                            if m < k {
                                assert(has_id(before, x));
                                let q = choose|q: int| 0 <= q < before.len() && (#[trigger] before[q]).id == x;
                                assert(after[q].id == x);
                            } else {
                                assert(after[before.len() as int].id == x);
                            }
                        }
                    }
                }
            } else {
                proof {
                    assert forall|x: Seq<char>| #![trigger has_id(rebuilt.blocks_view(), x)]
                        has_id(rebuilt.blocks_view(), x) <==> exists|m: int| 0 <= m < k + 1 && !gone@[m] && (#[trigger] bs[m]).id == x by {
                        if exists|m: int| 0 <= m < k + 1 && !gone@[m] && (#[trigger] bs[m]).id == x {
                            let m = choose|m: int| 0 <= m < k + 1 && !gone@[m] && (#[trigger] bs[m]).id == x;
                            assert(m < k);
                        }
                    }
                }
            }
            k = k + 1;
        }
        proof {
            let nbs = rebuilt.blocks_view();
            assert forall|x: Seq<char>| #![trigger has_id(nbs, x)]
                has_id(nbs, x) <==> has_id(bs, x) && !in_subtree(bs, i0 as int, index_of(bs, x)) by {
                if has_id(nbs, x) {
                    let m = choose|m: int| 0 <= m < n && !gone@[m] && (#[trigger] bs[m]).id == x;
                    lemma_index_of(bs, m);
                }
                if has_id(bs, x) && !in_subtree(bs, i0 as int, index_of(bs, x)) {
                    let m = index_of(bs, x);
                    assert(0 <= m < n && bs[m].id == x);
                    assert(!gone@[m]);
                }
            }
            assert(index_of(bs, id@) == i0);
        }
        self.blocks = rebuilt.blocks;
        self.root_block_ids = rebuilt.root_block_ids;
        Ok(())
    }
}

impl Page {
    /// For each block, whether it lies in the subtree of block `i0`.
    fn subtree_flags(&self, i0: usize) -> (r: Vec<bool>)
        requires
            self.wf(),
            i0 < self.blocks_view().len(),
        ensures
            r@.len() == self.blocks_view().len(),
            forall|m: int| 0 <= m < r@.len() ==> r@[m] == in_subtree(self.blocks_view(), i0 as int, m),
    {
        let ghost bs = self.blocks_view();
        let n = self.blocks.len();
        let mut gone: Vec<bool> = Vec::new();
        let mut k: usize = 0;
        while k < n
            invariant
                self.wf(),
                bs == self.blocks_view(),
                n == bs.len(),
                i0 < n,
                k <= n,
                gone@.len() == k,
                forall|m: int| 0 <= m < k ==> gone@[m] == in_subtree(bs, i0 as int, m),
            decreases n - k,
        {
            let g = if k == i0 {
                true
            } else {
                proof {
                    lemma_in_subtree_step(bs, i0 as int, k as int);
                    assert(parent_ok(bs, k as int));
                }
                match self.blocks[k].parent_id() {
                    None => false,
                    Some(p) => match self.find_index(p) {
                        Some(j) => gone[j],
                        None => false,
                    },
                }
            };
            gone.push(g);
            k = k + 1;
        }
        gone
    }

    /// Replaces block `i0` by `block`, which names another parent: the block and its subtree
    /// move under the new parent, appended to its children. Refused when the new parent lies in
    /// the block's own subtree, which would make a cycle.
    fn move_block(&mut self, block: Block, i0: usize) -> (r: DomainResult<()>)
        requires
            old(self).wf(),
            i0 < old(self).blocks_view().len(),
            old(self).blocks_view()[i0 as int].id == block@.id,
            block@.parent != old(self).blocks_view()[i0 as int].parent,
        ensures
            final(self).wf(),
            final(self).id_view() == old(self).id_view(),
            final(self).title_view() == old(self).title_view(),
            r is Ok <==> (block@.parent matches Some(p) ==> has_id(old(self).blocks_view(), p)
                && !in_subtree(old(self).blocks_view(), i0 as int, index_of(old(self).blocks_view(), p))),
            r matches Err(e) ==> e is InvalidOperation,
            r is Err ==> final(self).blocks_view() == old(self).blocks_view()
                && final(self).roots_view() == old(self).roots_view(),
            r is Ok ==> forall|x: Seq<char>|
                #![trigger has_id(final(self).blocks_view(), x)]
                has_id(final(self).blocks_view(), x) <==> has_id(old(self).blocks_view(), x),
            r is Ok ==> forall|m: int|
                0 <= m < final(self).blocks_view().len() ==> same_but_children(
                    #[trigger] final(self).blocks_view()[m],
                    moved_target(
                        old(self).blocks_view(),
                        i0 as int,
                        block@,
                        index_of(old(self).blocks_view(), final(self).blocks_view()[m].id),
                    ),
                ),
    {
        let ghost bs = self.blocks_view();
        let ghost b0 = block@;
        let n = self.blocks.len();
        let gone = self.subtree_flags(i0);
        let target: Option<usize> = match block.parent_id() {
            None => None,
            Some(p) => match self.find_index(p) {
                Some(j) => {
                    if gone[j] {
                        return Err(DomainError::InvalidOperation("Moving the block would make a cycle".to_string()));
                    }
                    Some(j)
                },
                None => {
                    return Err(DomainError::InvalidOperation("Parent block does not exist".to_string()));
                },
            },
        };
        proof {
            lemma_index_of(bs, i0 as int);
        }
        let mut rebuilt = Page::new(self.id.clone(), self.title.clone());
        let mut k: usize = 0;
        while k < n
            invariant
                self.wf(),
                bs == self.blocks_view(),
                n == bs.len(),
                i0 < n,
                k <= n,
                gone@.len() == n,
                forall|m: int| 0 <= m < n ==> gone@[m] == in_subtree(bs, i0 as int, m),
                rebuilt.wf(),
                rebuilt.id_view() == self.id_view(),
                rebuilt.title_view() == self.title_view(),
                forall|x: Seq<char>| #![trigger has_id(rebuilt.blocks_view(), x)]
                    has_id(rebuilt.blocks_view(), x) <==> exists|m: int|
                        0 <= m < k && !gone@[m] && (#[trigger] bs[m]).id == x,
                forall|m: int|
                    0 <= m < rebuilt.blocks_view().len() ==> same_but_children(
                        #[trigger] rebuilt.blocks_view()[m],
                        moved_target(bs, i0 as int, b0, index_of(bs, rebuilt.blocks_view()[m].id)),
                    ),
            decreases n - k,
        {
            if !gone[k] {
                let ghost before = rebuilt.blocks_view();
                let b = self.blocks[k].clone();
                proof {
                    lemma_index_of(bs, k as int);
                    assert(parent_ok(bs, k as int));
                    if has_id(before, bs[k as int].id) {
                        let m = choose|m: int| 0 <= m < k && !gone@[m] && (#[trigger] bs[m]).id == bs[k as int].id;
                        assert(false);
                    }
                    if let Some(p) = bs[k as int].parent {
                        let j = index_of(bs, p);
                        lemma_in_subtree_step(bs, i0 as int, k as int);
                        assert(!gone@[j]);
                        assert(has_id(before, p)) by {
                            assert(bs[j].id == p);
                        }
                    }
                }
                let _ = rebuilt.insert_new(b);
                proof {
                    let after = rebuilt.blocks_view();
                    assert(after.len() == before.len() + 1);
                    assert(k != i0);
                    assert forall|m: int| 0 <= m < after.len() implies same_but_children(#[trigger] after[m], moved_target(bs, i0 as int, b0, index_of(bs, after[m].id))) by {
                        if m < before.len() {
                            assert(same_but_children(after[m], before[m]));
                        } else {
                            assert(after[m] == as_stored(bs[k as int]));
                        }
                    }
                    assert forall|x: Seq<char>| #![trigger has_id(after, x)]
                        has_id(after, x) <==> exists|m: int| 0 <= m < k + 1 && !gone@[m] && (#[trigger] bs[m]).id == x by {
                        if has_id(after, x) {
                            let m = choose|m: int| 0 <= m < after.len() && (#[trigger] after[m]).id == x;
                            if m < before.len() {
                                assert(before[m].id == x);
                                assert(has_id(before, x));
                            } else {
                                assert(bs[k as int].id == x);
                            }
                        }
                        if exists|m: int| 0 <= m < k + 1 && !gone@[m] && (#[trigger] bs[m]).id == x {
                            let m = choose|m: int| 0 <= m < k + 1 && !gone@[m] && (#[trigger] bs[m]).id == x;
                            if m < k {
                                assert(has_id(before, x));
                                let q = choose|q: int| 0 <= q < before.len() && (#[trigger] before[q]).id == x;
                                assert(after[q].id == x);
                            } else {
                                assert(after[before.len() as int].id == x);
                            }
                        }
                    }
                }
            } else {
                proof {
                    assert forall|x: Seq<char>| #![trigger has_id(rebuilt.blocks_view(), x)]
                        has_id(rebuilt.blocks_view(), x) <==> exists|m: int| 0 <= m < k + 1 && !gone@[m] && (#[trigger] bs[m]).id == x by {
                        if exists|m: int| 0 <= m < k + 1 && !gone@[m] && (#[trigger] bs[m]).id == x {
                            let m = choose|m: int| 0 <= m < k + 1 && !gone@[m] && (#[trigger] bs[m]).id == x;
                            assert(m < k);
                        }
                    }
                }
            }
            k = k + 1;
        }
        let mut k: usize = 0;
        while k < n
            invariant
                self.wf(),
                bs == self.blocks_view(),
                b0 == block@,
                block@.id == bs[i0 as int].id,
                n == bs.len(),
                i0 < n,
                k <= n,
                gone@.len() == n,
                forall|m: int| 0 <= m < n ==> gone@[m] == in_subtree(bs, i0 as int, m),
                target matches Some(j) ==> j < n && !gone@[j as int] && block@.parent == Some(bs[j as int].id),
                target is None ==> block@.parent is None,
                rebuilt.wf(),
                rebuilt.id_view() == self.id_view(),
                rebuilt.title_view() == self.title_view(),
                forall|x: Seq<char>| #![trigger has_id(rebuilt.blocks_view(), x)]
                    has_id(rebuilt.blocks_view(), x) <==> (exists|m: int|
                        0 <= m < n && !gone@[m] && (#[trigger] bs[m]).id == x) || (exists|m: int|
                        0 <= m < k && gone@[m] && (#[trigger] bs[m]).id == x),
                forall|m: int|
                    0 <= m < rebuilt.blocks_view().len() ==> same_but_children(
                        #[trigger] rebuilt.blocks_view()[m],
                        moved_target(bs, i0 as int, b0, index_of(bs, rebuilt.blocks_view()[m].id)),
                    ),
            decreases n - k,
        {
            if gone[k] {
                let ghost before = rebuilt.blocks_view();
                let b = if k == i0 {
                    block.clone()
                } else {
                    self.blocks[k].clone()
                };
                let ghost bv = moved_target(bs, i0 as int, b0, k as int);
                proof {
                    lemma_index_of(bs, k as int);
                    assert(b@ == bv);
                    assert(bv.id == bs[k as int].id);
                    if has_id(before, bs[k as int].id) {
                        if exists|m: int| 0 <= m < n && !gone@[m] && (#[trigger] bs[m]).id == bs[k as int].id {
                            let m = choose|m: int| 0 <= m < n && !gone@[m] && (#[trigger] bs[m]).id == bs[k as int].id;
                            assert(false);
                        } else {
                            let m = choose|m: int| 0 <= m < k && gone@[m] && (#[trigger] bs[m]).id == bs[k as int].id;
                            assert(false);
                        }
                    }
                    if k == i0 {
                        if let Some(j) = target {
                            assert(has_id(before, bs[j as int].id)) by {
                                assert(!gone@[j as int] && bs[j as int].id == bs[j as int].id);
                            }
                        }
                    } else {
                        assert(parent_ok(bs, k as int));
                        if let Some(p) = bs[k as int].parent {
                            let j = index_of(bs, p);
                            lemma_in_subtree_step(bs, i0 as int, k as int);
                            assert(gone@[j]);
                            assert(has_id(before, p)) by {
                                assert(bs[j].id == p);
                            }
                        }
                    }
                }
                let _ = rebuilt.insert_new(b);
                proof {
                    let after = rebuilt.blocks_view();
                    assert(after.len() == before.len() + 1);
                    assert forall|m: int| 0 <= m < after.len() implies same_but_children(#[trigger] after[m], moved_target(bs, i0 as int, b0, index_of(bs, after[m].id))) by {
                        if m < before.len() {
                            assert(same_but_children(after[m], before[m]));
                        } else {
                            assert(after[m] == as_stored(bv));
                        }
                    }
                    assert forall|x: Seq<char>| #![trigger has_id(after, x)]
                        has_id(after, x) <==> (exists|m: int| 0 <= m < n && !gone@[m] && (#[trigger] bs[m]).id == x)
                            || (exists|m: int| 0 <= m < k + 1 && gone@[m] && (#[trigger] bs[m]).id == x) by {
                        if has_id(after, x) {
                            let m = choose|m: int| 0 <= m < after.len() && (#[trigger] after[m]).id == x;
                            if m < before.len() {
                                assert(before[m].id == x);
                                assert(has_id(before, x));
                            } else {
                                assert(bs[k as int].id == x);
                            }
                        }
                        if exists|m: int| 0 <= m < k + 1 && gone@[m] && (#[trigger] bs[m]).id == x {
                            let m = choose|m: int| 0 <= m < k + 1 && gone@[m] && (#[trigger] bs[m]).id == x;
                            if m < k {
                                assert(has_id(before, x));
                                let q = choose|q: int| 0 <= q < before.len() && (#[trigger] before[q]).id == x;
                                assert(after[q].id == x);
                            } else {
                                assert(after[before.len() as int].id == x);
                            }
                        }
                        if exists|m: int| 0 <= m < n && !gone@[m] && (#[trigger] bs[m]).id == x {
                            assert(has_id(before, x));
                            let q = choose|q: int| 0 <= q < before.len() && (#[trigger] before[q]).id == x;
                            assert(after[q].id == x);
                        }
                    }
                }
            } else {
                proof {
                    assert forall|x: Seq<char>| #![trigger has_id(rebuilt.blocks_view(), x)]
                        has_id(rebuilt.blocks_view(), x) <==> (exists|m: int| 0 <= m < n && !gone@[m] && (#[trigger] bs[m]).id == x)
                            || (exists|m: int| 0 <= m < k + 1 && gone@[m] && (#[trigger] bs[m]).id == x) by {
                        if exists|m: int| 0 <= m < k + 1 && gone@[m] && (#[trigger] bs[m]).id == x {
                            let m = choose|m: int| 0 <= m < k + 1 && gone@[m] && (#[trigger] bs[m]).id == x;
                            assert(m < k);
                        }
                    }
                }
            }
            k = k + 1;
        }
        proof {
            let nbs = rebuilt.blocks_view();
            assert forall|x: Seq<char>| #![trigger has_id(nbs, x)] has_id(nbs, x) <==> has_id(bs, x) by {
                if has_id(bs, x) {
                    let m = choose|m: int| 0 <= m < bs.len() && (#[trigger] bs[m]).id == x;
                    if gone@[m] {
                        assert(exists|q: int| 0 <= q < n && gone@[q] && (#[trigger] bs[q]).id == x);
                    } else {
                        assert(exists|q: int| 0 <= q < n && !gone@[q] && (#[trigger] bs[q]).id == x);
                    }
                }
            }
        }
        self.blocks = rebuilt.blocks;
        self.root_block_ids = rebuilt.root_block_ids;
        Ok(())
    }
}

/// Every block of a page is linked into the tree: a parentless block is listed among the
/// page's roots, and any other block is listed among its parent's children.
pub proof fn lemma_block_is_linked(page: &Page, i: int)
    requires
        page.wf(),
        0 <= i < page.blocks_view().len(),
    ensures
        ({
            let bs = page.blocks_view();
            match bs[i].parent {
                None => page.roots_view().contains(bs[i].id),
                Some(p) => has_id(bs, p) && bs[index_of(bs, p)].children.contains(bs[i].id),
            }
        }),
{
    let bs = page.blocks_view();
    assert(parent_ok(bs, i));
    if let Some(p) = bs[i].parent {
        let j = index_of(bs, p);
        assert(bs[j].id == p) by {
            assert(0 <= j < i);
            if !has_id(bs, p) {
                assert(j == -1);
            }
        }
    }
}

/// Following parents from block `i` ends at a parentless block.
pub proof fn lemma_ancestors_end_at_root(bs: Seq<BlockView>, i: int)
    requires
        tree_ok(bs),
        0 <= i < bs.len(),
    ensures
        ancestors_of(bs, i).len() == 0 ==> bs[i].parent is None,
        ancestors_of(bs, i).len() > 0 ==> 0 <= ancestors_of(bs, i).last() < bs.len() && bs[ancestors_of(bs, i).last()].parent is None,
        forall|m: int| 0 <= m < ancestors_of(bs, i).len() ==> 0 <= #[trigger] ancestors_of(bs, i)[m] < i,
    decreases i,
{
    assert(parent_ok(bs, i));
    if let Some(p) = bs[i].parent {
        let j = index_of(bs, p);
        lemma_ancestors_end_at_root(bs, j);
        let a = ancestors_of(bs, j);
        assert(ancestors_of(bs, i) == seq![j] + a);
        if a.len() > 0 {
            assert((seq![j] + a).last() == a.last());
        }
        assert forall|m: int| 0 <= m < ancestors_of(bs, i).len() implies 0 <= #[trigger] ancestors_of(bs, i)[m] < i by {
            if m > 0 {
                assert(ancestors_of(bs, i)[m] == a[m - 1]);
            }
        }
    }
}

/// The hierarchy path of a block has one more element than its ancestor list, ends at the
/// block itself, and starts at a block without a parent that the page lists among its roots.
pub proof fn lemma_hierarchy_path_shape(page: &Page, id: Seq<char>)
    requires
        page.wf(),
        has_id(page.blocks_view(), id),
    ensures
        ({
            let bs = page.blocks_view();
            let i = index_of(bs, id);
            &&& path_of(bs, i).len() == 1 + ancestors_of(bs, i).len()
            &&& path_of(bs, i).last() == bs[i]
            &&& path_of(bs, i)[0].parent is None
            &&& page.roots_view().contains(path_of(bs, i)[0].id)
        }),
{
    let bs = page.blocks_view();
    let i = index_of(bs, id);
    lemma_ancestors_end_at_root(bs, i);
    let a = ancestors_of(bs, i);
    let ab = blocks_at(bs, a);
    let first = if a.len() > 0 { a.last() } else { i };
    if a.len() > 0 {
        assert(ab.reverse()[0] == ab[a.len() - 1]);
        assert(path_of(bs, i)[0] == ab.reverse()[0]);
    }
    assert(path_of(bs, i)[0] == bs[first]);
    assert(0 <= first < bs.len());
    assert(bs[first].parent is None);
}

/// The ancestors of `x` after position `m` are the ancestors of its `m`-th ancestor.
pub proof fn lemma_ancestors_suffix(bs: Seq<BlockView>, x: int, m: int)
    requires
        tree_ok(bs),
        0 <= x < bs.len(),
        0 <= m < ancestors_of(bs, x).len(),
    ensures
        ancestors_of(bs, x).subrange(m + 1, ancestors_of(bs, x).len() as int) == ancestors_of(bs, ancestors_of(bs, x)[m]),
    decreases x,
{
    assert(parent_ok(bs, x));
    let j = index_of(bs, bs[x].parent->0);
    let a = ancestors_of(bs, j);
    assert(ancestors_of(bs, x) == seq![j] + a);
    if m == 0 {
        assert((seq![j] + a).subrange(1, (seq![j] + a).len() as int) =~= a);
    } else {
        lemma_ancestors_suffix(bs, j, m - 1);
        assert((seq![j] + a).subrange(m + 1, (seq![j] + a).len() as int) =~= a.subrange(m, a.len() as int));
    }
}

/// Being an ancestor is transitive.
pub proof fn lemma_ancestor_transitive(bs: Seq<BlockView>, x: int, y: int, z: int)
    requires
        tree_ok(bs),
        0 <= x < bs.len(),
        ancestors_of(bs, x).contains(y),
        ancestors_of(bs, y).contains(z),
    ensures
        ancestors_of(bs, x).contains(z),
    decreases x,
{
    assert(parent_ok(bs, x));
    let p = bs[x].parent->0;
    let j = index_of(bs, p);
    let a = ancestors_of(bs, j);
    assert(ancestors_of(bs, x) == seq![j] + a);
    if j == y {
        let m = choose|m: int| 0 <= m < a.len() && a[m] == z;
        assert((seq![j] + a)[m + 1] == z);
    } else {
        let m = choose|m: int| 0 <= m < (seq![j] + a).len() && (seq![j] + a)[m] == y;
        assert(a[m - 1] == y);
        lemma_ancestor_transitive(bs, j, y, z);
        let q = choose|q: int| 0 <= q < a.len() && a[q] == z;
        assert((seq![j] + a)[q + 1] == z);
    }
}

/// Every descendant of block `i` has `i` among its ancestors.
pub proof fn lemma_descendant_has_ancestor(bs: Seq<BlockView>, i: int, k: int, x: int)
    requires
        tree_ok(bs),
        0 <= i < bs.len(),
        descendants_from(bs, i, k).contains(x),
    ensures
        0 <= x < bs.len(),
        ancestors_of(bs, x).contains(i),
    decreases bs.len() - i, bs[i].children.len() - k,
{
    if 0 <= k < bs[i].children.len() {
        let c = index_of(bs, bs[i].children[k]);
        if i < c < bs.len() {
            let rest = descendants_from(bs, i, k + 1);
            let sub = descendants_of(bs, c);
            assert(descendants_from(bs, i, k) == seq![c] + sub + rest);
            let d = seq![c] + sub + rest;
            let m = choose|m: int| 0 <= m < d.len() && d[m] == x;
            assert(children_ok(bs, i));
            assert(bs[c].parent == Some(bs[i].id));
            lemma_index_of(bs, i);
            assert(ancestors_of(bs, c) == seq![i] + ancestors_of(bs, i));
            assert(ancestors_of(bs, c)[0] == i);
            if m == 0 {
            } else if m < 1 + sub.len() {
                assert(sub[m - 1] == x);
                lemma_descendant_has_ancestor(bs, c, 0, x);
                lemma_ancestor_transitive(bs, x, c, i);
            } else {
                assert(rest[m - 1 - sub.len()] == x);
                lemma_descendant_has_ancestor(bs, i, k + 1, x);
            }
        } else {
            lemma_descendant_has_ancestor(bs, i, k + 1, x);
        }
    }
}

/// Any block reached from block `r` through descendants has `r` on its hierarchy path; when
/// `r` is a root, the path starts at `r`.
pub proof fn lemma_descendant_path_contains(page: &Page, r: Seq<char>, b: int)
    requires
        page.wf(),
        has_id(page.blocks_view(), r),
        descendants_of(page.blocks_view(), index_of(page.blocks_view(), r)).contains(b),
    ensures
        ({
            let bs = page.blocks_view();
            path_of(bs, b).contains(bs[index_of(bs, r)])
        }),
        ({
            let bs = page.blocks_view();
            bs[index_of(bs, r)].parent is None ==> path_of(bs, b)[0] == bs[index_of(bs, r)]
        }),
{
    let bs = page.blocks_view();
    let ri = index_of(bs, r);
    lemma_descendant_has_ancestor(bs, ri, 0, b);
    let a = ancestors_of(bs, b);
    let m = choose|m: int| 0 <= m < a.len() && a[m] == ri;
    let ab = blocks_at(bs, a);
    assert(ab[m] == bs[ri]);
    assert(ab.reverse()[a.len() - 1 - m] == bs[ri]);
    assert(path_of(bs, b)[a.len() - 1 - m] == bs[ri]);
    if bs[ri].parent is None {
        lemma_ancestors_suffix(bs, b, m);
        assert(ancestors_of(bs, ri) =~= Seq::<int>::empty());
        assert(m == a.len() - 1);
        assert(path_of(bs, b)[0] == ab.reverse()[0]);
    }
}

impl Clone for Page {
    fn clone(&self) -> (r: Self)
        ensures
            r.id_view() == self.id_view(),
            r.title_view() == self.title_view(),
            r.blocks_view() == self.blocks_view(),
            r.roots_view() == self.roots_view(),
    {
        let mut blocks: Vec<Block> = Vec::new();
        let mut i: usize = 0;
        while i < self.blocks.len()
            invariant
                i <= self.blocks@.len(),
                blocks@.map_values(|b: Block| b@) == self.blocks_view().take(i as int),
            decreases self.blocks.len() - i,
        {
            let b = self.blocks[i].clone();
            let ghost before = blocks@;
            blocks.push(b);
            proof {
                assert(blocks@.map_values(|b: Block| b@) =~= before.map_values(|b: Block| b@).push(self.blocks_view()[i as int]));
                assert(self.blocks_view().take(i + 1) =~= self.blocks_view().take(i as int).push(self.blocks_view()[i as int]));
            }
            i = i + 1;
        }
        proof {
            assert(self.blocks_view().take(self.blocks@.len() as int) =~= self.blocks_view());
        }
        Page {
            id: self.id.clone(),
            title: self.title.clone(),
            blocks,
            root_block_ids: crate::entities::clone_ids(self.root_block_ids.as_slice()),
        }
    }
}

impl crate::base::AggregateRoot for Page {
    /// Events are recorded outside the page; applying one leaves the page as it is.
    fn apply_event(&mut self, event: &crate::events::DomainEventEnum) {
    }
}

impl Entity for Page {
    type Id = PageId;

    fn id(&self) -> &PageId {
        &self.id
    }
}

} // verus!
