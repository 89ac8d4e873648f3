//! The crawl's output tree and the spec functions that describe it.
use vstd::prelude::*;

verus! {

/// One fetched page and the in-scope pages first discovered from it, in the
/// order their links appear on the page.
pub struct LinkNode {
    pub url: String,
    pub sub_urls: Vec<LinkNode>,
}

/// The shape and content of a crawl tree, as a mathematical value.
pub struct TreeView {
    pub url: Seq<char>,
    pub children: Seq<TreeView>,
}

/// The mathematical value of a crawl tree.
pub open spec fn view_of(n: LinkNode) -> TreeView
    decreases n,
{
    TreeView {
        url: n.url@,
        children: Seq::new(
            n.sub_urls@.len(),
            |i: int|
                if 0 <= i < n.sub_urls@.len() {
                    view_of(n.sub_urls@[i])
                } else {
                    TreeView { url: Seq::empty(), children: Seq::empty() }
                },
        ),
    }
}

/// The mathematical values of a sequence of crawl trees.
pub open spec fn views_of(s: Seq<LinkNode>) -> Seq<TreeView> {
    s.map_values(|c: LinkNode| view_of(c))
}

/// The children of a tree's value are the values of its children.
pub proof fn lemma_view_children(n: LinkNode)
    ensures
        view_of(n) == (TreeView { url: n.url@, children: views_of(n.sub_urls@) }),
{
    assert(view_of(n).children =~= views_of(n.sub_urls@));
}

/// The URLs of the subtrees under the first `k` children of `n`, in preorder.
pub open spec fn urls_upto(n: LinkNode, k: int) -> Seq<Seq<char>>
    decreases n, k,
{
    if k <= 0 || k > n.sub_urls@.len() {
        Seq::empty()
    } else {
        let c = n.sub_urls@[k - 1];
        urls_upto(n, k - 1) + seq![c.url@] + urls_upto(c, c.sub_urls@.len() as int)
    }
}

/// Every URL of the tree rooted at `n`, in preorder, repeats included.
pub open spec fn tree_urls(n: LinkNode) -> Seq<Seq<char>> {
    seq![n.url@] + urls_upto(n, n.sub_urls@.len() as int)
}

/// Every URL of a sequence of trees, tree after tree.
pub open spec fn forest_urls(s: Seq<LinkNode>) -> Seq<Seq<char>>
    decreases s.len(),
{
    if s.len() == 0 {
        Seq::empty()
    } else {
        forest_urls(s.drop_last()) + tree_urls(s.last())
    }
}

/// No node of the tree rooted at `n` lies more than `d` levels below it.
pub open spec fn within_depth(n: LinkNode, d: int) -> bool
    decreases n,
{
    &&& d >= 0
    &&& forall|i: int| 0 <= i < n.sub_urls@.len() ==> #[trigger] within_depth(n.sub_urls@[i], d - 1)
}

/// The URLs under the children of a node are those of its children's trees.
pub proof fn lemma_urls_upto_forest(n: LinkNode, k: int)
    requires
        0 <= k <= n.sub_urls@.len(),
    ensures
        urls_upto(n, k) == forest_urls(n.sub_urls@.subrange(0, k)),
    decreases k,
{
    let s = n.sub_urls@.subrange(0, k);
    if k > 0 {
        lemma_urls_upto_forest(n, k - 1);
        assert(s.drop_last() =~= n.sub_urls@.subrange(0, k - 1));
        let c = n.sub_urls@[k - 1];
        assert(urls_upto(n, k - 1) + seq![c.url@] + urls_upto(c, c.sub_urls@.len() as int)
            =~= urls_upto(n, k - 1) + tree_urls(c));
    } else {
        assert(s =~= Seq::<LinkNode>::empty());
    }
}

/// The URLs of a tree are its root's and then those of its children's trees.
pub proof fn lemma_tree_urls(n: LinkNode)
    ensures
        tree_urls(n) == seq![n.url@] + forest_urls(n.sub_urls@),
{
    lemma_urls_upto_forest(n, n.sub_urls@.len() as int);
    assert(n.sub_urls@.subrange(0, n.sub_urls@.len() as int) =~= n.sub_urls@);
}

} // verus!
