//! The traversal engine. A crawl is a state machine: it names the page it
//! needs next, the caller fetches that page and hands back its body (or the
//! failure), and the crawl decides what to fetch next or returns its tree.
//! Pages are visited depth first in document order, each at most once.
use vstd::prelude::*;
use crate::registry::VisitedRegistry;
use crate::scope::{eligible, Scope};
use crate::tree::{
    forest_urls, lemma_tree_urls, lemma_view_children, tree_urls, view_of, views_of, within_depth,
    LinkNode, TreeView,
};
use crate::url_rules::{normalize_url, normalized, opt_chars, parsed_url, seed_anchor, seed_domain, CrawlError};

verus! {

/// The deepest level of the tree; pages at this level are fetched but their
/// links are not followed.
pub const MAX_DEPTH: usize = 3;

/// What the `scraper` crate finds in a page body: `None` when the anchor
/// selector cannot be built, else the `href` attribute of each `<a>`
/// element in document order (`None` for an anchor without one).
pub uninterp spec fn anchor_hrefs(body: Seq<char>) -> Option<Seq<Option<Seq<char>>>>;

/// Relies on `scraper::Selector::parse`, `scraper::Html::parse_fragment`,
/// `Html::select` and `Element::attr` to list the `href` of every anchor of
/// a page body, in document order.
#[verifier::external_body]
fn extract_hrefs(body: &str) -> (r: Option<Vec<Option<String>>>)
    ensures
        r is Some <==> anchor_hrefs(body@) is Some,
        r is Some ==> anchor_hrefs(body@) == Some(links_view(r->0@)),
{
    let selector = match scraper::Selector::parse("a") {
        Ok(s) => s,
        Err(_) => return None,
    };
    let fragment = scraper::Html::parse_fragment(body);
    Some(fragment.select(&selector).map(|a| a.value().attr("href").map(|h| h.to_string())).collect())
}

/// The absolute URL that an anchor of the page at `page` leads to, if it has
/// an `href` that normalizes.
pub open spec fn candidate_of(page: Seq<char>, href: Option<Seq<char>>) -> Option<Seq<char>> {
    match href {
        Some(h) => normalized(page, h),
        None => None,
    }
}

/// The absolute URL that an anchor of the page at `page` leads to.
pub fn candidate(page: &str, href: &Option<String>) -> (r: Option<String>)
    ensures
        opt_chars(r) == candidate_of(page@, opt_chars(*href)),
{
    match href {
        Some(h) => match normalize_url(page, h.as_str()) {
            Ok(u) => Some(u),
            Err(_) => None,
        },
        None => None,
    }
}

/// A page of the current path from the seed: its URL, its links once its
/// body is in, how many of them were handled, and its finished children.
struct Frame {
    url: String,
    hrefs: Vec<Option<String>>,
    next: usize,
    children: Vec<LinkNode>,
}

spec fn frame_urls(f: Frame) -> Seq<Seq<char>> {
    seq![f.url@] + forest_urls(f.children@)
}

spec fn stack_urls(st: Seq<Frame>) -> Seq<Seq<char>>
    decreases st.len(),
{
    if st.len() == 0 {
        Seq::empty()
    } else {
        stack_urls(st.drop_last()) + frame_urls(st.last())
    }
}


proof fn lemma_stack_push(st: Seq<Frame>, f: Frame)
    ensures
        stack_urls(st.push(f)) == stack_urls(st) + frame_urls(f),
{
    assert(st.push(f).drop_last() =~= st);
}

proof fn lemma_prefix_distinct(a: Seq<Seq<char>>, b: Seq<Seq<char>>)
    requires
        (a + b).no_duplicates(),
    ensures
        a.no_duplicates(),
{
    assert forall|i: int, j: int| 0 <= i < a.len() && 0 <= j < a.len() && i != j implies a[i] != a[j] by {
        assert((a + b)[i] == a[i] && (a + b)[j] == a[j]);
    }
}

proof fn lemma_push_distinct(a: Seq<Seq<char>>, x: Seq<char>)
    requires
        a.no_duplicates(),
        forall|i: int| 0 <= i < a.len() ==> a[i] != x,
    ensures
        a.push(x).no_duplicates(),
{
    assert forall|i: int, j: int| 0 <= i < a.len() + 1 && 0 <= j < a.len() + 1 && i != j implies a.push(x)[i] != a.push(x)[j] by {
        if i < a.len() && j < a.len() {
            assert(a.push(x)[i] == a[i] && a.push(x)[j] == a[j]);
        }
    }
}

/// The links of a fetched page, or `None` when its fetch failed or its
/// body could not be scanned.
pub open spec fn page_links(body: Option<String>) -> Option<Seq<Option<Seq<char>>>> {
    match body {
        Some(b) => anchor_hrefs(b@),
        None => None,
    }
}

/// The characters of each link of a page.
pub open spec fn links_view(s: Seq<Option<String>>) -> Seq<Option<Seq<char>>> {
    s.map_values(|h: Option<String>| opt_chars(h))
}

/// A page of the path from the seed, as a mathematical value: its URL, its
/// links, how many of them were handled, and its finished children.
pub struct FrameModel {
    pub url: Seq<char>,
    pub links: Seq<Option<Seq<char>>>,
    pub next: int,
    pub children: Seq<TreeView>,
}

/// A crawl in progress, as a mathematical value: its scope, the URLs it
/// claimed, and the path from the seed to the page it waits for.
pub struct CrawlModel {
    pub domain: Seq<char>,
    pub anchor: Seq<char>,
    pub visited: Set<Seq<char>>,
    pub stack: Seq<FrameModel>,
}

/// What a crawl does next, as a mathematical value.
pub enum StepModel {
    Fetch(CrawlModel),
    Done(TreeView),
    Failed(CrawlError),
}

/// The state of a crawl just started from `seed`.
pub open spec fn start_model(seed: Seq<char>) -> CrawlModel {
    CrawlModel {
        domain: seed_domain(seed)->0,
        anchor: seed_anchor(seed)->0,
        visited: set![seed],
        stack: seq![FrameModel { url: seed, links: Seq::empty(), next: 0, children: Seq::empty() }],
    }
}

/// The crawl in state `m` with `stack` as its path.
pub open spec fn with_stack(m: CrawlModel, stack: Seq<FrameModel>) -> CrawlModel {
    CrawlModel { domain: m.domain, anchor: m.anchor, visited: m.visited, stack }
}

/// Handles the links of the top page from the first not yet handled: the
/// first one that normalizes, is in scope, is not claimed and lies above the
/// deepest level is claimed and fetched next; a page whose links are all
/// handled becomes the last child of the page above it, or the whole tree
/// when it is the seed's.
pub open spec fn advance_model(m: CrawlModel) -> StepModel
    decreases m.stack.len(), m.stack.last().links.len() - m.stack.last().next,
{
    if m.stack.len() == 0 {
        StepModel::Failed(CrawlError::FetchFailure)
    } else {
        let f = m.stack.last();
        if 0 <= f.next < f.links.len() {
            let g = FrameModel { url: f.url, links: f.links, next: f.next + 1, children: f.children };
            let rest = m.stack.drop_last().push(g);
            let c = candidate_of(f.url, f.links[f.next]);
            if c is Some && m.stack.len() <= MAX_DEPTH && eligible(c->0, f.url, m.domain, m.anchor)
                && !m.visited.contains(c->0) {
                StepModel::Fetch(
                    CrawlModel {
                        domain: m.domain,
                        anchor: m.anchor,
                        visited: m.visited.insert(c->0),
                        stack: rest.push(
                            FrameModel { url: c->0, links: Seq::empty(), next: 0, children: Seq::empty() },
                        ),
                    },
                )
            } else {
                advance_model(with_stack(m, rest))
            }
        } else {
            let node = TreeView { url: f.url, children: f.children };
            if m.stack.len() == 1 {
                StepModel::Done(node)
            } else {
                let p = m.stack[m.stack.len() - 2];
                let q = FrameModel { url: p.url, links: p.links, next: p.next, children: p.children.push(node) };
                advance_model(with_stack(m, m.stack.drop_last().drop_last().push(q)))
            }
        }
    }
}

/// What the crawl in state `m` does when handed `body` for its pending page
/// (`None` when the fetch failed).
pub open spec fn resume_model(m: CrawlModel, body: Option<Seq<char>>) -> StepModel {
    let links = match body {
        Some(b) => anchor_hrefs(b),
        None => None,
    };
    match links {
        Some(l) => {
            let f = m.stack.last();
            advance_model(
                with_stack(m, m.stack.drop_last().push(FrameModel { url: f.url, links: l, next: 0, children: f.children })),
            )
        },
        None => if m.stack.len() <= 1 {
            StepModel::Failed(if body is None { CrawlError::FetchFailure } else { CrawlError::ExtractionFailure })
        } else {
            advance_model(with_stack(m, m.stack.drop_last()))
        },
    }
}

/// The mathematical value of what a crawl does next.
pub open spec fn step_of(r: Progress) -> StepModel {
    match r {
        Progress::Fetch(n) => StepModel::Fetch(n.model()),
        Progress::Done(Ok(t)) => StepModel::Done(view_of(t)),
        Progress::Done(Err(e)) => StepModel::Failed(e),
    }
}

spec fn frame_model(f: Frame) -> FrameModel {
    FrameModel { url: f.url@, links: links_view(f.hrefs@), next: f.next as int, children: views_of(f.children@) }
}

spec fn models(st: Seq<Frame>) -> Seq<FrameModel> {
    st.map_values(|f: Frame| frame_model(f))
}

proof fn lemma_models_push(st: Seq<Frame>, f: Frame)
    ensures
        models(st.push(f)) == models(st).push(frame_model(f)),
{
    assert(models(st.push(f)) =~= models(st).push(frame_model(f)));
}

proof fn lemma_models_drop_last(st: Seq<Frame>)
    requires
        st.len() > 0,
    ensures
        models(st.drop_last()) == models(st).drop_last(),
        models(st).last() == frame_model(st.last()),
{
    assert(models(st.drop_last()) =~= models(st).drop_last());
}

/// A crawl in progress, waiting for the body of the page it names.
pub struct Crawler {
    scope: Scope,
    visited: VisitedRegistry,
    stack: Vec<Frame>,
}

/// What a crawl does after a page body came in.
pub enum Progress {
    /// The crawl goes on and needs the page it names.
    Fetch(Crawler),
    /// The crawl is over.
    Done(Result<LinkNode, CrawlError>),
}

/// `u`, found on the page at `parent`, is in the scope of the crawl from `seed`.
pub open spec fn eligible_from(u: Seq<char>, parent: Seq<char>, seed: Seq<char>) -> bool {
    eligible(u, parent, seed_domain(seed)->0, seed_anchor(seed)->0)
}

/// A finished crawl tree from `seed`, all of whose pages were claimed in `claimed`.
pub open spec fn sound_tree(t: LinkNode, seed: Seq<char>, claimed: Set<Seq<char>>) -> bool {
    &&& t.url@ == seed
    &&& tree_urls(t).no_duplicates()
    &&& within_depth(t, MAX_DEPTH as int)
    &&& forall|i: int| 0 <= i < tree_urls(t).len() ==> claimed.contains(#[trigger] tree_urls(t)[i])
}

/// `n` goes on from `c` by claiming a page that `c` had not claimed, found
/// in scope on the page above it.
pub open spec fn claims_next(c: Crawler, n: Crawler) -> bool {
    &&& n.wf()
    &&& n.seed() == c.seed()
    &&& !c.claimed().contains(n.pending_url())
    &&& n.claimed() == c.claimed().insert(n.pending_url())
    &&& 1 <= n.depth() <= MAX_DEPTH
    &&& eligible_from(n.pending_url(), n.parent_url(), n.seed())
}

impl Crawler {
    /// The state of the crawl as a mathematical value.
    pub closed spec fn model(&self) -> CrawlModel {
        CrawlModel {
            domain: self.scope.domain@,
            anchor: self.scope.base_path@,
            visited: self.visited@,
            stack: models(self.stack@),
        }
    }

    /// The seed URL of the crawl.
    pub closed spec fn seed(&self) -> Seq<char> {
        self.stack@[0].url@
    }

    /// The URL whose body the crawl waits for.
    pub closed spec fn pending_url(&self) -> Seq<char> {
        self.stack@.last().url@
    }

    /// The URL of the page on which the pending URL was found.
    pub closed spec fn parent_url(&self) -> Seq<char> {
        self.stack@[self.stack@.len() - 2].url@
    }

    /// The tree depth of the pending URL (the seed is at depth 0).
    pub closed spec fn depth(&self) -> int {
        self.stack@.len() - 1
    }

    /// The URLs claimed so far.
    pub closed spec fn claimed(&self) -> Set<Seq<char>> {
        self.visited@
    }

    /// The crawl's invariant: the scope is that of the seed, the path from
    /// the seed is at most `MAX_DEPTH` deep and each page on it is in scope
    /// of the one above, and the pages of the path and of the finished
    /// subtrees are distinct and claimed.
    pub closed spec fn wf(&self) -> bool {
        let st = self.stack@;
        &&& 1 <= st.len() <= MAX_DEPTH + 1
        &&& parsed_url(self.seed()) is Some
        &&& seed_domain(self.seed()) == Some(self.scope.domain@)
        &&& seed_anchor(self.seed()) == Some(self.scope.base_path@)
        &&& forall|i: int| 0 <= i < st.len() ==> #[trigger] st[i].next <= st[i].hrefs@.len()
        &&& forall|i: int, j: int|
            0 <= i < st.len() && 0 <= j < st[i].children@.len() ==> within_depth(
                #[trigger] st[i].children@[j],
                MAX_DEPTH - 1 - i,
            )
        &&& forall|i: int|
            1 <= i < st.len() ==> eligible(
                #[trigger] st[i].url@,
                st[i - 1].url@,
                self.scope.domain@,
                self.scope.base_path@,
            )
        &&& stack_urls(st).no_duplicates()
        &&& forall|i: int|
            0 <= i < stack_urls(st).len() ==> self.visited@.contains(#[trigger] stack_urls(st)[i])
    }

    /// Starts a crawl from `seed`: derives its scope, claims the seed, and
    /// waits for the seed's body. Fails when the seed does not parse.
    pub fn start(seed: &str) -> (r: Result<Crawler, CrawlError>)
        ensures
            match r {
                Ok(c) => {
                    &&& c.wf()
                    &&& c.seed() == seed@
                    &&& c.pending_url() == seed@
                    &&& c.depth() == 0
                    &&& c.claimed() == set![seed@]
                    &&& c.model() == start_model(seed@)
                },
                Err(e) => parsed_url(seed@) is None && e == CrawlError::MalformedBaseUrl,
            },
    {
        let scope = Scope::from_seed(seed)?;
        let url = seed.to_string();
        let mut visited = VisitedRegistry::new();
        visited.try_claim(&url);
        let mut stack: Vec<Frame> = Vec::new();
        stack.push(Frame { url, hrefs: Vec::new(), next: 0, children: Vec::new() });
        let c = Crawler { scope, visited, stack };
        proof {
            assert(c.visited@ =~= set![seed@]);
            assert(stack_urls(c.stack@.drop_last()) =~= Seq::<Seq<char>>::empty());
            assert(forest_urls(c.stack@[0].children@) =~= Seq::<Seq<char>>::empty());
            assert(stack_urls(c.stack@) =~= seq![seed@]);
            assert(views_of(c.stack@[0].children@) =~= Seq::<TreeView>::empty());
            assert(links_view(c.stack@[0].hrefs@) =~= Seq::<Option<Seq<char>>>::empty());
            assert(c.model().stack =~= start_model(seed@).stack);
        }
        Ok(c)
    }

    /// The URL whose body the crawl waits for.
    pub fn pending(&self) -> (r: &String)
        requires
            self.wf(),
        ensures
            r@ == self.pending_url(),
    {
        &self.stack[self.stack.len() - 1].url
    }

    /// Handles the links of the page on top of the path, from the first not
    /// yet handled: stops at the first one to follow, or finishes pages
    /// whose links are all handled until the seed's page is finished too.
    fn advance(self) -> (r: Progress)
        requires
            self.wf(),
        ensures
            match r {
                Progress::Fetch(n) => claims_next(self, n),
                Progress::Done(Ok(t)) => sound_tree(t, self.seed(), self.claimed()),
                Progress::Done(Err(_)) => false,
            },
            step_of(r) == advance_model(self.model()),
    {
        let ghost seed = self.seed();
        let ghost claimed = self.claimed();
        let mut me = self;
        loop
            invariant
                me.wf(),
                me.seed() == seed,
                me.claimed() == claimed,
                seed == self.seed(),
                claimed == self.claimed(),
                advance_model(me.model()) == advance_model(self.model()),
            decreases me.stack@.len(), me.stack@.last().hrefs@.len() - me.stack@.last().next,
        {
            let ghost st = me.stack@;
            let ghost m0 = me.model();
            let k = me.stack.len();
            let mut f = me.stack.pop().unwrap();
            proof {
                assert(st.drop_last().push(f) =~= st);
                lemma_stack_push(st.drop_last(), f);
                lemma_models_drop_last(st);
            }
            if f.next < f.hrefs.len() {
                let ghost fm = frame_model(f);
                assert(fm.links[fm.next] == opt_chars(f.hrefs@[f.next as int]));
                let found = candidate(f.url.as_str(), &f.hrefs[f.next]);
                f.next = f.next + 1;
                let ghost rest = m0.stack.drop_last().push(frame_model(f));
                proof {
                    lemma_models_push(st.drop_last(), f);
                    assert(frame_model(f) == FrameModel { url: fm.url, links: fm.links, next: fm.next + 1, children: fm.children });
                }
                if let Some(c) = found {
                    if k <= MAX_DEPTH && me.scope.in_scope(c.as_str(), f.url.as_str())
                        && !me.visited.contains(&c) {
                        me.visited.try_claim(&c);
                        me.stack.push(f);
                        let ghost mid = me.stack@;
                        me.stack.push(Frame { url: c, hrefs: Vec::new(), next: 0, children: Vec::new() });
                        proof {
                            lemma_stack_push(st.drop_last(), f);
                            lemma_stack_push(mid, me.stack@.last());
                            let top = me.stack@.last();
                            assert(forest_urls(top.children@) =~= Seq::<Seq<char>>::empty());
                            assert(frame_urls(top) =~= seq![c@]);
                            assert(stack_urls(mid) == stack_urls(st));
                            assert(stack_urls(me.stack@) =~= stack_urls(st).push(c@));
                            assert(forall|i: int| 0 <= i < stack_urls(st).len() ==> stack_urls(st)[i] != c@);
                            lemma_push_distinct(stack_urls(st), c@);
                            assert(me.stack@[0].url == st[0].url);
                            assert forall|i: int| 0 <= i < stack_urls(me.stack@).len() implies
                                me.visited@.contains(#[trigger] stack_urls(me.stack@)[i]) by {
                                if i < stack_urls(st).len() {
                                    assert(stack_urls(me.stack@)[i] == stack_urls(st)[i]);
                                }
                            }
                            assert(me.parent_url() == f.url@);
                            lemma_models_push(mid, me.stack@.last());
                            assert(views_of(top.children@) =~= Seq::<TreeView>::empty());
                            assert(links_view(top.hrefs@) =~= Seq::<Option<Seq<char>>>::empty());
                            assert(me.model().stack == rest.push(
                                FrameModel { url: c@, links: Seq::empty(), next: 0, children: Seq::empty() },
                            ));
                        }
                        return Progress::Fetch(me);
                    }
                }
                me.stack.push(f);
                proof {
                    lemma_stack_push(st.drop_last(), f);
                    assert(me.stack@[0].url == st[0].url);
                    assert(me.model() == with_stack(m0, rest));
                }
            } else {
                let ghost fm = frame_model(f);
                let node = LinkNode { url: f.url, sub_urls: f.children };
                proof {
                    lemma_view_children(node);
                    assert(view_of(node) == TreeView { url: fm.url, children: fm.children });
                    lemma_tree_urls(node);
                    assert(tree_urls(node) == frame_urls(f));
                    assert forall|j: int| 0 <= j < node.sub_urls@.len() implies
                        within_depth(#[trigger] node.sub_urls@[j], MAX_DEPTH - 1 - (k - 1)) by {
                        assert(st[k - 1].children@[j] == node.sub_urls@[j]);
                    }
                    assert(within_depth(node, MAX_DEPTH - 1 - (k - 1) + 1));
                }
                if me.stack.len() == 0 {
                    proof {
                        assert(st.drop_last() =~= Seq::<Frame>::empty());
                        assert(stack_urls(st.drop_last()) =~= Seq::<Seq<char>>::empty());
                        assert(stack_urls(st) =~= tree_urls(node));
                        assert(sound_tree(node, seed, claimed));
                    }
                    return Progress::Done(Ok(node));
                }
                let ghost pre = me.stack@;
                let mut p = me.stack.pop().unwrap();
                let ghost old_children = p.children@;
                p.children.push(node);
                me.stack.push(p);
                proof {
                    assert(pre.drop_last().push(pre.last()) =~= pre);
                    lemma_stack_push(pre.drop_last(), pre.last());
                    lemma_stack_push(pre.drop_last(), p);
                    assert(p.children@.drop_last() =~= old_children);
                    lemma_models_drop_last(pre);
                    lemma_models_push(pre.drop_last(), p);
                    assert(views_of(p.children@) =~= views_of(old_children).push(view_of(node)));
                    assert(models(pre).last() == m0.stack[m0.stack.len() - 2]);
                    assert(me.model().stack =~= m0.stack.drop_last().drop_last().push(frame_model(p)));
                    assert(stack_urls(me.stack@) =~= stack_urls(st));
                    assert(me.stack@[0].url == st[0].url);
                    assert forall|i: int, j: int|
                        0 <= i < me.stack@.len() && 0 <= j < me.stack@[i].children@.len() implies within_depth(
                            #[trigger] me.stack@[i].children@[j],
                            MAX_DEPTH - 1 - i,
                        ) by {
                        if i < me.stack@.len() - 1 || j < old_children.len() {
                            assert(me.stack@[i].children@[j] == st[i].children@[j]);
                        }
                    }
                }
            }
        }
    }

    /// Takes the outcome of fetching the pending page (its body, or `None`
    /// when the fetch failed) and goes on. A page that cannot be fetched or
    /// scanned ends the crawl with an error when it is the seed; any other
    /// such page is left out of the tree, and the crawl goes on without it.
    pub fn resume(self, body: Option<String>) -> (r: Progress)
        requires
            self.wf(),
        ensures
            match r {
                Progress::Fetch(n) => claims_next(self, n),
                Progress::Done(Ok(t)) => sound_tree(t, self.seed(), self.claimed()),
                Progress::Done(Err(e)) => {
                    &&& self.depth() == 0
                    &&& page_links(body) is None
                    &&& e == if body is None {
                        CrawlError::FetchFailure
                    } else {
                        CrawlError::ExtractionFailure
                    }
                },
            },
            self.depth() == 0 && page_links(body) is None ==> r is Done && r->Done_0 is Err,
            step_of(r) == resume_model(self.model(), opt_chars(body)),
    {
        let ghost m = self.model();
        let ghost body_chars = opt_chars(body);
        let fetched = body.is_some();
        let links = match body {
            Some(b) => extract_hrefs(b.as_str()),
            None => None,
        };
        let ghost st = self.stack@;
        let mut me = self;
        let mut top = me.stack.pop().unwrap();
        proof {
            assert(st.drop_last().push(st.last()) =~= st);
            lemma_stack_push(st.drop_last(), st.last());
            lemma_models_drop_last(st);
        }
        match links {
            Some(h) => {
                top.hrefs = h;
                top.next = 0;
                me.stack.push(top);
                proof {
                    lemma_stack_push(st.drop_last(), top);
                    assert(me.stack@[0].url == st[0].url);
                    lemma_models_push(st.drop_last(), top);
                    let f = m.stack.last();
                    assert(frame_model(top) == FrameModel {
                        url: f.url,
                        links: anchor_hrefs(body_chars->0)->0,
                        next: 0,
                        children: f.children,
                    });
                }
            },
            None => {
                if me.stack.len() == 0 {
                    let e = if fetched {
                        CrawlError::ExtractionFailure
                    } else {
                        CrawlError::FetchFailure
                    };
                    return Progress::Done(Err(e));
                }
                proof {
                    assert(me.model() == with_stack(m, m.stack.drop_last()));
                    lemma_prefix_distinct(stack_urls(st.drop_last()), frame_urls(st.last()));
                    assert forall|i: int| 0 <= i < stack_urls(me.stack@).len() implies
                        me.visited@.contains(#[trigger] stack_urls(me.stack@)[i]) by {
                        assert(stack_urls(me.stack@)[i] == stack_urls(st)[i]);
                    }
                }
            },
        }
        me.advance()
    }
}

/// A crawl's course is a function of its seed and of the bodies it is
/// handed. A crawl starts in a state fixed by its seed (see `start`); crawls
/// in the same state ask for the same URL, and, handed the same body, take
/// the same step: they go on in the same state, or end with equal trees, or
/// with the same error. So two crawls from one seed whose fetchers answer
/// each URL with the same body fetch the same pages and build equal trees.
pub proof fn lemma_crawl_deterministic(
    a: Crawler,
    b: Crawler,
    body_a: Option<String>,
    body_b: Option<String>,
    ra: Progress,
    rb: Progress,
)
    requires
        a.wf(),
        b.wf(),
        a.model() == b.model(),
        opt_chars(body_a) == opt_chars(body_b),
        step_of(ra) == resume_model(a.model(), opt_chars(body_a)),
        step_of(rb) == resume_model(b.model(), opt_chars(body_b)),
    ensures
        a.pending_url() == b.pending_url(),
        match (ra, rb) {
            (Progress::Fetch(x), Progress::Fetch(y)) => x.model() == y.model(),
            (Progress::Done(Ok(s)), Progress::Done(Ok(t))) => view_of(s) == view_of(t),
            (Progress::Done(Err(e)), Progress::Done(Err(f))) => e == f,
            _ => false,
        },
{
    lemma_models_drop_last(a.stack@);
    lemma_models_drop_last(b.stack@);
}

} // verus!
