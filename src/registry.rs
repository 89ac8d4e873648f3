//! The set of URLs that a crawl has claimed for fetching.
use vstd::prelude::*;

verus! {

/// URLs already fetched or scheduled during one crawl. A URL, once claimed,
/// stays claimed: the registry only grows.
pub struct VisitedRegistry {
    urls: Vec<String>,
}

impl View for VisitedRegistry {
    type V = Set<Seq<char>>;

    closed spec fn view(&self) -> Set<Seq<char>> {
        Set::new(|u: Seq<char>| exists|i: int| 0 <= i < self.urls@.len() && #[trigger] self.urls@[i]@ == u)
    }
}

impl VisitedRegistry {
    /// An empty registry.
    pub fn new() -> (r: VisitedRegistry)
        ensures
            r@ == Set::<Seq<char>>::empty(),
    {
        let r = VisitedRegistry { urls: Vec::new() };
        assert(r@ =~= Set::<Seq<char>>::empty());
        r
    }

    /// Whether `url` has been claimed.
    pub fn contains(&self, url: &String) -> (r: bool)
        ensures
            r == self@.contains(url@),
    {
        let mut i: usize = 0;
        while i < self.urls.len()
            invariant
                i <= self.urls@.len(),
                forall|k: int| 0 <= k < i ==> #[trigger] self.urls@[k]@ != url@,
            decreases self.urls@.len() - i,
        {
            if self.urls[i] == *url {
                return true;
            }
            i = i + 1;
        }
        false
    }

    /// Claims `url`: true, and `url` is now claimed, when nobody had claimed
    /// it before; false, and nothing changes, otherwise.
    pub fn try_claim(&mut self, url: &String) -> (r: bool)
        ensures
            r == !old(self)@.contains(url@),
            final(self)@ == old(self)@.insert(url@),
    {
        if self.contains(url) {
            assert(self@ =~= self@.insert(url@));
            false
        } else {
            let ghost before = self@;
            let ghost old_urls = self.urls@;
            self.urls.push(url.clone());
            assert(self.urls@ == old_urls.push(*url));
            assert(self@ =~= before.insert(url@)) by {
                assert forall|u: Seq<char>| #[trigger] self@.contains(u) implies before.insert(url@).contains(u) by {
                    let i = choose|i: int| 0 <= i < self.urls@.len() && #[trigger] self.urls@[i]@ == u;
                    if i < old_urls.len() {
                        assert(old_urls[i]@ == u);
                    }
                }
                assert forall|u: Seq<char>| #[trigger] before.insert(url@).contains(u) implies self@.contains(u) by {
                    if u == url@ {
                        assert(self.urls@[old_urls.len() as int]@ == u);
                    } else {
                        let i = choose|i: int| 0 <= i < old_urls.len() && #[trigger] old_urls[i]@ == u;
                        assert(self.urls@[i]@ == u);
                    }
                }
            }
            true
        }
    }
}

} // verus!
