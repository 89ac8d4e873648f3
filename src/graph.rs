//! A page address with a helper that reads its leading host label.
use vstd::prelude::*;
use vstd::string::StrSliceExecFns;
use crate::text::{before_first_dot, chars_of};

verus! {

/// A page address.
pub struct Graph {
    pub url: String,
}

impl Graph {
    pub fn new(url: String) -> (r: Graph)
        ensures
            r.url == url,
    {
        Graph { url }
    }

    /// The text of the address before its first `'.'` (the whole address
    /// when it has none).
    pub fn get_subdomain(&self) -> (r: String)
        ensures
            r@ == before_first_dot(self.url@),
    {
        let c = chars_of(self.url.as_str());
        let mut i: usize = 0;
        assert(c@.subrange(0, c@.len() as int) =~= c@);
        assert(c@.subrange(0, 0) + before_first_dot(c@) =~= before_first_dot(c@));
        while i < c.len() && c[i] != '.'
            invariant
                i <= c@.len(),
                before_first_dot(c@) == c@.subrange(0, i as int) + before_first_dot(c@.subrange(i as int, c@.len() as int)),
            decreases c@.len() - i,
        {
            let ghost rest = c@.subrange(i as int, c@.len() as int);
            assert(rest.drop_first() =~= c@.subrange(i + 1, c@.len() as int));
            assert(c@.subrange(0, i as int) + (seq![rest[0]] + before_first_dot(rest.drop_first()))
                =~= c@.subrange(0, i + 1) + before_first_dot(c@.subrange(i + 1, c@.len() as int)));
            i = i + 1;
        }
        assert(before_first_dot(c@.subrange(i as int, c@.len() as int)) =~= Seq::<char>::empty());
        assert(c@.subrange(0, i as int) + Seq::<char>::empty() =~= c@.subrange(0, i as int));
        self.url.as_str().substring_char(0, i).to_string()
    }
}

} // verus!
