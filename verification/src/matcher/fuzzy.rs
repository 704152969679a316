use vstd::prelude::*;

use crate::matcher::distance::{lemma_lev_le_len, lev, levenshtein};
use crate::utils::string::chars_of;

verus! {

/// Index of the dictionary entry with the least edit distance to `q`
/// among the first `i` entries, earliest on ties.
pub open spec fn nearest_upto(dict: Seq<Seq<char>>, q: Seq<char>, i: int) -> Option<int>
    decreases i,
{
    if i <= 0 {
        None
    } else {
        match nearest_upto(dict, q, i - 1) {
            None => Some(i - 1),
            Some(k) => if lev(dict[i - 1], q) < lev(dict[k], q) {
                Some(i - 1)
            } else {
                Some(k)
            },
        }
    }
}

/// The name the plain edit-distance matcher must return: the nearest
/// dictionary entry, or nothing from an empty dictionary.
pub open spec fn nearest_spec(dict: Seq<Seq<char>>, q: Seq<char>) -> Option<Seq<char>> {
    match nearest_upto(dict, q, dict.len() as int) {
        Some(k) => Some(dict[k]),
        None => None,
    }
}

/// Plain nearest-neighbour matcher by Levenshtein distance alone.
pub struct FuzzyMatcher {
    /// The command names to match against, in priority order.
    pub dict: Vec<String>,
}

impl FuzzyMatcher {
    /// The dictionary as character sequences.
    pub open spec fn dict_view(&self) -> Seq<Seq<char>> {
        self.dict@.map_values(|s: String| s@)
    }

    /// Every dictionary entry is short enough that an edit distance
    /// against a query of up to half the address space cannot overflow.
    pub open spec fn wf(&self) -> bool {
        forall|i: int|
            0 <= i < self.dict_view().len() ==> (#[trigger] self.dict_view()[i]).len()
                <= usize::MAX as int / 2
    }

    /// A matcher over `dict`.
    pub fn new(dict: Vec<String>) -> (m: Self)
        requires
            forall|i: int|
                0 <= i < dict@.len() ==> (#[trigger] dict@[i])@.len() <= usize::MAX as int / 2,
        ensures
            m.wf(),
            m.dict_view() == dict@.map_values(|s: String| s@),
    {
        let m = Self { dict };
        proof {
            assert forall|i: int| 0 <= i < m.dict_view().len() implies (#[trigger] m.dict_view()[i]).len()
                <= usize::MAX as int / 2 by {
                assert(m.dict_view()[i] == m.dict@[i]@);
            }
        }
        m
    }

    /// The dictionary entry nearest to `input` by edit distance, earliest
    /// on ties; nothing only when the dictionary is empty.
    pub fn match_str(&self, input: &str) -> (r: Option<String>)
        requires
            self.wf(),
            input@.len() <= usize::MAX as int / 2,
        ensures
            match nearest_spec(self.dict_view(), input@) {
                Some(c) => r matches Some(s) && s@ == c,
                None => r is None,
            },
            r is Some <==> self.dict@.len() > 0,
    {
        let q = chars_of(input);
        let n = self.dict.len();
        let mut best_i: usize = 0;
        let mut best_d: usize = 0;
        let mut found = false;
        let mut i: usize = 0;
        while i < n
            invariant
                i <= n,
                n == self.dict@.len(),
                self.wf(),
                q@ == input@,
                q@.len() <= usize::MAX as int / 2,
                if found {
                    ({
                        &&& nearest_upto(self.dict_view(), q@, i as int) == Some(best_i as int)
                        &&& best_i < n
                        &&& best_d as int == lev(self.dict_view()[best_i as int], q@)
                    })
                } else {
                    i == 0
                },
            decreases n - i,
        {
            let c = chars_of(self.dict[i].as_str());
            assert(c@ == self.dict_view()[i as int]);
            proof {
                lemma_lev_le_len(c@, q@);
            }
            let d = levenshtein(&c, &q);
            if !found {
                found = true;
                best_i = i;
                best_d = d;
            } else if d < best_d {
                best_i = i;
                best_d = d;
            }
            i = i + 1;
        }
        if found {
            Some(self.dict[best_i].clone())
        } else {
            None
        }
    }
}

} // verus!
