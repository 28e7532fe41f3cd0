//! Shared error-reporting helpers.

use vstd::prelude::*;

use crate::strutil::{lemma_chain_joined_push, spec_chain_joined};

verus! {

/// Joins an error's chain of causes into one line, each cause separated by
/// `": "`, the way a run's failures are reported.
pub fn error_chain(chain: &Vec<String>) -> (r: String)
    ensures
        r@ == spec_chain_joined(chain@.map_values(|s: String| s@)),
{
    let ghost cv = chain@.map_values(|s: String| s@);
    if chain.len() == 0 {
        let r = String::new();
        proof {
            assert(cv.len() == 0);
        }
        return r;
    }
    let mut r = chain[0].clone();
    proof {
        assert(cv.subrange(0, 1) =~= seq![cv[0]]);
        assert(spec_chain_joined(cv.subrange(0, 1)) == cv[0]);
    }
    let mut i: usize = 1;
    while i < chain.len()
        invariant
            1 <= i <= chain@.len(),
            cv == chain@.map_values(|s: String| s@),
            cv.len() == chain@.len(),
            r@ == spec_chain_joined(cv.subrange(0, i as int)),
        decreases chain@.len() - i,
    {
        r.append(": ");
        r.append(chain[i].as_str());
        proof {
            assert(cv.subrange(0, i as int + 1) =~= cv.subrange(0, i as int).push(cv[i as int]));
            lemma_chain_joined_push(cv.subrange(0, i as int), cv[i as int]);
        }
        i = i + 1;
    }
    proof {
        assert(cv.subrange(0, cv.len() as int) =~= cv);
    }
    r
}

} // verus!
