//! Association lists keyed by strings: a later entry for a key shadows the
//! earlier ones, so the list stands for a map.
use vstd::prelude::*;

use crate::text::text_eq;

verus! {

/// The map that a list of entries stands for: the last entry of a key wins.
pub open spec fn assoc_map<V>(s: Seq<(String, V)>) -> Map<Seq<char>, V>
    decreases s.len(),
{
    if s.len() == 0 {
        Map::empty()
    } else {
        assoc_map(s.drop_last()).insert(s.last().0@, s.last().1)
    }
}

/// The value of the last entry under `key`.
pub fn assoc_get<'a, V>(s: &'a Vec<(String, V)>, key: &str) -> (r: Option<&'a V>)
    ensures
        r matches Some(v) ==> assoc_map(s@).contains_key(key@) && assoc_map(s@)[key@] == *v,
        r is None ==> !assoc_map(s@).contains_key(key@),
{
    let mut i: usize = s.len();
    proof {
        assert(s@.subrange(0, i as int) == s@);
    }
    while i > 0
        invariant
            i <= s@.len(),
            forall|k: Seq<char>|
                k == key@ ==> (#[trigger] assoc_map(s@).contains_key(k) == assoc_map(
                    s@.subrange(0, i as int),
                ).contains_key(k) && (assoc_map(s@).contains_key(k) ==> assoc_map(s@)[k]
                    == assoc_map(s@.subrange(0, i as int))[k])),
        decreases i,
    {
        let ghost pre = s@.subrange(0, i as int);
        proof {
            assert(pre.drop_last() == s@.subrange(0, i - 1));
            assert(pre.last() == s@[i - 1]);
        }
        if text_eq(s[i - 1].0.as_str(), key) {
            proof {
                assert(assoc_map(pre).contains_key(key@));
                assert(assoc_map(pre)[key@] == s@[i - 1].1);
                assert(assoc_map(s@).contains_key(key@));
            }
            return Some(&s[i - 1].1);
        }
        i = i - 1;
    }
    None
}

} // verus!
