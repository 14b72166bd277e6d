//! Choosing locations by prefix.

use crate::name_map::NameMap;
use crate::report::texts_of;
use vstd::prelude::*;

verus! {

/// The names that do not begin with the prefix.
pub open spec fn outside(prefix: Seq<char>) -> spec_fn(Seq<char>) -> bool {
    |name: Seq<char>| !prefix.is_prefix_of(name)
}

/// `str::starts_with` with a string as the pattern: whether the characters of
/// `prefix` stand at the start of `text`.
#[verifier::external_body]
fn starts_with(text: &str, prefix: &str) -> (r: bool)
    ensures
        r == prefix@.is_prefix_of(text@),
{
    text.starts_with(prefix)
}

/// The names of a map that do not begin with the prefix, in order of arrival.
pub fn names_outside<V>(map: &NameMap<V>, prefix: &str) -> (kept: Vec<String>)
    requires
        map.wf(),
    ensures
        texts_of(kept@) == map.names().filter(outside(prefix@)),
{
    let mut kept: Vec<String> = Vec::new();
    let count: usize = map.len();
    let mut i: usize = 0;
    proof {
        reveal(Seq::filter);
        assert(map.names().take(0) =~= Seq::<Seq<char>>::empty());
        assert(texts_of(kept@) =~= map.names().take(0).filter(outside(prefix@)));
    }
    while i < count
        invariant
            i <= count,
            count == map.names().len(),
            map.wf(),
            texts_of(kept@) == map.names().take(i as int).filter(outside(prefix@)),
        decreases count - i,
    {
        let name = map.name_at(i);
        let ghost before = texts_of(kept@);
        proof {
            assert(map.names().take(i + 1) =~= map.names().take(i as int).push(name@));
            map.names().take(i as int).lemma_filter_push(name@, outside(prefix@));
        }
        if !starts_with(name.as_str(), prefix) {
            kept.push(name.clone());
            proof {
                assert(texts_of(kept@) =~= before.push(name@));
            }
        }
        i += 1;
    }
    proof {
        assert(map.names().take(count as int) =~= map.names());
    }
    kept
}

} // verus!
