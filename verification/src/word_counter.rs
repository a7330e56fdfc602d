//! The earlier iteration of the word ranker, kept under its own module;
//! it computes the same ranking as `counter::find_common_words`.

use vstd::prelude::*;

verus! {

use crate::counter::distinct_count;
use crate::counter::is_ranking;
use crate::counter::sum_usize;
use crate::counter::views;

/// Find the `n` most common words, most common first; ties on the count
/// are broken case-insensitively alphabetically.
pub fn find_common_words(words: &Vec<String>, n: usize) -> (r: (Vec<String>, Vec<usize>))
    requires
        n >= 1,
    ensures
        is_ranking(views(words@), n as int, views(r.0@), r.1@.map_values(|c: usize| c as nat)),
        sum_usize(r.1@) <= views(words@).len(),
        distinct_count(views(words@)) <= n ==> sum_usize(r.1@) == views(words@).len(),
{
    crate::counter::find_common_words(words, n)
}

} // verus!
