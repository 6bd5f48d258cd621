//! The statistics of a tag do not depend on the order of its bucket.
//!
//! The index lists the posts of a tag in no stated order. The laws here show
//! that the counts, the score sums and the monthly counts are the same for
//! every order, and with them the rankings.

use crate::index::{
    is_index_of, lemma_entry_is_listed, lemma_listed_is_entry, references, times_listed,
};
use crate::model::{Post, PostId, TagId};
use crate::ranking::{
    cooccurrence_table, cooccurrences, is_top_ranking, lemma_top_is_unique, occurrences,
};
use crate::score::score_sum;
use crate::timeline::{is_timeline_of, lemma_timeline_is_unique, month_of, posts_in_month};
use vstd::prelude::*;

verus! {

/// The sum of `weight` over the entries of a bucket.
pub open spec fn weighted(bucket: Seq<PostId>, weight: spec_fn(u32) -> int) -> int
    decreases bucket.len(),
{
    if bucket.len() == 0 {
        0
    } else {
        weighted(bucket.drop_last(), weight) + weight(bucket.last().0)
    }
}

/// Two buckets list every post the same number of times.
pub open spec fn same_entries(first: Seq<PostId>, second: Seq<PostId>) -> bool {
    forall|post: u32| times_listed(first, post) == times_listed(second, post)
}

/// Taking an entry out of a bucket takes its weight out of the sum.
pub proof fn lemma_weighted_without(bucket: Seq<PostId>, at: int, weight: spec_fn(u32) -> int)
    requires
        0 <= at < bucket.len(),
    ensures
        weighted(bucket.remove(at), weight) == weighted(bucket, weight) - weight(bucket[at].0),
    decreases bucket.len(),
{
    if at == bucket.len() - 1 {
        assert(bucket.remove(at) =~= bucket.drop_last());
    } else {
        assert(bucket.remove(at).drop_last() =~= bucket.drop_last().remove(at));
        assert(bucket.remove(at).last() == bucket.last());
        lemma_weighted_without(bucket.drop_last(), at, weight);
    }
}

/// Taking an entry out of a bucket lists its post once less.
pub proof fn lemma_listed_without(bucket: Seq<PostId>, at: int, post: u32)
    requires
        0 <= at < bucket.len(),
    ensures
        times_listed(bucket.remove(at), post) == times_listed(bucket, post) - if bucket[at].0
            == post {
            1int
        } else {
            0int
        },
    decreases bucket.len(),
{
    if at == bucket.len() - 1 {
        assert(bucket.remove(at) =~= bucket.drop_last());
    } else {
        assert(bucket.remove(at).drop_last() =~= bucket.drop_last().remove(at));
        assert(bucket.remove(at).last() == bucket.last());
        lemma_listed_without(bucket.drop_last(), at, post);
    }
}

/// A sum over a bucket is the same for every order of its entries.
pub proof fn lemma_weighted_in_any_order(
    first: Seq<PostId>,
    second: Seq<PostId>,
    weight: spec_fn(u32) -> int,
)
    requires
        same_entries(first, second),
    ensures
        weighted(first, weight) == weighted(second, weight),
    decreases first.len(),
{
    if first.len() == 0 {
        if second.len() > 0 {
            lemma_entry_is_listed(second, 0);
            assert(times_listed(first, second[0].0) == times_listed(second, second[0].0));
        }
    } else {
        let last = first.last();
        assert(times_listed(first, last.0) == times_listed(second, last.0));
        lemma_listed_is_entry(second, last.0);
        let at = choose|at: int| 0 <= at < second.len() && (#[trigger] second[at]).0 == last.0;
        assert forall|post: u32|
            times_listed(first.drop_last(), post) == times_listed(second.remove(at), post) by {
            lemma_listed_without(second, at, post);
            assert(times_listed(first, post) == times_listed(second, post));
        }
        lemma_weighted_in_any_order(first.drop_last(), second.remove(at), weight);
        lemma_weighted_without(second, at, weight);
    }
}

/// What one post adds to the count of `other`.
pub open spec fn occurrence_weight(posts: Map<u32, Post>, other: u32) -> spec_fn(u32) -> int {
    |post: u32| occurrences(posts[post].tags@, other) as int
}

/// What one post adds to the score sum.
pub open spec fn score_weight(posts: Map<u32, Post>) -> spec_fn(u32) -> int {
    |post: u32| posts[post].score as int
}

/// What one post adds to the count of `month`.
pub open spec fn month_weight(posts: Map<u32, Post>, month: Seq<char>) -> spec_fn(u32) -> int {
    |post: u32|
        if month_of(posts[post].created_at@) == month {
            1int
        } else {
            0int
        }
}

/// The count of a co-occurring tag is a sum over the bucket.
pub proof fn lemma_cooccurrences_is_sum(posts: Map<u32, Post>, bucket: Seq<PostId>, other: u32)
    ensures
        cooccurrences(posts, bucket, other) == weighted(bucket, occurrence_weight(posts, other)),
    decreases bucket.len(),
{
    if bucket.len() > 0 {
        lemma_cooccurrences_is_sum(posts, bucket.drop_last(), other);
    }
}

/// The score sum is a sum over the bucket.
pub proof fn lemma_score_is_sum(posts: Map<u32, Post>, bucket: Seq<PostId>)
    ensures
        score_sum(posts, bucket) == weighted(bucket, score_weight(posts)),
    decreases bucket.len(),
{
    if bucket.len() > 0 {
        lemma_score_is_sum(posts, bucket.drop_last());
    }
}

/// The count of a month is a sum over the bucket.
pub proof fn lemma_month_is_sum(posts: Map<u32, Post>, bucket: Seq<PostId>, month: Seq<char>)
    ensures
        posts_in_month(posts, bucket, month) == weighted(bucket, month_weight(posts, month)),
    decreases bucket.len(),
{
    if bucket.len() > 0 {
        lemma_month_is_sum(posts, bucket.drop_last(), month);
    }
}

/// Two buckets with the same entries give the same counts of co-occurring
/// tags, the same score sum and the same counts per month.
pub proof fn lemma_statistics_in_any_order(
    posts: Map<u32, Post>,
    first: Seq<PostId>,
    second: Seq<PostId>,
)
    requires
        same_entries(first, second),
    ensures
        first.len() == second.len(),
        score_sum(posts, first) == score_sum(posts, second),
        forall|other: u32|
            cooccurrences(posts, first, other) == cooccurrences(posts, second, other),
        forall|month: Seq<char>|
            posts_in_month(posts, first, month) == posts_in_month(posts, second, month),
{
    let one = |post: u32| 1int;
    lemma_weighted_in_any_order(first, second, one);
    lemma_weighted_is_len(first);
    lemma_weighted_is_len(second);
    lemma_score_is_sum(posts, first);
    lemma_score_is_sum(posts, second);
    lemma_weighted_in_any_order(first, second, score_weight(posts));
    assert forall|other: u32|
        cooccurrences(posts, first, other) == cooccurrences(posts, second, other) by {
        lemma_cooccurrences_is_sum(posts, first, other);
        lemma_cooccurrences_is_sum(posts, second, other);
        lemma_weighted_in_any_order(first, second, occurrence_weight(posts, other));
    }
    assert forall|month: Seq<char>|
        posts_in_month(posts, first, month) == posts_in_month(posts, second, month) by {
        lemma_month_is_sum(posts, first, month);
        lemma_month_is_sum(posts, second, month);
        lemma_weighted_in_any_order(first, second, month_weight(posts, month));
    }
}

/// The sum of the weight one is the number of entries.
pub proof fn lemma_weighted_is_len(bucket: Seq<PostId>)
    ensures
        weighted(bucket, |post: u32| 1int) == bucket.len(),
    decreases bucket.len(),
{
    if bucket.len() > 0 {
        lemma_weighted_is_len(bucket.drop_last());
    }
}

/// Two indexes of one table have the same keys, and under each key buckets
/// with the same entries.
pub proof fn lemma_indexes_have_same_entries(
    posts: Map<u32, Post>,
    first: Map<u32, Vec<PostId>>,
    second: Map<u32, Vec<PostId>>,
    tag: u32,
)
    requires
        is_index_of(posts, first),
        is_index_of(posts, second),
    ensures
        first.contains_key(tag) == second.contains_key(tag),
        first.contains_key(tag) ==> same_entries(first[tag]@, second[tag]@),
{
    if first.contains_key(tag) {
        assert forall|post: u32|
            times_listed(first[tag]@, post) == times_listed(second[tag]@, post) by {
            assert(times_listed(first[tag]@, post) == references(posts, post, tag));
            assert(times_listed(second[tag]@, post) == references(posts, post, tag));
        }
    }
}

/// Building the index and ranking a tag twice gives the same ranking, entry
/// by entry, whatever the order in which each index lists the posts.
pub proof fn lemma_ranking_is_reproducible(
    posts: Map<u32, Post>,
    first_index: Map<u32, Vec<PostId>>,
    second_index: Map<u32, Vec<PostId>>,
    tag: u32,
    n: usize,
    first: Seq<(TagId, usize)>,
    second: Seq<(TagId, usize)>,
)
    requires
        is_index_of(posts, first_index),
        is_index_of(posts, second_index),
        first_index.contains_key(tag),
        is_top_ranking(posts, first_index[tag]@, tag, n, first),
        is_top_ranking(posts, second_index[tag]@, tag, n, second),
    ensures
        first == second,
{
    lemma_indexes_have_same_entries(posts, first_index, second_index, tag);
    lemma_statistics_in_any_order(posts, first_index[tag]@, second_index[tag]@);
    assert(cooccurrence_table(posts, first_index[tag]@, tag) =~= cooccurrence_table(
        posts,
        second_index[tag]@,
        tag,
    ));
    lemma_top_is_unique(cooccurrence_table(posts, first_index[tag]@, tag), n, first, second);
}

/// Building the index and listing the months of a tag twice gives the same
/// months with the same counts, whatever the order in which each index lists
/// the posts.
pub proof fn lemma_timeline_is_reproducible(
    posts: Map<u32, Post>,
    first_index: Map<u32, Vec<PostId>>,
    second_index: Map<u32, Vec<PostId>>,
    tag: u32,
    first: Seq<(String, usize)>,
    second: Seq<(String, usize)>,
)
    requires
        is_index_of(posts, first_index),
        is_index_of(posts, second_index),
        first_index.contains_key(tag),
        is_timeline_of(posts, first_index[tag]@, first),
        is_timeline_of(posts, second_index[tag]@, second),
    ensures
        first.len() == second.len(),
        forall|i: int|
            0 <= i < first.len() ==> (#[trigger] first[i]).0@ == second[i].0@ && first[i].1
                == second[i].1,
{
    lemma_indexes_have_same_entries(posts, first_index, second_index, tag);
    lemma_statistics_in_any_order(posts, first_index[tag]@, second_index[tag]@);
    assert(is_timeline_of(posts, first_index[tag]@, second));
    lemma_timeline_is_unique(posts, first_index[tag]@, first, second);
}

} // verus!
