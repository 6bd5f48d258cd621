//! Score totals per tag, from which the mean score of a tag is taken.

use crate::index::lists_known_posts;
use crate::model::{Post, PostId, Posts, TagId, TagPosts};
use crate::store::{table_get, table_insert, table_keys, table_new};
use rustc_hash::FxHashMap;
use vstd::prelude::*;

verus! {

/// The sum of the scores of the posts of a bucket and the number of its
/// entries. The mean score is the first divided by the second.
#[derive(Debug, Clone, Copy, PartialEq, Eq, Structural)]
pub struct ScoreTotal {
    pub sum: i128,
    pub posts: usize,
}

/// The sum of the `score` fields over the entries of `bucket`.
pub open spec fn score_sum(posts: Map<u32, Post>, bucket: Seq<PostId>) -> int
    decreases bucket.len(),
{
    if bucket.len() == 0 {
        0
    } else {
        score_sum(posts, bucket.drop_last()) + posts[bucket.last().0].score
    }
}

/// Whether a bucket of `len` entries is reported under the minimum sample
/// size `minimum`: it has at least that many entries, and at least one.
pub open spec fn is_reported(len: nat, minimum: usize) -> bool {
    len >= minimum && len > 0
}

/// Adds up the scores of the posts of `tag`.
pub fn post_score_total_for_tag(posts: &Posts, tag_posts: &TagPosts, tag: TagId) -> (total:
    ScoreTotal)
    requires
        tag_posts@.contains_key(tag.0),
        forall|i: int|
            0 <= i < tag_posts@[tag.0]@.len() ==> posts@.contains_key(
                (#[trigger] tag_posts@[tag.0]@[i]).0,
            ),
    ensures
        total.sum == score_sum(posts@, tag_posts@[tag.0]@),
        total.posts == tag_posts@[tag.0]@.len(),
{
    let bucket = table_get(tag_posts, tag.0).unwrap();
    let mut sum: i128 = 0;
    let mut i: usize = 0;
    while i < bucket.len()
        invariant
            i <= bucket.len(),
            forall|k: int| 0 <= k < bucket@.len() ==> posts@.contains_key((#[trigger] bucket@[k]).0),
            sum == score_sum(posts@, bucket@.take(i as int)),
            -0x8000_0000 * i <= sum <= 0x8000_0000 * i,
        decreases bucket.len() - i,
    {
        let post = table_get(posts, bucket[i].0).unwrap();
        proof {
            assert(bucket@.take(i as int + 1).drop_last() =~= bucket@.take(i as int));
        }
        sum = sum + post.score as i128;
        i += 1;
    }
    proof {
        assert(bucket@.take(i as int) =~= bucket@);
    }
    ScoreTotal { sum, posts: bucket.len() }
}

/// Adds up the scores of every tag whose bucket holds at least
/// `minimum_post_count` entries. A tag with fewer entries, or with none, gets
/// no total.
pub fn post_score_totals_for_all_tags(
    posts: &Posts,
    tag_posts: &TagPosts,
    minimum_post_count: usize,
) -> (totals: FxHashMap<u32, ScoreTotal>)
    requires
        lists_known_posts(posts@, tag_posts@),
    ensures
        forall|tag: u32|
            totals@.contains_key(tag) <==> tag_posts@.contains_key(tag) && is_reported(
                tag_posts@[tag]@.len(),
                minimum_post_count,
            ),
        forall|tag: u32| #[trigger]
            totals@.contains_key(tag) ==> totals@[tag].sum == score_sum(posts@, tag_posts@[tag]@)
                && totals@[tag].posts == tag_posts@[tag]@.len(),
{
    let keys = table_keys(tag_posts);
    let mut totals: FxHashMap<u32, ScoreTotal> = table_new();
    let mut k: usize = 0;
    while k < keys.len()
        invariant
            k <= keys.len(),
            lists_known_posts(posts@, tag_posts@),
            forall|key: u32| keys@.contains(key) <==> tag_posts@.contains_key(key),
            forall|tag: u32|
                totals@.contains_key(tag) <==> (exists|at: int| 0 <= at < k && keys@[at] == tag)
                    && is_reported(tag_posts@[tag]@.len(), minimum_post_count),
            forall|tag: u32| #[trigger]
                totals@.contains_key(tag) ==> totals@[tag].sum == score_sum(
                    posts@,
                    tag_posts@[tag]@,
                ) && totals@[tag].posts == tag_posts@[tag]@.len(),
        decreases keys.len() - k,
    {
        let key: u32 = keys[k];
        proof {
            assert(keys@.contains(key));
        }
        let ghost before = totals@;
        let bucket = table_get(tag_posts, key).unwrap();
        if bucket.len() >= minimum_post_count && bucket.len() > 0 {
            let total = post_score_total_for_tag(posts, tag_posts, TagId(key));
            table_insert(&mut totals, key, total);
        }
        proof {
            assert forall|tag: u32|
                totals@.contains_key(tag) <==> (exists|at: int| 0 <= at < k + 1 && keys@[at] == tag)
                    && is_reported(tag_posts@[tag]@.len(), minimum_post_count) by {
                if tag == key {
                    assert(keys@[k as int] == tag);
                } else if before.contains_key(tag) {
                    let at = choose|at: int| 0 <= at < k && keys@[at] == tag;
                    assert(0 <= at < k + 1 && keys@[at] == tag);
                } else if exists|at: int| 0 <= at < k + 1 && keys@[at] == tag {
                    let at = choose|at: int| 0 <= at < k + 1 && keys@[at] == tag;
                    assert(0 <= at < k && keys@[at] == tag);
                }
            }
        }
        k += 1;
    }
    proof {
        assert forall|tag: u32|
            totals@.contains_key(tag) <==> tag_posts@.contains_key(tag) && is_reported(
                tag_posts@[tag]@.len(),
                minimum_post_count,
            ) by {
            if totals@.contains_key(tag) {
                let at = choose|at: int| 0 <= at < k && keys@[at] == tag;
                assert(keys@.contains(tag));
            }
            if tag_posts@.contains_key(tag) {
                assert(keys@.contains(tag));
                let at = choose|at: int| 0 <= at < keys@.len() && keys@[at] == tag;
                assert(0 <= at < k && keys@[at] == tag);
            }
        }
    }
    totals
}

} // verus!
