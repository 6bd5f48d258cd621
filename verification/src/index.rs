//! The inverted index from tags to the posts that carry them.

use crate::model::{Post, PostId, Posts, TagId, TagPosts};
use crate::ranking::{lemma_occurrences_step, occurrences};
use crate::store::{table_get, table_insert, table_keys, table_new, table_remove};
use vstd::prelude::*;

verus! {

/// Every post of the table is stored under the number of its identifier.
pub open spec fn keyed_by_id(posts: Map<u32, Post>) -> bool {
    forall|key: u32| #[trigger] posts.contains_key(key) ==> posts[key].id.0 == key
}

/// Every post that the index lists is in the table.
pub open spec fn lists_known_posts(posts: Map<u32, Post>, index: Map<u32, Vec<PostId>>) -> bool {
    forall|tag: u32, i: int|
        index.contains_key(tag) && 0 <= i < index[tag]@.len() ==> posts.contains_key(
            (#[trigger] index[tag]@[i]).0,
        )
}

/// How many entries of `bucket` are the post numbered `post`.
pub open spec fn times_listed(bucket: Seq<PostId>, post: u32) -> nat
    decreases bucket.len(),
{
    if bucket.len() == 0 {
        0
    } else {
        times_listed(bucket.drop_last(), post) + if bucket.last().0 == post {
            1nat
        } else {
            0nat
        }
    }
}

/// How many entries the bucket of `tag` owes to the post numbered `post`: one
/// for each time the post lists the tag.
pub open spec fn references(posts: Map<u32, Post>, post: u32, tag: u32) -> nat {
    if posts.contains_key(post) {
        occurrences(posts[post].tags@, tag)
    } else {
        0
    }
}

/// `index` is the inverted index of `posts`: a tag is a key exactly when some
/// post lists it, and its bucket then holds each post once for each time the
/// post lists the tag, in some order.
pub open spec fn is_index_of(posts: Map<u32, Post>, index: Map<u32, Vec<PostId>>) -> bool {
    &&& forall|tag: u32| #[trigger]
        index.contains_key(tag) <==> exists|post: u32| references(posts, post, tag) > 0
    &&& forall|tag: u32, post: u32|
        index.contains_key(tag) ==> #[trigger] times_listed(index[tag]@, post) == references(
            posts,
            post,
            tag,
        )
}

/// An entry of a bucket is listed in it at least once.
pub proof fn lemma_entry_is_listed(bucket: Seq<PostId>, i: int)
    requires
        0 <= i < bucket.len(),
    ensures
        times_listed(bucket, bucket[i].0) > 0,
    decreases bucket.len(),
{
    if i < bucket.len() - 1 {
        lemma_entry_is_listed(bucket.drop_last(), i);
    }
}

/// A bucket that lists a post is not empty.
pub proof fn lemma_listed_is_entry(bucket: Seq<PostId>, post: u32)
    requires
        times_listed(bucket, post) > 0,
    ensures
        exists|i: int| 0 <= i < bucket.len() && (#[trigger] bucket[i]).0 == post,
    decreases bucket.len(),
{
    if bucket.last().0 == post {
        assert(bucket[bucket.len() - 1].0 == post);
    } else {
        lemma_listed_is_entry(bucket.drop_last(), post);
        let i = choose|i: int|
            0 <= i < bucket.drop_last().len() && (#[trigger] bucket.drop_last()[i]).0 == post;
        assert(bucket[i].0 == post);
    }
}

/// An index of a table lists posts of that table only.
pub proof fn lemma_index_lists_known_posts(posts: Map<u32, Post>, index: Map<u32, Vec<PostId>>)
    requires
        is_index_of(posts, index),
    ensures
        lists_known_posts(posts, index),
{
    assert forall|tag: u32, i: int|
        index.contains_key(tag) && 0 <= i < index[tag]@.len() implies posts.contains_key(
        (#[trigger] index[tag]@[i]).0,
    ) by {
        lemma_entry_is_listed(index[tag]@, i);
        assert(times_listed(index[tag]@, index[tag]@[i].0) == references(
            posts,
            index[tag]@[i].0,
            tag,
        ));
    }
}

/// The bucket of `tag`, empty where the tag is no key.
spec fn bucket_of(index: Map<u32, Vec<PostId>>, tag: u32) -> Seq<PostId> {
    if index.contains_key(tag) {
        index[tag]@
    } else {
        Seq::empty()
    }
}

/// What the bucket of `tag` owes to `post` once the posts `keys[..done]` are
/// indexed and the first `within` tags of the post `keys[done]`.
spec fn indexed_so_far(
    posts: Map<u32, Post>,
    keys: Seq<u32>,
    done: int,
    within: int,
    post: u32,
    tag: u32,
) -> nat {
    if exists|at: int| 0 <= at < done && keys[at] == post {
        occurrences(posts[post].tags@, tag)
    } else if done < keys.len() && keys[done] == post {
        occurrences(posts[post].tags@.take(within), tag)
    } else {
        0
    }
}

/// Builds the inverted index: for each post, and for each tag that the post
/// lists, one entry for the post in the tag's bucket. A post that lists a tag
/// twice is entered twice.
pub fn create_tag_posts(posts: &Posts) -> (tag_posts: TagPosts)
    requires
        keyed_by_id(posts@),
    ensures
        is_index_of(posts@, tag_posts@),
        lists_known_posts(posts@, tag_posts@),
        forall|tag: u32| #[trigger] tag_posts@.contains_key(tag) ==> tag_posts@[tag]@.len() > 0,
{
    let keys = table_keys(posts);
    let mut index: TagPosts = table_new();
    let mut k: usize = 0;
    while k < keys.len()
        invariant
            k <= keys.len(),
            keyed_by_id(posts@),
            keys@.no_duplicates(),
            forall|key: u32| keys@.contains(key) <==> posts@.contains_key(key),
            forall|tag: u32| #[trigger] index@.contains_key(tag) ==> index@[tag]@.len() > 0,
            forall|tag: u32, post: u32| #[trigger]
                times_listed(bucket_of(index@, tag), post) == indexed_so_far(
                    posts@,
                    keys@,
                    k as int,
                    0,
                    post,
                    tag,
                ),
        decreases keys.len() - k,
    {
        let key: u32 = keys[k];
        proof {
            assert(keys@.contains(key));
        }
        let post = table_get(posts, key).unwrap();
        let mut j: usize = 0;
        while j < post.tags.len()
            invariant
                j <= post.tags.len(),
                k < keys.len(),
                key == keys@[k as int],
                posts@.contains_key(key),
                *post == posts@[key],
                post.id.0 == key,
                keys@.no_duplicates(),
                forall|tag: u32| #[trigger] index@.contains_key(tag) ==> index@[tag]@.len() > 0,
                forall|tag: u32, other: u32| #[trigger]
                    times_listed(bucket_of(index@, tag), other) == indexed_so_far(
                        posts@,
                        keys@,
                        k as int,
                        j as int,
                        other,
                        tag,
                    ),
            decreases post.tags.len() - j,
        {
            let tag: TagId = post.tags[j];
            let ghost before = index@;
            let mut bucket: Vec<PostId> = match table_remove(&mut index, tag.0) {
                Some(bucket) => bucket,
                None => Vec::new(),
            };
            let ghost shorter = bucket@;
            bucket.push(post.id);
            proof {
                assert(shorter == bucket_of(before, tag.0));
                assert(bucket@.drop_last() =~= shorter);
            }
            let ghost longer = bucket@;
            table_insert(&mut index, tag.0, bucket);
            proof {
                assert forall|any: u32, other: u32| #[trigger]
                    times_listed(bucket_of(index@, any), other) == indexed_so_far(
                        posts@,
                        keys@,
                        k as int,
                        j as int + 1,
                        other,
                        any,
                    ) by {
                    assert(times_listed(bucket_of(before, any), other) == indexed_so_far(
                        posts@,
                        keys@,
                        k as int,
                        j as int,
                        other,
                        any,
                    ));
                    if other == key {
                        lemma_occurrences_step(post.tags@, j as int, any);
                        if exists|at: int| 0 <= at < k && keys@[at] == other {
                            let at = choose|at: int| 0 <= at < k && keys@[at] == other;
                            assert(keys@[at] == keys@[k as int]);
                        }
                    }
                    if any == tag.0 {
                        assert(bucket_of(index@, any) == longer);
                    } else {
                        assert(bucket_of(index@, any) == bucket_of(before, any));
                    }
                }
            }
            j += 1;
        }
        proof {
            assert(post.tags@.take(j as int) =~= post.tags@);
            assert forall|tag: u32, other: u32| #[trigger]
                times_listed(bucket_of(index@, tag), other) == indexed_so_far(
                    posts@,
                    keys@,
                    k as int + 1,
                    0,
                    other,
                    tag,
                ) by {
                assert(times_listed(bucket_of(index@, tag), other) == indexed_so_far(
                    posts@,
                    keys@,
                    k as int,
                    j as int,
                    other,
                    tag,
                ));
                if exists|at: int| 0 <= at < k && keys@[at] == other {
                    let at = choose|at: int| 0 <= at < k && keys@[at] == other;
                    assert(0 <= at < k + 1 && keys@[at] == other);
                } else if other == key {
                    assert(0 <= k < k + 1 && keys@[k as int] == other);
                } else {
                    if exists|at: int| 0 <= at < k + 1 && keys@[at] == other {
                        let at = choose|at: int| 0 <= at < k + 1 && keys@[at] == other;
                        assert(at < k);
                    }
                    if k + 1 < keys@.len() && keys@[k as int + 1] == other {
                        assert(posts@[other].tags@.take(0) =~= Seq::<TagId>::empty());
                    }
                }
            }
        }
        k += 1;
    }
    proof {
        assert forall|tag: u32, post: u32| #[trigger]
            times_listed(bucket_of(index@, tag), post) == references(posts@, post, tag) by {
            assert(times_listed(bucket_of(index@, tag), post) == indexed_so_far(
                posts@,
                keys@,
                k as int,
                0,
                post,
                tag,
            ));
            if posts@.contains_key(post) {
                assert(keys@.contains(post));
                let at = choose|at: int| 0 <= at < keys@.len() && keys@[at] == post;
                assert(0 <= at < k && keys@[at] == post);
            } else {
                if exists|at: int| 0 <= at < k && keys@[at] == post {
                    let at = choose|at: int| 0 <= at < k && keys@[at] == post;
                    assert(keys@.contains(post));
                }
            }
        }
        assert forall|tag: u32| #[trigger] index@.contains_key(tag) implies exists|post: u32|
            references(posts@, post, tag) > 0 by {
            let first = index@[tag]@[0];
            lemma_entry_is_listed(index@[tag]@, 0);
            assert(times_listed(bucket_of(index@, tag), first.0) == references(
                posts@,
                first.0,
                tag,
            ));
        }
        assert forall|tag: u32|
            (exists|post: u32| references(posts@, post, tag) > 0) implies #[trigger] index@.contains_key(
            tag,
        ) by {
            let post = choose|post: u32| references(posts@, post, tag) > 0;
            assert(times_listed(bucket_of(index@, tag), post) == references(posts@, post, tag));
        }
        assert forall|tag: u32, post: u32| index@.contains_key(tag) implies #[trigger] times_listed(
            index@[tag]@,
            post,
        ) == references(posts@, post, tag) by {
            assert(times_listed(bucket_of(index@, tag), post) == references(posts@, post, tag));
        }
        lemma_index_lists_known_posts(posts@, index@);
    }
    index
}

/// A tag that no post of the table lists is no key of the table's index.
pub proof fn lemma_unreferenced_tag_is_absent(
    posts: Map<u32, Post>,
    index: Map<u32, Vec<PostId>>,
    tag: u32,
)
    requires
        is_index_of(posts, index),
        forall|post: u32| references(posts, post, tag) == 0,
    ensures
        !index.contains_key(tag),
{
}

} // verus!
