//! Ranking of the tags that occur together with a given tag.

use crate::index::lists_known_posts;
use crate::model::{Post, PostId, Posts, TagId, TagPosts};
use crate::store::{table_get, table_insert, table_keys, table_new};
use rustc_hash::FxHashMap;
use vstd::prelude::*;

verus! {

/// How often the tag numbered `other` is listed in `tags`.
pub open spec fn occurrences(tags: Seq<TagId>, other: u32) -> nat
    decreases tags.len(),
{
    if tags.len() == 0 {
        0
    } else {
        occurrences(tags.drop_last(), other) + if tags.last().0 == other {
            1nat
        } else {
            0nat
        }
    }
}

/// How often the tag numbered `other` is listed on the posts of `bucket`,
/// each entry of the bucket counted on its own.
pub open spec fn cooccurrences(posts: Map<u32, Post>, bucket: Seq<PostId>, other: u32) -> nat
    decreases bucket.len(),
{
    if bucket.len() == 0 {
        0
    } else {
        cooccurrences(posts, bucket.drop_last(), other) + occurrences(
            posts[bucket.last().0].tags@,
            other,
        )
    }
}

/// The count table of `tag`: every other tag that is listed on a post of the
/// bucket, with the number of times it is.
pub open spec fn cooccurrence_table(posts: Map<u32, Post>, bucket: Seq<PostId>, tag: u32) -> Map<
    u32,
    usize,
> {
    Map::new(
        |other: u32| other != tag && cooccurrences(posts, bucket, other) > 0,
        |other: u32| cooccurrences(posts, bucket, other) as usize,
    )
}

/// The order of a ranking: the higher count first, and of two equal counts
/// the lower tag identifier.
pub open spec fn ranks_before(a: (TagId, usize), b: (TagId, usize)) -> bool {
    a.1 > b.1 || (a.1 == b.1 && a.0.0 < b.0.0)
}

/// `entry` is either listed in `ranking`, or the ranking is full and all of
/// it ranks before `entry`.
pub open spec fn accounted_for(ranking: Seq<(TagId, usize)>, n: usize, entry: (TagId, usize)) -> bool {
    ranking.contains(entry) || (ranking.len() == n && forall|i: int|
        0 <= i < ranking.len() ==> ranks_before(#[trigger] ranking[i], entry))
}

/// `ranking` holds the first `n` entries of `counts` in ranking order, or all
/// of them where there are fewer.
pub open spec fn is_top_of(counts: Map<u32, usize>, n: usize, ranking: Seq<(TagId, usize)>) -> bool {
    &&& ranking.len() <= n
    &&& forall|i: int, j: int|
        0 <= i < j < ranking.len() ==> ranks_before(#[trigger] ranking[i], #[trigger] ranking[j])
    &&& forall|i: int|
        0 <= i < ranking.len() ==> counts.contains_key((#[trigger] ranking[i]).0.0)
            && counts[ranking[i].0.0] == ranking[i].1
    &&& forall|other: u32| #[trigger]
        counts.contains_key(other) ==> accounted_for(ranking, n, (TagId(other), counts[other]))
}

/// Listing one more tag adds one occurrence of that tag and none of another.
pub proof fn lemma_occurrences_step(tags: Seq<TagId>, j: int, other: u32)
    requires
        0 <= j < tags.len(),
    ensures
        occurrences(tags.take(j + 1), other) == occurrences(tags.take(j), other) + if tags[j].0
            == other {
            1nat
        } else {
            0nat
        },
{
    assert(tags.take(j + 1).drop_last() =~= tags.take(j));
}

/// A prefix of a tag list holds no more occurrences than the whole list.
pub proof fn lemma_occurrences_prefix(tags: Seq<TagId>, j: int, other: u32)
    requires
        0 <= j <= tags.len(),
    ensures
        occurrences(tags.take(j), other) <= occurrences(tags, other),
    decreases tags.len(),
{
    if j == tags.len() {
        assert(tags.take(j) =~= tags);
    } else {
        assert(tags.drop_last().take(j) =~= tags.take(j));
        lemma_occurrences_prefix(tags.drop_last(), j, other);
    }
}

/// One more post in the bucket adds the occurrences on that post.
pub proof fn lemma_cooccurrences_step(posts: Map<u32, Post>, bucket: Seq<PostId>, i: int, other: u32)
    requires
        0 <= i < bucket.len(),
    ensures
        cooccurrences(posts, bucket.take(i + 1), other) == cooccurrences(
            posts,
            bucket.take(i),
            other,
        ) + occurrences(posts[bucket[i].0].tags@, other),
{
    assert(bucket.take(i + 1).drop_last() =~= bucket.take(i));
}

/// A prefix of a bucket holds no more occurrences than the whole bucket.
pub proof fn lemma_cooccurrences_prefix(
    posts: Map<u32, Post>,
    bucket: Seq<PostId>,
    i: int,
    other: u32,
)
    requires
        0 <= i <= bucket.len(),
    ensures
        cooccurrences(posts, bucket.take(i), other) <= cooccurrences(posts, bucket, other),
    decreases bucket.len(),
{
    if i == bucket.len() {
        assert(bucket.take(i) =~= bucket);
    } else {
        assert(bucket.drop_last().take(i) =~= bucket.take(i));
        lemma_cooccurrences_prefix(posts, bucket.drop_last(), i, other);
    }
}

/// Counts, for every tag but `tag`, how often it is listed on the posts of
/// `bucket`.
pub fn count_cooccurring_tags(posts: &Posts, bucket: &Vec<PostId>, tag: TagId) -> (counts:
    FxHashMap<u32, usize>)
    requires
        forall|i: int| 0 <= i < bucket@.len() ==> posts@.contains_key((#[trigger] bucket@[i]).0),
        forall|other: u32| cooccurrences(posts@, bucket@, other) <= usize::MAX,
    ensures
        counts@ =~= cooccurrence_table(posts@, bucket@, tag.0),
{
    let mut counts: FxHashMap<u32, usize> = table_new();
    let mut i: usize = 0;
    while i < bucket.len()
        invariant
            i <= bucket.len(),
            forall|k: int| 0 <= k < bucket@.len() ==> posts@.contains_key((#[trigger] bucket@[k]).0),
            forall|other: u32| cooccurrences(posts@, bucket@, other) <= usize::MAX,
            counts@ =~= cooccurrence_table(posts@, bucket@.take(i as int), tag.0),
        decreases bucket.len() - i,
    {
        let post_id: PostId = bucket[i];
        let post = table_get(posts, post_id.0).unwrap();
        let ghost before = bucket@.take(i as int);
        proof {
            assert forall|any: u32|
                cooccurrences(posts@, before, any) <= cooccurrences(posts@, bucket@, any) by {
                lemma_cooccurrences_prefix(posts@, bucket@, i as int, any);
            }
        }
        let mut j: usize = 0;
        while j < post.tags.len()
            invariant
                j <= post.tags.len(),
                i < bucket.len(),
                before == bucket@.take(i as int),
                posts@.contains_key(bucket@[i as int].0),
                *post == posts@[bucket@[i as int].0],
                forall|other: u32| cooccurrences(posts@, bucket@, other) <= usize::MAX,
                forall|other: u32| #[trigger]
                    counts@.contains_key(other) <==> other != tag.0 && cooccurrences(
                        posts@,
                        before,
                        other,
                    ) + occurrences(post.tags@.take(j as int), other) > 0,
                forall|other: u32| #[trigger]
                    counts@.contains_key(other) ==> counts@[other] == cooccurrences(
                        posts@,
                        before,
                        other,
                    ) + occurrences(post.tags@.take(j as int), other),
            decreases post.tags.len() - j,
        {
            let other: TagId = post.tags[j];
            proof {
                assert forall|any: u32|
                    occurrences(post.tags@.take(j as int + 1), any) == occurrences(
                        post.tags@.take(j as int),
                        any,
                    ) + if post.tags@[j as int].0 == any {
                        1nat
                    } else {
                        0nat
                    } by {
                    lemma_occurrences_step(post.tags@, j as int, any);
                }
                lemma_occurrences_prefix(post.tags@, j as int + 1, other.0);
                lemma_cooccurrences_step(posts@, bucket@, i as int, other.0);
                lemma_cooccurrences_prefix(posts@, bucket@, i as int + 1, other.0);
            }
            if other.0 != tag.0 {
                let seen: usize = match table_get(&counts, other.0) {
                    Some(count) => *count,
                    None => 0,
                };
                table_insert(&mut counts, other.0, seen + 1);
            }
            j += 1;
        }
        proof {
            assert(post.tags@.take(j as int) =~= post.tags@);
            assert forall|any: u32|
                cooccurrences(posts@, bucket@.take(i as int + 1), any) == cooccurrences(
                    posts@,
                    before,
                    any,
                ) + occurrences(post.tags@, any) by {
                lemma_cooccurrences_step(posts@, bucket@, i as int, any);
            }
        }
        i += 1;
    }
    proof {
        assert(bucket@.take(i as int) =~= bucket@);
    }
    counts
}

/// Whether `a` stands before `b` in a ranking.
pub fn stands_before(a: (TagId, usize), b: (TagId, usize)) -> (before: bool)
    ensures
        before == ranks_before(a, b),
{
    a.1 > b.1 || (a.1 == b.1 && a.0.0 < b.0.0)
}

/// Selects the first `n` entries of a count table in ranking order.
pub fn select_top_n(counts: &FxHashMap<u32, usize>, n: usize) -> (ranking: Vec<(TagId, usize)>)
    ensures
        is_top_of(counts@, n, ranking@),
{
    let keys = table_keys(counts);
    let mut ranking: Vec<(TagId, usize)> = Vec::new();
    let mut k: usize = 0;
    while k < keys.len()
        invariant
            k <= keys.len(),
            keys@.no_duplicates(),
            forall|key: u32| keys@.contains(key) <==> counts@.contains_key(key),
            ranking@.len() <= n,
            forall|i: int, j: int|
                0 <= i < j < ranking@.len() ==> ranks_before(
                    #[trigger] ranking@[i],
                    #[trigger] ranking@[j],
                ),
            forall|i: int|
                0 <= i < ranking@.len() ==> counts@.contains_key((#[trigger] ranking@[i]).0.0)
                    && counts@[ranking@[i].0.0] == ranking@[i].1,
            forall|i: int|
                0 <= i < ranking@.len() ==> exists|at: int|
                    0 <= at < k && keys@[at] == (#[trigger] ranking@[i]).0.0,
            forall|at: int|
                0 <= at < k ==> accounted_for(
                    ranking@,
                    n,
                    (TagId(#[trigger] keys@[at]), counts@[keys@[at]]),
                ),
        decreases keys.len() - k,
    {
        let key: u32 = keys[k];
        proof {
            assert(keys@.contains(key));
        }
        let count: usize = *table_get(counts, key).unwrap();
        let entry: (TagId, usize) = (TagId(key), count);
        let ghost earlier = ranking@;
        let mut place: usize = 0;
        while place < ranking.len() && stands_before(ranking[place], entry)
            invariant
                place <= ranking@.len(),
                ranking@ == earlier,
                forall|i: int| 0 <= i < place ==> ranks_before(#[trigger] ranking@[i], entry),
            decreases ranking@.len() - place,
        {
            place += 1;
        }
        proof {
            if place < ranking@.len() {
                let at = choose|at: int| 0 <= at < k && keys@[at] == ranking@[place as int].0.0;
                assert(keys@[at] != keys@[k as int]);
                assert(ranks_before(entry, ranking@[place as int]));
            }
        }
        if place < n {
            ranking.insert(place, entry);
            if ranking.len() > n {
                ranking.pop();
            }
            proof {
                let grown = earlier.insert(place as int, entry);
                assert forall|i: int, j: int| 0 <= i < j < grown.len() implies ranks_before(
                    #[trigger] grown[i],
                    #[trigger] grown[j],
                ) by {
                    if i < place {
                        assert(grown[i] == earlier[i]);
                    } else if i > place {
                        assert(grown[i] == earlier[i - 1]);
                    }
                    if j < place {
                        assert(grown[j] == earlier[j]);
                    } else if j > place {
                        assert(grown[j] == earlier[j - 1]);
                        assert(ranks_before(earlier[place as int], earlier[j - 1]) || j - 1
                            == place);
                    }
                }
                assert forall|i: int| 0 <= i < ranking@.len() implies exists|at: int|
                    0 <= at < k + 1 && keys@[at] == (#[trigger] ranking@[i]).0.0 by {
                    if i == place {
                        assert(keys@[k as int] == ranking@[i].0.0);
                    } else if i < place {
                        assert(ranking@[i] == earlier[i]);
                        let at = choose|at: int| 0 <= at < k && keys@[at] == earlier[i].0.0;
                        assert(keys@[at] == ranking@[i].0.0);
                    } else {
                        assert(ranking@[i] == earlier[i - 1]);
                        let at = choose|at: int| 0 <= at < k && keys@[at] == earlier[i - 1].0.0;
                        assert(keys@[at] == ranking@[i].0.0);
                    }
                }
                assert forall|at: int| 0 <= at < k + 1 implies accounted_for(
                    ranking@,
                    n,
                    (TagId(#[trigger] keys@[at]), counts@[keys@[at]]),
                ) by {
                    let other = (TagId(keys@[at]), counts@[keys@[at]]);
                    if at == k {
                        assert(other == entry);
                        assert(ranking@[place as int] == entry);
                    } else if earlier.contains(other) {
                        let from = choose|from: int| 0 <= from < earlier.len() && earlier[from]
                            == other;
                        let to = if from < place {
                            from
                        } else {
                            from + 1
                        };
                        assert(grown[to] == other);
                        if to < ranking@.len() {
                            assert(ranking@[to] == other);
                        } else {
                            assert(ranking@ == grown.drop_last());
                            assert forall|i: int| 0 <= i < ranking@.len() implies ranks_before(
                                #[trigger] ranking@[i],
                                other,
                            ) by {
                                assert(ranking@[i] == grown[i]);
                            }
                        }
                    } else {
                        assert(earlier.len() == n);
                        assert(ranking@ == grown.drop_last());
                        assert forall|i: int| 0 <= i < ranking@.len() implies ranks_before(
                            #[trigger] ranking@[i],
                            other,
                        ) by {
                            assert(ranking@[i] == grown[i]);
                            if i == place {
                                assert(ranks_before(earlier[place as int], other));
                            } else if i < place {
                                assert(grown[i] == earlier[i]);
                            } else {
                                assert(grown[i] == earlier[i - 1]);
                            }
                        }
                    }
                }
            }
        }
        k += 1;
    }
    proof {
        assert forall|other: u32| #[trigger] counts@.contains_key(other) implies accounted_for(
            ranking@,
            n,
            (TagId(other), counts@[other]),
        ) by {
            assert(keys@.contains(other));
            let at = choose|at: int| 0 <= at < keys@.len() && keys@[at] == other;
            assert(accounted_for(ranking@, n, (TagId(keys@[at]), counts@[keys@[at]])));
        }
    }
    ranking
}

/// `ranking` is the ranking of length at most `n` for the tag numbered
/// `tag`, whose posts are listed in `bucket`.
pub open spec fn is_top_ranking(
    posts: Map<u32, Post>,
    bucket: Seq<PostId>,
    tag: u32,
    n: usize,
    ranking: Seq<(TagId, usize)>,
) -> bool {
    is_top_of(cooccurrence_table(posts, bucket, tag), n, ranking)
}

/// Ranks the tags that occur on the posts of `tag` by how often they do, the
/// most frequent first and of two equally frequent ones the lower
/// identifier, and keeps the first `n`.
///
/// The tag must be a key of the index, the index must list known posts only,
/// and the counts must fit the machine's word.
pub fn rank_top_n_tags_for_tag(posts: &Posts, tag_posts: &TagPosts, tag: TagId, n: usize) -> (ranking:
    Vec<(TagId, usize)>)
    requires
        tag_posts@.contains_key(tag.0),
        forall|i: int|
            0 <= i < tag_posts@[tag.0]@.len() ==> posts@.contains_key(
                (#[trigger] tag_posts@[tag.0]@[i]).0,
            ),
        forall|other: u32| cooccurrences(posts@, tag_posts@[tag.0]@, other) <= usize::MAX,
    ensures
        is_top_ranking(posts@, tag_posts@[tag.0]@, tag.0, n, ranking@),
{
    let bucket = table_get(tag_posts, tag.0).unwrap();
    let counts = count_cooccurring_tags(posts, bucket, tag);
    select_top_n(&counts, n)
}

/// A count table has one ranking of a given length: two sequences that both
/// are its top `n` are equal, entry by entry.
pub proof fn lemma_top_is_unique(
    counts: Map<u32, usize>,
    n: usize,
    first: Seq<(TagId, usize)>,
    second: Seq<(TagId, usize)>,
)
    requires
        is_top_of(counts, n, first),
        is_top_of(counts, n, second),
    ensures
        first == second,
{
    lemma_top_agrees(counts, n, first, second, first.len() as int);
    lemma_top_agrees(counts, n, second, first, second.len() as int);
    if first.len() < second.len() {
        lemma_top_agrees(counts, n, second, first, first.len() as int);
        let extra = second[first.len() as int];
        assert(counts.contains_key(extra.0.0));
        assert(accounted_for(first, n, (TagId(extra.0.0), counts[extra.0.0])));
        assert(first.contains(extra));
        let at = choose|at: int| 0 <= at < first.len() && first[at] == extra;
        assert(ranks_before(second[at], second[first.len() as int]));
    } else if second.len() < first.len() {
        lemma_top_agrees(counts, n, first, second, second.len() as int);
        let extra = first[second.len() as int];
        assert(counts.contains_key(extra.0.0));
        assert(accounted_for(second, n, (TagId(extra.0.0), counts[extra.0.0])));
        assert(second.contains(extra));
        let at = choose|at: int| 0 <= at < second.len() && second[at] == extra;
        assert(ranks_before(first[at], first[second.len() as int]));
    } else {
        assert(first =~= second);
    }
}

/// Two top-`n` rankings of one table agree on every position that both have.
proof fn lemma_top_agrees(
    counts: Map<u32, usize>,
    n: usize,
    first: Seq<(TagId, usize)>,
    second: Seq<(TagId, usize)>,
    upto: int,
)
    requires
        is_top_of(counts, n, first),
        is_top_of(counts, n, second),
        0 <= upto <= first.len(),
    ensures
        forall|i: int| 0 <= i < upto && i < second.len() ==> first[i] == second[i],
    decreases upto,
{
    if upto > 0 {
        lemma_top_agrees(counts, n, first, second, upto - 1);
        let i = upto - 1;
        if i < second.len() {
            let a = first[i];
            let b = second[i];
            assert(counts.contains_key(a.0.0));
            assert(counts.contains_key(b.0.0));
            assert(accounted_for(second, n, (TagId(a.0.0), counts[a.0.0])));
            assert(accounted_for(first, n, (TagId(b.0.0), counts[b.0.0])));
            assert(a == (TagId(a.0.0), counts[a.0.0]));
            assert(b == (TagId(b.0.0), counts[b.0.0]));
            // `a` stands in `second` at `i` or later, or after all of it.
            if second.contains(a) {
                let at = choose|at: int| 0 <= at < second.len() && second[at] == a;
                if at < i {
                    assert(first[at] == second[at]);
                    assert(ranks_before(first[at], first[i]));
                }
                if at > i {
                    assert(ranks_before(second[i], second[at]));
                }
            } else {
                assert(ranks_before(second[i], a));
            }
            if first.contains(b) {
                let at = choose|at: int| 0 <= at < first.len() && first[at] == b;
                if at < i {
                    assert(first[at] == second[at]);
                    assert(ranks_before(second[at], second[i]));
                }
                if at > i {
                    assert(ranks_before(first[i], first[at]));
                }
            } else {
                assert(ranks_before(first[i], b));
            }
        }
    }
}

/// No count of co-occurrences under any tag of the index exceeds the
/// machine's word.
pub open spec fn counts_fit(posts: Map<u32, Post>, index: Map<u32, Vec<PostId>>) -> bool {
    forall|tag: u32, other: u32|
        index.contains_key(tag) ==> #[trigger] cooccurrences(posts, index[tag]@, other)
            <= usize::MAX
}

/// Ranks the co-occurring tags of every tag of the index. A tag that is no
/// key of the index gets no ranking, not an empty one.
pub fn rank_top_n_tags_for_all_tags(posts: &Posts, tag_posts: &TagPosts, n: usize) -> (rankings:
    FxHashMap<u32, Vec<(TagId, usize)>>)
    requires
        lists_known_posts(posts@, tag_posts@),
        counts_fit(posts@, tag_posts@),
    ensures
        forall|tag: u32| rankings@.contains_key(tag) <==> tag_posts@.contains_key(tag),
        forall|tag: u32| #[trigger]
            rankings@.contains_key(tag) ==> is_top_ranking(
                posts@,
                tag_posts@[tag]@,
                tag,
                n,
                rankings@[tag]@,
            ),
{
    let keys = table_keys(tag_posts);
    let mut rankings: FxHashMap<u32, Vec<(TagId, usize)>> = table_new();
    let mut k: usize = 0;
    while k < keys.len()
        invariant
            k <= keys.len(),
            lists_known_posts(posts@, tag_posts@),
            counts_fit(posts@, tag_posts@),
            forall|key: u32| keys@.contains(key) <==> tag_posts@.contains_key(key),
            forall|tag: u32|
                rankings@.contains_key(tag) <==> exists|at: int| 0 <= at < k && keys@[at] == tag,
            forall|tag: u32| #[trigger]
                rankings@.contains_key(tag) ==> is_top_ranking(
                    posts@,
                    tag_posts@[tag]@,
                    tag,
                    n,
                    rankings@[tag]@,
                ),
        decreases keys.len() - k,
    {
        let key: u32 = keys[k];
        proof {
            assert(keys@.contains(key));
        }
        let ranking = rank_top_n_tags_for_tag(posts, tag_posts, TagId(key), n);
        let ghost before = rankings@;
        table_insert(&mut rankings, key, ranking);
        proof {
            assert forall|tag: u32| rankings@.contains_key(tag) <==> exists|at: int|
                0 <= at < k + 1 && keys@[at] == tag by {
                if tag == key {
                    assert(keys@[k as int] == tag);
                } else if before.contains_key(tag) {
                    let at = choose|at: int| 0 <= at < k && keys@[at] == tag;
                    assert(0 <= at < k + 1 && keys@[at] == tag);
                } else if exists|at: int| 0 <= at < k + 1 && keys@[at] == tag {
                    let at = choose|at: int| 0 <= at < k + 1 && keys@[at] == tag;
                    assert(0 <= at < k && keys@[at] == tag);
                }
            }
        }
        k += 1;
    }
    proof {
        assert forall|tag: u32| rankings@.contains_key(tag) <==> tag_posts@.contains_key(tag) by {
            if rankings@.contains_key(tag) {
                let at = choose|at: int| 0 <= at < k && keys@[at] == tag;
                assert(keys@.contains(tag));
            }
            if tag_posts@.contains_key(tag) {
                assert(keys@.contains(tag));
                let at = choose|at: int| 0 <= at < keys@.len() && keys@[at] == tag;
                assert(0 <= at < k && keys@[at] == tag);
            }
        }
    }
    rankings
}

/// The number of tags listed on the posts of `bucket`, each entry of the
/// bucket counted on its own.
pub open spec fn listed_tags(posts: Map<u32, Post>, bucket: Seq<PostId>) -> nat
    decreases bucket.len(),
{
    if bucket.len() == 0 {
        0
    } else {
        listed_tags(posts, bucket.drop_last()) + posts[bucket.last().0].tags@.len()
    }
}

/// Under no tag of the index do the posts list more tags than the machine's
/// word can count.
pub open spec fn listings_fit(posts: Map<u32, Post>, index: Map<u32, Vec<PostId>>) -> bool {
    forall|tag: u32| #[trigger]
        index.contains_key(tag) ==> listed_tags(posts, index[tag]@) <= usize::MAX
}

/// A tag occurs in a list at most as often as the list is long.
pub proof fn lemma_occurrences_bounded(tags: Seq<TagId>, other: u32)
    ensures
        occurrences(tags, other) <= tags.len(),
    decreases tags.len(),
{
    if tags.len() > 0 {
        lemma_occurrences_bounded(tags.drop_last(), other);
    }
}

/// No tag co-occurs more often than tags are listed.
pub proof fn lemma_cooccurrences_bounded(posts: Map<u32, Post>, bucket: Seq<PostId>, other: u32)
    ensures
        cooccurrences(posts, bucket, other) <= listed_tags(posts, bucket),
    decreases bucket.len(),
{
    if bucket.len() > 0 {
        lemma_cooccurrences_bounded(posts, bucket.drop_last(), other);
        lemma_occurrences_bounded(posts[bucket.last().0].tags@, other);
    }
}

/// A prefix of a bucket lists no more tags than the whole bucket.
pub proof fn lemma_listed_tags_prefix(posts: Map<u32, Post>, bucket: Seq<PostId>, i: int)
    requires
        0 <= i <= bucket.len(),
    ensures
        listed_tags(posts, bucket.take(i)) <= listed_tags(posts, bucket),
    decreases bucket.len(),
{
    if i == bucket.len() {
        assert(bucket.take(i) =~= bucket);
    } else {
        assert(bucket.drop_last().take(i) =~= bucket.take(i));
        lemma_listed_tags_prefix(posts, bucket.drop_last(), i);
    }
}

/// Where the listings fit, the counts do.
pub proof fn lemma_listings_bound_counts(posts: Map<u32, Post>, index: Map<u32, Vec<PostId>>)
    requires
        listings_fit(posts, index),
    ensures
        counts_fit(posts, index),
{
    assert forall|tag: u32, other: u32| index.contains_key(tag) implies #[trigger] cooccurrences(
        posts,
        index[tag]@,
        other,
    ) <= usize::MAX by {
        lemma_cooccurrences_bounded(posts, index[tag]@, other);
    }
}

/// Tells whether the tags listed on the posts of `bucket` can be counted in
/// a machine word.
pub fn bucket_listings_fit(posts: &Posts, bucket: &Vec<PostId>) -> (fit: bool)
    requires
        forall|i: int| 0 <= i < bucket@.len() ==> posts@.contains_key((#[trigger] bucket@[i]).0),
    ensures
        fit == (listed_tags(posts@, bucket@) <= usize::MAX),
{
    let mut listed: usize = 0;
    let mut i: usize = 0;
    while i < bucket.len()
        invariant
            i <= bucket.len(),
            forall|k: int| 0 <= k < bucket@.len() ==> posts@.contains_key((#[trigger] bucket@[k]).0),
            listed == listed_tags(posts@, bucket@.take(i as int)),
        decreases bucket.len() - i,
    {
        let post = table_get(posts, bucket[i].0).unwrap();
        proof {
            assert(bucket@.take(i as int + 1).drop_last() =~= bucket@.take(i as int));
            lemma_listed_tags_prefix(posts@, bucket@, i as int + 1);
        }
        if post.tags.len() > usize::MAX - listed {
            return false;
        }
        listed = listed + post.tags.len();
        i += 1;
    }
    proof {
        assert(bucket@.take(i as int) =~= bucket@);
    }
    true
}

/// Ranks the co-occurring tags of every tag of the index, after making sure
/// that the counts fit the machine's word. Gives nothing where under some
/// tag more tags are listed than a word can count.
pub fn rank_top_n_tags_where_countable(posts: &Posts, tag_posts: &TagPosts, n: usize) -> (rankings:
    Option<FxHashMap<u32, Vec<(TagId, usize)>>>)
    requires
        lists_known_posts(posts@, tag_posts@),
    ensures
        rankings.is_some() <==> listings_fit(posts@, tag_posts@),
        rankings.is_some() ==> forall|tag: u32|
            rankings.unwrap()@.contains_key(tag) <==> tag_posts@.contains_key(tag),
        rankings.is_some() ==> forall|tag: u32| #[trigger]
            rankings.unwrap()@.contains_key(tag) ==> is_top_ranking(
                posts@,
                tag_posts@[tag]@,
                tag,
                n,
                rankings.unwrap()@[tag]@,
            ),
{
    let keys = table_keys(tag_posts);
    let mut k: usize = 0;
    while k < keys.len()
        invariant
            k <= keys.len(),
            lists_known_posts(posts@, tag_posts@),
            forall|key: u32| keys@.contains(key) <==> tag_posts@.contains_key(key),
            forall|at: int|
                0 <= at < k ==> listed_tags(posts@, tag_posts@[#[trigger] keys@[at]]@)
                    <= usize::MAX,
        decreases keys.len() - k,
    {
        let key: u32 = keys[k];
        proof {
            assert(keys@.contains(key));
        }
        let bucket = table_get(tag_posts, key).unwrap();
        if !bucket_listings_fit(posts, bucket) {
            return None;
        }
        k += 1;
    }
    proof {
        assert forall|tag: u32| #[trigger] tag_posts@.contains_key(tag) implies listed_tags(
            posts@,
            tag_posts@[tag]@,
        ) <= usize::MAX by {
            assert(keys@.contains(tag));
            let at = choose|at: int| 0 <= at < keys@.len() && keys@[at] == tag;
            assert(listed_tags(posts@, tag_posts@[keys@[at]]@) <= usize::MAX);
        }
        lemma_listings_bound_counts(posts@, tag_posts@);
    }
    Some(rank_top_n_tags_for_all_tags(posts, tag_posts, n))
}

} // verus!
