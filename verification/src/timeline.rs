//! Posts per calendar month, for each tag.

use crate::index::lists_known_posts;
use crate::model::{Post, PostId, Posts, TagId, TagPosts};
use crate::store::{table_get, table_insert, table_keys, table_new};
use rustc_hash::FxHashMap;
use crate::text::Text;
use vstd::prelude::*;

verus! {

/// The position of the first hyphen of `text` at or after `start`, or the
/// length of `text` where there is none.
pub open spec fn hyphen_from(text: Seq<char>, start: int) -> int
    decreases text.len() - start,
{
    if start >= text.len() {
        text.len() as int
    } else if text[start] == '-' {
        start
    } else {
        hyphen_from(text, start + 1)
    }
}

/// The position of the second hyphen of `text`, or its length where it has
/// fewer than two.
pub open spec fn month_len(text: Seq<char>) -> int {
    hyphen_from(text, hyphen_from(text, 0) + 1)
}

/// Whether `text` has two hyphens, and so a year and a month in front.
pub open spec fn has_month(text: Seq<char>) -> bool {
    month_len(text) < text.len()
}

/// The part of a timestamp in front of its second hyphen.
pub open spec fn month_of(text: Seq<char>) -> Seq<char> {
    text.take(month_len(text))
}

/// Finds the first hyphen at or after `start`.
pub fn find_hyphen(text: &Text, start: usize) -> (at: usize)
    requires
        text.wf(),
    ensures
        at == hyphen_from(text@, start as int),
{
    let len: usize = text.len();
    let mut at: usize = start;
    while at < len
        invariant
            text.wf(),
            len == text@.len(),
            start <= at,
            hyphen_from(text@, at as int) == hyphen_from(text@, start as int),
        decreases len - at,
    {
        if text.char_at(at) == '-' {
            return at;
        }
        at += 1;
    }
    len
}

/// Cuts a timestamp down to its year and month: the text in front of the
/// second hyphen. A text with fewer than two hyphens has no month.
pub fn truncate_timestamp_to_month(timestamp: &str) -> (month: Option<&str>)
    ensures
        match month {
            Some(month) => has_month(timestamp@) && month@ == month_of(timestamp@),
            None => !has_month(timestamp@),
        },
{
    let text = Text::new(timestamp);
    let len: usize = text.len();
    let first: usize = find_hyphen(&text, 0);
    if first >= len {
        return None;
    }
    let second: usize = find_hyphen(&text, first + 1);
    if second >= len {
        None
    } else {
        Some(text.slice(0, second))
    }
}

/// Whether `a` is before `b` in the order of texts, looking from position
/// `at` on: at the first position where they differ `a` has the lower
/// character, or `a` ends there and `b` does not.
pub open spec fn before_from(a: Seq<char>, b: Seq<char>, at: int) -> bool
    decreases a.len() - at,
{
    if at >= b.len() {
        false
    } else if at >= a.len() {
        true
    } else if a[at] != b[at] {
        (a[at] as u32) < (b[at] as u32)
    } else {
        before_from(a, b, at + 1)
    }
}

/// The order in which months are listed: character by character, by code
/// point, a prefix before its extensions.
pub open spec fn text_before(a: Seq<char>, b: Seq<char>) -> bool {
    before_from(a, b, 0)
}

/// No text is before itself.
pub proof fn lemma_before_irreflexive(a: Seq<char>, at: int)
    requires
        0 <= at,
    ensures
        !before_from(a, a, at),
    decreases a.len() - at,
{
    if at < a.len() {
        lemma_before_irreflexive(a, at + 1);
    }
}

/// The order of texts is transitive.
pub proof fn lemma_before_transitive(a: Seq<char>, b: Seq<char>, c: Seq<char>, at: int)
    requires
        0 <= at,
        before_from(a, b, at),
        before_from(b, c, at),
    ensures
        before_from(a, c, at),
    decreases a.len() - at,
{
    if at < a.len() && at < b.len() && at < c.len() && a[at] == b[at] && b[at] == c[at] {
        lemma_before_transitive(a, b, c, at + 1);
    }
}

/// How two texts stand to each other.
#[derive(Debug, Clone, Copy, PartialEq, Eq, Structural)]
pub enum Standing {
    Earlier,
    Same,
    Later,
}

/// Tells whether `a` is before `b`, equal to it, or after it.
pub fn compare_text(a: &str, b: &str) -> (standing: Standing)
    ensures
        match standing {
            Standing::Earlier => text_before(a@, b@),
            Standing::Same => a@ == b@,
            Standing::Later => text_before(b@, a@),
        },
{
    let a_text = Text::new(a);
    let b_text = Text::new(b);
    let a_len: usize = a_text.len();
    let b_len: usize = b_text.len();
    let mut at: usize = 0;
    while at < a_len && at < b_len
        invariant
            a_text.wf(),
            b_text.wf(),
            a_text@ == a@,
            b_text@ == b@,
            a_len == a@.len(),
            b_len == b@.len(),
            at <= a_len,
            at <= b_len,
            forall|k: int| 0 <= k < at ==> a@[k] == b@[k],
            text_before(a@, b@) == before_from(a@, b@, at as int),
            text_before(b@, a@) == before_from(b@, a@, at as int),
        decreases a_len - at,
    {
        let x: char = a_text.char_at(at);
        let y: char = b_text.char_at(at);
        if x != y {
            if (x as u32) < (y as u32) {
                return Standing::Earlier;
            } else {
                return Standing::Later;
            }
        }
        at += 1;
    }
    if a_len == b_len {
        proof {
            assert(a@ =~= b@);
        }
        Standing::Same
    } else if at == a_len {
        Standing::Earlier
    } else {
        Standing::Later
    }
}

/// How many entries of `bucket` are posts created in `month`.
pub open spec fn posts_in_month(posts: Map<u32, Post>, bucket: Seq<PostId>, month: Seq<char>) -> nat
    decreases bucket.len(),
{
    if bucket.len() == 0 {
        0
    } else {
        posts_in_month(posts, bucket.drop_last(), month) + if month_of(
            posts[bucket.last().0].created_at@,
        ) == month {
            1nat
        } else {
            0nat
        }
    }
}

/// Every post of the bucket has a timestamp with a month.
pub open spec fn all_dated(posts: Map<u32, Post>, bucket: Seq<PostId>) -> bool {
    forall|i: int| 0 <= i < bucket.len() ==> has_month(posts[(#[trigger] bucket[i]).0].created_at@)
}

/// `series` lists the months in which posts of the bucket were created, each
/// once and with the number of those posts, the earlier month first.
pub open spec fn is_timeline_of(
    posts: Map<u32, Post>,
    bucket: Seq<PostId>,
    series: Seq<(String, usize)>,
) -> bool {
    &&& forall|i: int, j: int|
        0 <= i < j < series.len() ==> text_before(
            (#[trigger] series[i]).0@,
            (#[trigger] series[j]).0@,
        )
    &&& forall|i: int|
        0 <= i < series.len() ==> (#[trigger] series[i]).1 > 0 && series[i].1 == posts_in_month(
            posts,
            bucket,
            series[i].0@,
        )
    &&& forall|month: Seq<char>| #[trigger]
        posts_in_month(posts, bucket, month) > 0 ==> exists|i: int|
            0 <= i < series.len() && (#[trigger] series[i]).0@ == month
}

/// Counts the posts of `tag` by the month of their creation and lists the
/// months in ascending order. Gives nothing where a post of the tag has a
/// timestamp with fewer than two hyphens.
pub fn posts_added_over_time_for_tag(posts: &Posts, tag_posts: &TagPosts, tag: TagId) -> (series:
    Option<Vec<(String, usize)>>)
    requires
        tag_posts@.contains_key(tag.0),
        forall|i: int|
            0 <= i < tag_posts@[tag.0]@.len() ==> posts@.contains_key(
                (#[trigger] tag_posts@[tag.0]@[i]).0,
            ),
    ensures
        series.is_some() <==> all_dated(posts@, tag_posts@[tag.0]@),
        series.is_some() ==> is_timeline_of(posts@, tag_posts@[tag.0]@, series.unwrap()@),
{
    let bucket = table_get(tag_posts, tag.0).unwrap();
    let mut series: Vec<(String, usize)> = Vec::new();
    let mut i: usize = 0;
    while i < bucket.len()
        invariant
            i <= bucket.len(),
            tag_posts@.contains_key(tag.0),
            *bucket == tag_posts@[tag.0],
            forall|k: int| 0 <= k < bucket@.len() ==> posts@.contains_key((#[trigger] bucket@[k]).0),
            all_dated(posts@, bucket@.take(i as int)),
            is_timeline_of(posts@, bucket@.take(i as int), series@),
            forall|q: int| 0 <= q < series@.len() ==> (#[trigger] series@[q]).1 <= i,
        decreases bucket.len() - i,
    {
        let post = table_get(posts, bucket[i].0).unwrap();
        let ghost shorter = bucket@.take(i as int);
        let ghost longer = bucket@.take(i as int + 1);
        proof {
            assert(longer.drop_last() =~= shorter);
            assert(longer.last() == bucket@[i as int]);
        }
        let month: &str = match truncate_timestamp_to_month(post.created_at.as_str()) {
            Some(month) => month,
            None => {
                proof {
                    assert(!has_month(posts@[bucket@[i as int].0].created_at@));
                }
                return None;
            },
        };
        proof {
            assert forall|k: int| 0 <= k < longer.len() implies has_month(
                posts@[(#[trigger] longer[k]).0].created_at@,
            ) by {
                if k < i {
                    assert(longer[k] == shorter[k]);
                }
            }
        }
        let ghost earlier = series@;
        let mut place: usize = 0;
        let mut found: bool = false;
        let mut passed: bool = false;
        while place < series.len() && !found && !passed
            invariant
                place <= series@.len(),
                series@ == earlier,
                !(found && passed),
                found ==> place < series@.len() && series@[place as int].0@ == month@,
                passed ==> place < series@.len() && text_before(
                    month@,
                    series@[place as int].0@,
                ),
                forall|q: int| 0 <= q < place ==> text_before((#[trigger] series@[q]).0@, month@),
            decreases series@.len() - place + if found || passed { 0int } else { 1int },
        {
            match compare_text(series[place].0.as_str(), month) {
                Standing::Earlier => {
                    place += 1;
                },
                Standing::Same => {
                    found = true;
                },
                Standing::Later => {
                    passed = true;
                },
            }
        }
        proof {
            lemma_before_irreflexive(month@, 0);
            assert forall|q: int| 0 <= q < earlier.len() && q != place implies (#[trigger] earlier[q]).0@
                != month@ by {
                if q > place {
                    if found {
                        assert(text_before(earlier[place as int].0@, earlier[q].0@));
                    } else {
                        assert(text_before(month@, earlier[place as int].0@));
                        lemma_before_transitive(month@, earlier[place as int].0@, earlier[q].0@, 0);
                    }
                }
            }
            assert forall|q: int| place < q < earlier.len() && !found implies text_before(
                month@,
                (#[trigger] earlier[q]).0@,
            ) by {
                lemma_before_transitive(month@, earlier[place as int].0@, earlier[q].0@, 0);
            }
        }
        if found {
            let entry = series.remove(place);
            series.insert(place, (entry.0, entry.1 + 1));
            proof {
                assert(series@.len() == earlier.len());
                assert forall|q: int| 0 <= q < series@.len() implies (#[trigger] series@[q]).0@
                    == earlier[q].0@ && series@[q].1 == earlier[q].1 + if q == place {
                    1int
                } else {
                    0int
                } by {}
            }
        } else {
            series.insert(place, (month.to_owned(), 1));
            proof {
                assert forall|q: int| 0 <= q < series@.len() implies (#[trigger] series@[q])
                    == if q < place {
                    earlier[q]
                } else if q == place {
                    series@[place as int]
                } else {
                    earlier[q - 1]
                } by {}
                assert(posts_in_month(posts@, shorter, month@) == 0) by {
                    if posts_in_month(posts@, shorter, month@) > 0 {
                        let q = choose|q: int|
                            0 <= q < earlier.len() && (#[trigger] earlier[q]).0@ == month@;
                        assert(false);
                    }
                }
            }
        }
        proof {
            assert forall|other: Seq<char>| #[trigger]
                posts_in_month(posts@, longer, other) > 0 implies exists|q: int|
                0 <= q < series@.len() && (#[trigger] series@[q]).0@ == other by {
                if other == month@ {
                    assert(series@[place as int].0@ == other);
                } else {
                    assert(posts_in_month(posts@, shorter, other) > 0);
                    let q = choose|q: int|
                        0 <= q < earlier.len() && (#[trigger] earlier[q]).0@ == other;
                    if found || q < place {
                        assert(series@[q].0@ == other);
                    } else {
                        assert(series@[q + 1].0@ == other);
                    }
                }
            }
        }
        i += 1;
    }
    proof {
        assert(bucket@.take(i as int) =~= bucket@);
    }
    Some(series)
}

/// Lists the posts per month for every tag of the index. Gives nothing where
/// a listed post has a timestamp with fewer than two hyphens. A tag that is
/// no key of the index gets no list, not an empty one.
pub fn posts_added_over_time_for_all_tags(posts: &Posts, tag_posts: &TagPosts) -> (timelines:
    Option<FxHashMap<u32, Vec<(String, usize)>>>)
    requires
        lists_known_posts(posts@, tag_posts@),
    ensures
        timelines.is_some() <==> forall|tag: u32| #[trigger]
            tag_posts@.contains_key(tag) ==> all_dated(posts@, tag_posts@[tag]@),
        timelines.is_some() ==> forall|tag: u32|
            timelines.unwrap()@.contains_key(tag) <==> tag_posts@.contains_key(tag),
        timelines.is_some() ==> forall|tag: u32| #[trigger]
            timelines.unwrap()@.contains_key(tag) ==> is_timeline_of(
                posts@,
                tag_posts@[tag]@,
                timelines.unwrap()@[tag]@,
            ),
{
    let keys = table_keys(tag_posts);
    let mut timelines: FxHashMap<u32, Vec<(String, usize)>> = table_new();
    let mut k: usize = 0;
    while k < keys.len()
        invariant
            k <= keys.len(),
            lists_known_posts(posts@, tag_posts@),
            forall|key: u32| keys@.contains(key) <==> tag_posts@.contains_key(key),
            forall|tag: u32|
                timelines@.contains_key(tag) <==> exists|at: int| 0 <= at < k && keys@[at] == tag,
            forall|tag: u32| #[trigger]
                timelines@.contains_key(tag) ==> all_dated(posts@, tag_posts@[tag]@)
                    && is_timeline_of(posts@, tag_posts@[tag]@, timelines@[tag]@),
        decreases keys.len() - k,
    {
        let key: u32 = keys[k];
        proof {
            assert(keys@.contains(key));
        }
        let series = match posts_added_over_time_for_tag(posts, tag_posts, TagId(key)) {
            Some(series) => series,
            None => {
                return None;
            },
        };
        let ghost before = timelines@;
        table_insert(&mut timelines, key, series);
        proof {
            assert forall|tag: u32| timelines@.contains_key(tag) <==> exists|at: int|
                0 <= at < k + 1 && keys@[at] == tag by {
                if tag == key {
                    assert(keys@[k as int] == tag);
                } else if before.contains_key(tag) {
                    let at = choose|at: int| 0 <= at < k && keys@[at] == tag;
                    assert(0 <= at < k + 1 && keys@[at] == tag);
                } else if exists|at: int| 0 <= at < k + 1 && keys@[at] == tag {
                    let at = choose|at: int| 0 <= at < k + 1 && keys@[at] == tag;
                    assert(0 <= at < k && keys@[at] == tag);
                }
            }
        }
        k += 1;
    }
    proof {
        assert forall|tag: u32| timelines@.contains_key(tag) <==> tag_posts@.contains_key(tag) by {
            if timelines@.contains_key(tag) {
                let at = choose|at: int| 0 <= at < k && keys@[at] == tag;
                assert(keys@.contains(tag));
            }
            if tag_posts@.contains_key(tag) {
                assert(keys@.contains(tag));
                let at = choose|at: int| 0 <= at < keys@.len() && keys@[at] == tag;
                assert(0 <= at < k && keys@[at] == tag);
            }
        }
    }
    Some(timelines)
}

/// Two timelines of one bucket agree on every position that both have.
proof fn lemma_timelines_agree(
    posts: Map<u32, Post>,
    bucket: Seq<PostId>,
    first: Seq<(String, usize)>,
    second: Seq<(String, usize)>,
    upto: int,
)
    requires
        is_timeline_of(posts, bucket, first),
        is_timeline_of(posts, bucket, second),
        0 <= upto <= first.len(),
    ensures
        forall|i: int|
            0 <= i < upto && i < second.len() ==> (#[trigger] first[i]).0@ == second[i].0@
                && first[i].1 == second[i].1,
    decreases upto,
{
    if upto > 0 {
        lemma_timelines_agree(posts, bucket, first, second, upto - 1);
        let i = upto - 1;
        if i < second.len() {
            let a = first[i].0@;
            let b = second[i].0@;
            lemma_before_irreflexive(a, 0);
            lemma_before_irreflexive(b, 0);
            assert(posts_in_month(posts, bucket, a) > 0);
            assert(posts_in_month(posts, bucket, b) > 0);
            let in_second = choose|at: int|
                0 <= at < second.len() && (#[trigger] second[at]).0@ == a;
            let in_first = choose|at: int| 0 <= at < first.len() && (#[trigger] first[at]).0@ == b;
            if in_second < i {
                assert(first[in_second].0@ == second[in_second].0@);
                assert(text_before(first[in_second].0@, first[i].0@));
            }
            if in_first < i {
                assert(first[in_first].0@ == second[in_first].0@);
                assert(text_before(second[in_first].0@, second[i].0@));
            }
            if in_second > i && in_first > i {
                assert(text_before(second[i].0@, second[in_second].0@));
                assert(text_before(first[i].0@, first[in_first].0@));
                lemma_before_transitive(a, b, a, 0);
            }
            if in_second > i && in_first == i {
                assert(text_before(second[i].0@, second[in_second].0@));
            }
            if in_first > i && in_second == i {
                assert(text_before(first[i].0@, first[in_first].0@));
            }
        }
    }
}

/// A bucket has one timeline: two that both list its months have the same
/// length and, position by position, the same month and the same count.
pub proof fn lemma_timeline_is_unique(
    posts: Map<u32, Post>,
    bucket: Seq<PostId>,
    first: Seq<(String, usize)>,
    second: Seq<(String, usize)>,
)
    requires
        is_timeline_of(posts, bucket, first),
        is_timeline_of(posts, bucket, second),
    ensures
        first.len() == second.len(),
        forall|i: int|
            0 <= i < first.len() ==> (#[trigger] first[i]).0@ == second[i].0@ && first[i].1
                == second[i].1,
{
    lemma_timelines_agree(posts, bucket, first, second, first.len() as int);
    lemma_timelines_agree(posts, bucket, second, first, second.len() as int);
    if first.len() < second.len() {
        let extra = second[first.len() as int].0@;
        lemma_before_irreflexive(extra, 0);
        assert(posts_in_month(posts, bucket, extra) > 0);
        let at = choose|at: int| 0 <= at < first.len() && (#[trigger] first[at]).0@ == extra;
        assert(first[at].0@ == second[at].0@);
        assert(text_before(second[at].0@, second[first.len() as int].0@));
    } else if second.len() < first.len() {
        let extra = first[second.len() as int].0@;
        lemma_before_irreflexive(extra, 0);
        assert(posts_in_month(posts, bucket, extra) > 0);
        let at = choose|at: int| 0 <= at < second.len() && (#[trigger] second[at]).0@ == extra;
        assert(second[at].0@ == first[at].0@);
        assert(text_before(first[at].0@, first[second.len() as int].0@));
    }
}

} // verus!
