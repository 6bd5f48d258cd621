use rustc_hash::FxHashMap;
use tag_stats::index::create_tag_posts;
use tag_stats::ingest::{
    all_complete, create_tag_names_to_ids, normalize_post, normalize_tag, parse_posts, parse_tags,
    resolve_tag_names, to_unsigned,
};
use tag_stats::model::{Post, PostId, Posts, RawPost, RawTag, TagId, TagNamesToIds, TagPosts};
use tag_stats::ranking::{
    bucket_listings_fit, count_cooccurring_tags, rank_top_n_tags_for_all_tags,
    rank_top_n_tags_for_tag, rank_top_n_tags_where_countable, select_top_n, stands_before,
};
use tag_stats::score::{post_score_total_for_tag, post_score_totals_for_all_tags, ScoreTotal};
use tag_stats::text::Text;
use tag_stats::timeline::{
    compare_text, find_hyphen, posts_added_over_time_for_all_tags, posts_added_over_time_for_tag,
    truncate_timestamp_to_month, Standing,
};

fn raw_tag(id: u32, name: &str, post_count: u32) -> RawTag {
    RawTag { id, name: name.to_string(), category: 0, post_count }
}

fn raw_post(id: Option<u32>, tag_string: &str, score: i32, created_at: &str) -> RawPost {
    RawPost {
        id,
        tag_string: tag_string.to_string(),
        score,
        up_score: 0,
        down_score: 0,
        rating: "s".to_string(),
        created_at: created_at.to_string(),
    }
}

fn post(id: u32, tags: &[u32], score: i32, created_at: &str) -> Post {
    Post {
        id: PostId(id),
        tags: tags.iter().map(|&t| TagId(t)).collect(),
        score,
        up_score: 0,
        down_score: 0,
        rating: 's',
        created_at: created_at.to_string(),
    }
}

fn table(posts: Vec<Post>) -> Posts {
    let mut out: Posts = FxHashMap::default();
    for p in posts {
        out.insert(p.id.0, p);
    }
    out
}

fn names(entries: &[(&str, u32)]) -> TagNamesToIds {
    let mut out: TagNamesToIds = FxHashMap::default();
    for (name, id) in entries {
        out.insert(name.to_string(), TagId(*id));
    }
    out
}

// The tag 1 occurs with 10 five times, with 20 five times and with 30 three times.
fn ranked_scenario() -> Posts {
    table(vec![
        post(100, &[1, 10, 20, 30], 0, "2023-07-01"),
        post(101, &[1, 20, 10, 30], 0, "2023-07-02"),
        post(102, &[30, 1, 10, 20], 0, "2023-07-03"),
        post(103, &[1, 20, 10], 0, "2023-08-01"),
        post(104, &[10, 20, 1], 0, "2023-08-02"),
        post(105, &[40], 0, "2023-09-01"),
    ])
}

fn sorted(mut ids: Vec<PostId>) -> Vec<u32> {
    ids.sort();
    ids.into_iter().map(|p| p.0).collect()
}

#[test]
fn tags_with_no_posts_are_dropped() {
    let records = vec![raw_tag(1, "cat", 4), raw_tag(2, "dog", 0), raw_tag(3, "owl", 1)];
    let tags = parse_tags(&records);
    assert_eq!(tags.len(), 2);
    assert!(tags.contains_key(&1));
    assert!(!tags.contains_key(&2));
    assert!(tags.contains_key(&3));
    assert_eq!(tags[&1].name, "cat");
    assert_eq!(tags[&1].id, TagId(1));
    assert_eq!(tags[&1].post_count, 4);
    let index = create_tag_names_to_ids(&tags);
    assert_eq!(index.len(), 2);
    assert_eq!(index.get("cat"), Some(&TagId(1)));
    assert_eq!(index.get("dog"), None);
    assert_eq!(index.get("owl"), Some(&TagId(3)));
}

#[test]
fn normalize_tag_keeps_the_fields() {
    let raw = RawTag { id: 7, name: "fox".to_string(), category: 3, post_count: 9 };
    let tag = normalize_tag(&raw).unwrap();
    assert_eq!(tag.id, TagId(7));
    assert_eq!(tag.name, "fox");
    assert_eq!(tag.category, 3);
    assert_eq!(tag.post_count, 9);
    assert!(normalize_tag(&raw_tag(7, "fox", 0)).is_none());
}

#[test]
fn later_tag_record_replaces_earlier() {
    let records = vec![raw_tag(1, "old", 4), raw_tag(1, "new", 6), raw_tag(1, "gone", 0)];
    let tags = parse_tags(&records);
    assert_eq!(tags.len(), 1);
    assert_eq!(tags[&1].name, "new");
    assert_eq!(tags[&1].post_count, 6);
}

#[test]
fn unknown_names_are_left_out() {
    let index = names(&[("a", 1), ("c", 3)]);
    assert_eq!(resolve_tag_names("a b c", &index), vec![TagId(1), TagId(3)]);
}

#[test]
fn repeated_names_are_kept() {
    let index = names(&[("a", 1), ("c", 3)]);
    assert_eq!(resolve_tag_names("c a c c", &index), vec![TagId(3), TagId(1), TagId(3), TagId(3)]);
}

#[test]
fn names_are_split_at_every_separator() {
    let index = names(&[("a", 1), ("b", 2), ("c", 3), ("d", 4), ("e", 5), ("a\u{b}b", 6)]);
    assert_eq!(
        resolve_tag_names("  a\tb\nc\u{c}d\re  ", &index),
        vec![TagId(1), TagId(2), TagId(3), TagId(4), TagId(5)]
    );
    // A vertical tab and a no-break space separate nothing.
    assert_eq!(resolve_tag_names("a\u{b}b", &index), vec![TagId(6)]);
    assert_eq!(resolve_tag_names("a\u{a0}b", &index), Vec::<TagId>::new());
}

#[test]
fn empty_tag_string_gives_no_tags() {
    let index = names(&[("a", 1), ("", 9)]);
    assert_eq!(resolve_tag_names("", &index), Vec::<TagId>::new());
    assert_eq!(resolve_tag_names(" \t ", &index), Vec::<TagId>::new());
    assert_eq!(resolve_tag_names("a", &index), vec![TagId(1)]);
}

#[test]
fn names_beyond_ascii_resolve() {
    let index = names(&[("猫", 1), ("é", 2)]);
    assert_eq!(resolve_tag_names("é 猫 x", &index), vec![TagId(2), TagId(1)]);
}

#[test]
fn post_without_identifier_is_dropped() {
    let index = names(&[("a", 1)]);
    assert!(normalize_post(&raw_post(None, "a", 1, "2023-07-15"), &index).is_none());
}

#[test]
fn post_fields_are_normalized() {
    let index = names(&[("a", 1), ("c", 3)]);
    let raw = RawPost {
        id: Some(42),
        tag_string: "a b c".to_string(),
        score: -7,
        up_score: 12,
        down_score: -5,
        rating: "safe".to_string(),
        created_at: "2023-07-15T00:00:00".to_string(),
    };
    let post = normalize_post(&raw, &index).unwrap();
    assert_eq!(post.id, PostId(42));
    assert_eq!(post.tags, vec![TagId(1), TagId(3)]);
    assert_eq!(post.score, -7);
    assert_eq!(post.up_score, 12);
    assert_eq!(post.down_score, 5);
    assert_eq!(post.rating, 's');
    assert_eq!(post.created_at, "2023-07-15T00:00:00");
}

#[test]
fn scores_become_unsigned() {
    assert_eq!(to_unsigned(0), 0);
    assert_eq!(to_unsigned(5), 5);
    assert_eq!(to_unsigned(2147483648), 2147483648);
    assert_eq!(to_unsigned(-1), 4294967295);
    assert_eq!(to_unsigned(-5), 4294967291);
}

#[test]
fn posts_are_keyed_by_identifier() {
    let index = names(&[("a", 1), ("b", 2)]);
    let records = vec![
        raw_post(Some(5), "a b", 3, "2023-07-15"),
        raw_post(None, "a", 9, "2023-07-15"),
        raw_post(Some(6), "zzz", 4, "2023-07-16"),
        raw_post(Some(5), "b", 8, "2023-07-17"),
    ];
    let posts = parse_posts(&records, &index);
    assert_eq!(posts.len(), 2);
    assert_eq!(posts[&5].tags, vec![TagId(2)]);
    assert_eq!(posts[&5].score, 8);
    assert_eq!(posts[&6].tags, Vec::<TagId>::new());
    assert_eq!(posts[&6].id, PostId(6));
}

#[test]
fn index_lists_each_occurrence() {
    let posts = table(vec![
        post(1, &[10, 20], 0, "2023-07-01"),
        post(2, &[20, 20], 0, "2023-07-01"),
        post(3, &[], 0, "2023-07-01"),
    ]);
    let index = create_tag_posts(&posts);
    assert_eq!(index.len(), 2);
    assert_eq!(sorted(index[&10].clone()), vec![1]);
    assert_eq!(sorted(index[&20].clone()), vec![1, 2, 2]);
}

#[test]
fn unreferenced_tag_is_no_key() {
    let tags = parse_tags(&vec![raw_tag(1, "a", 3), raw_tag(2, "b", 3)]);
    let index = create_tag_names_to_ids(&tags);
    let posts = parse_posts(&vec![raw_post(Some(1), "a", 5, "2023-07-15")], &index);
    let tag_posts = create_tag_posts(&posts);
    assert!(tags.contains_key(&2));
    assert!(tag_posts.contains_key(&1));
    assert!(!tag_posts.contains_key(&2));
    assert!(!rank_top_n_tags_for_all_tags(&posts, &tag_posts, 10).contains_key(&2));
    assert!(!post_score_totals_for_all_tags(&posts, &tag_posts, 0).contains_key(&2));
    assert!(!posts_added_over_time_for_all_tags(&posts, &tag_posts).unwrap().contains_key(&2));
}

#[test]
fn ranking_breaks_ties_by_identifier() {
    let posts = ranked_scenario();
    let tag_posts = create_tag_posts(&posts);
    let expected = vec![(TagId(10), 5), (TagId(20), 5), (TagId(30), 3)];
    assert_eq!(rank_top_n_tags_for_tag(&posts, &tag_posts, TagId(1), 3), expected);
    assert_eq!(rank_top_n_tags_for_tag(&posts, &tag_posts, TagId(1), 50), expected);
    assert_eq!(rank_top_n_tags_for_tag(&posts, &tag_posts, TagId(1), usize::MAX), expected);
}

#[test]
fn ranking_is_cut_to_n() {
    let posts = ranked_scenario();
    let tag_posts = create_tag_posts(&posts);
    assert_eq!(
        rank_top_n_tags_for_tag(&posts, &tag_posts, TagId(1), 2),
        vec![(TagId(10), 5), (TagId(20), 5)]
    );
    assert_eq!(rank_top_n_tags_for_tag(&posts, &tag_posts, TagId(1), 1), vec![(TagId(10), 5)]);
    assert_eq!(rank_top_n_tags_for_tag(&posts, &tag_posts, TagId(1), 0), vec![]);
}

#[test]
fn ranking_of_a_lone_tag_is_empty() {
    let posts = ranked_scenario();
    let tag_posts = create_tag_posts(&posts);
    assert_eq!(rank_top_n_tags_for_tag(&posts, &tag_posts, TagId(40), 5), vec![]);
}

#[test]
fn ranking_counts_repeated_tags() {
    let posts = table(vec![post(1, &[7, 8, 8, 7], 0, "2023-07-01")]);
    let tag_posts = create_tag_posts(&posts);
    // The post is listed twice under 7, and lists 8 twice.
    assert_eq!(rank_top_n_tags_for_tag(&posts, &tag_posts, TagId(7), 5), vec![(TagId(8), 4)]);
}

#[test]
fn ranking_for_all_tags_covers_the_index() {
    let posts = ranked_scenario();
    let tag_posts = create_tag_posts(&posts);
    let rankings = rank_top_n_tags_for_all_tags(&posts, &tag_posts, 2);
    assert_eq!(rankings.len(), 5);
    assert_eq!(rankings[&1], vec![(TagId(10), 5), (TagId(20), 5)]);
    assert_eq!(rankings[&30], vec![(TagId(1), 3), (TagId(10), 3)]);
    assert_eq!(rankings[&40], vec![]);
}

#[test]
fn count_table_leaves_the_tag_out() {
    let posts = ranked_scenario();
    let bucket = vec![PostId(100), PostId(103)];
    let counts = count_cooccurring_tags(&posts, &bucket, TagId(1));
    assert_eq!(counts.len(), 3);
    assert_eq!(counts[&10], 2);
    assert_eq!(counts[&20], 2);
    assert_eq!(counts[&30], 1);
}

#[test]
fn selection_orders_a_count_table() {
    let mut counts: FxHashMap<u32, usize> = FxHashMap::default();
    for (id, count) in [(9u32, 1usize), (4, 7), (2, 7), (8, 3), (1, 2)] {
        counts.insert(id, count);
    }
    assert_eq!(
        select_top_n(&counts, 4),
        vec![(TagId(2), 7), (TagId(4), 7), (TagId(8), 3), (TagId(1), 2)]
    );
    assert!(stands_before((TagId(2), 7), (TagId(4), 7)));
    assert!(stands_before((TagId(9), 8), (TagId(4), 7)));
    assert!(!stands_before((TagId(4), 7), (TagId(4), 7)));
    assert!(!stands_before((TagId(1), 2), (TagId(8), 3)));
}

#[test]
fn score_total_is_exact() {
    let posts =
        table(vec![post(1, &[5], 10, "2023-07-01"), post(2, &[5], -3, "2023-07-01"), post(3, &[5], 2, "2023-07-01")]);
    let tag_posts = create_tag_posts(&posts);
    let total = post_score_total_for_tag(&posts, &tag_posts, TagId(5));
    assert_eq!(total, ScoreTotal { sum: 9, posts: 3 });
    assert_eq!(total.sum as f64 / total.posts as f64, 3.0);
}

#[test]
fn score_total_does_not_overflow() {
    let posts = table(vec![
        post(1, &[5], i32::MAX, "2023-07-01"),
        post(2, &[5], i32::MAX, "2023-07-01"),
        post(3, &[6], i32::MIN, "2023-07-01"),
        post(4, &[6], i32::MIN, "2023-07-01"),
    ]);
    let tag_posts = create_tag_posts(&posts);
    assert_eq!(post_score_total_for_tag(&posts, &tag_posts, TagId(5)).sum, 4294967294);
    assert_eq!(post_score_total_for_tag(&posts, &tag_posts, TagId(6)).sum, -4294967296);
}

#[test]
fn score_is_gated_by_sample_size() {
    // Tag 5 has three posts, tag 6 has two.
    let posts = table(vec![
        post(1, &[5, 6], 4, "2023-07-01"),
        post(2, &[5, 6], 5, "2023-07-01"),
        post(3, &[5], 9, "2023-07-01"),
    ]);
    let tag_posts = create_tag_posts(&posts);
    let totals = post_score_totals_for_all_tags(&posts, &tag_posts, 3);
    assert_eq!(totals.len(), 1);
    assert!(!totals.contains_key(&6));
    assert_eq!(totals[&5], ScoreTotal { sum: 18, posts: 3 });
    assert_eq!(totals[&5].sum as f64 / totals[&5].posts as f64, 6.0);
    let totals = post_score_totals_for_all_tags(&posts, &tag_posts, 2);
    assert_eq!(totals.len(), 2);
    assert_eq!(totals[&6].sum as f64 / totals[&6].posts as f64, 4.5);
    assert_eq!(post_score_totals_for_all_tags(&posts, &tag_posts, 4).len(), 0);
}

#[test]
fn score_with_no_minimum_skips_empty_buckets() {
    let posts = table(vec![post(1, &[5], 4, "2023-07-01")]);
    let mut tag_posts: TagPosts = create_tag_posts(&posts);
    tag_posts.insert(6, Vec::new());
    let totals = post_score_totals_for_all_tags(&posts, &tag_posts, 0);
    assert_eq!(totals.len(), 1);
    assert_eq!(totals[&5], ScoreTotal { sum: 4, posts: 1 });
}

#[test]
fn timestamp_is_cut_at_second_hyphen() {
    assert_eq!(truncate_timestamp_to_month("2023-07-15T00:00:00"), Some("2023-07"));
    assert_eq!(truncate_timestamp_to_month("2023-07-"), Some("2023-07"));
    assert_eq!(truncate_timestamp_to_month("--"), Some("-"));
    assert_eq!(truncate_timestamp_to_month("a-b-c-d"), Some("a-b"));
    assert_eq!(truncate_timestamp_to_month("é-ü-x"), Some("é-ü"));
}

#[test]
fn timestamp_without_two_hyphens_has_no_month() {
    assert_eq!(truncate_timestamp_to_month("2023-07"), None);
    assert_eq!(truncate_timestamp_to_month("20230715"), None);
    assert_eq!(truncate_timestamp_to_month(""), None);
    assert_eq!(truncate_timestamp_to_month("-"), None);
}

#[test]
fn hyphens_are_found_from_a_position() {
    let text = Text::new("2023-07-15");
    assert_eq!(find_hyphen(&text, 0), 4);
    assert_eq!(find_hyphen(&text, 4), 4);
    assert_eq!(find_hyphen(&text, 5), 7);
    assert_eq!(find_hyphen(&text, 8), 10);
    assert_eq!(find_hyphen(&text, 11), 10);
    let text = Text::new("é-ü-x");
    assert_eq!(find_hyphen(&text, 0), 1);
    assert_eq!(find_hyphen(&text, 2), 3);
    assert_eq!(find_hyphen(&text, 4), 5);
}

#[test]
fn text_is_read_by_character() {
    let plain = Text::new("a-b c");
    assert_eq!(plain.len(), 5);
    assert_eq!(plain.char_at(0), 'a');
    assert_eq!(plain.char_at(3), ' ');
    assert_eq!(plain.slice(2, 5), "b c");
    assert_eq!(plain.slice(1, 1), "");
    let wide = Text::new("é猫-b");
    assert_eq!(wide.len(), 4);
    assert_eq!(wide.char_at(1), '猫');
    assert_eq!(wide.char_at(3), 'b');
    assert_eq!(wide.slice(1, 3), "猫-");
    assert_eq!(wide.slice(0, 4), "é猫-b");
}

#[test]
fn texts_are_ordered_by_character() {
    assert_eq!(compare_text("2023-07", "2023-08"), Standing::Earlier);
    assert_eq!(compare_text("2023-08", "2023-07"), Standing::Later);
    assert_eq!(compare_text("2023-07", "2023-07"), Standing::Same);
    assert_eq!(compare_text("2023", "2023-07"), Standing::Earlier);
    assert_eq!(compare_text("2023-07", ""), Standing::Later);
    assert_eq!(compare_text("", ""), Standing::Same);
    assert_eq!(compare_text("z", "é"), Standing::Earlier);
}

#[test]
fn months_are_counted_in_order() {
    let posts = table(vec![
        post(1, &[5], 0, "2023-08-02T10:00:00"),
        post(2, &[5], 0, "2023-07-15T00:00:00"),
        post(3, &[5], 0, "2023-07-30T00:00:00"),
    ]);
    let tag_posts = create_tag_posts(&posts);
    assert_eq!(
        posts_added_over_time_for_tag(&posts, &tag_posts, TagId(5)),
        Some(vec![("2023-07".to_string(), 2), ("2023-08".to_string(), 1)])
    );
}

#[test]
fn months_of_many_years_are_counted() {
    let posts = table(vec![
        post(1, &[5], 0, "2024-01-02"),
        post(2, &[5], 0, "2022-12-15"),
        post(3, &[5], 0, "2023-07-30"),
        post(4, &[5], 0, "2022-12-01"),
        post(5, &[5], 0, "2024-01-09"),
        post(6, &[5], 0, "2022-12-31"),
        post(7, &[5], 0, "2021-03-31"),
    ]);
    let tag_posts = create_tag_posts(&posts);
    assert_eq!(
        posts_added_over_time_for_tag(&posts, &tag_posts, TagId(5)),
        Some(vec![
            ("2021-03".to_string(), 1),
            ("2022-12".to_string(), 3),
            ("2023-07".to_string(), 1),
            ("2024-01".to_string(), 2)
        ])
    );
}

#[test]
fn undated_post_gives_no_timeline() {
    let posts = table(vec![post(1, &[5], 0, "2023-08-02"), post(2, &[5, 6], 0, "2023/07/15")]);
    let tag_posts = create_tag_posts(&posts);
    assert_eq!(posts_added_over_time_for_tag(&posts, &tag_posts, TagId(5)), None);
    assert!(posts_added_over_time_for_all_tags(&posts, &tag_posts).is_none());
}

#[test]
fn timelines_cover_the_index() {
    let posts = ranked_scenario();
    let tag_posts = create_tag_posts(&posts);
    let timelines = posts_added_over_time_for_all_tags(&posts, &tag_posts).unwrap();
    assert_eq!(timelines.len(), 5);
    assert_eq!(timelines[&1], vec![("2023-07".to_string(), 3), ("2023-08".to_string(), 2)]);
    assert_eq!(timelines[&30], vec![("2023-07".to_string(), 3)]);
    assert_eq!(timelines[&40], vec![("2023-09".to_string(), 1)]);
}

#[test]
fn two_runs_give_the_same_sequences() {
    let tag_records = vec![raw_tag(1, "a", 3), raw_tag(2, "b", 3), raw_tag(3, "c", 1), raw_tag(4, "d", 0)];
    let post_records = vec![
        raw_post(Some(1), "a b c", 5, "2023-07-15T00:00:00"),
        raw_post(Some(2), "b a d", 1, "2023-07-20T00:00:00"),
        raw_post(Some(3), "a", -2, "2023-08-01T00:00:00"),
        raw_post(Some(4), "b c a", 7, "2023-06-01T00:00:00"),
    ];
    let mut runs = Vec::new();
    for _ in 0..2 {
        let tags = parse_tags(&tag_records);
        let index = create_tag_names_to_ids(&tags);
        let posts = parse_posts(&post_records, &index);
        let tag_posts = create_tag_posts(&posts);
        let rankings = rank_top_n_tags_for_all_tags(&posts, &tag_posts, 50);
        let totals = post_score_totals_for_all_tags(&posts, &tag_posts, 1);
        let timelines = posts_added_over_time_for_all_tags(&posts, &tag_posts).unwrap();
        runs.push((rankings, totals, timelines));
    }
    assert_eq!(runs[0].0, runs[1].0);
    assert_eq!(runs[0].1, runs[1].1);
    assert_eq!(runs[0].2, runs[1].2);
    assert_eq!(runs[0].0[&1], vec![(TagId(2), 3), (TagId(3), 2)]);
    assert_eq!(runs[0].1[&1], ScoreTotal { sum: 11, posts: 4 });
    assert_eq!(
        runs[0].2[&1],
        vec![("2023-06".to_string(), 1), ("2023-07".to_string(), 2), ("2023-08".to_string(), 1)]
    );
}

#[test]
fn records_without_rating_are_incomplete() {
    let mut unrated = raw_post(Some(1), "a", 0, "2023-07-15");
    unrated.rating = String::new();
    let mut dropped = raw_post(None, "a", 0, "2023-07-15");
    dropped.rating = String::new();
    assert!(all_complete(&vec![]));
    assert!(all_complete(&vec![raw_post(Some(1), "a", 0, "2023-07-15"), dropped.clone()]));
    assert!(!all_complete(&vec![raw_post(Some(1), "a", 0, "2023-07-15"), unrated, dropped]));
}

#[test]
fn countable_rankings_are_the_rankings() {
    let posts = ranked_scenario();
    let tag_posts = create_tag_posts(&posts);
    assert!(bucket_listings_fit(&posts, &tag_posts[&1]));
    assert!(bucket_listings_fit(&posts, &Vec::new()));
    let rankings = rank_top_n_tags_where_countable(&posts, &tag_posts, 3).unwrap();
    assert_eq!(rankings, rank_top_n_tags_for_all_tags(&posts, &tag_posts, 3));
    assert_eq!(rankings[&1], vec![(TagId(10), 5), (TagId(20), 5), (TagId(30), 3)]);
}
