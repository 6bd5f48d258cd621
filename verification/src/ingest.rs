//! Normalization of decoded records into the tables of tags and posts.

use crate::index::keyed_by_id;
use crate::model::{Post, PostId, Posts, RawPost, RawTag, Tag, TagId, TagNamesToIds, Tags};
use crate::store::{
    name_entries, names_get, names_insert, names_new, table_get, table_insert, table_keys,
    table_new,
};
use crate::text::Text;
use vstd::prelude::*;

verus! {

/// The tag that a record with a post count above zero stands for.
pub open spec fn tag_of(raw: RawTag) -> Tag {
    Tag { id: TagId(raw.id), name: raw.name, category: raw.category, post_count: raw.post_count }
}

/// The table that a sequence of tag records leaves: records with a post
/// count of zero are dropped, and of two records with one identifier the
/// later one stays.
pub open spec fn retained_tags(records: Seq<RawTag>) -> Map<u32, Tag>
    decreases records.len(),
{
    if records.len() == 0 {
        Map::empty()
    } else {
        let rest = retained_tags(records.drop_last());
        if records.last().post_count == 0 {
            rest
        } else {
            rest.insert(records.last().id, tag_of(records.last()))
        }
    }
}

/// Turns a tag record into a tag, unless its post count is zero.
pub fn normalize_tag(raw: &RawTag) -> (tag: Option<Tag>)
    ensures
        tag == if raw.post_count == 0 {
            None
        } else {
            Some(tag_of(*raw))
        },
{
    if raw.post_count == 0 {
        return None;
    }
    Some(
        Tag {
            id: TagId(raw.id),
            name: raw.name.clone(),
            category: raw.category,
            post_count: raw.post_count,
        },
    )
}

/// Builds the table of tags from the decoded records, in their order.
pub fn parse_tags(records: &Vec<RawTag>) -> (tags: Tags)
    ensures
        tags@ == retained_tags(records@),
{
    let mut tags: Tags = table_new();
    let mut i: usize = 0;
    while i < records.len()
        invariant
            i <= records.len(),
            tags@ =~= retained_tags(records@.take(i as int)),
        decreases records.len() - i,
    {
        proof {
            assert(records@.take(i as int + 1).drop_last() =~= records@.take(i as int));
        }
        match normalize_tag(&records[i]) {
            Some(tag) => {
                table_insert(&mut tags, tag.id.0, tag);
            },
            None => {},
        }
        i += 1;
    }
    proof {
        assert(records@.take(i as int) =~= records@);
    }
    tags
}

/// Every tag of a table built from records has a post count of at least one
/// and is stored under the number of its identifier.
pub proof fn lemma_retained_tags_are_counted(records: Seq<RawTag>, key: u32)
    requires
        retained_tags(records).contains_key(key),
    ensures
        retained_tags(records)[key].post_count >= 1,
        retained_tags(records)[key].id.0 == key,
        exists|i: int|
            0 <= i < records.len() && records[i].post_count > 0 && retained_tags(records)[key]
                == tag_of(#[trigger] records[i]),
    decreases records.len(),
{
    if records.len() > 0 {
        let last = records.last();
        if last.post_count != 0 && last.id == key {
            assert(retained_tags(records)[key] == tag_of(records[records.len() - 1]));
        } else {
            lemma_retained_tags_are_counted(records.drop_last(), key);
            let i = choose|i: int|
                0 <= i < records.drop_last().len() && records.drop_last()[i].post_count > 0
                    && retained_tags(records.drop_last())[key] == tag_of(
                    #[trigger] records.drop_last()[i],
                );
            assert(records[i] == records.drop_last()[i]);
        }
    }
}

/// An identifier that only records with a post count of zero carry is no key
/// of the table built from the records.
pub proof fn lemma_uncounted_tags_are_dropped(records: Seq<RawTag>, key: u32)
    requires
        forall|i: int| 0 <= i < records.len() && (#[trigger] records[i]).id == key ==> records[i].post_count == 0,
    ensures
        !retained_tags(records).contains_key(key),
    decreases records.len(),
{
    if records.len() > 0 {
        assert(records[records.len() - 1] == records.last());
        assert forall|i: int|
            0 <= i < records.drop_last().len() && (#[trigger] records.drop_last()[i]).id
                == key implies records.drop_last()[i].post_count == 0 by {
            assert(records.drop_last()[i] == records[i]);
        }
        lemma_uncounted_tags_are_dropped(records.drop_last(), key);
    }
}

/// `names` resolves exactly the names of `tags`, each to the identifier of a
/// tag of that name.
pub open spec fn is_name_index_of(tags: Map<u32, Tag>, names: Map<Seq<char>, u32>) -> bool {
    &&& forall|key: u32| #[trigger] tags.contains_key(key) ==> names.contains_key(tags[key].name@)
    &&& forall|name: Seq<char>| #[trigger]
        names.contains_key(name) ==> exists|key: u32| #[trigger]
            tags.contains_key(key) && tags[key].name@ == name && tags[key].id.0 == names[name]
}

/// A name that only records with a post count of zero carry does not resolve
/// in a name index of the table built from the records.
pub proof fn lemma_dropped_names_do_not_resolve(
    records: Seq<RawTag>,
    names: Map<Seq<char>, u32>,
    name: Seq<char>,
)
    requires
        is_name_index_of(retained_tags(records), names),
        forall|i: int|
            0 <= i < records.len() && (#[trigger] records[i]).name@ == name
                ==> records[i].post_count == 0,
    ensures
        !names.contains_key(name),
{
    if names.contains_key(name) {
        let tags = retained_tags(records);
        let key = choose|key: u32| #[trigger]
            tags.contains_key(key) && tags[key].name@ == name && tags[key].id.0 == names[name];
        lemma_retained_tags_are_counted(records, key);
    }
}

/// Where no two tags of the table share a name, a name index of the table
/// resolves the name of each tag to the identifier of that tag.
pub proof fn lemma_unique_names_resolve_to_their_tag(
    tags: Map<u32, Tag>,
    names: Map<Seq<char>, u32>,
    key: u32,
)
    requires
        is_name_index_of(tags, names),
        forall|one: u32, other: u32|
            tags.contains_key(one) && tags.contains_key(other) && tags[one].name@
                == tags[other].name@ ==> one == other,
        tags.contains_key(key),
    ensures
        names.contains_key(tags[key].name@),
        names[tags[key].name@] == tags[key].id.0,
{
    let name = tags[key].name@;
    let other = choose|other: u32| #[trigger]
        tags.contains_key(other) && tags[other].name@ == name && tags[other].id.0 == names[name];
    assert(other == key);
}

/// Builds the index from tag names to tag identifiers. Where two tags share a
/// name, the name resolves to one of them.
pub fn create_tag_names_to_ids(tags: &Tags) -> (names: TagNamesToIds)
    ensures
        is_name_index_of(tags@, name_entries(names)),
{
    let keys = table_keys(tags);
    let mut names: TagNamesToIds = names_new();
    let mut k: usize = 0;
    while k < keys.len()
        invariant
            k <= keys.len(),
            forall|key: u32| keys@.contains(key) <==> tags@.contains_key(key),
            forall|at: int|
                0 <= at < k ==> name_entries(names).contains_key(tags@[#[trigger] keys@[at]].name@),
            forall|name: Seq<char>| #[trigger]
                name_entries(names).contains_key(name) ==> exists|key: u32| #[trigger]
                    tags@.contains_key(key) && tags@[key].name@ == name && tags@[key].id.0
                        == name_entries(names)[name],
        decreases keys.len() - k,
    {
        let key: u32 = keys[k];
        proof {
            assert(keys@.contains(key));
        }
        let tag = table_get(tags, key).unwrap();
        let ghost before = name_entries(names);
        names_insert(&mut names, tag.name.clone(), tag.id);
        proof {
            assert forall|name: Seq<char>| #[trigger]
                name_entries(names).contains_key(name) implies exists|other: u32| #[trigger]
                tags@.contains_key(other) && tags@[other].name@ == name && tags@[other].id.0
                    == name_entries(names)[name] by {
                if name == tag.name@ {
                    assert(tags@.contains_key(key) && tags@[key].name@ == name);
                } else {
                    assert(before.contains_key(name));
                    let other = choose|other: u32| #[trigger]
                        tags@.contains_key(other) && tags@[other].name@ == name
                            && tags@[other].id.0 == before[name];
                    assert(tags@.contains_key(other) && tags@[other].name@ == name);
                }
            }
        }
        k += 1;
    }
    proof {
        assert forall|key: u32| #[trigger] tags@.contains_key(key) implies name_entries(
            names,
        ).contains_key(tags@[key].name@) by {
            assert(keys@.contains(key));
            let at = choose|at: int| 0 <= at < keys@.len() && keys@[at] == key;
            assert(name_entries(names).contains_key(tags@[keys@[at]].name@));
        }
    }
    names
}

/// The characters that separate the names of a tag string: space, tab, line
/// feed, form feed and carriage return.
pub open spec fn is_separator(c: char) -> bool {
    c == ' ' || c == '\t' || c == '\n' || c == '\x0C' || c == '\r'
}

/// The identifier that a name resolves to, as a sequence of one, or of none
/// where the name is unknown or empty.
pub open spec fn resolved_name(names: Map<Seq<char>, u32>, name: Seq<char>) -> Seq<TagId> {
    if name.len() > 0 && names.contains_key(name) {
        seq![TagId(names[name])]
    } else {
        Seq::empty()
    }
}

/// The identifiers of the names in `text` from position `at` on, where a name
/// that began at `from` is being read. Names are the longest runs without a
/// separator; unknown names give nothing.
pub open spec fn resolved_from(text: Seq<char>, names: Map<Seq<char>, u32>, at: int, from: int) -> Seq<
    TagId,
>
    decreases text.len() - at,
{
    if at >= text.len() {
        resolved_name(names, text.subrange(from, text.len() as int))
    } else if is_separator(text[at]) {
        resolved_name(names, text.subrange(from, at)) + resolved_from(text, names, at + 1, at + 1)
    } else {
        resolved_from(text, names, at + 1, from)
    }
}

/// The identifiers of the known names of a tag string, in the order of the
/// names, a repeated name repeated.
pub open spec fn resolved_tags(text: Seq<char>, names: Map<Seq<char>, u32>) -> Seq<TagId> {
    resolved_from(text, names, 0, 0)
}

/// Whether `c` separates the names of a tag string.
pub fn separates(c: char) -> (separator: bool)
    ensures
        separator == is_separator(c),
{
    c == ' ' || c == '\t' || c == '\n' || c == '\x0C' || c == '\r'
}

/// Splits a tag string at its separators and resolves each name through the
/// index. Unknown names are left out; order and repetitions are kept.
pub fn resolve_tag_names(tag_string: &str, names: &TagNamesToIds) -> (tags: Vec<TagId>)
    ensures
        tags@ == resolved_tags(tag_string@, name_entries(*names)),
{
    let text = Text::new(tag_string);
    let len: usize = text.len();
    let mut tags: Vec<TagId> = Vec::new();
    let mut from: usize = 0;
    let mut at: usize = 0;
    while at < len
        invariant
            text.wf(),
            text@ == tag_string@,
            len == tag_string@.len(),
            from <= at <= len,
            tags@ + resolved_from(tag_string@, name_entries(*names), at as int, from as int)
                =~= resolved_tags(tag_string@, name_entries(*names)),
        decreases len - at,
    {
        let c: char = text.char_at(at);
        if separates(c) {
            if from < at {
                let name = text.slice(from, at);
                match names_get(names, name) {
                    Some(id) => {
                        tags.push(id);
                    },
                    None => {},
                }
            }
            from = at + 1;
        }
        at += 1;
    }
    if from < len {
        let name = text.slice(from, len);
        match names_get(names, name) {
            Some(id) => {
                tags.push(id);
            },
            None => {},
        }
    }
    tags
}

/// The unsigned number with the bits of `v`: `v` itself where it is not
/// negative, else `v` plus two to the power of 32.
pub open spec fn wrapped(v: int) -> u32 {
    if v >= 0 {
        v as u32
    } else {
        (v + 0x1_0000_0000) as u32
    }
}

/// Computes `wrapped`.
pub fn to_unsigned(v: i64) -> (unsigned: u32)
    requires
        -0x1_0000_0000 < v < 0x1_0000_0000,
    ensures
        unsigned == wrapped(v as int),
{
    if v >= 0 {
        v as u32
    } else {
        (v + 0x1_0000_0000) as u32
    }
}

/// `post` is what the record `raw` stands for under the name index `names`:
/// the tags are the known names of the tag string, the down score is stored
/// as a magnitude, and the rating is the first character of its text.
pub open spec fn is_post_of(post: Post, raw: RawPost, names: Map<Seq<char>, u32>) -> bool {
    &&& raw.id == Some(post.id.0)
    &&& post.tags@ == resolved_tags(raw.tag_string@, names)
    &&& post.score == raw.score
    &&& post.up_score == wrapped(raw.up_score as int)
    &&& post.down_score == wrapped(-(raw.down_score as int))
    &&& raw.rating@.len() > 0
    &&& post.rating == raw.rating@[0]
    &&& post.created_at@ == raw.created_at@
}

/// A record can be normalized: it has no identifier, and is then dropped, or
/// it has a rating of at least one character.
pub open spec fn is_complete(raw: RawPost) -> bool {
    raw.id.is_some() ==> raw.rating@.len() > 0
}

/// Tells whether every record can be normalized.
pub fn all_complete(records: &Vec<RawPost>) -> (complete: bool)
    ensures
        complete == forall|i: int| 0 <= i < records@.len() ==> is_complete(#[trigger] records@[i]),
{
    let mut i: usize = 0;
    while i < records.len()
        invariant
            i <= records.len(),
            forall|k: int| 0 <= k < i ==> is_complete(#[trigger] records@[k]),
        decreases records.len() - i,
    {
        if records[i].id.is_some() && records[i].rating.as_str().is_empty() {
            proof {
                assert(!is_complete(records@[i as int]));
            }
            return false;
        }
        i += 1;
    }
    true
}

/// Turns a post record into a post, unless it has no identifier.
pub fn normalize_post(raw: &RawPost, names: &TagNamesToIds) -> (post: Option<Post>)
    requires
        is_complete(*raw),
    ensures
        match post {
            Some(post) => is_post_of(post, *raw, name_entries(*names)),
            None => raw.id.is_none(),
        },
{
    let id: PostId = match raw.id {
        None => {
            return None;
        },
        Some(id) => PostId(id),
    };
    let tags = resolve_tag_names(raw.tag_string.as_str(), names);
    Some(
        Post {
            id,
            tags,
            score: raw.score,
            up_score: to_unsigned(raw.up_score as i64),
            down_score: to_unsigned(-(raw.down_score as i64)),
            rating: Text::new(raw.rating.as_str()).char_at(0),
            created_at: raw.created_at.clone(),
        },
    )
}

/// The position of the last record that carries the identifier `key`, or -1
/// where none does.
pub open spec fn last_record_of(records: Seq<RawPost>, key: u32) -> int
    decreases records.len(),
{
    if records.len() == 0 {
        -1
    } else if records.last().id == Some(key) {
        records.len() - 1
    } else {
        last_record_of(records.drop_last(), key)
    }
}

/// `posts` is the table that `records` leave: a post for each identifier that
/// a record carries, made from the last record that carries it.
pub open spec fn is_table_of(
    posts: Map<u32, Post>,
    records: Seq<RawPost>,
    names: Map<Seq<char>, u32>,
) -> bool {
    &&& forall|key: u32| #[trigger] posts.contains_key(key) <==> last_record_of(records, key) >= 0
    &&& forall|key: u32| #[trigger]
        posts.contains_key(key) ==> is_post_of(
            posts[key],
            records[last_record_of(records, key)],
            names,
        )
}

/// The last record of an identifier is a record, and carries it.
pub proof fn lemma_last_record_of(records: Seq<RawPost>, key: u32)
    ensures
        -1 <= last_record_of(records, key) < records.len(),
        last_record_of(records, key) >= 0 ==> records[last_record_of(records, key)].id == Some(
            key,
        ),
        last_record_of(records, key) < 0 ==> forall|i: int|
            0 <= i < records.len() ==> (#[trigger] records[i]).id != Some(key),
    decreases records.len(),
{
    if records.len() > 0 {
        lemma_last_record_of(records.drop_last(), key);
        if last_record_of(records, key) < 0 {
            assert forall|i: int| 0 <= i < records.len() implies (#[trigger] records[i]).id
                != Some(key) by {
                if i < records.len() - 1 {
                    assert(records.drop_last()[i] == records[i]);
                }
            }
        }
    }
}

/// Builds the table of posts from the decoded records, in their order.
/// Records without an identifier are dropped; of two records with one
/// identifier the later one stays.
pub fn parse_posts(records: &Vec<RawPost>, names: &TagNamesToIds) -> (posts: Posts)
    requires
        forall|i: int| 0 <= i < records@.len() ==> is_complete(#[trigger] records@[i]),
    ensures
        is_table_of(posts@, records@, name_entries(*names)),
        keyed_by_id(posts@),
{
    let mut posts: Posts = table_new();
    let mut i: usize = 0;
    while i < records.len()
        invariant
            i <= records.len(),
            forall|k: int| 0 <= k < records@.len() ==> is_complete(#[trigger] records@[k]),
            is_table_of(posts@, records@.take(i as int), name_entries(*names)),
            keyed_by_id(posts@),
        decreases records.len() - i,
    {
        let ghost before = posts@;
        let ghost shorter = records@.take(i as int);
        let ghost longer = records@.take(i as int + 1);
        proof {
            assert(longer.drop_last() =~= shorter);
            assert(longer.last() == records@[i as int]);
        }
        match normalize_post(&records[i], names) {
            Some(post) => {
                table_insert(&mut posts, post.id.0, post);
            },
            None => {},
        }
        proof {
            assert forall|key: u32| #[trigger] posts@.contains_key(key) implies is_post_of(
                posts@[key],
                longer[last_record_of(longer, key)],
                name_entries(*names),
            ) by {
                if records@[i as int].id != Some(key) {
                    assert(before.contains_key(key));
                    lemma_last_record_of(shorter, key);
                    assert(longer[last_record_of(shorter, key)] == shorter[last_record_of(
                        shorter,
                        key,
                    )]);
                }
            }
        }
        i += 1;
    }
    proof {
        assert(records@.take(i as int) =~= records@);
    }
    posts
}

} // verus!
