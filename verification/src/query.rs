//! The questions to the library's database that depend on tags or items, and the file names in
//! its answers.
use vstd::prelude::*;

#[allow(unused_imports)]
use crate::seqs::{is_sublist, lemma_sublist_empty, lemma_sublist_step};
use crate::tags::lowercase_strings;
#[allow(unused_imports)]
use crate::tags::lowercase_all;
use crate::text::{ascii_lowercase_strings, chars_of, same_texts, starts_with, string_from};
#[allow(unused_imports)]
use crate::text::{
    ascii_lowered_all, joined, law_segments_of_one_part, law_split_of_joined_texts,
    segments, texts,
};

verus! {

/// The most items that one question names.
pub const ITEMS_PER_QUERY: usize = 500;

/// A parameter of a query.
#[derive(Debug, Clone, PartialEq, Eq)]
pub enum SqlValue {
    Integer(i64),
    Text(String),
}

/// What a parameter holds.
pub enum SqlArgument {
    Integer(i64),
    Text(Seq<char>),
}

impl View for SqlValue {
    type V = SqlArgument;

    open spec fn view(&self) -> SqlArgument {
        match self {
            SqlValue::Integer(n) => SqlArgument::Integer(*n),
            SqlValue::Text(text) => SqlArgument::Text(text@),
        }
    }
}

/// A query with its parameters.
#[derive(Debug)]
pub struct Query {
    pub sql: String,
    pub params: Vec<SqlValue>,
}

/// The parameters of a query.
pub open spec fn arguments(params: Seq<SqlValue>) -> Seq<SqlArgument> {
    params.map_values(|value: SqlValue| value@)
}

/// Question marks for `n` parameters, separated by commas.
pub open spec fn placeholders(n: nat) -> Seq<char> {
    joined(Seq::new(n, |i: int| seq!['?']), seq![','])
}

/// Appends question marks for `n` parameters, separated by commas.
fn push_placeholders(sql: &mut String, n: usize)
    ensures
        final(sql)@ == old(sql)@ + placeholders(n as nat),
{
    let mut i: usize = 0;
    assert(sql@ =~= old(sql)@ + placeholders(0));
    while i < n
        invariant
            i <= n,
            sql@ == old(sql)@ + placeholders(i as nat),
        decreases n - i,
    {
        proof {
            let longer: Seq<Seq<char>> = Seq::new((i + 1) as nat, |k: int| seq!['?']);
            let shorter: Seq<Seq<char>> = Seq::new(i as nat, |k: int| seq!['?']);
            assert(longer.drop_last() =~= shorter);
            assert(longer.last() == seq!['?']);
        }
        if i > 0 {
            sql.push(',');
        }
        sql.push('?');
        assert(sql@ =~= old(sql)@ + placeholders((i + 1) as nat));
        i += 1;
    }
}

/// How often a character stands in a text.
pub open spec fn occurrences(s: Seq<char>, c: char) -> nat
    decreases s.len(),
{
    if s.len() == 0 {
        0
    } else if s.last() == c {
        occurrences(s.drop_last(), c) + 1
    } else {
        occurrences(s.drop_last(), c)
    }
}

proof fn lemma_placeholder_count(n: nat)
    ensures
        occurrences(placeholders(n), '?') == n,
    decreases n,
{
    let marks: Seq<Seq<char>> = Seq::new(n, |i: int| seq!['?']);
    if n > 0 {
        let shorter: Seq<Seq<char>> = Seq::new((n - 1) as nat, |i: int| seq!['?']);
        assert(marks.drop_last() =~= shorter);
        lemma_placeholder_count((n - 1) as nat);
        let front = placeholders((n - 1) as nat);
        if n == 1 {
            assert(placeholders(1) =~= seq!['?']);
            assert(placeholders(1).drop_last() =~= front);
        } else {
            assert(placeholders(n) =~= front.push(',').push('?'));
            assert(placeholders(n).drop_last() =~= front.push(','));
            assert(front.push(',').drop_last() =~= front);
            assert(occurrences(front.push(','), '?') == n - 1);
        }
    } else {
        assert(placeholders(0) =~= seq![]);
    }
}

/// The query for the items of a collection that have tags with all of the given names. The
/// database's `lower` turns ASCII capitals into small letters and leaves other letters alone.
pub open spec fn tagged_items_sql(tag_count: nat) -> Seq<char> {
    "SELECT ci.itemID\n         FROM collectionItems ci\n         JOIN itemTags it ON it.itemID = ci.itemID\n         JOIN tags t ON t.tagID = it.tagID\n         WHERE ci.collectionID = ? AND lower(t.name) IN ("@
        + placeholders(tag_count)
        + ")\n         GROUP BY ci.itemID\n         HAVING COUNT(DISTINCT lower(t.name)) = ?"@
}

/// The parameters of that query: the collection, the tags and their number.
pub open spec fn tagged_items_arguments(
    col_id: i64,
    lowered: Seq<Seq<char>>,
) -> Seq<SqlArgument> {
    seq![SqlArgument::Integer(col_id)] + lowered.map_values(
        |tag: Seq<char>| SqlArgument::Text(tag),
    ) + seq![SqlArgument::Integer(lowered.len() as i64)]
}

/// The query for the items of a collection that have tags with all of the given names. The
/// database's `lower` turns ASCII capitals into small letters and leaves other letters alone.
pub fn tagged_items_query(col_id: i64, lowered: &Vec<String>) -> (query: Query)
    ensures
        query.sql@ == tagged_items_sql(lowered@.len()),
        arguments(query.params@) == tagged_items_arguments(col_id, texts(lowered@)),
{
    let mut sql =
        "SELECT ci.itemID\n         FROM collectionItems ci\n         JOIN itemTags it ON it.itemID = ci.itemID\n         JOIN tags t ON t.tagID = it.tagID\n         WHERE ci.collectionID = ? AND lower(t.name) IN (".to_owned();
    push_placeholders(&mut sql, lowered.len());
    sql.append(")\n         GROUP BY ci.itemID\n         HAVING COUNT(DISTINCT lower(t.name)) = ?");
    let ghost all = tagged_items_arguments(col_id, texts(lowered@));
    let mut params: Vec<SqlValue> = Vec::new();
    params.push(SqlValue::Integer(col_id));
    let mut i: usize = 0;
    assert(arguments(params@) =~= all.take(1));
    while i < lowered.len()
        invariant
            i <= lowered@.len(),
            all == tagged_items_arguments(col_id, texts(lowered@)),
            arguments(params@) == all.take(i + 1),
        decreases lowered@.len() - i,
    {
        let ghost earlier = params@;
        params.push(SqlValue::Text(lowered[i].clone()));
        proof {
            assert(arguments(params@) =~= arguments(earlier).push(
                SqlArgument::Text(lowered@[i as int]@),
            ));
            assert(arguments(params@) =~= all.take(i + 2));
        }
        i += 1;
    }
    let ghost earlier = params@;
    params.push(SqlValue::Integer(lowered.len() as i64));
    proof {
        assert(arguments(params@) =~= arguments(earlier).push(
            SqlArgument::Integer(lowered@.len() as i64),
        ));
        assert(arguments(params@) =~= all);
    }
    Query { sql, params }
}

/// The text between two queries whose answers are put together.
pub open spec fn union_sql() -> Seq<char> {
    "\n         UNION\n         "@
}

/// Whether a query asks for the items of a collection that have tags with all the names `lowered`
/// or tags with all the names `folded`; where the names are the same, they are asked for once.
pub open spec fn asks_for_either(
    query: Query,
    col_id: i64,
    lowered: Seq<Seq<char>>,
    folded: Seq<Seq<char>>,
) -> bool {
    if lowered == folded {
        &&& query.sql@ == tagged_items_sql(lowered.len())
        &&& arguments(query.params@) == tagged_items_arguments(col_id, lowered)
    } else {
        &&& query.sql@ == tagged_items_sql(lowered.len()) + union_sql() + tagged_items_sql(
            folded.len(),
        )
        &&& arguments(query.params@) == tagged_items_arguments(col_id, lowered)
            + tagged_items_arguments(col_id, folded)
    }
}

/// The query for the items of a collection that have tags with all the names `lowered` or tags
/// with all the names `folded`.
pub fn either_items_query(col_id: i64, lowered: &Vec<String>, folded: &Vec<String>) -> (query: Query)
    ensures
        asks_for_either(query, col_id, texts(lowered@), texts(folded@)),
{
    let mut query = tagged_items_query(col_id, lowered);
    if same_texts(lowered, folded) {
        return query;
    }
    let mut other = tagged_items_query(col_id, folded);
    query.sql.append("\n         UNION\n         ");
    query.sql.append(other.sql.as_str());
    let ghost first = query.params@;
    let ghost second = other.params@;
    query.params.append(&mut other.params);
    assert(arguments(query.params@) =~= arguments(first) + arguments(second));
    query
}

/// The query for the items of a collection: all of them without tags, else those that have every
/// tag. An item has a tag whatever the case of ASCII letters; and items are found, too, that have
/// the lowercase equivalents of all the tags.
pub fn item_ids_query(col_id: i64, tags: &Vec<String>) -> (query: Query)
    ensures
        tags@.len() == 0 ==> {
            &&& query.sql@ == "SELECT itemID FROM collectionItems WHERE collectionID = ?1"@
            &&& arguments(query.params@) == seq![SqlArgument::Integer(col_id)]
        },
        tags@.len() > 0 ==> asks_for_either(
            query,
            col_id,
            lowercase_all(texts(tags@)),
            ascii_lowered_all(texts(tags@)),
        ),
{
    if tags.len() == 0 {
        let mut params: Vec<SqlValue> = Vec::new();
        params.push(SqlValue::Integer(col_id));
        assert(arguments(params@) =~= seq![SqlArgument::Integer(col_id)]);
        return Query {
            sql: "SELECT itemID FROM collectionItems WHERE collectionID = ?1".to_owned(),
            params,
        };
    }
    let lowered = lowercase_strings(tags);
    let folded = ascii_lowercase_strings(tags);
    either_items_query(col_id, &lowered, &folded)
}

/// The items that question `k` names.
pub open spec fn item_chunk(item_ids: Seq<i64>, k: int) -> Seq<i64> {
    let start = k * ITEMS_PER_QUERY;
    let end = if start + ITEMS_PER_QUERY <= item_ids.len() {
        start + ITEMS_PER_QUERY
    } else {
        item_ids.len() as int
    };
    item_ids.subrange(start, end)
}

/// The number of questions that it takes to name all items.
pub open spec fn chunk_count(len: nat) -> nat {
    (len + ITEMS_PER_QUERY - 1) as nat / ITEMS_PER_QUERY as nat
}

/// The query for the PDF attachments of some items.
pub open spec fn attachments_sql(count: nat) -> Seq<char> {
    "SELECT path FROM itemAttachments WHERE parentItemID IN ("@ + placeholders(count)
        + ") AND contentType LIKE '%pdf'"@
}

/// Whether a query asks for the PDF attachments of the given items.
pub open spec fn asks_for_attachments(query: Query, items: Seq<i64>) -> bool {
    &&& query.sql@ == attachments_sql(items.len())
    &&& arguments(query.params@) == items.map_values(|id: i64| SqlArgument::Integer(id))
}

/// The query for the PDF attachments of the items from `start` up to `end`.
fn attachments_query(item_ids: &[i64], start: usize, end: usize) -> (query: Query)
    requires
        start <= end <= item_ids@.len(),
    ensures
        asks_for_attachments(query, item_ids@.subrange(start as int, end as int)),
{
    let mut sql = "SELECT path FROM itemAttachments WHERE parentItemID IN (".to_owned();
    push_placeholders(&mut sql, end - start);
    sql.append(") AND contentType LIKE '%pdf'");
    let ghost all = item_ids@.subrange(start as int, end as int).map_values(
        |id: i64| SqlArgument::Integer(id),
    );
    let mut params: Vec<SqlValue> = Vec::new();
    let mut i = start;
    assert(arguments(params@) =~= all.take(0));
    while i < end
        invariant
            start <= i <= end <= item_ids@.len(),
            all == item_ids@.subrange(start as int, end as int).map_values(
                |id: i64| SqlArgument::Integer(id),
            ),
            arguments(params@) == all.take(i - start),
        decreases end - i,
    {
        let ghost earlier = params@;
        params.push(SqlValue::Integer(item_ids[i]));
        proof {
            assert(arguments(params@) =~= arguments(earlier).push(
                SqlArgument::Integer(item_ids@[i as int]),
            ));
            assert(arguments(params@) =~= all.take(i + 1 - start));
        }
        i += 1;
    }
    assert(arguments(params@) =~= all);
    Query { sql, params }
}

/// The queries for the PDF attachments of items, each for at most [`ITEMS_PER_QUERY`] of them.
pub fn pdf_attachment_queries(item_ids: &[i64]) -> (queries: Vec<Query>)
    ensures
        queries@.len() == chunk_count(item_ids@.len()),
        forall|k: int|
            0 <= k < queries@.len() ==> asks_for_attachments(
                #[trigger] queries@[k],
                item_chunk(item_ids@, k),
            ),
{
    let mut queries: Vec<Query> = Vec::new();
    let mut start: usize = 0;
    let total = item_ids.len();
    while start < total
        invariant
            total == item_ids@.len(),
            start <= total,
            start == total || start == queries@.len() * ITEMS_PER_QUERY,
            start == total ==> queries@.len() == chunk_count(total as nat),
            forall|k: int|
                0 <= k < queries@.len() ==> asks_for_attachments(
                    #[trigger] queries@[k],
                    item_chunk(item_ids@, k),
                ),
        decreases total - start,
    {
        let end = if total - start <= ITEMS_PER_QUERY {
            total
        } else {
            start + ITEMS_PER_QUERY
        };
        queries.push(attachments_query(item_ids, start, end));
        start = end;
    }
    queries
}

proof fn lemma_occurrences_joined(a: Seq<char>, b: Seq<char>, c: char)
    ensures
        occurrences(a + b, c) == occurrences(a, c) + occurrences(b, c),
    decreases b.len(),
{
    if b.len() == 0 {
        assert(a + b =~= a);
    } else {
        assert((a + b).drop_last() =~= a + b.drop_last());
        lemma_occurrences_joined(a, b.drop_last(), c);
    }
}

proof fn lemma_no_occurrence(s: Seq<char>, c: char)
    requires
        forall|i: int| 0 <= i < s.len() ==> #[trigger] s[i] != c,
    ensures
        occurrences(s, c) == 0,
    decreases s.len(),
{
    if s.len() > 0 {
        assert forall|i: int| 0 <= i < s.drop_last().len() implies #[trigger] s.drop_last()[i]
            != c by {
            assert(s.drop_last()[i] == s[i]);
        }
        lemma_no_occurrence(s.drop_last(), c);
    }
}

proof fn lemma_one_occurrence(s: Seq<char>, k: int, c: char)
    requires
        0 <= k < s.len(),
        s[k] == c,
        forall|i: int| 0 <= i < s.len() && i != k ==> #[trigger] s[i] != c,
    ensures
        occurrences(s, c) == 1,
    decreases s.len(),
{
    let front = s.drop_last();
    assert forall|i: int| 0 <= i < front.len() && i != k implies #[trigger] front[i] != c by {
        assert(front[i] == s[i]);
    }
    if k == s.len() - 1 {
        lemma_no_occurrence(front, c);
    } else {
        lemma_one_occurrence(front, k, c);
    }
}

/// Each query has one question mark for each of its parameters.
pub proof fn law_one_placeholder_per_parameter(
    col_id: i64,
    lowered: Seq<Seq<char>>,
    items: Seq<i64>,
)
    ensures
        occurrences(tagged_items_sql(lowered.len()), '?') == tagged_items_arguments(
            col_id,
            lowered,
        ).len(),
        occurrences(
            tagged_items_sql(lowered.len()) + union_sql() + tagged_items_sql(lowered.len()),
            '?',
        ) == 2 * tagged_items_arguments(col_id, lowered).len(),
        occurrences(attachments_sql(items.len()), '?') == items.len(),
{
    lemma_placeholder_count(lowered.len());
    lemma_placeholder_count(items.len());
    let marks = placeholders(lowered.len());
    let head =
        "SELECT ci.itemID\n         FROM collectionItems ci\n         JOIN itemTags it ON it.itemID = ci.itemID\n         JOIN tags t ON t.tagID = it.tagID\n         WHERE ci.collectionID = ? AND lower(t.name) IN ("@;
    let tail = ")\n         GROUP BY ci.itemID\n         HAVING COUNT(DISTINCT lower(t.name)) = ?"@;
    assert(occurrences(head, '?') == 1) by {
        reveal_strlit(
            "SELECT ci.itemID\n         FROM collectionItems ci\n         JOIN itemTags it ON it.itemID = ci.itemID\n         JOIN tags t ON t.tagID = it.tagID\n         WHERE ci.collectionID = ? AND lower(t.name) IN (",
        );
        lemma_one_occurrence(head, 177, '?');
    }
    assert(occurrences(tail, '?') == 1) by {
        reveal_strlit(
            ")\n         GROUP BY ci.itemID\n         HAVING COUNT(DISTINCT lower(t.name)) = ?",
        );
        lemma_one_occurrence(tail, tail.len() - 1, '?');
    }
    lemma_occurrences_joined(head + marks, tail, '?');
    lemma_occurrences_joined(head, marks, '?');
    let select = tagged_items_sql(lowered.len());
    assert(occurrences(union_sql(), '?') == 0) by {
        reveal_strlit("\n         UNION\n         ");
        lemma_no_occurrence(union_sql(), '?');
    }
    lemma_occurrences_joined(select + union_sql(), select, '?');
    lemma_occurrences_joined(select, union_sql(), '?');
    let opening = "SELECT path FROM itemAttachments WHERE parentItemID IN ("@;
    let closing = ") AND contentType LIKE '%pdf'"@;
    let item_marks = placeholders(items.len());
    assert(occurrences(opening, '?') == 0) by {
        reveal_strlit("SELECT path FROM itemAttachments WHERE parentItemID IN (");
        lemma_no_occurrence(opening, '?');
    }
    assert(occurrences(closing, '?') == 0) by {
        reveal_strlit(") AND contentType LIKE '%pdf'");
        lemma_no_occurrence(closing, '?');
    }
    lemma_occurrences_joined(opening + item_marks, closing, '?');
    lemma_occurrences_joined(opening, item_marks, '?');
}

/// The items named by the first `k` questions.
pub open spec fn chunks_joined(item_ids: Seq<i64>, k: nat) -> Seq<i64>
    decreases k,
{
    if k == 0 {
        seq![]
    } else {
        chunks_joined(item_ids, (k - 1) as nat) + item_chunk(item_ids, k - 1)
    }
}

proof fn lemma_chunks_joined(item_ids: Seq<i64>, k: nat)
    requires
        k <= chunk_count(item_ids.len()),
    ensures
        chunks_joined(item_ids, k) == item_ids.take(
            if k * ITEMS_PER_QUERY <= item_ids.len() {
                k * ITEMS_PER_QUERY
            } else {
                item_ids.len() as int
            },
        ),
    decreases k,
{
    if k == 0 {
        assert(item_ids.take(0) =~= seq![]);
    } else {
        lemma_chunks_joined(item_ids, (k - 1) as nat);
        let end = if k * ITEMS_PER_QUERY <= item_ids.len() {
            k * ITEMS_PER_QUERY
        } else {
            item_ids.len() as int
        };
        assert(chunks_joined(item_ids, k) =~= item_ids.take(end));
    }
}

/// The questions together name all items, in order and each once; none names too many and none
/// names nothing.
pub proof fn law_questions_cover_all_items(item_ids: Seq<i64>)
    ensures
        chunks_joined(item_ids, chunk_count(item_ids.len())) == item_ids,
        forall|k: int|
            0 <= k < chunk_count(item_ids.len()) ==> 0 < (#[trigger] item_chunk(
                item_ids,
                k,
            )).len() <= ITEMS_PER_QUERY,
        item_ids.len() == 0 ==> chunk_count(item_ids.len()) == 0,
{
    let count = chunk_count(item_ids.len());
    lemma_chunks_joined(item_ids, count);
    assert(item_ids.take(item_ids.len() as int) =~= item_ids);
}

/// Whether a path is read alike on every platform: it has no backslash, and it does not begin
/// with two slashes or a drive such as `C:`.
pub open spec fn reads_alike(path: Seq<char>) -> bool {
    &&& !path.contains('\\')
    &&& !(path.len() >= 2 && path[1] == ':')
    &&& !(path.len() >= 2 && path[0] == '/' && path[1] == '/')
}

/// The file name at the end of a slash-separated path; a path that ends in `..` or has no
/// component has none. A `.` does not count as a component.
pub open spec fn file_name(path: Seq<char>) -> Option<Seq<char>> {
    let names = segments(path, '/').filter(|name: Seq<char>| name != seq!['.']);
    if names.len() == 0 || names.last() == seq!['.', '.'] {
        None
    } else {
        Some(names.last())
    }
}

/// Whether a path begins with two separators, forward or backward.
pub open spec fn begins_with_two_separators(path: Seq<char>) -> bool {
    path.len() >= 2 && (path[0] == '/' || path[0] == '\\') && (path[1] == '/' || path[1] == '\\')
}

/// A path as one that is separated by slashes alone, where backslashes separate, too, and a drive
/// at the front is not part of the components.
pub open spec fn with_slashes(path: Seq<char>) -> Seq<char> {
    let behind_drive = if path.len() >= 2 && path[1] == ':' && (('a' <= path[0] && path[0] <= 'z')
        || ('A' <= path[0] && path[0] <= 'Z')) {
        path.skip(2)
    } else {
        path
    };
    behind_drive.map_values(
        |c: char|
            if c == '\\' {
                '/'
            } else {
                c
            },
    )
}

/// Whether `name` may be the file name of a path on some platform: that of a slash-separated path
/// where all platforms read it alike. Else it is a piece of the path or nothing; and unless the
/// path begins with two separators, it is what slashes alone give or what slashes, backslashes and
/// drives give.
pub open spec fn may_be_file_name(path: Seq<char>, name: Option<Seq<char>>) -> bool {
    if reads_alike(path) {
        name == file_name(path)
    } else {
        &&& match name {
            Some(name) => exists|i: int|
                0 <= i && i + name.len() <= path.len() && #[trigger] path.subrange(
                    i,
                    i + name.len(),
                ) == name,
            None => true,
        }
        &&& begins_with_two_separators(path) || name == file_name(path) || name == file_name(
            with_slashes(path),
        )
    }
}

/// What a text that may be missing holds.
pub open spec fn text_of(text: Option<String>) -> Option<Seq<char>> {
    match text {
        Some(text) => Some(text@),
        None => None,
    }
}

/// `Path::file_name`: the last component of a path, by the rules of the platform that the
/// program runs on. The contract says which it is where the rules of all platforms agree. Of
/// other paths, such as one with backslashes, it claims that the name is a piece of the path, and
/// that it is what slashes alone give or what slashes, backslashes and drive letters give, unless
/// two separators begin the path: which of these it is depends on the platform.
#[verifier::external_body]
fn path_file_name(path: &str) -> (name: Option<String>)
    ensures
        may_be_file_name(path@, text_of(name)),
{
    match std::path::Path::new(path).file_name() {
        Some(name) => Some(name.to_string_lossy().to_string()),
        None => None,
    }
}

/// A path without the mark of a file in the library's own storage.
pub open spec fn without_storage_mark(path: Seq<char>) -> Seq<char> {
    if "storage:"@.is_prefix_of(path) {
        path.skip("storage:"@.len() as int)
    } else {
        path
    }
}

/// Whether `name` may be the file name of an attachment's path on some platform.
pub open spec fn may_be_attachment_name(path: Seq<char>, name: Option<Seq<char>>) -> bool {
    may_be_file_name(without_storage_mark(path), name)
}

/// The file name of an attachment's path.
pub fn attachment_filename(path: &str) -> (name: Option<String>)
    ensures
        may_be_attachment_name(path@, text_of(name)),
{
    let mark = "storage:";
    if starts_with(path, mark) {
        let chars = chars_of(path);
        let skipped = chars_of(mark).len();
        path_file_name(string_from(&chars, skipped).as_str())
    } else {
        path_file_name(path)
    }
}

/// Whether `names` may be the file names of the attachments whose path is known and ends in one,
/// in order.
pub open spec fn may_be_attachment_names(
    paths: Seq<Option<String>>,
    names: Seq<Seq<char>>,
) -> bool
    decreases paths.len(),
{
    if paths.len() == 0 {
        names.len() == 0
    } else {
        let front = paths.drop_last();
        match paths.last() {
            Some(path) => {
                ||| may_be_attachment_name(path@, None) && may_be_attachment_names(front, names)
                ||| names.len() > 0 && may_be_attachment_name(path@, Some(names.last()))
                    && may_be_attachment_names(front, names.drop_last())
            },
            None => may_be_attachment_names(front, names),
        }
    }
}

/// The file names of the attachments whose path is known and ends in one.
pub fn attachment_filenames(paths: &Vec<Option<String>>) -> (names: Vec<String>)
    ensures
        may_be_attachment_names(paths@, texts(names@)),
{
    let mut names: Vec<String> = Vec::new();
    let mut i: usize = 0;
    while i < paths.len()
        invariant
            i <= paths@.len(),
            may_be_attachment_names(paths@.take(i as int), texts(names@)),
        decreases paths@.len() - i,
    {
        assert(paths@.take(i + 1).drop_last() =~= paths@.take(i as int));
        if let Some(path) = &paths[i] {
            if let Some(name) = attachment_filename(path.as_str()) {
                let ghost earlier = names@;
                let ghost text = name@;
                names.push(name);
                proof {
                    assert(texts(names@) =~= texts(earlier).push(text));
                    assert(texts(names@).drop_last() =~= texts(earlier));
                }
            }
        }
        i += 1;
    }
    assert(paths@.take(i as int) =~= paths@);
    names
}

/// The file names of the attachments whose path is known and ends in one, for slash-separated
/// paths.
pub open spec fn attachment_names(paths: Seq<Option<String>>) -> Seq<Seq<char>>
    decreases paths.len(),
{
    if paths.len() == 0 {
        seq![]
    } else {
        let front = attachment_names(paths.drop_last());
        match paths.last() {
            Some(path) => match file_name(without_storage_mark(path@)) {
                Some(name) => front.push(name),
                None => front,
            },
            None => front,
        }
    }
}

/// Where all platforms read the paths alike, the file names are those of slash-separated paths.
pub proof fn law_attachment_names_on_every_platform(
    paths: Seq<Option<String>>,
    names: Seq<Seq<char>>,
)
    requires
        may_be_attachment_names(paths, names),
        forall|i: int|
            0 <= i < paths.len() ==> ((#[trigger] paths[i]) matches Some(path) ==> reads_alike(
                without_storage_mark(path@),
            )),
    ensures
        names == attachment_names(paths),
    decreases paths.len(),
{
    if paths.len() > 0 {
        let front = paths.drop_last();
        assert forall|i: int| 0 <= i < front.len() implies ((#[trigger] front[i]) matches Some(
            path,
        ) ==> reads_alike(without_storage_mark(path@))) by {
            assert(front[i] == paths[i]);
        }
        assert(paths[paths.len() - 1] == paths.last());
        match paths.last() {
            Some(path) => {
                match file_name(without_storage_mark(path@)) {
                    Some(name) => {
                        assert(names =~= names.drop_last().push(name));
                        law_attachment_names_on_every_platform(front, names.drop_last());
                    },
                    None => {
                        law_attachment_names_on_every_platform(front, names);
                    },
                }
            },
            None => {
                law_attachment_names_on_every_platform(front, names);
            },
        }
    } else {
        assert(names =~= seq![]);
    }
}

/// No parameter has no placeholder, one has a question mark, and further ones follow a comma.
pub proof fn law_placeholders_grow(n: nat)
    ensures
        placeholders(0) == Seq::<char>::empty(),
        placeholders(1) == seq!['?'],
        n > 0 ==> placeholders(n + 1) == placeholders(n) + seq![',', '?'],
{
    let marks: Seq<Seq<char>> = Seq::new(n + 1, |i: int| seq!['?']);
    let fewer: Seq<Seq<char>> = Seq::new(n, |i: int| seq!['?']);
    assert(marks.drop_last() =~= fewer);
    let one: Seq<Seq<char>> = Seq::new(1, |i: int| seq!['?']);
    assert(one[0] == seq!['?']);
    assert(placeholders(1) =~= seq!['?']);
    if n > 0 {
        assert(placeholders(n + 1) =~= placeholders(n) + seq![',', '?']);
    }
}

/// Parameters are read one by one.
pub proof fn law_arguments(params: Seq<SqlValue>)
    ensures
        arguments(params).len() == params.len(),
        forall|i: int|
            0 <= i < params.len() ==> #[trigger] arguments(params)[i] == (match params[i] {
                SqlValue::Integer(n) => SqlArgument::Integer(n),
                SqlValue::Text(text) => SqlArgument::Text(text@),
            }),
{
}

/// The parameters of the query for tagged items are the collection, the names in order, and how
/// many they are.
pub proof fn law_tagged_items_arguments(col_id: i64, keys: Seq<Seq<char>>)
    ensures
        tagged_items_arguments(col_id, keys).len() == keys.len() + 2,
        tagged_items_arguments(col_id, keys)[0] == SqlArgument::Integer(col_id),
        forall|i: int|
            0 <= i < keys.len() ==> #[trigger] tagged_items_arguments(col_id, keys)[i + 1]
                == SqlArgument::Text(keys[i]),
        tagged_items_arguments(col_id, keys).last() == SqlArgument::Integer(keys.len() as i64),
{
}

/// A query for attachments asks for the PDFs of exactly the given items, in order.
pub proof fn law_attachments_query(query: Query, items: Seq<i64>)
    requires
        asks_for_attachments(query, items),
    ensures
        query.sql@ == "SELECT path FROM itemAttachments WHERE parentItemID IN ("@ + placeholders(
            items.len(),
        ) + ") AND contentType LIKE '%pdf'"@,
        query.params@.len() == items.len(),
        forall|i: int|
            0 <= i < items.len() ==> (#[trigger] query.params@[i])@ == SqlArgument::Integer(
                items[i],
            ),
{
    let all = arguments(query.params@);
    assert(all.len() == query.params@.len());
    assert forall|i: int| 0 <= i < items.len() implies (#[trigger] query.params@[i])@
        == SqlArgument::Integer(items[i]) by {
        assert(all[i] == query.params@[i]@);
        assert(all[i] == items.map_values(|id: i64| SqlArgument::Integer(id))[i]);
    }
}

/// The items of all questions are the given ones in order: question `k` names those from
/// `k` full questions on, up to a full question more or the last item.
pub proof fn law_question_names_its_items(item_ids: Seq<i64>, k: int, i: int)
    requires
        0 <= k < chunk_count(item_ids.len()),
        0 <= i < item_chunk(item_ids, k).len(),
    ensures
        item_chunk(item_ids, k)[i] == item_ids[k * ITEMS_PER_QUERY + i],
        item_chunk(item_ids, k).len() == ITEMS_PER_QUERY || k * ITEMS_PER_QUERY + item_chunk(
            item_ids,
            k,
        ).len() == item_ids.len(),
{
}

/// The mark of the library's own storage does not count: the file name of a marked path is that
/// of the path behind the mark, and any other path is taken as it is.
pub proof fn law_storage_mark_does_not_count(path: Seq<char>, name: Option<Seq<char>>)
    ensures
        may_be_attachment_name("storage:"@ + path, name) <==> may_be_file_name(path, name),
        !"storage:"@.is_prefix_of(path) ==> (may_be_attachment_name(path, name)
            <==> may_be_file_name(path, name)),
{
    let marked = "storage:"@ + path;
    assert(marked.subrange(0, "storage:"@.len() as int) =~= "storage:"@);
    assert("storage:"@.is_prefix_of(marked));
    assert(marked.skip("storage:"@.len() as int) =~= path);
}

/// Every path without backslash and colon that does not begin with two slashes is read alike on
/// every platform, and has the file name of a slash-separated path; a name found in any other path
/// is a piece of it.
pub proof fn law_plain_paths_are_read_alike(path: Seq<char>, name: Option<Seq<char>>)
    requires
        may_be_file_name(path, name),
    ensures
        !path.contains('\\') && !path.contains(':') && !(path.len() >= 2 && path[0] == '/'
            && path[1] == '/') ==> name == file_name(path),
        !path.contains('\\') && path.len() < 2 ==> name == file_name(path),
        !reads_alike(path) ==> (name matches Some(text) ==> exists|i: int|
            0 <= i && i + text.len() <= path.len() && #[trigger] path.subrange(i, i + text.len())
                == text),
{
    if path.len() >= 2 && path[1] == ':' {
        assert(path.contains(':'));
    }
}

/// Whether a text is a component that can be a file name.
pub open spec fn is_plain_name(name: Seq<char>) -> bool {
    name.len() > 0 && !name.contains('/') && name != seq!['.'] && name != seq!['.', '.']
}

proof fn lemma_names_of_joined(a: Seq<char>, b: Seq<char>)
    ensures
        segments(a + seq!['/'] + b, '/').filter(|name: Seq<char>| name != seq!['.']) == segments(
            a,
            '/',
        ).filter(|name: Seq<char>| name != seq!['.']) + segments(b, '/').filter(
            |name: Seq<char>| name != seq!['.'],
        ),
{
    law_split_of_joined_texts(a, b, '/');
    Seq::filter_distributes_over_add(
        segments(a, '/'),
        segments(b, '/'),
        |name: Seq<char>| name != seq!['.'],
    );
}

proof fn lemma_one_name(name: Seq<char>)
    requires
        !name.contains('/'),
    ensures
        segments(name, '/').filter(|name: Seq<char>| name != seq!['.']) == if name.len() > 0
            && name != seq!['.'] {
            seq![name]
        } else {
            seq![]
        },
{
    let proper = |name: Seq<char>| name != seq!['.'];
    law_segments_of_one_part(name, '/');
    reveal(Seq::filter);
    let none: Seq<Seq<char>> = seq![];
    assert(none.filter(proper) =~= seq![]);
    assert(seq![name].drop_last() =~= none);
    assert(segments(name, '/').filter(proper) =~= if name.len() > 0 && name != seq!['.'] {
        seq![name]
    } else {
        seq![]
    });
}

/// A plain name is its own file name, also behind a directory. Slashes and `.` at the end do not
/// count, and a path that ends in `..` has no file name.
pub proof fn law_file_name_is_the_last_component(path: Seq<char>, name: Seq<char>)
    ensures
        is_plain_name(name) ==> file_name(name) == Some(name) && file_name(
            path + seq!['/'] + name,
        ) == Some(name),
        file_name(path + seq!['/']) == file_name(path),
        file_name(path + seq!['/', '.']) == file_name(path),
        file_name(path + seq!['/', '.', '.']) is None,
        file_name(seq![]) is None,
        file_name(seq!['.']) is None,
        file_name(seq!['.', '.']) is None,
{
    let empty: Seq<char> = seq![];
    let dot = seq!['.'];
    let up = seq!['.', '.'];
    assert(!dot.contains('/') && !up.contains('/') && !empty.contains('/'));
    lemma_one_name(empty);
    lemma_one_name(dot);
    lemma_one_name(up);
    assert(up != dot) by {
        assert(up.len() != dot.len());
    }
    lemma_names_of_joined(path, empty);
    lemma_names_of_joined(path, dot);
    lemma_names_of_joined(path, up);
    assert(path + seq!['/'] =~= path + seq!['/'] + empty);
    assert(path + seq!['/', '.'] =~= path + seq!['/'] + dot);
    assert(path + seq!['/', '.', '.'] =~= path + seq!['/'] + up);
    let proper = |name: Seq<char>| name != seq!['.'];
    let names = segments(path, '/').filter(proper);
    assert(names + Seq::<Seq<char>>::empty() =~= names);
    assert((names + seq![up]).last() == up);
    if is_plain_name(name) {
        lemma_one_name(name);
        lemma_names_of_joined(path, name);
        assert((names + seq![name]).last() == name);
    }
}

/// A plain name in the library's own storage is found under that name.
pub proof fn law_stored_name_is_the_file_name(name: Seq<char>, result: Option<Seq<char>>)
    requires
        is_plain_name(name),
        reads_alike(name),
        may_be_attachment_name("storage:"@ + name, result),
    ensures
        result == Some(name),
{
    law_storage_mark_does_not_count(name, result);
    law_file_name_is_the_last_component(name, name);
}

/// Whether the path at `i` is known and has a file name, for a slash-separated path.
pub open spec fn has_file_name(paths: Seq<Option<String>>, i: int) -> bool {
    paths[i] matches Some(path) && file_name(without_storage_mark(path@)) is Some
}

/// The file name at `i`, where there is one.
pub open spec fn file_name_at(paths: Seq<Option<String>>, i: int) -> Seq<char> {
    file_name(without_storage_mark(paths[i]->0@))->0
}

/// The file names of attachments are those of exactly the paths that have one, in their order.
pub proof fn law_file_names_come_from_the_paths(paths: Seq<Option<String>>)
    ensures
        is_sublist(
            Seq::new(paths.len(), |i: int| file_name_at(paths, i)),
            attachment_names(paths),
            |i: int| has_file_name(paths, i),
        ),
    decreases paths.len(),
{
    let whole = Seq::new(paths.len(), |i: int| file_name_at(paths, i));
    let kept = |i: int| has_file_name(paths, i);
    if paths.len() == 0 {
        lemma_sublist_empty(whole, attachment_names(paths), kept);
    } else {
        let front = paths.drop_last();
        let narrow = |i: int| has_file_name(front, i);
        law_file_names_come_from_the_paths(front);
        assert(Seq::new(front.len(), |i: int| file_name_at(front, i)) =~= whole.drop_last());
        assert forall|i: int| 0 <= i < front.len() implies #[trigger] narrow(i) == kept(i) by {
            assert(front[i] == paths[i]);
        }
        lemma_sublist_step(
            whole.drop_last(),
            attachment_names(front),
            narrow,
            kept,
            whole.last(),
        );
        assert(whole.drop_last().push(whole.last()) =~= whole);
    }
}

/// On any platform the file names come from the paths, in order: the names of two lists of paths
/// are names of the first and then names of the second.
pub proof fn law_file_names_of_joined_lists(
    first: Seq<Option<String>>,
    second: Seq<Option<String>>,
    names: Seq<Seq<char>>,
)
    ensures
        may_be_attachment_names(first + second, names) <==> exists|n: int|
            0 <= n <= names.len() && #[trigger] may_be_attachment_names(first, names.take(n))
                && may_be_attachment_names(second, names.skip(n)),
    decreases second.len(),
{
    let whole = first + second;
    if second.len() == 0 {
        assert(whole =~= first);
        assert(names.take(names.len() as int) =~= names);
        assert(names.skip(names.len() as int) =~= seq![]);
        if may_be_attachment_names(whole, names) {
            assert(may_be_attachment_names(first, names.take(names.len() as int)));
        }
        if exists|n: int|
            0 <= n <= names.len() && #[trigger] may_be_attachment_names(first, names.take(n))
                && may_be_attachment_names(second, names.skip(n)) {
            let n = choose|n: int|
                0 <= n <= names.len() && #[trigger] may_be_attachment_names(first, names.take(n))
                    && may_be_attachment_names(second, names.skip(n));
            assert(n == names.len());
        }
    } else {
        let shorter = second.drop_last();
        assert(whole.drop_last() =~= first + shorter);
        assert(whole.last() == second.last());
        law_file_names_of_joined_lists(first, shorter, names);
        if names.len() > 0 {
            law_file_names_of_joined_lists(first, shorter, names.drop_last());
        }
        if may_be_attachment_names(whole, names) {
            if may_be_attachment_names(whole.drop_last(), names) && (whole.last() is None
                || may_be_attachment_name(whole.last()->0@, None)) {
                let n = choose|n: int|
                    0 <= n <= names.len() && #[trigger] may_be_attachment_names(
                        first,
                        names.take(n),
                    ) && may_be_attachment_names(shorter, names.skip(n));
                assert(may_be_attachment_names(second, names.skip(n)));
            } else {
                let n = choose|n: int|
                    0 <= n <= names.drop_last().len() && #[trigger] may_be_attachment_names(
                        first,
                        names.drop_last().take(n),
                    ) && may_be_attachment_names(shorter, names.drop_last().skip(n));
                assert(names.drop_last().take(n) =~= names.take(n));
                assert(names.skip(n).drop_last() =~= names.drop_last().skip(n));
                assert(may_be_attachment_names(second, names.skip(n)));
            }
        }
        if exists|n: int|
            0 <= n <= names.len() && #[trigger] may_be_attachment_names(first, names.take(n))
                && may_be_attachment_names(second, names.skip(n)) {
            let n = choose|n: int|
                0 <= n <= names.len() && #[trigger] may_be_attachment_names(first, names.take(n))
                    && may_be_attachment_names(second, names.skip(n));
            let rest = names.skip(n);
            if may_be_attachment_names(shorter, rest) && (second.last() is None
                || may_be_attachment_name(second.last()->0@, None)) {
                assert(may_be_attachment_names(first + shorter, names));
            } else {
                assert(rest.len() > 0);
                assert(names.drop_last().take(n) =~= names.take(n));
                assert(rest.drop_last() =~= names.drop_last().skip(n));
                assert(may_be_attachment_names(first, names.drop_last().take(n)));
                assert(may_be_attachment_names(first + shorter, names.drop_last()));
                assert(names.last() == rest.last());
            }
        }
    }
}

/// A single path gives its file name or nothing, and one that is not known gives nothing.
pub proof fn law_file_names_of_one_path(path: Option<String>, names: Seq<Seq<char>>)
    ensures
        may_be_attachment_names(seq![path], names) <==> match path {
            Some(text) => (names.len() == 0 && may_be_attachment_name(text@, None)) || (names.len()
                == 1 && may_be_attachment_name(text@, Some(names[0]))),
            None => names.len() == 0,
        },
{
    let paths = seq![path];
    let none: Seq<Option<String>> = seq![];
    assert(paths.drop_last() =~= none);
    assert(paths.last() == path);
    reveal_with_fuel(may_be_attachment_names, 2);
    if names.len() == 1 {
        assert(names.drop_last().len() == 0);
        assert(names.last() == names[0]);
    }
    if names.len() > 1 {
        assert(names.drop_last().len() > 0);
    }
}

/// A text that may be missing is read as it is.
pub proof fn law_text_of(text: Option<String>)
    ensures
        text matches Some(s) ==> text_of(text) == Some(s@),
        text is None ==> text_of(text) is None,
{
}

/// A path with a backslash or a drive has one of two file names: the one behind its last slash, or
/// the one behind its last slash or backslash without the drive.
pub proof fn law_other_paths_have_one_of_two_names(path: Seq<char>, name: Option<Seq<char>>)
    requires
        may_be_file_name(path, name),
        path.len() >= 2,
        !(path[0] == '/' || path[0] == '\\') || !(path[1] == '/' || path[1] == '\\'),
    ensures
        name == file_name(path) || name == file_name(with_slashes(path)),
{
}

/// Reading a path with slashes alone keeps the length behind the drive, turns each backslash into
/// a slash, and keeps every other character.
pub proof fn law_with_slashes(path: Seq<char>)
    ensures
        ({
            let drive = path.len() >= 2 && path[1] == ':' && (97 <= path[0] as int <= 122 || 65
                <= path[0] as int <= 90);
            let start = if drive {
                2int
            } else {
                0
            };
            &&& with_slashes(path).len() == path.len() - start
            &&& forall|i: int|
                0 <= i < path.len() - start ==> #[trigger] with_slashes(path)[i] == (if path[i
                    + start] == '\\' {
                    '/'
                } else {
                    path[i + start]
                })
        }),
{
}

} // verus!
