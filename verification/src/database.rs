//! A model of the database: what the queries for items ask, and what they answer.
use vstd::prelude::*;

#[allow(unused_imports)]
use crate::matching::{answers, has_every_key, lemma_full_count, names_counted};
use crate::query::Query;
#[allow(unused_imports)]
use crate::query::{
    arguments, asks_for_either, placeholders, tagged_items_arguments, tagged_items_sql, SqlArgument,
};
#[allow(unused_imports)]
use crate::tags::lowercase_all;
#[allow(unused_imports)]
use crate::text::{ascii_lowered_all, joined};

verus! {

/// What the database holds: the items of each collection, and the names of each item's tags.
pub struct Library {
    pub items: Map<i64, Set<i64>>,
    pub tags: Map<i64, Set<Seq<char>>>,
}

/// Whether a collection holds an item.
pub open spec fn holds_item(library: Library, col_id: i64, item: i64) -> bool {
    library.items.contains_key(col_id) && library.items[col_id].contains(item)
}

/// The names of an item's tags.
pub open spec fn names_of_item(library: Library, item: i64) -> Set<Seq<char>> {
    if library.tags.contains_key(item) {
        library.tags[item]
    } else {
        Set::empty()
    }
}

/// How a count is compared with a parameter.
pub enum Comparison {
    Less,
    AtMost,
    Equal,
    AtLeast,
    Greater,
}

/// The operator of a comparison.
pub open spec fn operator(comparison: Comparison) -> Seq<char> {
    match comparison {
        Comparison::Less => "<"@,
        Comparison::AtMost => "<="@,
        Comparison::Equal => "="@,
        Comparison::AtLeast => ">="@,
        Comparison::Greater => ">"@,
    }
}

/// Whether a comparison holds.
pub open spec fn compares(comparison: Comparison, count: int, bound: int) -> bool {
    match comparison {
        Comparison::Less => count < bound,
        Comparison::AtMost => count <= bound,
        Comparison::Equal => count == bound,
        Comparison::AtLeast => count >= bound,
        Comparison::Greater => count > bound,
    }
}

/// A query for the items of a collection that have tags among `names` given names: for each item
/// the different ones are counted, and the count is compared with the last parameter.
pub struct TaggedSelect {
    pub names: nat,
    pub comparison: Comparison,
}

/// The text of such a query.
pub open spec fn select_text(select: TaggedSelect) -> Seq<char> {
    "SELECT ci.itemID\n         FROM collectionItems ci\n         JOIN itemTags it ON it.itemID = ci.itemID\n         JOIN tags t ON t.tagID = it.tagID\n         WHERE ci.collectionID = ? AND lower(t.name) IN ("@
        + placeholders(select.names)
        + ")\n         GROUP BY ci.itemID\n         HAVING COUNT(DISTINCT lower(t.name)) "@
        + operator(select.comparison) + " ?"@
}

/// The text of a parameter.
pub open spec fn argument_text(argument: SqlArgument) -> Seq<char> {
    match argument {
        SqlArgument::Text(text) => text,
        SqlArgument::Integer(_) => seq![],
    }
}

/// Whether a parameter is the number `n`.
pub open spec fn is_number(argument: SqlArgument, n: int) -> bool {
    match argument {
        SqlArgument::Text(_) => false,
        SqlArgument::Integer(number) => number == n,
    }
}

/// Whether the query answers with an item, given its parameters in order: the collection, the
/// names, and the number with which the count is compared. An item without any of the names is in
/// no group.
pub open spec fn select_answers(
    select: TaggedSelect,
    arguments: Seq<SqlArgument>,
    library: Library,
    item: i64,
) -> bool {
    let keys = Seq::new(select.names, |i: int| argument_text(arguments[i + 1]));
    let count = names_counted(names_of_item(library, item), keys).len() as int;
    &&& exists|col_id: i64| #[trigger]
        holds_item(library, col_id, item) && is_number(arguments[0], col_id as int)
    &&& count > 0
    &&& exists|bound: int| #[trigger]
        is_number(arguments[select.names as int + 1], bound) && compares(
            select.comparison,
            count,
            bound,
        )
}

/// The text of queries whose answers are put together.
pub open spec fn union_text(selects: Seq<TaggedSelect>) -> Seq<char> {
    joined(
        selects.map_values(|select: TaggedSelect| select_text(select)),
        "\n         UNION\n         "@,
    )
}

/// Whether one of the queries answers with an item; each takes its parameters in turn.
pub open spec fn union_answers(
    selects: Seq<TaggedSelect>,
    arguments: Seq<SqlArgument>,
    library: Library,
    item: i64,
) -> bool
    decreases selects.len(),
{
    if selects.len() == 0 {
        false
    } else {
        let used = selects[0].names + 2;
        select_answers(selects[0], arguments.take(used as int), library, item) || union_answers(
            selects.drop_first(),
            arguments.skip(used as int),
            library,
            item,
        )
    }
}

/// The query that asks for a full count of the names.
pub open spec fn full_count(names: nat) -> TaggedSelect {
    TaggedSelect { names, comparison: Comparison::Equal }
}

/// The query for tagged items is the one that compares the count for equality, whatever the
/// number of names.
pub proof fn law_tagged_query_text(n: nat)
    ensures
        tagged_items_sql(n) == select_text(full_count(n)),
        tagged_items_sql(n)
            == "SELECT ci.itemID\n         FROM collectionItems ci\n         JOIN itemTags it ON it.itemID = ci.itemID\n         JOIN tags t ON t.tagID = it.tagID\n         WHERE ci.collectionID = ? AND lower(t.name) IN ("@
            + placeholders(n)
            + ")\n         GROUP BY ci.itemID\n         HAVING COUNT(DISTINCT lower(t.name)) = ?"@,
{
    reveal_strlit(")\n         GROUP BY ci.itemID\n         HAVING COUNT(DISTINCT lower(t.name)) = ?");
    reveal_strlit(")\n         GROUP BY ci.itemID\n         HAVING COUNT(DISTINCT lower(t.name)) ");
    reveal_strlit("=");
    reveal_strlit(" ?");
    assert(")\n         GROUP BY ci.itemID\n         HAVING COUNT(DISTINCT lower(t.name)) = ?"@
        =~= ")\n         GROUP BY ci.itemID\n         HAVING COUNT(DISTINCT lower(t.name)) "@ + "="@
        + " ?"@);
    assert(tagged_items_sql(n) =~= select_text(full_count(n)));
}

/// The query for tagged items answers with exactly the items of the collection that have a tag
/// for each of the names, where the names are all different.
pub proof fn law_tagged_query_answers(
    col_id: i64,
    keys: Seq<Seq<char>>,
    library: Library,
    item: i64,
)
    requires
        0 < keys.len() <= i64::MAX,
    ensures
        tagged_items_arguments(col_id, keys).len() == keys.len() + 2,
        select_answers(
            full_count(keys.len()),
            tagged_items_arguments(col_id, keys),
            library,
            item,
        ) <==> holds_item(library, col_id, item) && has_every_key(
            names_of_item(library, item),
            keys,
        ),
{
    let args = tagged_items_arguments(col_id, keys);
    let select = full_count(keys.len());
    let read = Seq::new(select.names, |i: int| argument_text(args[i + 1]));
    let names = names_of_item(library, item);
    assert(read =~= keys) by {
        assert forall|i: int| 0 <= i < keys.len() implies read[i] == keys[i] by {
            assert(args[i + 1] == SqlArgument::Text(keys[i]));
        }
    }
    lemma_full_count(names, keys);
    assert(args[0] == SqlArgument::Integer(col_id));
    assert(args[keys.len() as int + 1] == SqlArgument::Integer(keys.len() as i64));
    assert(is_number(args[select.names as int + 1], keys.len() as int));
    if holds_item(library, col_id, item) {
        assert(holds_item(library, col_id, item) && is_number(args[0], col_id as int));
    }
}

/// The query for the items of a collection with tags answers with an item of the collection
/// exactly where it has a tag for each of the lowercase tags, or every tag whatever the case of
/// ASCII letters, where these are all different.
pub proof fn law_item_query_answers(
    query: Query,
    col_id: i64,
    tags: Seq<Seq<char>>,
    library: Library,
    item: i64,
)
    requires
        0 < tags.len() <= i64::MAX,
        asks_for_either(query, col_id, lowercase_all(tags), ascii_lowered_all(tags)),
    ensures
        ({
            let one = full_count(tags.len());
            let selects = if lowercase_all(tags) == ascii_lowered_all(tags) {
                seq![one]
            } else {
                seq![one, one]
            };
            let names = names_of_item(library, item);
            &&& query.sql@ == union_text(selects)
            &&& union_answers(selects, arguments(query.params@), library, item) <==> holds_item(
                library,
                col_id,
                item,
            ) && (has_every_key(names, lowercase_all(tags)) || has_every_key(
                names,
                ascii_lowered_all(tags),
            ))
            &&& union_answers(selects, arguments(query.params@), library, item) <==> holds_item(
                library,
                col_id,
                item,
            ) && answers(names, tags)
        }),
{
    let (lowered, folded) = (lowercase_all(tags), ascii_lowered_all(tags));
    let one = full_count(tags.len());
    let names = names_of_item(library, item);
    let glue = "\n         UNION\n         "@;
    let used = (tags.len() + 2) as int;
    let args = arguments(query.params@);
    let text = select_text(one);
    law_tagged_query_text(tags.len());
    law_tagged_query_answers(col_id, lowered, library, item);
    law_tagged_query_answers(col_id, folded, library, item);
    lemma_full_count(names, lowered);
    lemma_full_count(names, folded);
    reveal_with_fuel(joined, 3);
    reveal_with_fuel(union_answers, 3);
    let first = tagged_items_arguments(col_id, lowered);
    if lowered == folded {
        let selects = seq![one];
        let rendered = selects.map_values(|select: TaggedSelect| select_text(select));
        assert(rendered =~= seq![text]);
        assert(args.take(used) =~= first);
        assert(selects.drop_first() =~= seq![]);
    } else {
        let second = tagged_items_arguments(col_id, folded);
        let selects = seq![one, one];
        let rendered = selects.map_values(|select: TaggedSelect| select_text(select));
        assert(rendered =~= seq![text, text]);
        assert(rendered.drop_last() =~= seq![text]);
        assert(joined(rendered, glue) =~= text + glue + text);
        assert(args.take(used) =~= first);
        assert(args.skip(used) =~= second);
        assert(second.take(used) =~= second);
        assert(selects.drop_first() =~= seq![one]);
        assert(seq![one].drop_first() =~= seq![]);
    }
}

} // verus!
