//! Properties of the model that hold of every archive: which entry wins when
//! a name repeats, what a header-prefixed item denotes, and that comments
//! leave the result untouched.

use vstd::prelude::*;

use crate::model::{
    build_map, classify, first_char_pos, has_char, is_first_char_at, lemma_build_push,
    lemma_first_char_unique, ItemShape,
};

verus! {

/// The item is an entry whose name is `n`.
pub open spec fn defines_name(it: Seq<char>, n: Seq<char>) -> bool {
    classify(it) matches ItemShape::Entry(n2, _c) && n2 == n
}

/// When a name repeats among the items, the mapping of a successful parse
/// holds the content of the last entry of that name in source order: an
/// entry at position `i` that no later item names again decides the name's
/// content.
pub proof fn lemma_last_entry_wins(
    items: Seq<Seq<char>>,
    m: Map<Seq<char>, Seq<char>>,
    i: int,
    n: Seq<char>,
    c: Seq<char>,
)
    requires
        build_map(items) == Ok::<Map<Seq<char>, Seq<char>>, Seq<char>>(m),
        0 <= i < items.len(),
        classify(items[i]) == ItemShape::Entry(n, c),
        forall|j: int| i < j < items.len() ==> !defines_name(#[trigger] items[j], n),
    ensures
        m.contains_pair(n, c),
    decreases items.len(),
{
    let p = items.drop_last();
    let last = items.last();
    assert(build_map(p) is Ok);
    let m0 = build_map(p)->Ok_0;
    if i == items.len() - 1 {
        assert(m == m0.insert(n, c));
    } else {
        assert(p[i] == items[i]);
        assert(forall|j: int| i < j < p.len() ==> !defines_name(#[trigger] p[j], n));
        lemma_last_entry_wins(p, m0, i, n, c);
        match classify(last) {
            ItemShape::Comment => {
                assert(m == m0);
            },
            ItemShape::Entry(n2, c2) => {
                assert(!defines_name(last, n));
                assert(n2 != n);
                assert(m == m0.insert(n2, c2));
            },
            ItemShape::Malformed => {
                assert(false);
            },
        }
    }
}

/// An item written as a space, a name free of newlines, a newline, and then
/// the content classifies as exactly that entry: the content is taken
/// verbatim, embedded and trailing newlines included.
pub proof fn lemma_entry_item(name: Seq<char>, content: Seq<char>)
    requires
        forall|k: int| 0 <= k < name.len() ==> name[k] != '\n',
    ensures
        classify(seq![' '] + name + seq!['\n'] + content) == ItemShape::Entry(name, content),
{
    let it = seq![' '] + name + seq!['\n'] + content;
    assert(it[0] == ' ');
    let rest = it.skip(1);
    assert(rest =~= name + seq!['\n'] + content);
    assert(rest[name.len() as int] == '\n');
    assert(is_first_char_at(rest, '\n', name.len() as int));
    assert(has_char(rest, '\n'));
    let j0 = first_char_pos(rest, '\n');
    assert(is_first_char_at(rest, '\n', j0));
    lemma_first_char_unique(rest, '\n', j0, name.len() as int);
    assert(rest.take(name.len() as int) =~= name);
    assert(rest.skip(name.len() as int + 1) =~= content);
}

/// A header item with no newline after the name classifies as an entry of
/// that name with empty content.
pub proof fn lemma_bare_entry_item(name: Seq<char>)
    requires
        forall|k: int| 0 <= k < name.len() ==> name[k] != '\n',
    ensures
        classify(seq![' '] + name) == ItemShape::Entry(name, Seq::<char>::empty()),
{
    let it = seq![' '] + name;
    assert(it[0] == ' ');
    let rest = it.skip(1);
    assert(rest =~= name);
    assert(!has_char(rest, '\n'));
}

/// Round trip: when an entry is written out as a space, its name, a newline
/// and its content, and no later item names that entry again, a successful
/// parse maps the name to that content, exactly as written.
pub proof fn lemma_round_trip(
    items: Seq<Seq<char>>,
    m: Map<Seq<char>, Seq<char>>,
    i: int,
    name: Seq<char>,
    content: Seq<char>,
)
    requires
        build_map(items) == Ok::<Map<Seq<char>, Seq<char>>, Seq<char>>(m),
        0 <= i < items.len(),
        items[i] == seq![' '] + name + seq!['\n'] + content,
        forall|k: int| 0 <= k < name.len() ==> name[k] != '\n',
        forall|j: int| i < j < items.len() ==> !defines_name(#[trigger] items[j], name),
    ensures
        m.contains_pair(name, content),
{
    lemma_entry_item(name, content);
    lemma_last_entry_wins(items, m, i, name, content);
}

/// A comment item contributes nothing: with it or without it, the items
/// denote the same result, mapping and error alike.
pub proof fn lemma_comment_ignored(
    before: Seq<Seq<char>>,
    c: Seq<char>,
    after: Seq<Seq<char>>,
)
    requires
        classify(c) is Comment,
    ensures
        build_map(before + seq![c] + after) == build_map(before + after),
    decreases after.len(),
{
    if after.len() == 0 {
        assert(before + seq![c] + after =~= before.push(c));
        assert(before + after =~= before);
        lemma_build_push(before, c);
    } else {
        let q = after.drop_last();
        let x = after.last();
        lemma_comment_ignored(before, c, q);
        assert((before + seq![c] + after).drop_last() =~= before + seq![c] + q);
        assert((before + after).drop_last() =~= before + q);
        assert((before + seq![c] + after).last() == x);
        assert((before + after).last() == x);
        assert((before + seq![c] + after).len() > 0);
        assert((before + after).len() > 0);
    }
}

} // verus!
