//! Mathematical model of the archive format: the shape of a boundary marker,
//! the division of a buffer into items on occurrences of the delimiter, the
//! classification of each item, and the mapping from entry names to contents
//! that a successful parse denotes.

use vstd::prelude::*;

verus! {

/// `m` is the length of a boundary marker standing at the very start of `s`:
/// a `<`, any number of `=`, and a closing `>`.
pub open spec fn is_boundary(s: Seq<char>, m: int) -> bool {
    &&& 2 <= m <= s.len()
    &&& s[0] == '<'
    &&& s[m - 1] == '>'
    &&& forall|j: int| 1 <= j < m - 1 ==> s[j] == '='
}

/// The buffer starts with a boundary marker.
pub open spec fn has_boundary(s: Seq<char>) -> bool {
    exists|m: int| is_boundary(s, m)
}

/// Length of the boundary marker at the start of `s`.
pub open spec fn boundary_len(s: Seq<char>) -> int {
    choose|m: int| is_boundary(s, m)
}

/// A buffer has at most one boundary marker at its start.
pub proof fn lemma_boundary_unique(s: Seq<char>, m1: int, m2: int)
    requires
        is_boundary(s, m1),
        is_boundary(s, m2),
    ensures
        m1 == m2,
{
    if m1 < m2 {
        assert(s[m1 - 1] == '=');
    }
    if m2 < m1 {
        assert(s[m2 - 1] == '=');
    }
}

/// The delimiter that separates items: a newline followed by the boundary
/// marker of the buffer.
pub open spec fn delim_of(s: Seq<char>) -> Seq<char> {
    seq!['\n'] + s.subrange(0, boundary_len(s))
}

/// The delimiter `d` occurs in `s` at position `i`.
pub open spec fn occurs_at(s: Seq<char>, d: Seq<char>, i: int) -> bool {
    &&& 0 <= i
    &&& i + d.len() <= s.len()
    &&& s.subrange(i, i + d.len()) == d
}

/// Position `i` is the leftmost occurrence of `d` in `s`.
pub open spec fn is_first_occ(s: Seq<char>, d: Seq<char>, i: int) -> bool {
    &&& occurs_at(s, d, i)
    &&& forall|j: int| 0 <= j < i ==> !occurs_at(s, d, j)
}

/// There is at most one leftmost occurrence.
pub proof fn lemma_first_occ_unique(s: Seq<char>, d: Seq<char>, i1: int, i2: int)
    requires
        is_first_occ(s, d, i1),
        is_first_occ(s, d, i2),
    ensures
        i1 == i2,
{
}

/// The items of `s`, in order: the pieces that remain when every occurrence
/// of the delimiter `d` is removed, scanning for occurrences left to right.
pub open spec fn split_on(s: Seq<char>, d: Seq<char>) -> Seq<Seq<char>>
    decreases s.len() when d.len() > 0
{
    if exists|i: int| is_first_occ(s, d, i) {
        let i = choose|i: int| is_first_occ(s, d, i);
        seq![s.take(i)] + split_on(s.skip(i + d.len()), d)
    } else {
        seq![s]
    }
}

/// Splitting a buffer whose leftmost delimiter occurrence is at `i` yields
/// the piece before `i` followed by the split of what comes after the
/// delimiter.
pub proof fn lemma_split_on_step(s: Seq<char>, d: Seq<char>, i: int)
    requires
        d.len() > 0,
        is_first_occ(s, d, i),
    ensures
        split_on(s, d) == seq![s.take(i)] + split_on(s.skip(i + d.len()), d),
{
    let i0 = choose|k: int| is_first_occ(s, d, k);
    lemma_first_occ_unique(s, d, i0, i);
}

/// Splitting a buffer in which the delimiter does not occur yields that
/// buffer as the only item.
pub proof fn lemma_split_on_none(s: Seq<char>, d: Seq<char>)
    requires
        d.len() > 0,
        forall|j: int| 0 <= j ==> !occurs_at(s, d, j),
    ensures
        split_on(s, d) == seq![s],
{
    assert(forall|i: int| !is_first_occ(s, d, i));
}

/// The character `c` appears somewhere in `s`.
pub open spec fn has_char(s: Seq<char>, c: char) -> bool {
    exists|k: int| 0 <= k < s.len() && s[k] == c
}

/// Position `j` holds the first appearance of `c` in `s`.
pub open spec fn is_first_char_at(s: Seq<char>, c: char, j: int) -> bool {
    &&& 0 <= j < s.len()
    &&& s[j] == c
    &&& forall|k: int| 0 <= k < j ==> s[k] != c
}

/// Position of the first appearance of `c` in `s`.
pub open spec fn first_char_pos(s: Seq<char>, c: char) -> int {
    choose|j: int| is_first_char_at(s, c, j)
}

/// There is at most one first appearance.
pub proof fn lemma_first_char_unique(s: Seq<char>, c: char, j1: int, j2: int)
    requires
        is_first_char_at(s, c, j1),
        is_first_char_at(s, c, j2),
    ensures
        j1 == j2,
{
}

/// What an item turns out to be once its first characters are examined.
pub enum ItemShape {
    /// An empty item, or one that starts with a newline: a comment, which
    /// contributes nothing to the archive.
    Comment,
    /// A header-prefixed item: an entry name and its content.
    Entry(Seq<char>, Seq<char>),
    /// Anything else: the item is malformed and the parse fails.
    Malformed,
}

/// Classification of one item.  An item starting with a single space holds a
/// name up to the first newline and its content after that newline; with no
/// newline, the whole remainder is the name and the content is empty.
pub open spec fn classify(item: Seq<char>) -> ItemShape {
    if item.len() == 0 || item[0] == '\n' {
        ItemShape::Comment
    } else if item[0] == ' ' {
        let rest = item.skip(1);
        if has_char(rest, '\n') {
            let j = first_char_pos(rest, '\n');
            ItemShape::Entry(rest.take(j), rest.skip(j + 1))
        } else {
            ItemShape::Entry(rest, Seq::empty())
        }
    } else {
        ItemShape::Malformed
    }
}

/// The mapping from entry names to contents denoted by a sequence of items,
/// or the text of the first malformed item.  Comments are discarded; entries
/// are recorded left to right, a later entry overwriting an earlier one of
/// the same name.
pub open spec fn build_map(items: Seq<Seq<char>>) -> Result<
    Map<Seq<char>, Seq<char>>,
    Seq<char>,
>
    decreases items.len(),
{
    if items.len() == 0 {
        Ok(Map::empty())
    } else {
        match build_map(items.drop_last()) {
            Err(t) => Err(t),
            Ok(m) => match classify(items.last()) {
                ItemShape::Comment => Ok(m),
                ItemShape::Entry(n, c) => Ok(m.insert(n, c)),
                ItemShape::Malformed => Err(items.last()),
            },
        }
    }
}

/// Occurrences of `d` in a suffix of `s` are the occurrences of `d` in `s`
/// at or after the start of that suffix.
pub proof fn lemma_occ_shift(s: Seq<char>, d: Seq<char>, start: int, j: int)
    requires
        0 <= start <= s.len(),
        0 <= j,
    ensures
        occurs_at(s.skip(start), d, j) == occurs_at(s, d, start + j),
{
    if j + d.len() <= s.len() - start {
        assert(s.skip(start).subrange(j, j + d.len()) =~= s.subrange(
            start + j,
            start + j + d.len(),
        ));
    }
}

/// What one item contributes to the mapping: a comment nothing, an entry its
/// pair; a malformed item contributes nothing here, the parse having failed.
pub open spec fn apply_item(m: Map<Seq<char>, Seq<char>>, it: Seq<char>) -> Map<
    Seq<char>,
    Seq<char>,
> {
    match classify(it) {
        ItemShape::Comment => m,
        ItemShape::Entry(n, c) => m.insert(n, c),
        ItemShape::Malformed => m,
    }
}

/// The items of a buffer that starts with a boundary marker: the part after
/// the marker, split on newline-plus-marker.
pub open spec fn items_of(s: Seq<char>) -> Seq<Seq<char>> {
    split_on(s.skip(boundary_len(s)), delim_of(s))
}

/// Extending an item sequence whose denotation is already an error does not
/// change that denotation.
pub proof fn lemma_build_extends_err(p: Seq<Seq<char>>, q: Seq<Seq<char>>)
    requires
        build_map(p) is Err,
    ensures
        build_map(p + q) == build_map(p),
    decreases q.len(),
{
    if q.len() == 0 {
        assert(p + q =~= p);
    } else {
        assert((p + q).drop_last() =~= p + q.drop_last());
        lemma_build_extends_err(p, q.drop_last());
        assert((p + q).len() > 0);
    }
}

/// Appending one item refines the denotation as one would expect: an error
/// stays, a comment changes nothing, an entry is inserted, a malformed item
/// becomes the error.
pub proof fn lemma_build_push(p: Seq<Seq<char>>, x: Seq<char>)
    ensures
        build_map(p.push(x)) == (match build_map(p) {
            Err(t) => Err(t),
            Ok(m) => match classify(x) {
                ItemShape::Comment => Ok(m),
                ItemShape::Entry(n, c) => Ok(m.insert(n, c)),
                ItemShape::Malformed => Err(x),
            },
        }),
{
    assert(p.push(x).drop_last() =~= p);
    assert(p.push(x).last() == x);
}

} // verus!
