//! The archive type and its parser.  `Archive::parse` turns a text buffer
//! into a name-sorted collection of entries; the accessors look entries up,
//! list the names, and hand out all pairs.

use vstd::prelude::*;
use vstd::string::StrSliceExecFns;
use vstd::string::StringExecFns;

use crate::model::{
    boundary_len, build_map, classify, delim_of, has_boundary, has_char, is_boundary,
    is_first_char_at, is_first_occ, items_of, lemma_boundary_unique, lemma_build_extends_err,
    lemma_build_push, lemma_first_char_unique, lemma_occ_shift, lemma_split_on_none,
    lemma_split_on_step, occurs_at, split_on, ItemShape,
};
use crate::order::{lemma_lex_irrefl, lemma_lex_trans, lex_lt, str_compare, CmpRes};

verus! {

/// An error parsing archive data.
#[derive(Debug, PartialEq, Eq)]
pub enum Error {
    /// The buffer does not begin with a boundary marker.
    NoBoundary,
    /// An item is neither a comment nor a header-prefixed entry; its literal
    /// text is attached.
    InvalidItem(String),
}

/// An error loading an archive from a file: either the file could not be
/// read, or its text could not be parsed.  Both carry the path; an I/O error
/// carries the description of the underlying failure.
#[derive(Debug, PartialEq, Eq)]
pub enum FileError {
    /// The file was read but its text is not a well-formed archive.
    Data(String, Error),
    /// The file could not be read at all.
    Io(String, String),
}

/// The names are in strict lexicographic order; in particular they are
/// distinct, and each name is paired with the content at the same index.
pub open spec fn names_sorted(ns: Seq<String>) -> bool {
    forall|i: int, j: int| 0 <= i < j < ns.len() ==> lex_lt(ns[i]@, ns[j]@)
}

/// Index of the name equal to `k`, where there is one.
pub open spec fn name_index(ns: Seq<String>, k: Seq<char>) -> int {
    choose|i: int| 0 <= i < ns.len() && ns[i]@ == k
}

/// The two columns carry exactly the pairs of the mapping `m`, with the
/// names in strict order.
pub open spec fn inv_entries(
    ns: Seq<String>,
    cs: Seq<String>,
    m: Map<Seq<char>, Seq<char>>,
) -> bool {
    &&& ns.len() == cs.len()
    &&& names_sorted(ns)
    &&& forall|i: int| 0 <= i < ns.len() ==> #[trigger] m.contains_pair(ns[i]@, cs[i]@)
    &&& forall|k: Seq<char>|
        #[trigger] m.contains_key(k) ==> exists|i: int| 0 <= i < ns.len() && ns[i]@ == k
}

/// Strictly ordered names are pairwise different.
proof fn lemma_sorted_distinct(ns: Seq<String>)
    requires
        names_sorted(ns),
    ensures
        forall|i: int, j: int|
            0 <= i < ns.len() && 0 <= j < ns.len() && i != j ==> ns[i]@ != ns[j]@,
{
    assert forall|i: int, j: int|
        0 <= i < ns.len() && 0 <= j < ns.len() && i != j implies ns[i]@ != ns[j]@ by {
        if ns[i]@ == ns[j]@ {
            if i < j {
                lemma_lex_irrefl(ns[i]@);
            } else {
                lemma_lex_irrefl(ns[j]@);
            }
        }
    }
}

/// Parsed archive data: an immutable mapping from entry name to entry
/// content, enumerated in lexicographic order of the names.
#[derive(Debug)]
pub struct Archive {
    names: Vec<String>,
    contents: Vec<String>,
}

impl View for Archive {
    type V = Map<Seq<char>, Seq<char>>;

    /// An archive denotes the mapping from each of its names to the content
    /// stored beside that name.
    closed spec fn view(&self) -> Map<Seq<char>, Seq<char>> {
        Map::new(
            |k: Seq<char>|
                exists|i: int| 0 <= i < self.names@.len() && self.names@[i]@ == k,
            |k: Seq<char>| self.contents@[name_index(self.names@, k)]@,
        )
    }
}

impl Archive {
    #[verifier::type_invariant]
    spec fn wf(self) -> bool {
        &&& self.names@.len() == self.contents@.len()
        &&& names_sorted(self.names@)
    }

    /// The pair at index `i` is a pair of the denoted mapping.
    proof fn lemma_view_pair(&self, i: int)
        requires
            self.wf(),
            0 <= i < self.names@.len(),
        ensures
            self@.contains_key(self.names@[i]@),
            self@[self.names@[i]@] == self.contents@[i]@,
    {
        let k = self.names@[i]@;
        assert(self@.dom().contains(k));
        let j = name_index(self.names@, k);
        lemma_sorted_distinct(self.names@);
        assert(0 <= j < self.names@.len() && self.names@[j]@ == k);
        assert(j == i);
    }

    /// The two columns carrying exactly the pairs of `m` means the archive
    /// denotes `m`.
    proof fn lemma_view_is(&self, m: Map<Seq<char>, Seq<char>>)
        requires
            inv_entries(self.names@, self.contents@, m),
        ensures
            self@ == m,
    {
        assert forall|k: Seq<char>| self@.contains_key(k) implies m.contains_key(k) by {
            let i = choose|i: int| 0 <= i < self.names@.len() && self.names@[i]@ == k;
            assert(m.contains_pair(self.names@[i]@, self.contents@[i]@));
        }
        assert forall|k: Seq<char>| m.contains_key(k) implies self@.contains_key(k)
            && self@[k] == m[k] by {
            let i = choose|i: int| 0 <= i < self.names@.len() && self.names@[i]@ == k;
            assert(self.names@[i]@ == k);
            self.lemma_view_pair(i);
            assert(m.contains_pair(self.names@[i]@, self.contents@[i]@));
        }
        assert(self@ =~= m);
    }

    /// Parse archive data from an in-memory buffer.
    ///
    /// The result is `Err(Error::NoBoundary)` exactly when the buffer does
    /// not begin with a boundary marker.  Otherwise the buffer's items
    /// denote either a mapping from names to contents, which the returned
    /// archive carries, or a first malformed item, whose text comes back in
    /// `Err(Error::InvalidItem(..))`.
    pub fn parse(data: &str) -> (r: Result<Archive, Error>)
        ensures
            (r matches Err(e) && e == Error::NoBoundary) <==> !has_boundary(data@),
            has_boundary(data@) ==> match build_map(items_of(data@)) {
                Ok(m) => r matches Ok(a) && a@ == m,
                Err(t) => r matches Err(e) && (e matches Error::InvalidItem(x) && x@ == t),
            },
    {
        let n = data.unicode_len();
        let blen = match find_boundary(data) {
            Some(b) => b,
            None => {
                return Err(Error::NoBoundary);
            },
        };
        proof {
            assert(has_boundary(data@));
            assert(is_boundary(data@, boundary_len(data@)));
            lemma_boundary_unique(data@, boundary_len(data@), blen as int);
        }
        let bnd = data.substring_char(0, blen);
        let rest = data.substring_char(blen, n);
        let rlen = rest.unicode_len();
        let ghost d = delim_of(data@);
        proof {
            assert(d =~= seq!['\n'] + bnd@);
            assert(data@.skip(blen as int) =~= rest@);
            assert(items_of(data@) == split_on(rest@, d));
        }
        let mut names_v: Vec<String> = Vec::new();
        let mut contents_v: Vec<String> = Vec::new();
        let ghost mut acc: Seq<Seq<char>> = Seq::empty();
        let ghost mut m: Map<Seq<char>, Seq<char>> = Map::empty();
        let mut start: usize = 0;
        proof {
            assert(rest@.skip(0) =~= rest@);
            assert(acc + split_on(rest@, d) =~= split_on(rest@, d));
            assert(build_map(acc) == Ok::<_, Seq<char>>(Map::<Seq<char>, Seq<char>>::empty()));
        }
        loop
            invariant
                start <= rlen,
                rlen == rest@.len(),
                n == data@.len(),
                blen == bnd@.len(),
                2 <= blen,
                d == delim_of(data@),
                d == seq!['\n'] + bnd@,
                has_boundary(data@),
                items_of(data@) == acc + split_on(rest@.skip(start as int), d),
                build_map(acc) == Ok::<_, Seq<char>>(m),
                inv_entries(names_v@, contents_v@, m),
            decreases rlen - start,
        {
            proof {
                assert(d.len() == 1 + blen);
            }
            match find_delim(rest, bnd, start) {
                Some(i) => {
                    let ghost suffix = rest@.skip(start as int);
                    proof {
                        assert(occurs_at(rest@, d, i as int));
                        lemma_occ_shift(rest@, d, start as int, i - start);
                        assert forall|j2: int| 0 <= j2 < i - start implies !occurs_at(
                            suffix,
                            d,
                            j2,
                        ) by {
                            lemma_occ_shift(rest@, d, start as int, j2);
                        }
                        assert(is_first_occ(suffix, d, i - start));
                        lemma_split_on_step(suffix, d, i - start);
                    }
                    let item = rest.substring_char(start, i);
                    let ghost it = item@;
                    proof {
                        assert(it =~= suffix.take(i - start));
                        assert(suffix.skip(i - start + d.len()) =~= rest@.skip(
                            i + 1 + blen as int,
                        ));
                        assert(items_of(data@) =~= (acc.push(it)) + split_on(
                            rest@.skip(i + 1 + blen as int),
                            d,
                        ));
                    }
                    match take_item(item, &mut names_v, &mut contents_v, Ghost(m)) {
                        Ok(()) => {},
                        Err(e) => {
                            proof {
                                lemma_build_push(acc, it);
                                lemma_build_extends_err(
                                    acc.push(it),
                                    split_on(rest@.skip(i + 1 + blen as int), d),
                                );
                            }
                            return Err(e);
                        },
                    }
                    proof {
                        lemma_build_push(acc, it);
                        acc = acc.push(it);
                        m = crate::model::apply_item(m, it);
                    }
                    start = i + 1 + blen;
                },
                None => {
                    let ghost suffix = rest@.skip(start as int);
                    proof {
                        assert forall|j2: int| 0 <= j2 implies !occurs_at(suffix, d, j2) by {
                            lemma_occ_shift(rest@, d, start as int, j2);
                        }
                        lemma_split_on_none(suffix, d);
                    }
                    let item = rest.substring_char(start, rlen);
                    let ghost it = item@;
                    proof {
                        assert(it =~= suffix);
                        assert(items_of(data@) =~= acc.push(it));
                    }
                    match take_item(item, &mut names_v, &mut contents_v, Ghost(m)) {
                        Ok(()) => {},
                        Err(e) => {
                            proof {
                                lemma_build_push(acc, it);
                            }
                            return Err(e);
                        },
                    }
                    proof {
                        lemma_build_push(acc, it);
                        acc = acc.push(it);
                        m = crate::model::apply_item(m, it);
                    }
                    let a = Archive { names: names_v, contents: contents_v };
                    proof {
                        a.lemma_view_is(m);
                    }
                    return Ok(a);
                },
            }
        }
    }

    /// Look the content of an entry up by its exact name.
    ///
    /// Returns the content mapped to `name`, or `None` when the archive has
    /// no entry of that name.
    pub fn get<'a>(&'a self, name: &str) -> (r: Option<&'a str>)
        ensures
            match r {
                Some(c) => self@.contains_key(name@) && c@ == self@[name@],
                None => !self@.contains_key(name@),
            },
    {
        proof {
            use_type_invariant(&*self);
        }
        let mut i: usize = 0;
        while i < self.names.len()
            invariant
                i <= self.names@.len(),
                self.names@.len() == self.contents@.len(),
                names_sorted(self.names@),
                forall|j: int| 0 <= j < i ==> self.names@[j]@ != name@,
            decreases self.names@.len() - i,
        {
            match str_compare(self.names[i].as_str(), name) {
                CmpRes::Equal => {
                    proof {
                        self.lemma_view_pair(i as int);
                    }
                    return Some(self.contents[i].as_str());
                },
                _ => {
                    i = i + 1;
                },
            }
        }
        proof {
            if self@.contains_key(name@) {
                let j = choose|j: int|
                    0 <= j < self.names@.len() && self.names@[j]@ == name@;
                assert(self.names@[j]@ != name@);
            }
        }
        None
    }

    /// List the entry names, in strict lexicographic order: every name of
    /// the archive appears exactly once, and nothing else appears.
    pub fn names(&self) -> (r: Vec<String>)
        ensures
            forall|i: int, j: int| 0 <= i < j < r@.len() ==> lex_lt(r@[i]@, r@[j]@),
            forall|i: int, j: int|
                0 <= i < r@.len() && 0 <= j < r@.len() && i != j ==> r@[i]@ != r@[j]@,
            forall|i: int| 0 <= i < r@.len() ==> self@.contains_key(#[trigger] r@[i]@),
            forall|k: Seq<char>|
                #[trigger] self@.contains_key(k) ==> exists|i: int|
                    0 <= i < r@.len() && r@[i]@ == k,
    {
        proof {
            use_type_invariant(&*self);
        }
        let mut out: Vec<String> = Vec::new();
        let mut i: usize = 0;
        while i < self.names.len()
            invariant
                i <= self.names@.len(),
                out@.len() == i,
                forall|j: int| 0 <= j < i ==> #[trigger] out@[j]@ == self.names@[j]@,
            decreases self.names@.len() - i,
        {
            out.push(self.names[i].clone());
            i = i + 1;
        }
        proof {
            use_type_invariant(&*self);
            assert forall|p: int| 0 <= p < out@.len() implies self@.contains_key(
                #[trigger] out@[p]@,
            ) by {
                self.lemma_view_pair(p);
            }
            assert forall|k: Seq<char>| #[trigger] self@.contains_key(k) implies exists|p: int|
                0 <= p < out@.len() && out@[p]@ == k by {
                let p = choose|p: int| 0 <= p < self.names@.len() && self.names@[p]@ == k;
                assert(out@[p]@ == k);
            }
            lemma_sorted_distinct(out@);
        }
        out
    }

    /// Hand out all (name, content) pairs, in strict lexicographic order of
    /// the names: exactly the pairs of the archive's mapping.
    pub fn entries(&self) -> (r: Vec<(String, String)>)
        ensures
            forall|i: int, j: int| 0 <= i < j < r@.len() ==> lex_lt(r@[i].0@, r@[j].0@),
            forall|i: int|
                0 <= i < r@.len() ==> #[trigger] self@.contains_pair(r@[i].0@, r@[i].1@),
            forall|k: Seq<char>|
                #[trigger] self@.contains_key(k) ==> exists|i: int|
                    0 <= i < r@.len() && r@[i].0@ == k,
    {
        proof {
            use_type_invariant(&*self);
        }
        let mut out: Vec<(String, String)> = Vec::new();
        let mut i: usize = 0;
        while i < self.names.len()
            invariant
                i <= self.names@.len(),
                self.names@.len() == self.contents@.len(),
                out@.len() == i,
                forall|j: int|
                    0 <= j < i ==> #[trigger] out@[j].0@ == self.names@[j]@ && out@[j].1@
                        == self.contents@[j]@,
            decreases self.names@.len() - i,
        {
            out.push((self.names[i].clone(), self.contents[i].clone()));
            i = i + 1;
        }
        proof {
            use_type_invariant(&*self);
            assert forall|p: int| 0 <= p < out@.len() implies self@.contains_pair(
                out@[p].0@,
                out@[p].1@,
            ) by {
                self.lemma_view_pair(p);
            }
            assert forall|k: Seq<char>| #[trigger] self@.contains_key(k) implies exists|p: int|
                0 <= p < out@.len() && out@[p].0@ == k by {
                let p = choose|p: int| 0 <= p < self.names@.len() && self.names@[p]@ == k;
                assert(out@[p].0@ == k);
            }
        }
        out
    }
}

/// Length of the boundary marker at the very start of the buffer, if the
/// buffer begins with one: a `<`, any run of `=`, and the first `>`.
fn find_boundary(data: &str) -> (r: Option<usize>)
    ensures
        match r {
            Some(b) => is_boundary(data@, b as int),
            None => !has_boundary(data@),
        },
{
    let n = data.unicode_len();
    if n == 0 {
        return None;
    }
    if data.get_char(0) != '<' {
        return None;
    }
    let mut i: usize = 1;
    while i < n
        invariant
            1 <= i <= n,
            n == data@.len(),
            data@[0] == '<',
            forall|j: int| 1 <= j < i ==> data@[j] == '=',
        decreases n - i,
    {
        let c = data.get_char(i);
        if c == '>' {
            return Some(i + 1);
        }
        if c != '=' {
            proof {
                assert forall|mm: int| !is_boundary(data@, mm) by {
                    if is_boundary(data@, mm) {
                        if mm - 1 < i {
                            assert(data@[mm - 1] == '=');
                        } else if mm - 1 > i {
                            assert(data@[i as int] == '=');
                        }
                    }
                }
            }
            return None;
        }
        i = i + 1;
    }
    proof {
        assert forall|mm: int| !is_boundary(data@, mm) by {
            if is_boundary(data@, mm) {
                assert(data@[mm - 1] == '=');
            }
        }
    }
    None
}

/// Whether the delimiter (a newline followed by the boundary marker) stands
/// at position `i` of the buffer remainder.
fn delim_matches_at(rest: &str, bnd: &str, i: usize) -> (r: bool)
    requires
        i < rest@.len(),
    ensures
        r == occurs_at(rest@, seq!['\n'] + bnd@, i as int),
{
    let ghost d = seq!['\n'] + bnd@;
    let rlen = rest.unicode_len();
    let blen = bnd.unicode_len();
    proof {
        assert(d.len() == 1 + blen);
    }
    if blen > rlen - i - 1 {
        return false;
    }
    if rest.get_char(i) != '\n' {
        proof {
            if occurs_at(rest@, d, i as int) {
                assert(rest@.subrange(i as int, i + d.len())[0] == rest@[i as int]);
                assert(d[0] == '\n');
            }
        }
        return false;
    }
    let mut k: usize = 0;
    while k < blen
        invariant
            k <= blen,
            blen == bnd@.len(),
            rlen == rest@.len(),
            i + 1 + blen <= rlen,
            d == seq!['\n'] + bnd@,
            rest@[i as int] == '\n',
            forall|l: int| 0 <= l < k ==> rest@[i + 1 + l] == bnd@[l],
        decreases blen - k,
    {
        if rest.get_char(i + 1 + k) != bnd.get_char(k) {
            proof {
                if occurs_at(rest@, d, i as int) {
                    assert(rest@.subrange(i as int, i + d.len())[1 + k] == rest@[
                        i + 1 + k as int
                    ]);
                    assert(d[1 + k] == bnd@[k as int]);
                }
            }
            return false;
        }
        k = k + 1;
    }
    proof {
        assert(rest@.subrange(i as int, i + d.len()) =~= d) by {
            assert forall|l: int| 0 <= l < d.len() implies rest@.subrange(
                i as int,
                i + d.len(),
            )[l] == d[l] by {
                if l == 0 {
                    assert(d[0] == '\n');
                } else {
                    assert(d[l] == bnd@[l - 1]);
                    assert(rest@[i + 1 + (l - 1)] == bnd@[l - 1]);
                }
            }
        }
    }
    true
}

/// Position of the leftmost delimiter occurrence at or after `from`, if any.
fn find_delim(rest: &str, bnd: &str, from: usize) -> (r: Option<usize>)
    requires
        from <= rest@.len(),
    ensures
        match r {
            Some(i) => from <= i && occurs_at(rest@, seq!['\n'] + bnd@, i as int) && forall|
                j: int,
            | from <= j < i ==> !occurs_at(rest@, seq!['\n'] + bnd@, j),
            None => forall|j: int| from <= j ==> !occurs_at(rest@, seq!['\n'] + bnd@, j),
        },
{
    let rlen = rest.unicode_len();
    let mut i: usize = from;
    while i < rlen
        invariant
            from <= i <= rlen,
            rlen == rest@.len(),
            forall|j: int| from <= j < i ==> !occurs_at(rest@, seq!['\n'] + bnd@, j),
        decreases rlen - i,
    {
        if delim_matches_at(rest, bnd, i) {
            return Some(i);
        }
        i = i + 1;
    }
    None
}

/// Position of the first newline at or after `from`, if any.
fn find_newline(s: &str, from: usize) -> (r: Option<usize>)
    requires
        from <= s@.len(),
    ensures
        match r {
            Some(j) => from <= j < s@.len() && s@[j as int] == '\n' && forall|k: int|
                from <= k < j ==> s@[k] != '\n',
            None => forall|k: int| from <= k < s@.len() ==> s@[k] != '\n',
        },
{
    let n = s.unicode_len();
    let mut j: usize = from;
    while j < n
        invariant
            from <= j <= n,
            n == s@.len(),
            forall|k: int| from <= k < j ==> s@[k] != '\n',
        decreases n - j,
    {
        if s.get_char(j) == '\n' {
            return Some(j);
        }
        j = j + 1;
    }
    None
}

/// Classify one item and record it: a comment is dropped, an entry is put
/// into the columns (overwriting an entry of the same name), and a malformed
/// item is reported with its text.
fn take_item(
    item: &str,
    names_v: &mut Vec<String>,
    contents_v: &mut Vec<String>,
    Ghost(m): Ghost<Map<Seq<char>, Seq<char>>>,
) -> (r: Result<(), Error>)
    requires
        inv_entries(old(names_v)@, old(contents_v)@, m),
    ensures
        match r {
            Ok(()) => !(classify(item@) is Malformed) && inv_entries(
                final(names_v)@,
                final(contents_v)@,
                crate::model::apply_item(m, item@),
            ),
            Err(e) => classify(item@) is Malformed && (e matches Error::InvalidItem(t) && t@
                == item@),
        },
{
    let ilen = item.unicode_len();
    if ilen == 0 || item.get_char(0) == '\n' {
        return Ok(());
    }
    if item.get_char(0) != ' ' {
        return Err(Error::InvalidItem(String::from_str(item)));
    }
    let ghost rest_it = item@.skip(1);
    match find_newline(item, 1) {
        Some(j) => {
            let name_s = item.substring_char(1, j);
            let content_s = item.substring_char(j + 1, ilen);
            proof {
                assert(rest_it[j - 1] == item@[j as int]);
                assert forall|k: int| 0 <= k < j - 1 implies rest_it[k] != '\n' by {
                    assert(rest_it[k] == item@[k + 1]);
                }
                assert(is_first_char_at(rest_it, '\n', j - 1));
                assert(has_char(rest_it, '\n'));
                let j0 = crate::model::first_char_pos(rest_it, '\n');
                assert(is_first_char_at(rest_it, '\n', j0));
                lemma_first_char_unique(rest_it, '\n', j0, j - 1);
                assert(name_s@ =~= rest_it.take(j - 1));
                assert(content_s@ =~= rest_it.skip(j as int));
                assert(classify(item@) == ItemShape::Entry(name_s@, content_s@));
            }
            insert_entry(
                names_v,
                contents_v,
                String::from_str(name_s),
                String::from_str(content_s),
                Ghost(m),
            );
            Ok(())
        },
        None => {
            let name_s = item.substring_char(1, ilen);
            proof {
                assert forall|k: int| 0 <= k < rest_it.len() implies rest_it[k] != '\n' by {
                    assert(rest_it[k] == item@[k + 1]);
                }
                assert(!has_char(rest_it, '\n'));
                assert(name_s@ =~= rest_it);
                assert(classify(item@) == ItemShape::Entry(name_s@, Seq::<char>::empty()));
            }
            insert_entry(names_v, contents_v, String::from_str(name_s), String::new(), Ghost(m));
            Ok(())
        },
    }
}

/// Position at which `name` stands or would be inserted among the ordered
/// names, and whether it is already there.
fn find_slot(names_v: &Vec<String>, name: &str) -> (r: (usize, bool))
    requires
        names_sorted(names_v@),
    ensures
        ({
            let (pos, eq) = r;
            &&& pos <= names_v@.len()
            &&& forall|j: int| 0 <= j < pos ==> lex_lt(#[trigger] names_v@[j]@, name@)
            &&& eq ==> pos < names_v@.len() && names_v@[pos as int]@ == name@
            &&& !eq ==> pos == names_v@.len() || lex_lt(name@, names_v@[pos as int]@)
        }),
{
    let mut i: usize = 0;
    while i < names_v.len()
        invariant
            i <= names_v@.len(),
            forall|j: int| 0 <= j < i ==> lex_lt(#[trigger] names_v@[j]@, name@),
        decreases names_v@.len() - i,
    {
        match str_compare(names_v[i].as_str(), name) {
            CmpRes::Less => {
                i = i + 1;
            },
            CmpRes::Equal => {
                return (i, true);
            },
            CmpRes::Greater => {
                return (i, false);
            },
        }
    }
    (i, false)
}

/// Record one entry: a new name goes in at its ordered position, a repeated
/// name has its content overwritten.  The columns then carry the pairs of
/// `m.insert(name@, content@)`.
fn insert_entry(
    names_v: &mut Vec<String>,
    contents_v: &mut Vec<String>,
    name: String,
    content: String,
    Ghost(m): Ghost<Map<Seq<char>, Seq<char>>>,
)
    requires
        inv_entries(old(names_v)@, old(contents_v)@, m),
    ensures
        inv_entries(final(names_v)@, final(contents_v)@, m.insert(name@, content@)),
{
    let ghost ns0 = names_v@;
    let ghost cs0 = contents_v@;
    let ghost m1 = m.insert(name@, content@);
    let (pos, eq) = find_slot(names_v, name.as_str());
    proof {
        lemma_sorted_distinct(ns0);
    }
    if eq {
        let _prev = contents_v.remove(pos);
        contents_v.insert(pos, content);
        proof {
            assert(contents_v@ =~= cs0.update(pos as int, content));
            assert forall|i: int| 0 <= i < ns0.len() implies #[trigger] m1.contains_pair(
                ns0[i]@,
                contents_v@[i]@,
            ) by {
                if i == pos {
                    assert(ns0[i]@ == name@);
                } else {
                    assert(m.contains_pair(ns0[i]@, cs0[i]@));
                    assert(ns0[i]@ != ns0[pos as int]@);
                }
            }
            assert forall|k: Seq<char>| #[trigger] m1.contains_key(k) implies exists|i: int|
                0 <= i < ns0.len() && ns0[i]@ == k by {
                if k == name@ {
                    assert(ns0[pos as int]@ == k);
                } else {
                    assert(m.contains_key(k));
                }
            }
        }
    } else {
        proof {
            assert forall|i: int| 0 <= i < ns0.len() implies ns0[i]@ != name@ by {
                if i < pos {
                    lemma_lex_irrefl(name@);
                } else if i == pos {
                    lemma_lex_irrefl(name@);
                } else {
                    lemma_lex_irrefl(name@);
                    if pos < i {
                        lemma_lex_trans(name@, ns0[pos as int]@, ns0[i]@);
                    }
                }
            }
        }
        names_v.insert(pos, name);
        contents_v.insert(pos, content);
        proof {
            let ns1 = names_v@;
            let cs1 = contents_v@;
            assert(ns1 == ns0.insert(pos as int, name));
            assert(cs1 == cs0.insert(pos as int, content));
            assert forall|p: int, q: int| 0 <= p < q < ns1.len() implies lex_lt(
                ns1[p]@,
                ns1[q]@,
            ) by {
                if q < pos {
                    assert(ns1[p]@ == ns0[p]@ && ns1[q]@ == ns0[q]@);
                } else if q == pos {
                    assert(ns1[p]@ == ns0[p]@ && ns1[q]@ == name@);
                } else if p == pos {
                    assert(ns1[p]@ == name@ && ns1[q]@ == ns0[q - 1]@);
                    assert(pos < ns0.len());
                    if q - 1 > pos {
                        lemma_lex_trans(name@, ns0[pos as int]@, ns0[q - 1]@);
                    }
                } else if p < pos {
                    assert(ns1[p]@ == ns0[p]@ && ns1[q]@ == ns0[q - 1]@);
                    if q - 1 == p {
                        assert(false);
                    }
                } else {
                    assert(ns1[p]@ == ns0[p - 1]@ && ns1[q]@ == ns0[q - 1]@);
                }
            }
            assert forall|i: int| 0 <= i < ns1.len() implies #[trigger] m1.contains_pair(
                ns1[i]@,
                cs1[i]@,
            ) by {
                if i == pos {
                    assert(ns1[i]@ == name@ && cs1[i]@ == content@);
                } else if i < pos {
                    assert(ns1[i]@ == ns0[i]@ && cs1[i]@ == cs0[i]@);
                    assert(m.contains_pair(ns0[i]@, cs0[i]@));
                    assert(ns0[i]@ != name@);
                } else {
                    assert(ns1[i]@ == ns0[i - 1]@ && cs1[i]@ == cs0[i - 1]@);
                    assert(m.contains_pair(ns0[i - 1]@, cs0[i - 1]@));
                    assert(ns0[i - 1]@ != name@);
                }
            }
            assert forall|k: Seq<char>| #[trigger] m1.contains_key(k) implies exists|i: int|
                0 <= i < ns1.len() && ns1[i]@ == k by {
                if k == name@ {
                    assert(ns1[pos as int]@ == k);
                } else {
                    assert(m.contains_key(k));
                    let i0 = choose|i0: int| 0 <= i0 < ns0.len() && ns0[i0]@ == k;
                    if i0 < pos {
                        assert(ns1[i0]@ == k);
                    } else {
                        assert(ns1[i0 + 1]@ == k);
                    }
                }
            }
        }
    }
}

} // verus!
