//! The values that the store holds, and their text form.
//!
//! Text form of each kind of value:
//! - a string is written as it is: `abc`
//! - a list is its elements separated by commas: `a,b,c`
//! - a set is its members separated by commas, in brackets: `[a,b,c]`
//! - a map is its `key:value` entries separated by commas: `akey:a,bkey:b`
use vstd::prelude::*;
use crate::collections::{StringMap, StringSet};
use crate::text::{
    law_trim, lemma_split_pieces, lemma_subrange_lacks, trimmed, chars_of, index_of, join, lemma_index_of, lemma_index_of_at, lemma_split_join, position, split,
    split_bounds, string_from, trim, trim_bounds, views,
};

verus! {

/// A value held under a key.
///
/// A set holds no member twice and a map holds no key twice; both keep their
/// entries in the order they were first seen.
#[derive(Debug, PartialEq, Eq)]
pub enum Item {
    String(String),
    List(Vec<String>),
    HashSet(StringSet),
    HashMap(StringMap),
}

/// The mathematical value of an [`Item`].
pub enum ItemView {
    String(Seq<char>),
    List(Seq<Seq<char>>),
    HashSet(Seq<Seq<char>>),
    HashMap(Seq<(Seq<char>, Seq<char>)>),
}

/// The views of a sequence of string pairs.
pub open spec fn pair_views(s: Seq<(String, String)>) -> Seq<(Seq<char>, Seq<char>)> {
    s.map_values(|p: (String, String)| (p.0@, p.1@))
}

impl View for Item {
    type V = ItemView;

    open spec fn view(&self) -> ItemView {
        match self {
            Item::String(s) => ItemView::String(s@),
            Item::List(l) => ItemView::List(views(l@)),
            Item::HashSet(m) => ItemView::HashSet(m@),
            Item::HashMap(p) => ItemView::HashMap(p@),
        }
    }
}

/// No two entries share a key.
pub open spec fn distinct_keys(p: Seq<(Seq<char>, Seq<char>)>) -> bool {
    forall|i: int, j: int| 0 <= i < p.len() && 0 <= j < p.len() && i != j ==> p[i].0 != p[j].0
}

/// A set repeats no member and a map repeats no key.
pub open spec fn item_wf(v: ItemView) -> bool {
    match v {
        ItemView::HashSet(m) => m.no_duplicates(),
        ItemView::HashMap(p) => distinct_keys(p),
        _ => true,
    }
}

// ---------------------------------------------------------------------------
// Text form
// ---------------------------------------------------------------------------

/// The text of a map entry: `key:value`.
pub open spec fn entry_text(kv: (Seq<char>, Seq<char>)) -> Seq<char> {
    kv.0.push(':') + kv.1
}

/// The text form of a value.
pub open spec fn item_text(v: ItemView) -> Seq<char> {
    match v {
        ItemView::String(s) => s,
        ItemView::List(l) => join(l, ','),
        ItemView::HashSet(m) => seq!['['] + join(m, ',') + seq![']'],
        ItemView::HashMap(p) => join(p.map_values(|kv: (Seq<char>, Seq<char>)| entry_text(kv)), ','),
    }
}

/// Every piece trimmed.
pub open spec fn trim_all(parts: Seq<Seq<char>>) -> Seq<Seq<char>> {
    parts.map_values(|p: Seq<char>| trim(p))
}

/// Adding a member to a set kept in order of first appearance.
pub open spec fn insert_member(m: Seq<Seq<char>>, x: Seq<char>) -> Seq<Seq<char>> {
    if m.contains(x) {
        m
    } else {
        m.push(x)
    }
}

/// The set of `xs`, in order of first appearance.
pub open spec fn collect_members(xs: Seq<Seq<char>>) -> Seq<Seq<char>>
    decreases xs.len(),
{
    if xs.len() == 0 {
        Seq::empty()
    } else {
        insert_member(collect_members(xs.drop_last()), xs.last())
    }
}

/// The position of the entry with key `k`, or the number of entries.
pub open spec fn key_index(p: Seq<(Seq<char>, Seq<char>)>, k: Seq<char>) -> int
    decreases p.len(),
{
    if p.len() == 0 {
        0
    } else if p[0].0 == k {
        0
    } else {
        1 + key_index(p.drop_first(), k)
    }
}

/// Setting key `k` to `v`: an existing entry keeps its place and takes the
/// new value; a new key goes last.
pub open spec fn insert_pair(p: Seq<(Seq<char>, Seq<char>)>, k: Seq<char>, v: Seq<char>) -> Seq<
    (Seq<char>, Seq<char>),
> {
    if key_index(p, k) < p.len() {
        p.update(key_index(p, k), (k, v))
    } else {
        p.push((k, v))
    }
}

/// The map built from `ps` entry by entry; a later entry with a key seen
/// before replaces the value.
pub open spec fn collect_pairs(ps: Seq<(Seq<char>, Seq<char>)>) -> Seq<(Seq<char>, Seq<char>)>
    decreases ps.len(),
{
    if ps.len() == 0 {
        Seq::empty()
    } else {
        let init = collect_pairs(ps.drop_last());
        insert_pair(init, ps.last().0, ps.last().1)
    }
}

/// A `key:value` segment split at its first colon, both sides trimmed.
pub open spec fn split_entry(seg: Seq<char>) -> (Seq<char>, Seq<char>) {
    let p = index_of(seg, ':');
    (trim(seg.take(p)), trim(seg.skip(p + 1)))
}

/// Whether the text starts with `[` and ends with `]`.
pub open spec fn is_bracketed(s: Seq<char>) -> bool {
    s.len() > 0 && s[0] == '[' && s.last() == ']'
}

/// Whether every comma-separated segment holds a colon.
pub open spec fn all_entries(s: Seq<char>) -> bool {
    forall|i: int| 0 <= i < split(s, ',').len() ==> (#[trigger] split(s, ',')[i]).contains(':')
}

/// The value that a text stands for.
pub open spec fn item_from_text(s: Seq<char>) -> ItemView {
    if is_bracketed(s) {
        ItemView::HashSet(collect_members(trim_all(split(s.subrange(1, s.len() - 1), ','))))
    } else if s.contains(',') && all_entries(s) {
        ItemView::HashMap(
            collect_pairs(split(s, ',').map_values(|seg: Seq<char>| split_entry(seg))),
        )
    } else if s.contains(',') {
        ItemView::List(trim_all(split(s, ',')))
    } else {
        ItemView::String(s)
    }
}

// ---------------------------------------------------------------------------
// Lemmas
// ---------------------------------------------------------------------------

pub proof fn lemma_key_index_at(p: Seq<(Seq<char>, Seq<char>)>, k: Seq<char>, i: int)
    requires
        0 <= i <= p.len(),
        forall|j: int| 0 <= j < i ==> p[j].0 != k,
        i == p.len() || p[i].0 == k,
    ensures
        key_index(p, k) == i,
    decreases i,
{
    if p.len() > 0 && i > 0 {
        assert(p[0].0 != k);
        let t = p.drop_first();
        assert forall|j: int| 0 <= j < i - 1 implies t[j].0 != k by {
            assert(t[j] == p[j + 1]);
        }
        if i < p.len() {
            assert(t[i - 1] == p[i]);
        }
        lemma_key_index_at(t, k, i - 1);
    }
}

pub proof fn lemma_key_index(p: Seq<(Seq<char>, Seq<char>)>, k: Seq<char>)
    ensures
        0 <= key_index(p, k) <= p.len(),
        key_index(p, k) < p.len() ==> p[key_index(p, k)].0 == k,
        forall|j: int| 0 <= j < key_index(p, k) ==> p[j].0 != k,
    decreases p.len(),
{
    if p.len() > 0 && p[0].0 != k {
        let t = p.drop_first();
        lemma_key_index(t, k);
        assert forall|j: int| 0 <= j < key_index(p, k) implies p[j].0 != k by {
            if j > 0 {
                assert(p[j] == t[j - 1]);
            }
        }
        if key_index(p, k) < p.len() {
            assert(p[key_index(p, k)] == t[key_index(t, k)]);
        }
    }
}

/// Inserting into a map keeps its keys distinct.
pub proof fn lemma_insert_pair_distinct(p: Seq<(Seq<char>, Seq<char>)>, k: Seq<char>, v: Seq<char>)
    requires
        distinct_keys(p),
    ensures
        distinct_keys(insert_pair(p, k, v)),
{
    lemma_key_index(p, k);
    let q = insert_pair(p, k, v);
    if key_index(p, k) < p.len() {
        assert forall|i: int, j: int|
            0 <= i < q.len() && 0 <= j < q.len() && i != j implies q[i].0 != q[j].0 by {
            assert(q[i].0 == p[i].0);
            assert(q[j].0 == p[j].0);
        }
    } else {
        assert forall|i: int, j: int|
            0 <= i < q.len() && 0 <= j < q.len() && i != j implies q[i].0 != q[j].0 by {
            if i < p.len() && j < p.len() {
            } else if i < p.len() {
                assert(p[i].0 != k);
            } else {
                assert(p[j].0 != k);
            }
        }
    }
}

/// Building a map whose keys are already distinct changes nothing.
pub proof fn lemma_collect_pairs_distinct(ps: Seq<(Seq<char>, Seq<char>)>)
    requires
        distinct_keys(ps),
    ensures
        collect_pairs(ps) == ps,
    decreases ps.len(),
{
    if ps.len() > 0 {
        let init = ps.drop_last();
        assert(distinct_keys(init));
        lemma_collect_pairs_distinct(init);
        lemma_key_index(init, ps.last().0);
        assert forall|j: int| 0 <= j < init.len() implies init[j].0 != ps.last().0 by {
            assert(init[j] == ps[j]);
        }
        lemma_key_index_at(init, ps.last().0, init.len() as int);
        assert(init.push(ps.last()) =~= ps);
    }
}

/// A map built entry by entry repeats no key.
pub proof fn lemma_collect_pairs_distinct_keys(ps: Seq<(Seq<char>, Seq<char>)>)
    ensures
        distinct_keys(collect_pairs(ps)),
    decreases ps.len(),
{
    if ps.len() > 0 {
        lemma_collect_pairs_distinct_keys(ps.drop_last());
        lemma_insert_pair_distinct(collect_pairs(ps.drop_last()), ps.last().0, ps.last().1);
    }
}

/// Building a set from members that are already distinct changes nothing.
pub proof fn lemma_collect_members_distinct(xs: Seq<Seq<char>>)
    requires
        xs.no_duplicates(),
    ensures
        collect_members(xs) == xs,
    decreases xs.len(),
{
    if xs.len() > 0 {
        let init = xs.drop_last();
        assert(init.no_duplicates());
        lemma_collect_members_distinct(init);
        assert(!init.contains(xs.last())) by {
            if init.contains(xs.last()) {
                let i = choose|i: int| 0 <= i < init.len() && init[i] == xs.last();
                assert(xs[i] == xs[xs.len() - 1]);
            }
        }
        assert(init.push(xs.last()) =~= xs);
    }
}

/// A set built member by member repeats no member.
pub proof fn lemma_collect_members_no_duplicates(xs: Seq<Seq<char>>)
    ensures
        collect_members(xs).no_duplicates(),
    decreases xs.len(),
{
    if xs.len() > 0 {
        lemma_collect_members_no_duplicates(xs.drop_last());
    }
}

/// A piece of text with no comma and no whitespace at either end.
pub open spec fn plain(s: Seq<char>) -> bool {
    !s.contains(',') && trim(s) == s
}

/// The values whose pieces are plain: a string with no comma that is not in
/// brackets; a list of at least two plain elements, one of them without a
/// colon; a non-empty set of plain members; a map of at least two entries
/// whose keys are plain and hold no colon and whose values are plain. A list
/// or map must also not start with `[` and end with `]`.
pub open spec fn plain_shape(v: ItemView) -> bool {
    match v {
        ItemView::String(s) => !is_bracketed(s) && !s.contains(','),
        ItemView::List(l) => {
            &&& l.len() >= 2
            &&& forall|i: int| 0 <= i < l.len() ==> plain(#[trigger] l[i])
            &&& exists|i: int| 0 <= i < l.len() && !(#[trigger] l[i]).contains(':')
            &&& !is_bracketed(item_text(v))
        },
        ItemView::HashSet(m) => {
            &&& m.len() >= 1
            &&& forall|i: int| 0 <= i < m.len() ==> plain(#[trigger] m[i])
        },
        ItemView::HashMap(p) => {
            &&& p.len() >= 2
            &&& forall|i: int|
                0 <= i < p.len() ==> plain(#[trigger] p[i].0) && !p[i].0.contains(':') && plain(
                    p[i].1,
                )
            &&& !is_bracketed(item_text(v))
        },
    }
}

/// The values whose text form reads back as the same value: those of plain
/// shape that repeat no set member and no map key (which every [`Item`]
/// satisfies).
pub open spec fn canonical(v: ItemView) -> bool {
    plain_shape(v) && item_wf(v)
}

/// Two or more pieces joined hold the separator.
pub proof fn lemma_join_contains_sep(parts: Seq<Seq<char>>, sep: char)
    requires
        parts.len() >= 2,
    ensures
        join(parts, sep).contains(sep),
{
    let a = join(parts.drop_last(), sep);
    assert((a.push(sep) + parts.last())[a.len() as int] == sep);
}

/// Trimming plain pieces changes nothing.
proof fn lemma_trim_all_plain(parts: Seq<Seq<char>>)
    requires
        forall|i: int| 0 <= i < parts.len() ==> plain(#[trigger] parts[i]),
    ensures
        trim_all(parts) == parts,
{
    assert(trim_all(parts) =~= parts);
}

/// A `key:value` entry splits back into its key and value.
proof fn lemma_split_entry(kv: (Seq<char>, Seq<char>))
    requires
        plain(kv.0),
        !kv.0.contains(':'),
        plain(kv.1),
    ensures
        split_entry(entry_text(kv)) == kv,
        !entry_text(kv).contains(','),
        entry_text(kv).contains(':'),
{
    let t = entry_text(kv);
    let n = kv.0.len() as int;
    assert forall|j: int| 0 <= j < n implies t[j] != ':' by {
        assert(t[j] == kv.0[j]);
    }
    assert(t[n] == ':');
    lemma_index_of_at(t, ':', n);
    assert(t.take(n) =~= kv.0);
    assert(t.skip(n + 1) =~= kv.1);
    assert(!t.contains(',')) by {
        if t.contains(',') {
            let j = choose|j: int| 0 <= j < t.len() && t[j] == ',';
            if j < n {
                assert(kv.0[j] == ',');
            } else if j > n {
                assert(kv.1[j - n - 1] == ',');
            }
        }
    }
}

/// Reading back the text form of a canonical value gives the value.
pub proof fn law_item_text_roundtrip(v: ItemView)
    requires
        canonical(v),
    ensures
        item_from_text(item_text(v)) == v,
{
    match v {
        ItemView::String(s) => {},
        ItemView::List(l) => {
            let t = item_text(v);
            lemma_join_contains_sep(l, ',');
            assert forall|i: int| 0 <= i < l.len() implies !(#[trigger] l[i]).contains(',') by {
                assert(plain(l[i]));
            }
            lemma_split_join(l, ',');
            let i = choose|i: int| 0 <= i < l.len() && !(#[trigger] l[i]).contains(':');
            assert(!split(t, ',')[i].contains(':'));
            assert(!all_entries(t));
            lemma_trim_all_plain(l);
        },
        ItemView::HashSet(m) => {
            let t = item_text(v);
            let inner = join(m, ',');
            assert(t.subrange(1, t.len() - 1) =~= inner);
            assert forall|i: int| 0 <= i < m.len() implies !(#[trigger] m[i]).contains(',') by {
                assert(plain(m[i]));
            }
            lemma_split_join(m, ',');
            lemma_trim_all_plain(m);
            lemma_collect_members_distinct(m);
        },
        ItemView::HashMap(p) => {
            let t = item_text(v);
            let entries = p.map_values(|kv: (Seq<char>, Seq<char>)| entry_text(kv));
            assert forall|i: int| 0 <= i < p.len() implies split_entry(#[trigger] entries[i]) == p[i]
                && !entries[i].contains(',') && entries[i].contains(':') by {
                lemma_split_entry(p[i]);
            }
            lemma_join_contains_sep(entries, ',');
            lemma_split_join(entries, ',');
            assert(all_entries(t));
            assert(entries.map_values(|seg: Seq<char>| split_entry(seg)) =~= p);
            lemma_collect_pairs_distinct(p);
        },
    }
}

/// Every member of a set built from `xs` is one of `xs`, and every one of
/// `xs` is a member.
proof fn lemma_collect_members_from(xs: Seq<Seq<char>>)
    ensures
        forall|i: int| 0 <= i < collect_members(xs).len() ==> xs.contains(
            #[trigger] collect_members(xs)[i],
        ),
        forall|j: int| 0 <= j < xs.len() ==> collect_members(xs).contains(#[trigger] xs[j]),
    decreases xs.len(),
{
    if xs.len() > 0 {
        let init = xs.drop_last();
        lemma_collect_members_from(init);
        let c = collect_members(init);
        assert forall|i: int| 0 <= i < collect_members(xs).len() implies xs.contains(
            #[trigger] collect_members(xs)[i],
        ) by {
            if i < c.len() {
                assert(collect_members(xs)[i] == c[i]);
                let j = choose|j: int| 0 <= j < init.len() && init[j] == c[i];
                assert(xs[j] == init[j]);
            } else {
                assert(collect_members(xs)[i] == xs[xs.len() - 1]);
            }
        }
        assert forall|j: int| 0 <= j < xs.len() implies collect_members(xs).contains(
            #[trigger] xs[j],
        ) by {
            if j < init.len() {
                assert(xs[j] == init[j]);
                let i = choose|i: int| 0 <= i < c.len() && c[i] == init[j];
                assert(collect_members(xs)[i] == c[i]);
            } else if c.contains(xs[j]) {
                let i = choose|i: int| 0 <= i < c.len() && c[i] == xs[j];
                assert(collect_members(xs)[i] == c[i]);
            } else {
                assert(collect_members(xs)[c.len() as int] == xs[j]);
            }
        }
    }
}

/// After setting `k` to `v`, the entry with key `k` is `(k, v)`, every
/// other entry was there before, and every key held before is still held.
proof fn lemma_insert_pair_entries(c: Seq<(Seq<char>, Seq<char>)>, k: Seq<char>, v: Seq<char>)
    requires
        distinct_keys(c),
    ensures
        ({
            let q = insert_pair(c, k, v);
            &&& q.len() >= c.len()
            &&& forall|i: int| 0 <= i < q.len() && (#[trigger] q[i]).0 == k ==> q[i] == (k, v)
            &&& forall|i: int| 0 <= i < q.len() && (#[trigger] q[i]).0 != k ==> i < c.len() && q[i] == c[i]
            &&& exists|i: int| 0 <= i < q.len() && (#[trigger] q[i]).0 == k
            &&& forall|i: int| 0 <= i < c.len() ==> q[i].0 == (#[trigger] c[i]).0
        }),
{
    lemma_key_index(c, k);
    let q = insert_pair(c, k, v);
    let ki = key_index(c, k);
    assert forall|i: int| 0 <= i < q.len() && (#[trigger] q[i]).0 == k implies q[i] == (k, v) by {
        if i != ki {
            assert(i < c.len() && q[i] == c[i]);
        }
    }
    assert(q[ki].0 == k);
}

/// Every entry of a map built from `ps` is the last of `ps` with its key.
proof fn lemma_collect_pairs_last(ps: Seq<(Seq<char>, Seq<char>)>)
    ensures
        forall|i: int|
            0 <= i < collect_pairs(ps).len() ==> exists|j: int|
                0 <= j < ps.len() && #[trigger] collect_pairs(ps)[i] == ps[j] && forall|j2: int|
                    j < j2 < ps.len() ==> ps[j2].0 != ps[j].0,
    decreases ps.len(),
{
    if ps.len() > 0 {
        let init = ps.drop_last();
        lemma_collect_pairs_last(init);
        lemma_collect_pairs_distinct_keys(init);
        let c = collect_pairs(init);
        let n = ps.len() - 1;
        lemma_insert_pair_entries(c, ps.last().0, ps.last().1);
        let q = collect_pairs(ps);
        assert forall|i: int| 0 <= i < q.len() implies exists|j: int|
            0 <= j < ps.len() && #[trigger] q[i] == ps[j] && forall|j2: int|
                j < j2 < ps.len() ==> ps[j2].0 != ps[j].0 by {
            if q[i].0 == ps.last().0 {
                assert(q[i] == ps[n]);
            } else {
                assert(i < c.len() && q[i] == c[i]);
                let j = choose|j: int|
                    0 <= j < init.len() && #[trigger] c[i] == init[j] && forall|j2: int|
                        j < j2 < init.len() ==> init[j2].0 != init[j].0;
                assert(ps[j] == init[j]);
                assert forall|j2: int| j < j2 < ps.len() implies ps[j2].0 != ps[j].0 by {
                    if j2 < init.len() {
                        assert(ps[j2] == init[j2]);
                    }
                }
            }
        }
    }
}

/// Every key of `ps` has an entry in the map built from `ps`.
proof fn lemma_collect_pairs_keys(ps: Seq<(Seq<char>, Seq<char>)>)
    ensures
        forall|j: int|
            0 <= j < ps.len() ==> exists|i: int|
                0 <= i < collect_pairs(ps).len() && collect_pairs(ps)[i].0 == (#[trigger] ps[j]).0,
    decreases ps.len(),
{
    if ps.len() > 0 {
        let init = ps.drop_last();
        lemma_collect_pairs_keys(init);
        lemma_collect_pairs_distinct_keys(init);
        let c = collect_pairs(init);
        lemma_insert_pair_entries(c, ps.last().0, ps.last().1);
        let q = collect_pairs(ps);
        assert forall|j: int| 0 <= j < ps.len() implies exists|i: int|
            0 <= i < q.len() && q[i].0 == (#[trigger] ps[j]).0 by {
            if j < init.len() {
                assert(init[j] == ps[j]);
                let i = choose|i: int| 0 <= i < c.len() && c[i].0 == (#[trigger] init[j]).0;
                assert(q[i].0 == c[i].0);
            } else {
                assert(ps[j] == ps.last());
            }
        }
    }
}

/// A trimmed piece has no whitespace at either end and holds no character
/// that the piece lacks.
proof fn lemma_trim_piece(p: Seq<char>, c: char)
    ensures
        trimmed(trim(p)),
        !p.contains(c) ==> !trim(p).contains(c),
{
    let r = law_trim(p);
    if !p.contains(c) {
        lemma_subrange_lacks(p, r.0, r.1, c);
    }
}

/// A text with commas that is not in brackets and does not have a colon in
/// every segment reads as the list of its comma-separated pieces, each
/// trimmed: one element per piece, in order, none with whitespace at either
/// end or a comma.
pub proof fn law_parse_list(s: Seq<char>)
    ensures
        item_from_text(s) matches ItemView::List(l) ==> {
            &&& s.contains(',')
            &&& l.len() == split(s, ',').len()
            &&& forall|i: int|
                0 <= i < l.len() ==> l[i] == trim(split(s, ',')[i]) && trimmed(#[trigger] l[i])
                    && !l[i].contains(',')
        },
{
    if let ItemView::List(l) = item_from_text(s) {
        lemma_split_pieces(s, ',');
        assert forall|i: int| 0 <= i < l.len() implies l[i] == trim(split(s, ',')[i]) && trimmed(
            #[trigger] l[i],
        ) && !l[i].contains(',') by {
            lemma_trim_piece(split(s, ',')[i], ',');
        }
    }
}

/// A text in brackets reads as the set of the trimmed comma-separated pieces
/// between the brackets: each piece, trimmed, is a member; each member is a
/// trimmed piece with no whitespace at either end and no comma; no member
/// appears twice.
pub proof fn law_parse_set(s: Seq<char>)
    ensures
        item_from_text(s) matches ItemView::HashSet(m) ==> {
            let pieces = split(s.subrange(1, s.len() - 1), ',');
            &&& is_bracketed(s)
            &&& m.no_duplicates()
            &&& forall|j: int| 0 <= j < pieces.len() ==> m.contains(trim(#[trigger] pieces[j]))
            &&& forall|i: int|
                0 <= i < m.len() ==> trimmed(#[trigger] m[i]) && !m[i].contains(',') && exists|
                    j: int,
                | 0 <= j < pieces.len() && m[i] == trim(pieces[j])
        },
{
    if let ItemView::HashSet(m) = item_from_text(s) {
        let pieces = split(s.subrange(1, s.len() - 1), ',');
        let xs = trim_all(pieces);
        lemma_split_pieces(s.subrange(1, s.len() - 1), ',');
        lemma_collect_members_from(xs);
        lemma_collect_members_no_duplicates(xs);
        assert forall|j: int| 0 <= j < pieces.len() implies m.contains(trim(#[trigger] pieces[j])) by {
            assert(xs[j] == trim(pieces[j]));
        }
        assert forall|i: int| 0 <= i < m.len() implies trimmed(#[trigger] m[i]) && !m[i].contains(
            ',',
        ) && exists|j: int| 0 <= j < pieces.len() && m[i] == trim(pieces[j]) by {
            assert(xs.contains(m[i]));
            let j = choose|j: int| 0 <= j < xs.len() && xs[j] == m[i];
            assert(xs[j] == trim(pieces[j]));
            lemma_trim_piece(pieces[j], ',');
        }
    }
}

/// `c` is the position of the first colon of `seg`.
pub open spec fn first_colon(seg: Seq<char>, c: int) -> bool {
    0 <= c < seg.len() && seg[c] == ':' && !seg.take(c).contains(':')
}

/// The first colon is where `index_of` finds it.
proof fn lemma_first_colon(seg: Seq<char>, c: int)
    requires
        first_colon(seg, c),
    ensures
        c == index_of(seg, ':'),
{
    lemma_index_of(seg, ':');
    let x = index_of(seg, ':');
    if x < c {
        assert(seg.take(c)[x] == ':');
    }
}

/// A segment with a colon has a first colon, and its entry is split there.
proof fn lemma_segment(seg: Seq<char>)
    requires
        seg.contains(':'),
    ensures
        first_colon(seg, index_of(seg, ':')),
{
    lemma_index_of(seg, ':');
    let c = index_of(seg, ':');
    assert(!seg.take(c).contains(':')) by {
        if seg.take(c).contains(':') {
            let k = choose|k: int| 0 <= k < c && seg.take(c)[k] == ':';
            assert(seg[k] == ':');
        }
    }
}

/// A text read as a map holds no key twice, and no key or value has
/// whitespace at either end or a comma, and no key has a colon.
pub proof fn law_parse_map(s: Seq<char>)
    ensures
        item_from_text(s) matches ItemView::HashMap(p) ==> {
            &&& s.contains(',')
            &&& distinct_keys(p)
            &&& forall|i: int|
                0 <= i < p.len() ==> {
                    &&& trimmed((#[trigger] p[i]).0) && trimmed(p[i].1)
                    &&& !p[i].0.contains(':') && !p[i].0.contains(',') && !p[i].1.contains(',')
                }
        },
{
    if let ItemView::HashMap(p) = item_from_text(s) {
        let segs = split(s, ',');
        let es = segs.map_values(|seg: Seq<char>| split_entry(seg));
        lemma_split_pieces(s, ',');
        lemma_collect_pairs_last(es);
        lemma_collect_pairs_distinct_keys(es);
        assert forall|i: int| 0 <= i < p.len() implies {
            &&& trimmed((#[trigger] p[i]).0) && trimmed(p[i].1)
            &&& !p[i].0.contains(':') && !p[i].0.contains(',') && !p[i].1.contains(',')
        } by {
            let j = choose|j: int|
                0 <= j < es.len() && #[trigger] p[i] == es[j] && forall|j2: int|
                    j < j2 < es.len() ==> es[j2].0 != es[j].0;
            let seg = segs[j];
            assert(seg.contains(':'));
            lemma_index_of(seg, ':');
            let c = index_of(seg, ':');
            assert(es[j] == split_entry(seg));
            assert(!seg.take(c).contains(':')) by {
                if seg.take(c).contains(':') {
                    let k = choose|k: int| 0 <= k < c && seg.take(c)[k] == ':';
                    assert(seg[k] == ':');
                }
            }
            assert(!seg.contains(','));
            lemma_subrange_lacks(seg, 0, c, ',');
            assert(seg.take(c) =~= seg.subrange(0, c));
            lemma_subrange_lacks(seg, c + 1, seg.len() as int, ',');
            assert(seg.skip(c + 1) =~= seg.subrange(c + 1, seg.len() as int));
            lemma_trim_piece(seg.take(c), ':');
            lemma_trim_piece(seg.take(c), ',');
            lemma_trim_piece(seg.skip(c + 1), ',');
        }
    }
}

/// Segment `j` of `segs` splits at its first colon `c` into the key `k` and
/// the value `v`, both trimmed, and no later segment gives the same key.
pub open spec fn last_entry_at(
    segs: Seq<Seq<char>>,
    j: int,
    c: int,
    k: Seq<char>,
    v: Seq<char>,
) -> bool {
    &&& 0 <= j < segs.len()
    &&& first_colon(segs[j], c)
    &&& k == trim(segs[j].take(c))
    &&& v == trim(segs[j].skip(c + 1))
    &&& forall|j2: int, c2: int|
        j < j2 < segs.len() && first_colon(segs[j2], c2) ==> trim(
            #[trigger] segs[j2].take(c2),
        ) != k
}

/// Some segment of `segs` is the last to give the entry `e`.
pub open spec fn given_last(segs: Seq<Seq<char>>, e: (Seq<char>, Seq<char>)) -> bool {
    exists|j: int, c: int| #[trigger] last_entry_at(segs, j, c, e.0, e.1)
}

/// Each entry of a text read as a map comes from one of its comma-separated
/// segments: the key is the trimmed part before the segment's first colon,
/// the value the trimmed part after it, and no later segment has the same
/// key (the last value given for a key wins).
pub proof fn law_parse_map_entries(s: Seq<char>)
    ensures
        item_from_text(s) matches ItemView::HashMap(p) ==> forall|i: int|
            0 <= i < p.len() ==> #[trigger] given_last(split(s, ','), p[i]),
{
    if item_from_text(s) is HashMap {
        let p = item_from_text(s)->HashMap_0;
        let segs = split(s, ',');
        let es = segs.map_values(|seg: Seq<char>| split_entry(seg));
        lemma_collect_pairs_last(es);
        assert forall|i: int| 0 <= i < p.len() implies #[trigger] given_last(segs, p[i]) by {
            let j = choose|j: int|
                0 <= j < es.len() && #[trigger] p[i] == es[j] && forall|j2: int|
                    j < j2 < es.len() ==> es[j2].0 != es[j].0;
            assert(segs[j].contains(':'));
            lemma_segment(segs[j]);
            let c = index_of(segs[j], ':');
            assert(es[j] == split_entry(segs[j]));
            assert forall|j2: int, c2: int|
                j < j2 < segs.len() && first_colon(segs[j2], c2) implies trim(
                #[trigger] segs[j2].take(c2),
            ) != p[i].0 by {
                lemma_first_colon(segs[j2], c2);
                assert(es[j2] == split_entry(segs[j2]));
                assert(es[j2].0 != es[j].0);
            }
            assert(last_entry_at(segs, j, c, p[i].0, p[i].1));
        }
    }
}

/// Every comma-separated segment of a text read as a map has a colon, and
/// the key it gives (the trimmed part before its first colon) has an entry.
pub proof fn law_parse_map_keys(s: Seq<char>)
    ensures
        item_from_text(s) matches ItemView::HashMap(p) ==> {
            &&& forall|j: int|
                0 <= j < split(s, ',').len() ==> (#[trigger] split(s, ',')[j]).contains(':')
            &&& forall|j: int, c: int|
                0 <= j < split(s, ',').len() && #[trigger] first_colon(split(s, ',')[j], c)
                    ==> exists|i: int| 0 <= i < p.len() && p[i].0 == trim(split(s, ',')[j].take(c))
        },
{
    if let ItemView::HashMap(p) = item_from_text(s) {
        let segs = split(s, ',');
        let es = segs.map_values(|seg: Seq<char>| split_entry(seg));
        lemma_collect_pairs_keys(es);
        assert forall|j: int, c: int|
            0 <= j < segs.len() && #[trigger] first_colon(segs[j], c) implies exists|i: int|
            0 <= i < p.len() && p[i].0 == trim(segs[j].take(c)) by {
            lemma_first_colon(segs[j], c);
            assert(es[j] == split_entry(segs[j]));
            let i = choose|i: int| 0 <= i < p.len() && p[i].0 == (#[trigger] es[j]).0;
            assert(0 <= i < p.len() && p[i].0 == trim(segs[j].take(c)));
        }
    }
}

/// A text with no comma that is not in brackets is read as that very text.
pub proof fn law_parse_string(s: Seq<char>)
    ensures
        item_from_text(s) matches ItemView::String(t) ==> t == s && !s.contains(',')
            && !is_bracketed(s),
        !is_bracketed(s) && !s.contains(',') ==> item_from_text(s) == ItemView::String(s),
{
}

// ---------------------------------------------------------------------------
// Executable operations
// ---------------------------------------------------------------------------

impl Item {
    /// A set repeats no member and a map repeats no key.
    pub open spec fn wf(&self) -> bool {
        item_wf(self@)
    }

    /// The value that a text stands for: a set where the text is in
    /// brackets, a map where it has commas and every comma-separated segment
    /// has a colon, a list where it has commas, and the text itself
    /// otherwise. Elements, members, keys and values are trimmed.
    pub fn from_string(s: String) -> (item: Item)
        ensures
            item@ == item_from_text(s@),
            item.wf(),
    {
        let cs = chars_of(s.as_str());
        let n = cs.len();
        proof {
            assert(cs@.subrange(0, n as int) =~= cs@);
        }
        if n > 0 && cs[0] == '[' && cs[n - 1] == ']' {
            let members = collect_set(&cs, 1, n - 1);
            proof {
                lemma_collect_members_no_duplicates(
                    trim_all(split(cs@.subrange(1, n - 1), ',')),
                );
            }
            return Item::HashSet(members);
        }
        let comma = position(&cs, 0, n, ',');
        proof {
            lemma_index_of(cs@, ',');
        }
        if comma < n {
            let bounds = split_bounds(&cs, 0, n, ',');
            let ghost parts = split(cs@, ',');
            if all_hold_colon(&cs, &bounds, Ghost(parts)) {
                let pairs = collect_map(&cs, &bounds, Ghost(parts));
                proof {
                    lemma_collect_pairs_distinct_keys(
                        parts.map_values(|seg: Seq<char>| split_entry(seg)),
                    );
                }
                return Item::HashMap(pairs);
            }
            let list = trimmed_pieces(&cs, &bounds, Ghost(parts));
            return Item::List(list);
        }
        Item::String(s)
    }

    /// The text form of the value. A value whose members, elements, keys
    /// and values are plain (see [`plain_shape`]) reads back from it.
    pub fn to_string(&self) -> (s: String)
        ensures
            s@ == item_text(self@),
            plain_shape(self@) ==> item_from_text(s@) == self@,
    {
        match self {
            Item::String(s) => {
                proof {
                    if plain_shape(self@) {
                        law_item_text_roundtrip(self@);
                    }
                }
                s.clone()
            },
            Item::List(l) => {
                proof {
                    if plain_shape(self@) {
                        law_item_text_roundtrip(self@);
                    }
                }
                join_strings(l)
            },
            Item::HashSet(m) => {
                let members = m.members();
                let mut s = String::new();
                s.push('[');
                let inner = join_strings(members);
                s.append(inner.as_str());
                s.push(']');
                proof {
                    assert(s@ =~= seq!['['] + join(m@, ',') + seq![']']);
                    if plain_shape(self@) {
                        law_item_text_roundtrip(self@);
                    }
                }
                s
            },
            Item::HashMap(p) => {
                let entries = p.entries();
                proof {
                    if plain_shape(self@) {
                        law_item_text_roundtrip(self@);
                    }
                }
                join_entries(entries)
            },
        }
    }
}

impl Clone for Item {
    fn clone(&self) -> (r: Self)
        ensures
            r@ == self@,
    {
        match self {
            Item::String(s) => Item::String(s.clone()),
            Item::List(l) => Item::List(clone_strings(l)),
            Item::HashSet(m) => Item::HashSet(m.clone()),
            Item::HashMap(p) => Item::HashMap(p.clone()),
        }
    }
}

fn clone_strings(l: &Vec<String>) -> (r: Vec<String>)
    ensures
        views(r@) == views(l@),
{
    let mut r: Vec<String> = Vec::new();
    for i in 0..l.len()
        invariant
            views(r@) == views(l@).take(i as int),
    {
        let ghost prev = r@;
        let c = l[i].clone();
        r.push(c);
        proof {
            assert(views(r@) =~= views(prev).push(l@[i as int]@));
            assert(views(r@) =~= views(l@).take(i + 1));
        }
    }
    proof {
        assert(views(l@).take(l.len() as int) =~= views(l@));
    }
    r
}

/// The strings of `l` with commas between them.
fn join_strings(l: &Vec<String>) -> (s: String)
    ensures
        s@ == join(views(l@), ','),
{
    let mut s = String::new();
    for i in 0..l.len()
        invariant
            s@ == join(views(l@).take(i as int), ','),
    {
        let ghost parts = views(l@).take(i + 1);
        proof {
            assert(parts.drop_last() =~= views(l@).take(i as int));
        }
        if i > 0 {
            s.push(',');
        }
        s.append(l[i].as_str());
        proof {
            if i == 0 {
                assert(s@ =~= parts[0]);
            } else {
                assert(s@ =~= join(parts.drop_last(), ',').push(',') + parts.last());
            }
        }
    }
    proof {
        assert(views(l@).take(l.len() as int) =~= views(l@));
    }
    s
}

/// The `key:value` entries of `p` with commas between them.
fn join_entries(p: &Vec<(String, String)>) -> (s: String)
    ensures
        s@ == item_text(ItemView::HashMap(pair_views(p@))),
{
    let ghost all = pair_views(p@).map_values(|kv: (Seq<char>, Seq<char>)| entry_text(kv));
    let mut s = String::new();
    for i in 0..p.len()
        invariant
            all == pair_views(p@).map_values(|kv: (Seq<char>, Seq<char>)| entry_text(kv)),
            s@ == join(all.take(i as int), ','),
    {
        let ghost parts = all.take(i + 1);
        proof {
            assert(parts.drop_last() =~= all.take(i as int));
        }
        if i > 0 {
            s.push(',');
        }
        let ghost before = s@;
        s.append(p[i].0.as_str());
        s.push(':');
        s.append(p[i].1.as_str());
        proof {
            assert(parts.last() == entry_text(pair_views(p@)[i as int]));
            assert(s@ =~= before + parts.last());
            if i == 0 {
                assert(s@ =~= parts[0]);
            } else {
                assert(s@ =~= join(parts.drop_last(), ',').push(',') + parts.last());
            }
        }
    }
    proof {
        assert(all.take(p.len() as int) =~= all);
    }
    s
}

/// The members of the set written in `cs[lo..hi]`.
fn collect_set(cs: &Vec<char>, lo: usize, hi: usize) -> (r: StringSet)
    requires
        lo <= hi <= cs.len(),
    ensures
        r@ == collect_members(trim_all(split(cs@.subrange(lo as int, hi as int), ','))),
{
    let bounds = split_bounds(cs, lo, hi, ',');
    let ghost parts = split(cs@.subrange(lo as int, hi as int), ',');
    let ghost pieces = trim_all(parts);
    let mut r = StringSet::new();
    for i in 0..bounds.len()
        invariant
            lo <= hi <= cs.len(),
            parts == split(cs@.subrange(lo as int, hi as int), ','),
            pieces == trim_all(parts),
            bounds.len() == parts.len(),
            forall|j: int|
                0 <= j < bounds.len() ==> lo <= (#[trigger] bounds[j]).0 <= bounds[j].1 <= hi
                    && cs@.subrange(bounds[j].0 as int, bounds[j].1 as int) == parts[j],
            r@ == collect_members(pieces.take(i as int)),
    {
        let (a, b) = bounds[i];
        let (ta, tb) = trim_bounds(cs, a, b);
        let m = string_from(cs, ta, tb);
        proof {
            assert(m@ == pieces[i as int]);
            assert(pieces.take(i + 1).drop_last() =~= pieces.take(i as int));
        }
        r.insert(m);
    }
    proof {
        assert(pieces.take(bounds.len() as int) =~= pieces);
    }
    r
}

/// `bounds` locates each of `parts` in `cs`.
spec fn locates(cs: Seq<char>, bounds: Seq<(usize, usize)>, parts: Seq<Seq<char>>) -> bool {
    &&& bounds.len() == parts.len()
    &&& forall|j: int|
        0 <= j < bounds.len() ==> (#[trigger] bounds[j]).0 <= bounds[j].1 <= cs.len()
            && cs.subrange(bounds[j].0 as int, bounds[j].1 as int) == parts[j]
}

/// Whether every one of `parts` holds a colon.
fn all_hold_colon(cs: &Vec<char>, bounds: &Vec<(usize, usize)>, Ghost(parts): Ghost<Seq<Seq<char>>>) -> (b: bool)
    requires
        locates(cs@, bounds@, parts),
    ensures
        b == (forall|j: int| 0 <= j < parts.len() ==> (#[trigger] parts[j]).contains(':')),
{
    for i in 0..bounds.len()
        invariant
            locates(cs@, bounds@, parts),
            forall|j: int| 0 <= j < i ==> (#[trigger] parts[j]).contains(':'),
    {
        let (a, b) = bounds[i];
        let p = position(cs, a, b, ':');
        proof {
            assert(cs@.subrange(a as int, b as int) == parts[i as int]);
            lemma_index_of(parts[i as int], ':');
        }
        if p == b {
            return false;
        }
    }
    true
}

/// Each of `parts`, trimmed, as a string.
fn trimmed_pieces(cs: &Vec<char>, bounds: &Vec<(usize, usize)>, Ghost(parts): Ghost<Seq<Seq<char>>>) -> (r: Vec<String>)
    requires
        locates(cs@, bounds@, parts),
    ensures
        views(r@) == trim_all(parts),
{
    let mut r: Vec<String> = Vec::new();
    for i in 0..bounds.len()
        invariant
            locates(cs@, bounds@, parts),
            views(r@) == trim_all(parts).take(i as int),
    {
        let (a, b) = bounds[i];
        let (ta, tb) = trim_bounds(cs, a, b);
        let m = string_from(cs, ta, tb);
        let ghost prev = r@;
        r.push(m);
        proof {
            assert(cs@.subrange(a as int, b as int) == parts[i as int]);
            assert(views(r@) =~= views(prev).push(m@));
            assert(views(r@) =~= trim_all(parts).take(i + 1));
        }
    }
    proof {
        assert(trim_all(parts).take(bounds.len() as int) =~= trim_all(parts));
    }
    r
}

/// The map whose entries are written in `parts`.
fn collect_map(cs: &Vec<char>, bounds: &Vec<(usize, usize)>, Ghost(parts): Ghost<Seq<Seq<char>>>) -> (r: StringMap)
    requires
        locates(cs@, bounds@, parts),
        forall|j: int| 0 <= j < parts.len() ==> (#[trigger] parts[j]).contains(':'),
    ensures
        r@ == collect_pairs(parts.map_values(|seg: Seq<char>| split_entry(seg))),
{
    let ghost entries = parts.map_values(|seg: Seq<char>| split_entry(seg));
    let mut r = StringMap::new();
    for i in 0..bounds.len()
        invariant
            locates(cs@, bounds@, parts),
            forall|j: int| 0 <= j < parts.len() ==> (#[trigger] parts[j]).contains(':'),
            entries == parts.map_values(|seg: Seq<char>| split_entry(seg)),
            r@ == collect_pairs(entries.take(i as int)),
    {
        let (a, b) = bounds[i];
        let p = position(cs, a, b, ':');
        let ghost seg = parts[i as int];
        proof {
            assert(cs@.subrange(a as int, b as int) == seg);
            assert(seg.contains(':'));
            lemma_index_of(seg, ':');
            assert(cs@.subrange(a as int, p as int) =~= seg.take(p - a));
            assert(cs@.subrange(p + 1, b as int) =~= seg.skip(p - a + 1));
        }
        let (ka, kb) = trim_bounds(cs, a, p);
        let (va, vb) = trim_bounds(cs, p + 1, b);
        let k = string_from(cs, ka, kb);
        let v = string_from(cs, va, vb);
        proof {
            assert((k@, v@) == split_entry(seg));
            assert(entries[i as int] == split_entry(seg));
            assert(entries.take(i + 1).drop_last() =~= entries.take(i as int));
        }
        r.insert(k, v);
    }
    proof {
        assert(entries.take(bounds.len() as int) =~= entries);
    }
    r
}

} // verus!
