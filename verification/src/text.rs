//! Character-level text handling: the sequence model of splitting, joining
//! and trimming, and the executable operations that follow it.
use vstd::prelude::*;

verus! {

/// `String::push` appends one character.
pub assume_specification[ std::string::String::push ](s: &mut std::string::String, ch: char)
    ensures
        final(s)@ == old(s)@.push(ch),
;

// ---------------------------------------------------------------------------
// Specification
// ---------------------------------------------------------------------------

/// The characters with the Unicode `White_Space` property, which is what
/// `char::is_whitespace` (and so `str::trim`) recognises.
pub open spec fn is_space(c: char) -> bool {
    let u = c as u32;
    ||| 0x9 <= u <= 0xD
    ||| u == 0x20
    ||| u == 0x85
    ||| u == 0xA0
    ||| u == 0x1680
    ||| 0x2000 <= u <= 0x200A
    ||| u == 0x2028
    ||| u == 0x2029
    ||| u == 0x202F
    ||| u == 0x205F
    ||| u == 0x3000
}

/// `s` without its leading whitespace.
pub open spec fn trim_start(s: Seq<char>) -> Seq<char>
    decreases s.len(),
{
    if s.len() > 0 && is_space(s[0]) {
        trim_start(s.drop_first())
    } else {
        s
    }
}

/// `s` without its trailing whitespace.
pub open spec fn trim_end(s: Seq<char>) -> Seq<char>
    decreases s.len(),
{
    if s.len() > 0 && is_space(s.last()) {
        trim_end(s.drop_last())
    } else {
        s
    }
}

/// `s` without leading and trailing whitespace.
pub open spec fn trim(s: Seq<char>) -> Seq<char> {
    trim_end(trim_start(s))
}

/// The pieces of `s` between occurrences of `sep`, in order; there is always
/// at least one piece (the empty text has one empty piece).
pub open spec fn split(s: Seq<char>, sep: char) -> Seq<Seq<char>>
    decreases s.len(),
{
    if s.len() == 0 {
        seq![Seq::empty()]
    } else {
        let parts = split(s.drop_last(), sep);
        if s.last() == sep {
            parts.push(Seq::empty())
        } else {
            parts.update(parts.len() - 1, parts.last().push(s.last()))
        }
    }
}

/// The pieces of `parts` written one after another with `sep` between them.
pub open spec fn join(parts: Seq<Seq<char>>, sep: char) -> Seq<char>
    decreases parts.len(),
{
    if parts.len() == 0 {
        Seq::empty()
    } else if parts.len() == 1 {
        parts[0]
    } else {
        join(parts.drop_last(), sep).push(sep) + parts.last()
    }
}

/// The position of the first `c` in `s`, or the length of `s` where there
/// is none.
pub open spec fn index_of(s: Seq<char>, c: char) -> int
    decreases s.len(),
{
    if s.len() == 0 {
        0
    } else if s[0] == c {
        0
    } else {
        1 + index_of(s.drop_first(), c)
    }
}

/// The views of a sequence of strings.
pub open spec fn views(s: Seq<String>) -> Seq<Seq<char>> {
    s.map_values(|x: String| x@)
}

// ---------------------------------------------------------------------------
// Lemmas
// ---------------------------------------------------------------------------

pub proof fn lemma_split_nonempty(s: Seq<char>, sep: char)
    ensures
        split(s, sep).len() >= 1,
    decreases s.len(),
{
    if s.len() > 0 {
        lemma_split_nonempty(s.drop_last(), sep);
    }
}

/// A text without the separator is a single piece.
pub proof fn lemma_split_single(s: Seq<char>, sep: char)
    requires
        !s.contains(sep),
    ensures
        split(s, sep) == seq![s],
    decreases s.len(),
{
    if s.len() > 0 {
        let t = s.drop_last();
        assert(!t.contains(sep)) by {
            if t.contains(sep) {
                let i = choose|i: int| 0 <= i < t.len() && t[i] == sep;
                assert(s[i] == sep);
            }
        }
        lemma_split_single(t, sep);
        assert(s[s.len() - 1] != sep);
        assert(t.push(s.last()) =~= s);
        assert(split(s, sep) =~= seq![s]);
    } else {
        assert(s =~= Seq::<char>::empty());
    }
}

/// Splitting after a separator starts a new piece.
pub proof fn lemma_split_append(a: Seq<char>, b: Seq<char>, sep: char)
    requires
        !b.contains(sep),
    ensures
        split(a.push(sep) + b, sep) == split(a, sep).push(b),
    decreases b.len(),
{
    lemma_split_nonempty(a, sep);
    if b.len() == 0 {
        assert(a.push(sep) + b =~= a.push(sep));
        assert(a.push(sep).drop_last() =~= a);
        assert(b =~= Seq::<char>::empty());
    } else {
        let b0 = b.drop_last();
        assert(!b0.contains(sep)) by {
            if b0.contains(sep) {
                let i = choose|i: int| 0 <= i < b0.len() && b0[i] == sep;
                assert(b[i] == sep);
            }
        }
        lemma_split_append(a, b0, sep);
        let s = a.push(sep) + b;
        assert(s.drop_last() =~= a.push(sep) + b0);
        assert(s.last() == b.last());
        assert(b[b.len() - 1] != sep);
        assert(b0.push(b.last()) =~= b);
        assert(split(s, sep) =~= split(a, sep).push(b));
    }
}

/// Splitting undoes joining, when no piece holds the separator.
pub proof fn lemma_split_join(parts: Seq<Seq<char>>, sep: char)
    requires
        parts.len() >= 1,
        forall|i: int| 0 <= i < parts.len() ==> !(#[trigger] parts[i]).contains(sep),
    ensures
        split(join(parts, sep), sep) == parts,
    decreases parts.len(),
{
    if parts.len() == 1 {
        lemma_split_single(parts[0], sep);
        assert(seq![parts[0]] =~= parts);
    } else {
        let init = parts.drop_last();
        assert forall|i: int| 0 <= i < init.len() implies !(#[trigger] init[i]).contains(sep) by {
            assert(init[i] == parts[i]);
        }
        lemma_split_join(init, sep);
        assert(!parts[parts.len() - 1].contains(sep));
        lemma_split_append(join(init, sep), parts.last(), sep);
        assert(init.push(parts.last()) =~= parts);
    }
}

/// `index_of` is the first position that holds `c`.
pub proof fn lemma_index_of_at(s: Seq<char>, c: char, p: int)
    requires
        0 <= p <= s.len(),
        forall|j: int| 0 <= j < p ==> s[j] != c,
        p == s.len() || s[p] == c,
    ensures
        index_of(s, c) == p,
    decreases p,
{
    if s.len() > 0 && p > 0 {
        assert(s[0] != c);
        let t = s.drop_first();
        assert forall|j: int| 0 <= j < p - 1 implies t[j] != c by {
            assert(t[j] == s[j + 1]);
        }
        if p < s.len() {
            assert(t[p - 1] == s[p]);
        }
        lemma_index_of_at(t, c, p - 1);
    }
}

/// `index_of` finds a character exactly when the text contains it.
pub proof fn lemma_index_of(s: Seq<char>, c: char)
    ensures
        0 <= index_of(s, c) <= s.len(),
        s.contains(c) <==> index_of(s, c) < s.len(),
        index_of(s, c) < s.len() ==> s[index_of(s, c)] == c,
        forall|j: int| 0 <= j < index_of(s, c) ==> s[j] != c,
    decreases s.len(),
{
    if s.len() > 0 && s[0] != c {
        let t = s.drop_first();
        lemma_index_of(t, c);
        assert forall|j: int| 0 <= j < index_of(s, c) implies s[j] != c by {
            if j > 0 {
                assert(s[j] == t[j - 1]);
            }
        }
        if index_of(s, c) < s.len() {
            assert(s[index_of(s, c)] == t[index_of(t, c)]);
        }
        if s.contains(c) {
            let i = choose|i: int| 0 <= i < s.len() && s[i] == c;
            assert(t[i - 1] == c);
        }
        if index_of(t, c) < t.len() {
            assert(s[index_of(s, c)] == c);
        }
    }
}

/// The whitespace that trimming removes is the Unicode `White_Space` set:
/// tab, line feed, vertical tab, form feed, carriage return, space, next
/// line, no-break space, ogham space mark, the spaces from en quad to hair
/// space, line separator, paragraph separator, narrow no-break space, medium
/// mathematical space and ideographic space; nothing else.
pub proof fn law_white_space(c: char)
    ensures
        is_space(c) <==> {
            ||| c == '\t'
            ||| c == '\n'
            ||| c == '\u{0B}'
            ||| c == '\u{0C}'
            ||| c == '\r'
            ||| c == ' '
            ||| c == '\u{85}'
            ||| c == '\u{A0}'
            ||| c == '\u{1680}'
            ||| c == '\u{2000}'
            ||| c == '\u{2001}'
            ||| c == '\u{2002}'
            ||| c == '\u{2003}'
            ||| c == '\u{2004}'
            ||| c == '\u{2005}'
            ||| c == '\u{2006}'
            ||| c == '\u{2007}'
            ||| c == '\u{2008}'
            ||| c == '\u{2009}'
            ||| c == '\u{200A}'
            ||| c == '\u{2028}'
            ||| c == '\u{2029}'
            ||| c == '\u{202F}'
            ||| c == '\u{205F}'
            ||| c == '\u{3000}'
        },
{
    let u = c as u32;
    vstd::utf8::char_u32_cast(c, u);
}

/// No whitespace at either end.
pub open spec fn trimmed(s: Seq<char>) -> bool {
    s.len() > 0 ==> !is_space(s[0]) && !is_space(s.last())
}

/// Trimming keeps a contiguous part of the text, removes only whitespace
/// before and after it, and leaves no whitespace at either end: the result
/// is the text from the first to the last non-whitespace character (empty
/// where there is none).
pub proof fn law_trim(s: Seq<char>) -> (r: (int, int))
    ensures
        0 <= r.0 <= r.1 <= s.len(),
        trim(s) == s.subrange(r.0, r.1),
        forall|k: int| 0 <= k < r.0 ==> is_space(#[trigger] s[k]),
        forall|k: int| r.1 <= k < s.len() ==> is_space(#[trigger] s[k]),
        trimmed(trim(s)),
{
    let i = lemma_trim_start(s);
    let t = s.subrange(i, s.len() as int);
    let j = lemma_trim_end(t);
    assert(t.subrange(0, j) =~= s.subrange(i, i + j));
    assert forall|k: int| i + j <= k < s.len() implies is_space(#[trigger] s[k]) by {
        assert(s[k] == t[k - i]);
    }
    if trim(s).len() > 0 {
        assert(trim(s)[0] == t[0]);
    }
    (i, i + j)
}

/// Trimming the start drops exactly the leading whitespace.
proof fn lemma_trim_start(s: Seq<char>) -> (i: int)
    ensures
        0 <= i <= s.len(),
        trim_start(s) == s.subrange(i, s.len() as int),
        forall|k: int| 0 <= k < i ==> is_space(#[trigger] s[k]),
        i < s.len() ==> !is_space(s[i]),
    decreases s.len(),
{
    if s.len() > 0 && is_space(s[0]) {
        let t = s.drop_first();
        let i0 = lemma_trim_start(t);
        assert(t.subrange(i0, t.len() as int) =~= s.subrange(i0 + 1, s.len() as int));
        assert forall|k: int| 0 <= k < i0 + 1 implies is_space(#[trigger] s[k]) by {
            if k > 0 {
                assert(s[k] == t[k - 1]);
            }
        }
        if i0 + 1 < s.len() {
            assert(s[i0 + 1] == t[i0]);
        }
        i0 + 1
    } else {
        assert(s.subrange(0, s.len() as int) =~= s);
        0
    }
}

/// Trimming the end drops exactly the trailing whitespace.
proof fn lemma_trim_end(s: Seq<char>) -> (j: int)
    ensures
        0 <= j <= s.len(),
        trim_end(s) == s.subrange(0, j),
        forall|k: int| j <= k < s.len() ==> is_space(#[trigger] s[k]),
        j > 0 ==> !is_space(s[j - 1]),
    decreases s.len(),
{
    if s.len() > 0 && is_space(s.last()) {
        let t = s.drop_last();
        let j0 = lemma_trim_end(t);
        assert(t.subrange(0, j0) =~= s.subrange(0, j0));
        assert forall|k: int| j0 <= k < s.len() implies is_space(#[trigger] s[k]) by {
            if k < s.len() - 1 {
                assert(s[k] == t[k]);
            }
        }
        if j0 > 0 {
            assert(s[j0 - 1] == t[j0 - 1]);
        }
        j0
    } else {
        assert(s.subrange(0, s.len() as int) =~= s);
        s.len() as int
    }
}

/// No piece of a split holds the separator.
pub proof fn lemma_split_pieces(s: Seq<char>, sep: char)
    ensures
        forall|i: int| 0 <= i < split(s, sep).len() ==> !(#[trigger] split(s, sep)[i]).contains(sep),
    decreases s.len(),
{
    if s.len() > 0 {
        let t = s.drop_last();
        lemma_split_pieces(t, sep);
        lemma_split_nonempty(t, sep);
        let parts = split(t, sep);
        if s.last() != sep {
            let last = parts.last().push(s.last());
            assert(!parts[parts.len() - 1].contains(sep));
            assert(!last.contains(sep)) by {
                if last.contains(sep) {
                    let k = choose|k: int| 0 <= k < last.len() && last[k] == sep;
                    if k < last.len() - 1 {
                        assert(parts.last()[k] == sep);
                    }
                }
            }
        }
        assert forall|i: int| 0 <= i < split(s, sep).len() implies !(
        #[trigger] split(s, sep)[i]).contains(sep) by {
            if i < parts.len() - 1 {
                assert(split(s, sep)[i] == parts[i]);
            }
        }
    }
}

/// Joining after changing the last piece by one more character adds that
/// character at the end.
proof fn lemma_join_extend_last(q: Seq<Seq<char>>, c: char, sep: char)
    requires
        q.len() >= 1,
    ensures
        join(q.update(q.len() - 1, q.last().push(c)), sep) == join(q, sep).push(c),
{
    let r = q.update(q.len() - 1, q.last().push(c));
    if q.len() == 1 {
    } else {
        assert(r.drop_last() =~= q.drop_last());
        assert(join(r, sep) =~= join(q, sep).push(c));
    }
}

/// Splitting cuts a text at every separator and nowhere else: the pieces
/// hold no separator, and joining them with the separator gives the text
/// back.
pub proof fn law_split(s: Seq<char>, sep: char)
    ensures
        split(s, sep).len() >= 1,
        forall|i: int| 0 <= i < split(s, sep).len() ==> !(#[trigger] split(s, sep)[i]).contains(sep),
        join(split(s, sep), sep) == s,
    decreases s.len(),
{
    lemma_split_nonempty(s, sep);
    lemma_split_pieces(s, sep);
    if s.len() == 0 {
        assert(join(split(s, sep), sep) =~= s);
    } else {
        let t = s.drop_last();
        law_split(t, sep);
        let parts = split(t, sep);
        if s.last() == sep {
            assert(parts.push(Seq::empty()).drop_last() =~= parts);
            assert(join(split(s, sep), sep) =~= s);
        } else {
            lemma_join_extend_last(parts, s.last(), sep);
            assert(t.push(s.last()) =~= s);
        }
    }
}

/// A part of a text holds only characters of the text.
pub proof fn lemma_subrange_lacks(s: Seq<char>, i: int, j: int, c: char)
    requires
        0 <= i <= j <= s.len(),
        !s.contains(c),
    ensures
        !s.subrange(i, j).contains(c),
{
    if s.subrange(i, j).contains(c) {
        let k = choose|k: int| 0 <= k < j - i && s.subrange(i, j)[k] == c;
        assert(s[i + k] == c);
    }
}

// ---------------------------------------------------------------------------
// Executable operations
// ---------------------------------------------------------------------------

/// The characters of a string, in order.
pub fn chars_of(s: &str) -> (v: Vec<char>)
    ensures
        v@ == s@,
{
    broadcast use vstd::string::group_string_axioms;

    let mut v: Vec<char> = Vec::new();
    for c in it: s.chars()
        invariant
            it.seq() == s@,
            v@ == s@.take(it.index() as int),
    {
        v.push(c);
    }
    v
}

/// The string made of the characters `v[lo..hi]`.
pub fn string_from(v: &Vec<char>, lo: usize, hi: usize) -> (s: String)
    requires
        lo <= hi <= v.len(),
    ensures
        s@ == v@.subrange(lo as int, hi as int),
{
    let mut s = String::new();
    let mut i = lo;
    while i < hi
        invariant
            lo <= i <= hi <= v.len(),
            s@ == v@.subrange(lo as int, i as int),
        decreases hi - i,
    {
        s.push(v[i]);
        assert(v@.subrange(lo as int, i + 1) =~= v@.subrange(lo as int, i as int).push(v@[i as int]));
        i = i + 1;
    }
    s
}

/// Whether `c` is whitespace.
pub fn is_whitespace(c: char) -> (b: bool)
    ensures
        b == is_space(c),
{
    let u = c as u32;
    (0x9 <= u && u <= 0xD) || u == 0x20 || u == 0x85 || u == 0xA0 || u == 0x1680 || (0x2000 <= u
        && u <= 0x200A) || u == 0x2028 || u == 0x2029 || u == 0x202F || u == 0x205F || u == 0x3000
}

/// The bounds of `v[lo..hi]` without its leading and trailing whitespace.
pub fn trim_bounds(v: &Vec<char>, lo: usize, hi: usize) -> (r: (usize, usize))
    requires
        lo <= hi <= v.len(),
    ensures
        lo <= r.0 <= r.1 <= hi,
        v@.subrange(r.0 as int, r.1 as int) == trim(v@.subrange(lo as int, hi as int)),
{
    let mut i = lo;
    while i < hi && is_whitespace(v[i])
        invariant
            lo <= i <= hi <= v.len(),
            trim_start(v@.subrange(lo as int, hi as int)) == trim_start(
                v@.subrange(i as int, hi as int),
            ),
        decreases hi - i,
    {
        assert(v@.subrange(i as int, hi as int).drop_first() =~= v@.subrange(i + 1, hi as int));
        i = i + 1;
    }
    let mut j = hi;
    while j > i && is_whitespace(v[j - 1])
        invariant
            lo <= i <= j <= hi <= v.len(),
            trim_start(v@.subrange(lo as int, hi as int)) == v@.subrange(i as int, hi as int),
            trim(v@.subrange(lo as int, hi as int)) == trim_end(v@.subrange(i as int, j as int)),
        decreases j - i,
    {
        assert(v@.subrange(i as int, j as int).drop_last() =~= v@.subrange(i as int, j - 1));
        j = j - 1;
    }
    (i, j)
}

/// The position of the first `c` in `v[lo..hi]`, or `hi` where there is none.
pub fn position(v: &Vec<char>, lo: usize, hi: usize, c: char) -> (p: usize)
    requires
        lo <= hi <= v.len(),
    ensures
        lo <= p <= hi,
        p - lo == index_of(v@.subrange(lo as int, hi as int), c),
{
    let ghost s = v@.subrange(lo as int, hi as int);
    let mut i = lo;
    while i < hi && v[i] != c
        invariant
            lo <= i <= hi <= v.len(),
            s == v@.subrange(lo as int, hi as int),
            forall|j: int| 0 <= j < i - lo ==> s[j] != c,
        decreases hi - i,
    {
        i = i + 1;
    }
    proof {
        lemma_index_of_at(s, c, i - lo);
    }
    i
}

/// The bounds of the pieces of `v[lo..hi]` between occurrences of `sep`.
pub fn split_bounds(v: &Vec<char>, lo: usize, hi: usize, sep: char) -> (r: Vec<(usize, usize)>)
    requires
        lo <= hi <= v.len(),
    ensures
        r.len() == split(v@.subrange(lo as int, hi as int), sep).len(),
        forall|i: int|
            0 <= i < r.len() ==> lo <= (#[trigger] r[i]).0 <= r[i].1 <= hi && v@.subrange(
                r[i].0 as int,
                r[i].1 as int,
            ) == split(v@.subrange(lo as int, hi as int), sep)[i],
{
    let mut r: Vec<(usize, usize)> = Vec::new();
    let mut start = lo;
    let mut k = lo;
    while k < hi
        invariant
            lo <= start <= k <= hi <= v.len(),
            r.len() + 1 == split(v@.subrange(lo as int, k as int), sep).len(),
            forall|i: int|
                0 <= i < r.len() ==> lo <= (#[trigger] r[i]).0 <= r[i].1 <= k && v@.subrange(
                    r[i].0 as int,
                    r[i].1 as int,
                ) == split(v@.subrange(lo as int, k as int), sep)[i],
            v@.subrange(start as int, k as int) == split(v@.subrange(lo as int, k as int), sep).last(),
        decreases hi - k,
    {
        let ghost prev = split(v@.subrange(lo as int, k as int), sep);
        let ghost cur = v@.subrange(lo as int, k + 1);
        proof {
            lemma_split_nonempty(v@.subrange(lo as int, k as int), sep);
            assert(cur.drop_last() =~= v@.subrange(lo as int, k as int));
            assert(cur.last() == v@[k as int]);
        }
        if v[k] == sep {
            r.push((start, k));
            start = k + 1;
            proof {
                assert(split(cur, sep) == prev.push(Seq::empty()));
                assert(v@.subrange(start as int, k + 1) =~= Seq::<char>::empty());
            }
        } else {
            proof {
                assert(split(cur, sep) == prev.update(prev.len() - 1, prev.last().push(v@[k as int])));
                assert(v@.subrange(start as int, k + 1) =~= v@.subrange(start as int, k as int).push(
                    v@[k as int],
                ));
            }
        }
        k = k + 1;
    }
    r.push((start, hi));
    r
}

} // verus!
