//! Character-level text operations with their specifications.
//!
//! A string is modelled by its view, the sequence of its Unicode scalar values.
//! Comparing two UTF-8 strings byte by byte gives the same order as comparing their
//! scalar values one by one, and a byte-level substring match of one valid string in
//! another lines up with character boundaries, so the character-level definitions below
//! agree with `str`'s own `cmp` and `contains`.
use vstd::prelude::*;
use crate::bindings::string_from_chars;

verus! {

// ---------------------------------------------------------------- trimming

/// `s` without its leading white space.
pub open spec fn skip_ws(s: Seq<char>) -> Seq<char>
    decreases s.len(),
{
    if s.len() > 0 && unicode_white_space(s[0]) {
        skip_ws(s.drop_first())
    } else {
        s
    }
}

/// `s` without its trailing white space.
pub open spec fn drop_ws_end(s: Seq<char>) -> Seq<char>
    decreases s.len(),
{
    if s.len() > 0 && unicode_white_space(s.last()) {
        drop_ws_end(s.drop_last())
    } else {
        s
    }
}

/// `s` with leading and trailing white space removed, as `str::trim` does.
pub open spec fn trimmed(s: Seq<char>) -> Seq<char> {
    drop_ws_end(skip_ws(s))
}

/// Every character of `s` is white space.
pub open spec fn all_ws(s: Seq<char>) -> bool {
    forall|i: int| 0 <= i < s.len() ==> unicode_white_space(#[trigger] s[i])
}

/// Skipping leading white space leaves a suffix, and what it skipped is all white space.
pub proof fn lemma_skip_ws_suffix(s: Seq<char>)
    ensures
        skip_ws(s).len() <= s.len(),
        skip_ws(s) == s.skip(s.len() - skip_ws(s).len()),
        all_ws(s.take(s.len() - skip_ws(s).len())),
        skip_ws(s).len() > 0 ==> !unicode_white_space(skip_ws(s)[0]),
    decreases s.len(),
{
    if s.len() > 0 && unicode_white_space(s[0]) {
        lemma_skip_ws_suffix(s.drop_first());
        let t = s.drop_first();
        assert(t.skip(t.len() - skip_ws(t).len()) =~= s.skip(s.len() - skip_ws(s).len()));
        let k = s.len() - skip_ws(s).len();
        assert forall|i: int| 0 <= i < k implies unicode_white_space(#[trigger] s.take(k)[i]) by {
            if i > 0 {
                assert(s.take(k)[i] == t.take(k - 1)[i - 1]);
            }
        }
    } else {
        assert(s.skip(0) =~= s);
    }
}

/// Dropping trailing white space leaves a prefix, and what it dropped is all white space.
pub proof fn lemma_drop_ws_end_prefix(s: Seq<char>)
    ensures
        drop_ws_end(s).len() <= s.len(),
        drop_ws_end(s) == s.take(drop_ws_end(s).len() as int),
        all_ws(s.skip(drop_ws_end(s).len() as int)),
        drop_ws_end(s).len() > 0 ==> !unicode_white_space(drop_ws_end(s).last()),
    decreases s.len(),
{
    if s.len() > 0 && unicode_white_space(s.last()) {
        lemma_drop_ws_end_prefix(s.drop_last());
        let t = s.drop_last();
        let k = drop_ws_end(s).len() as int;
        assert(t.take(k) =~= s.take(k));
        assert forall|i: int| 0 <= i < s.len() - k implies unicode_white_space(
            #[trigger] s.skip(k)[i],
        ) by {
            if i < s.len() - k - 1 {
                assert(s.skip(k)[i] == t.skip(k)[i]);
            }
        }
    } else {
        assert(s.take(s.len() as int) =~= s);
    }
}

/// A trimmed string is empty exactly when every character is white space.
pub proof fn lemma_trimmed_empty(s: Seq<char>)
    ensures
        trimmed(s).len() == 0 <==> all_ws(s),
{
    lemma_skip_ws_suffix(s);
    lemma_drop_ws_end_prefix(skip_ws(s));
    let k = s.len() - skip_ws(s).len();
    if trimmed(s).len() == 0 {
        assert forall|i: int| 0 <= i < s.len() implies unicode_white_space(#[trigger] s[i]) by {
            if i < k {
                assert(s.take(k)[i] == s[i]);
            } else {
                assert(skip_ws(s).skip(0)[i - k] == s[i]);
            }
        }
    } else {
        assert(skip_ws(s)[0] == s[k]);
    }
}

/// The trimmed string is a contiguous part of the input string.
pub proof fn lemma_trimmed_is_infix(s: Seq<char>)
    ensures
        exists|a: int|
            0 <= a && a + trimmed(s).len() <= s.len() && #[trigger] s.subrange(
                a,
                a + trimmed(s).len(),
            ) == trimmed(s),
{
    lemma_skip_ws_suffix(s);
    lemma_drop_ws_end_prefix(skip_ws(s));
    let k = s.len() - skip_ws(s).len();
    let n = trimmed(s).len();
    assert(s.subrange(k, k + n) =~= trimmed(s));
}

/// Whether `c` has the Unicode `White_Space` property, which is what `char::is_whitespace`
/// and `str::trim` go by: the controls U+0009 to U+000D, the space, U+0085, the
/// no-break space, U+1680, U+2000 to U+200A, the line and paragraph separators,
/// U+202F, U+205F and U+3000.
pub open spec fn unicode_white_space(c: char) -> bool {
    let n = c as u32;
    ||| 0x9 <= n <= 0xD
    ||| n == 0x20
    ||| n == 0x85
    ||| n == 0xA0
    ||| n == 0x1680
    ||| 0x2000 <= n <= 0x200A
    ||| n == 0x2028
    ||| n == 0x2029
    ||| n == 0x202F
    ||| n == 0x205F
    ||| n == 0x3000
}

/// `char::is_whitespace`.
pub fn is_ws(c: char) -> (r: bool)
    ensures
        r == unicode_white_space(c),
{
    let n = c as u32;
    (0x9 <= n && n <= 0xD) || n == 0x20 || n == 0x85 || n == 0xA0 || n == 0x1680 || (0x2000
        <= n && n <= 0x200A) || n == 0x2028 || n == 0x2029 || n == 0x202F || n == 0x205F || n
        == 0x3000
}

/// The characters of a string, in order.
pub fn chars_of(s: &str) -> (r: Vec<char>)
    ensures
        r@ == s@,
{
    let mut out: Vec<char> = Vec::new();
    for c in it: s.chars()
        invariant
            out@ == it.seq().take(it.index() as int),
            it.seq() == s@,
    {
        out.push(c);
    }
    out
}

/// Removes leading and trailing white space, as `str::trim` does.
pub fn trim_chars(v: &Vec<char>) -> (r: Vec<char>)
    ensures
        r@ == trimmed(v@),
{
    let n = v.len();
    let mut i: usize = 0;
    proof {
        assert(v@.skip(0) =~= v@);
    }
    while i < n && is_ws(v[i])
        invariant
            i <= n == v@.len(),
            skip_ws(v@) == skip_ws(v@.skip(i as int)),
        decreases n - i,
    {
        proof {
            let t = v@.skip(i as int);
            assert(t.drop_first() =~= v@.skip(i + 1));
        }
        i = i + 1;
    }
    proof {
        let t = v@.skip(i as int);
        if i < n {
            assert(t[0] == v@[i as int]);
        }
    }
    let mut j: usize = n;
    while j > i && is_ws(v[j - 1])
        invariant
            i <= j <= n == v@.len(),
            skip_ws(v@) == v@.skip(i as int),
            drop_ws_end(skip_ws(v@)) == drop_ws_end(v@.subrange(i as int, j as int)),
        decreases j,
    {
        proof {
            let t = v@.subrange(i as int, j as int);
            assert(t.drop_last() =~= v@.subrange(i as int, j - 1));
        }
        j = j - 1;
    }
    proof {
        assert(v@.skip(i as int) =~= v@.subrange(i as int, n as int));
    }
    let mut out: Vec<char> = Vec::new();
    let mut k: usize = i;
    while k < j
        invariant
            i <= k <= j <= n == v@.len(),
            out@ == v@.subrange(i as int, k as int),
        decreases j - k,
    {
        out.push(v[k]);
        proof {
            assert(out@ =~= v@.subrange(i as int, k + 1));
        }
        k = k + 1;
    }
    out
}

/// `str::trim`, as an owned string.
pub fn trim_str(s: &str) -> (r: String)
    ensures
        r@ == trimmed(s@),
{
    let v = chars_of(s);
    let t = trim_chars(&v);
    string_from_chars(t.as_slice())
}

/// Whether a string holds nothing but white space (`s.trim().is_empty()`).
pub fn is_blank(s: &str) -> (r: bool)
    ensures
        r == all_ws(s@),
        r == (trimmed(s@).len() == 0),
{
    let v = chars_of(s);
    let t = trim_chars(&v);
    proof {
        lemma_trimmed_empty(s@);
    }
    t.len() == 0
}


// ---------------------------------------------------------------- splitting

/// The pieces of `s` between occurrences of `sep`, as `str::split` yields them
/// (an empty string gives one empty piece; two adjacent separators give an empty piece).
pub open spec fn split_on(s: Seq<char>, sep: char) -> Seq<Seq<char>>
    decreases s.len(),
{
    if s.len() == 0 {
        seq![Seq::<char>::empty()]
    } else {
        let rest = split_on(s.drop_last(), sep);
        if s.last() == sep {
            rest.push(Seq::<char>::empty())
        } else {
            rest.update(rest.len() - 1, rest.last().push(s.last()))
        }
    }
}

/// Splitting always yields at least one piece.
pub proof fn lemma_split_on_nonempty(s: Seq<char>, sep: char)
    ensures
        split_on(s, sep).len() >= 1,
    decreases s.len(),
{
    if s.len() > 0 {
        lemma_split_on_nonempty(s.drop_last(), sep);
    }
}

/// Splitting loses nothing and cuts only at the separator: no piece holds the separator,
/// and joining the pieces with it gives the string back.
pub proof fn lemma_split_on_join(s: Seq<char>, sep: char)
    ensures
        join(split_on(s, sep), seq![sep]) == s,
        forall|k: int|
            0 <= k < split_on(s, sep).len() ==> !(#[trigger] split_on(s, sep)[k]).contains(sep),
    decreases s.len(),
{
    lemma_split_on_nonempty(s, sep);
    if s.len() == 0 {
        assert(split_on(s, sep) =~= seq![Seq::<char>::empty()]);
        assert(join(split_on(s, sep), seq![sep]) =~= s);
    } else {
        let t = s.drop_last();
        let c = s.last();
        lemma_split_on_join(t, sep);
        lemma_split_on_nonempty(t, sep);
        let rest = split_on(t, sep);
        let cur = split_on(s, sep);
        if c == sep {
            assert(cur == rest.push(Seq::<char>::empty()));
            assert(cur.drop_last() =~= rest);
            assert(join(cur, seq![sep]) =~= s);
            assert forall|k: int| 0 <= k < cur.len() implies !(#[trigger] cur[k]).contains(sep) by {
                if k < rest.len() {
                    assert(cur[k] == rest[k]);
                }
            }
        } else {
            let last = rest.last().push(c);
            assert(cur == rest.update(rest.len() - 1, last));
            lemma_join_extend_last(rest, seq![sep], c);
            assert(join(cur, seq![sep]) =~= s);
            assert forall|k: int| 0 <= k < cur.len() implies !(#[trigger] cur[k]).contains(sep) by {
                if k < rest.len() - 1 {
                    assert(cur[k] == rest[k]);
                } else {
                    assert(!rest[rest.len() - 1].contains(sep));
                    if cur[k].contains(sep) {
                        let q = choose|q: int| 0 <= q < cur[k].len() && cur[k][q] == sep;
                        assert(cur[k] == last);
                        if q < rest.last().len() {
                            assert(rest.last()[q] == sep);
                        }
                    }
                }
            }
        }
    }
}

proof fn lemma_join_extend_last(items: Seq<Seq<char>>, sep: Seq<char>, c: char)
    requires
        items.len() >= 1,
    ensures
        join(items.update(items.len() - 1, items.last().push(c)), sep) == join(items, sep).push(c),
{
    let u = items.update(items.len() - 1, items.last().push(c));
    if items.len() == 1 {
        assert(join(u, sep) == u[0]);
    } else {
        assert(u.drop_last() =~= items.drop_last());
        assert(join(u, sep) =~= join(items, sep).push(c));
    }
}

/// `str::split` on one separator character.
pub fn split_str(s: &str, sep: char) -> (r: Vec<String>)
    ensures
        r.deep_view() == split_on(s@, sep),
{
    let v = chars_of(s);
    let n = v.len();
    let mut pieces: Vec<String> = Vec::new();
    let mut cur: Vec<char> = Vec::new();
    proof {
        assert(v@.take(0) =~= Seq::<char>::empty());
        assert(pieces.deep_view().push(cur@) =~= split_on(v@.take(0), sep));
    }
    for i in 0..n
        invariant
            n == v@.len(),
            v@ == s@,
            pieces.deep_view().push(cur@) == split_on(v@.take(i as int), sep),
    {
        let c = v[i];
        proof {
            assert(v@.take(i + 1).drop_last() =~= v@.take(i as int));
            lemma_split_on_nonempty(v@.take(i as int), sep);
        }
        if c == sep {
            let piece = string_from_chars(cur.as_slice());
            let ghost old_pieces = pieces.deep_view();
            pieces.push(piece);
            cur = Vec::new();
            proof {
                assert(pieces.deep_view() =~= old_pieces.push(piece@));
                assert(pieces.deep_view().push(cur@) =~= split_on(v@.take(i + 1), sep));
            }
        } else {
            let ghost old_cur = cur@;
            cur.push(c);
            proof {
                assert(pieces.deep_view().push(cur@) =~= split_on(v@.take(i + 1), sep));
            }
        }
    }
    let piece = string_from_chars(cur.as_slice());
    let ghost old_pieces = pieces.deep_view();
    pieces.push(piece);
    proof {
        assert(pieces.deep_view() =~= old_pieces.push(piece@));
        assert(v@.take(n as int) =~= v@);
    }
    pieces
}

// ---------------------------------------------------------------- substrings

/// `needle` occurs in `hay` starting at position `i`.
pub open spec fn occurs_at(hay: Seq<char>, needle: Seq<char>, i: int) -> bool {
    0 <= i && i + needle.len() <= hay.len() && hay.subrange(i, i + needle.len()) == needle
}

/// `needle` occurs somewhere in `hay` (`str::contains` with a string pattern).
pub open spec fn contains_seq(hay: Seq<char>, needle: Seq<char>) -> bool {
    exists|i: int| occurs_at(hay, needle, i)
}

fn occurs_at_exec(hay: &Vec<char>, needle: &Vec<char>, i: usize) -> (r: bool)
    requires
        i + needle@.len() <= hay@.len(),
    ensures
        r == occurs_at(hay@, needle@, i as int),
{
    let m = needle.len();
    let hl = hay.len();
    let mut k: usize = 0;
    while k < m
        invariant
            m == needle@.len(),
            hl == hay@.len(),
            i + m <= hay@.len(),
            k <= m,
            forall|j: int| 0 <= j < k ==> hay@[i + j] == needle@[j],
        decreases m - k,
    {
        if hay[i + k] != needle[k] {
            proof {
                assert(hay@.subrange(i as int, i + m)[k as int] != needle@[k as int]);
            }
            return false;
        }
        k = k + 1;
    }
    proof {
        assert(hay@.subrange(i as int, i + m) =~= needle@);
    }
    true
}

/// Whether `needle` occurs in `hay`, on character vectors.
pub fn contains_chars(hay: &Vec<char>, needle: &Vec<char>) -> (r: bool)
    ensures
        r == contains_seq(hay@, needle@),
{
    let h = hay.len();
    let m = needle.len();
    if m > h {
        return false;
    }
    if m == 0 {
        proof {
            assert(hay@.subrange(0, 0) =~= needle@);
            assert(occurs_at(hay@, needle@, 0));
        }
        return true;
    }
    let mut i: usize = 0;
    while i <= h - m
        invariant
            h == hay@.len(),
            m == needle@.len(),
            0 < m <= h,
            forall|j: int| 0 <= j < i ==> !occurs_at(hay@, needle@, j),
        decreases h - m + 1 - i,
    {
        if occurs_at_exec(hay, needle, i) {
            return true;
        }
        i = i + 1;
    }
    false
}

/// `str::contains` with a string pattern.
pub fn contains_str(hay: &str, needle: &str) -> (r: bool)
    ensures
        r == contains_seq(hay@, needle@),
{
    let h = chars_of(hay);
    let n = chars_of(needle);
    contains_chars(&h, &n)
}

/// A sequence occurs inside itself, and inside any sequence that extends it.
pub proof fn lemma_contains_extended(hay: Seq<char>, more: Seq<char>, needle: Seq<char>)
    requires
        contains_seq(hay, needle),
    ensures
        contains_seq(hay + more, needle),
{
    let i = choose|i: int| occurs_at(hay, needle, i);
    assert((hay + more).subrange(i, i + needle.len()) =~= hay.subrange(i, i + needle.len()));
    assert(occurs_at(hay + more, needle, i));
}

/// Whatever occurs in a part of `hay` occurs in `hay`.
pub proof fn lemma_contains_of_infix(hay: Seq<char>, a: int, b: int, needle: Seq<char>)
    requires
        0 <= a <= b <= hay.len(),
        contains_seq(hay.subrange(a, b), needle),
    ensures
        contains_seq(hay, needle),
{
    let part = hay.subrange(a, b);
    let i = choose|i: int| occurs_at(part, needle, i);
    assert(hay.subrange(a + i, a + i + needle.len()) =~= part.subrange(i, i + needle.len()));
    assert(occurs_at(hay, needle, a + i));
}

// ---------------------------------------------------------------- ordering

/// Lexicographic order on characters, the order of `String`'s `Ord`.
pub open spec fn seq_lt(a: Seq<char>, b: Seq<char>) -> bool
    decreases a.len(),
{
    if b.len() == 0 {
        false
    } else if a.len() == 0 {
        true
    } else if a[0] != b[0] {
        (a[0] as int) < (b[0] as int)
    } else {
        seq_lt(a.drop_first(), b.drop_first())
    }
}

/// No string is before itself.
pub proof fn lemma_seq_lt_irreflexive(a: Seq<char>)
    ensures
        !seq_lt(a, a),
    decreases a.len(),
{
    if a.len() > 0 {
        lemma_seq_lt_irreflexive(a.drop_first());
    }
}

/// Two strings are never each before the other.
pub proof fn lemma_seq_lt_asymmetric(a: Seq<char>, b: Seq<char>)
    ensures
        seq_lt(a, b) ==> !seq_lt(b, a),
    decreases a.len(),
{
    if a.len() > 0 && b.len() > 0 && a[0] == b[0] {
        lemma_seq_lt_asymmetric(a.drop_first(), b.drop_first());
    }
}

/// String order is transitive.
pub proof fn lemma_seq_lt_transitive(a: Seq<char>, b: Seq<char>, c: Seq<char>)
    requires
        seq_lt(a, b),
        seq_lt(b, c),
    ensures
        seq_lt(a, c),
    decreases a.len(),
{
    if a.len() > 0 && b.len() > 0 && c.len() > 0 && a[0] == b[0] && b[0] == c[0] {
        lemma_seq_lt_transitive(a.drop_first(), b.drop_first(), c.drop_first());
    }
}

/// Of two different strings, one is before the other.
pub proof fn lemma_seq_lt_total(a: Seq<char>, b: Seq<char>)
    requires
        a != b,
    ensures
        seq_lt(a, b) || seq_lt(b, a),
    decreases a.len(),
{
    if a.len() == 0 || b.len() == 0 {
        if a.len() == 0 && b.len() == 0 {
            assert(a =~= b);
        }
    } else if a[0] == b[0] {
        if a.drop_first() == b.drop_first() {
            assert(a =~= seq![a[0]] + a.drop_first());
            assert(b =~= seq![b[0]] + b.drop_first());
        }
        lemma_seq_lt_total(a.drop_first(), b.drop_first());
    } else {
        let x = a[0] as int;
        let y = b[0] as int;
        assert(x != y);
    }
}

/// `a < b` on strings.
pub fn str_lt(a: &str, b: &str) -> (r: bool)
    ensures
        r == seq_lt(a@, b@),
{
    let x = chars_of(a);
    let y = chars_of(b);
    let n = x.len();
    let m = y.len();
    let mut k: usize = 0;
    proof {
        assert(x@.skip(0) =~= x@);
        assert(y@.skip(0) =~= y@);
    }
    while k < n && k < m && x[k] == y[k]
        invariant
            n == x@.len(),
            m == y@.len(),
            k <= n,
            k <= m,
            seq_lt(x@, y@) == seq_lt(x@.skip(k as int), y@.skip(k as int)),
        decreases n - k,
    {
        proof {
            let xs = x@.skip(k as int);
            let ys = y@.skip(k as int);
            assert(xs.drop_first() =~= x@.skip(k + 1));
            assert(ys.drop_first() =~= y@.skip(k + 1));
        }
        k = k + 1;
    }
    if k == m {
        false
    } else if k == n {
        true
    } else {
        proof {
            assert(x@.skip(k as int)[0] == x@[k as int]);
            assert(y@.skip(k as int)[0] == y@[k as int]);
        }
        x[k] < y[k]
    }
}

// ---------------------------------------------------------------- joining

/// The items separated by `sep`, as `[..].join(sep)` builds them.
pub open spec fn join(items: Seq<Seq<char>>, sep: Seq<char>) -> Seq<char>
    decreases items.len(),
{
    if items.len() == 0 {
        Seq::<char>::empty()
    } else if items.len() == 1 {
        items[0]
    } else {
        join(items.drop_last(), sep) + sep + items.last()
    }
}

/// Joins strings with a separator.
pub fn join_strings(items: &Vec<String>, sep: &str) -> (r: String)
    ensures
        r@ == join(items.deep_view(), sep@),
{
    let mut out: Vec<char> = Vec::new();
    let sv = chars_of(sep);
    let n = items.len();
    proof {
        assert(items.deep_view().take(0) =~= Seq::<Seq<char>>::empty());
    }
    for i in 0..n
        invariant
            n == items@.len(),
            sv@ == sep@,
            out@ == join(items.deep_view().take(i as int), sep@),
    {
        let iv = chars_of(items[i].as_str());
        let ghost before = out@;
        if i > 0 {
            append_chars(&mut out, &sv);
        }
        append_chars(&mut out, &iv);
        proof {
            let d = items.deep_view();
            assert(d.take(i + 1).drop_last() =~= d.take(i as int));
            assert(d.take(i + 1).last() == items@[i as int]@);
            if i == 0 {
                assert(out@ =~= d.take(1)[0]);
            } else {
                assert(out@ =~= before + sep@ + items@[i as int]@);
            }
        }
    }
    proof {
        assert(items.deep_view().take(n as int) =~= items.deep_view());
    }
    string_from_chars(out.as_slice())
}

/// Appends characters to a vector.
pub fn append_chars(v: &mut Vec<char>, more: &Vec<char>)
    ensures
        final(v)@ == old(v)@ + more@,
{
    let n = more.len();
    let ghost start = v@;
    for i in 0..n
        invariant
            n == more@.len(),
            v@ == start + more@.take(i as int),
    {
        v.push(more[i]);
        proof {
            assert(v@ =~= start + more@.take(i + 1));
        }
    }
    proof {
        assert(more@.take(n as int) =~= more@);
    }
}

} // verus!
