//! Text utilities on the character view of strings: the byte order in which
//! rule names are kept, splitting a value at a separator, and the extension
//! part of a file name.
use vstd::prelude::*;

verus! {

/// `a` comes before `b` by code point.
pub open spec fn char_before(a: char, b: char) -> bool {
    (a as int) < (b as int)
}

/// Strict lexicographic order by code point. For UTF-8 text this is the
/// same order as comparing the encoded bytes, which is how `String` orders.
pub open spec fn text_before(a: Seq<char>, b: Seq<char>) -> bool
    decreases a.len(),
{
    if a.len() == 0 {
        b.len() > 0
    } else if b.len() == 0 {
        false
    } else if a[0] != b[0] {
        char_before(a[0], b[0])
    } else {
        text_before(a.drop_first(), b.drop_first())
    }
}

/// No text comes before itself.
pub proof fn lemma_text_before_irreflexive(a: Seq<char>)
    ensures
        !text_before(a, a),
    decreases a.len(),
{
    if a.len() > 0 {
        lemma_text_before_irreflexive(a.drop_first());
    }
}

/// Of two different texts exactly one comes before the other.
pub proof fn lemma_text_before_total(a: Seq<char>, b: Seq<char>)
    ensures
        a != b ==> (text_before(a, b) || text_before(b, a)),
        !(text_before(a, b) && text_before(b, a)),
    decreases a.len(),
{
    if a.len() > 0 && b.len() > 0 {
        if a[0] == b[0] {
            lemma_text_before_total(a.drop_first(), b.drop_first());
            if a.drop_first() == b.drop_first() {
                assert(a =~= seq![a[0]] + a.drop_first());
                assert(b =~= seq![b[0]] + b.drop_first());
            }
        } else {
            assert((a[0] as int) != (b[0] as int));
        }
    } else if a.len() == 0 && b.len() == 0 {
        assert(a =~= b);
    }
}

/// The order is transitive.
pub proof fn lemma_text_before_transitive(a: Seq<char>, b: Seq<char>, c: Seq<char>)
    requires
        text_before(a, b),
        text_before(b, c),
    ensures
        text_before(a, c),
    decreases a.len(),
{
    if a.len() > 0 && b.len() > 0 && c.len() > 0 {
        if a[0] == b[0] && b[0] == c[0] {
            lemma_text_before_transitive(a.drop_first(), b.drop_first(), c.drop_first());
        }
    }
}

/// Whether `a` comes strictly before `b` in byte order.
pub fn text_less(a: &str, b: &str) -> (r: bool)
    ensures
        r == text_before(a@, b@),
{
    let na = a.unicode_len();
    let nb = b.unicode_len();
    let mut i: usize = 0;
    assert(a@.skip(0) =~= a@);
    assert(b@.skip(0) =~= b@);
    while i < na && i < nb
        invariant
            na == a@.len(),
            nb == b@.len(),
            i <= na,
            i <= nb,
            text_before(a@, b@) == text_before(a@.skip(i as int), b@.skip(i as int)),
        decreases na - i,
    {
        let ca = a.get_char(i);
        let cb = b.get_char(i);
        if ca != cb {
            assert(a@.skip(i as int)[0] == ca);
            assert(b@.skip(i as int)[0] == cb);
            return (ca as u32) < (cb as u32);
        }
        assert(a@.skip(i as int).drop_first() =~= a@.skip(i + 1));
        assert(b@.skip(i as int).drop_first() =~= b@.skip(i + 1));
        i = i + 1;
    }
    i < nb && i == na
}

/// Whether two texts are the same.
pub fn text_equal(a: &str, b: &str) -> (r: bool)
    ensures
        r == (a@ == b@),
{
    proof {
        lemma_text_before_total(a@, b@);
        lemma_text_before_irreflexive(a@);
    }
    !text_less(a, b) && !text_less(b, a)
}

/// The pieces of `s` between occurrences of `sep`, in order; the pieces of
/// the empty text are one empty piece.
pub open spec fn split_on(s: Seq<char>, sep: char) -> Seq<Seq<char>>
    decreases s.len(),
{
    if s.len() == 0 {
        seq![Seq::<char>::empty()]
    } else {
        let rest = split_on(s.drop_last(), sep);
        if s.last() == sep {
            rest.push(Seq::<char>::empty())
        } else {
            rest.update(rest.len() - 1, rest.last().push(s.last()))
        }
    }
}

/// The pieces put back together with `sep` between neighbours.
pub open spec fn join_with(parts: Seq<Seq<char>>, sep: char) -> Seq<char>
    decreases parts.len(),
{
    if parts.len() == 0 {
        Seq::<char>::empty()
    } else if parts.len() == 1 {
        parts[0]
    } else {
        join_with(parts.drop_last(), sep).push(sep) + parts.last()
    }
}

/// Splitting gives at least one piece.
pub proof fn lemma_split_nonempty(s: Seq<char>, sep: char)
    ensures
        split_on(s, sep).len() >= 1,
    decreases s.len(),
{
    if s.len() > 0 {
        lemma_split_nonempty(s.drop_last(), sep);
    }
}

/// Splitting at `sep` and joining with `sep` gives back the text, and no
/// piece holds the separator.
pub proof fn lemma_split_join(s: Seq<char>, sep: char)
    ensures
        join_with(split_on(s, sep), sep) == s,
        forall|i: int| 0 <= i < split_on(s, sep).len() ==> !(#[trigger] split_on(s, sep)[i]).contains(sep),
    decreases s.len(),
{
    if s.len() > 0 {
        let init = s.drop_last();
        lemma_split_join(init, sep);
        lemma_split_nonempty(init, sep);
        let rest = split_on(init, sep);
        if s.last() == sep {
            let parts = rest.push(Seq::<char>::empty());
            assert(parts.drop_last() =~= rest);
            assert(join_with(parts, sep) =~= init.push(sep));
            assert(s =~= init.push(sep));
            assert forall|i: int| 0 <= i < parts.len() implies !(#[trigger] parts[i]).contains(sep) by {
                if i < rest.len() {
                    assert(parts[i] == rest[i]);
                }
            }
        } else {
            let parts = rest.update(rest.len() - 1, rest.last().push(s.last()));
            assert forall|i: int| 0 <= i < parts.len() implies !(#[trigger] parts[i]).contains(sep) by {
                if i < rest.len() - 1 {
                    assert(parts[i] == rest[i]);
                } else {
                    assert(!rest[rest.len() - 1].contains(sep));
                    if parts[i].contains(sep) {
                        let j = choose|j: int| 0 <= j < parts[i].len() && parts[i][j] == sep;
                        if j < rest.last().len() {
                            assert(rest.last()[j] == sep);
                        }
                    }
                }
            }
            if rest.len() == 1 {
                assert(join_with(rest, sep) == rest[0]);
                assert(join_with(parts, sep) == parts[0]);
                assert(s =~= init.push(s.last()));
            } else {
                assert(parts.drop_last() =~= rest.drop_last());
                assert(join_with(rest, sep) == join_with(rest.drop_last(), sep).push(sep) + rest.last());
                assert(join_with(parts, sep) =~= join_with(rest, sep).push(s.last()));
                assert(s =~= init.push(s.last()));
            }
        }
    }
}

/// Splits `s` at every occurrence of `sep`, as `str::split` with a character
/// pattern does.
pub fn split_at_char(s: &str, sep: char) -> (parts: Vec<String>)
    ensures
        parts@.map_values(|p: String| p@) == split_on(s@, sep),
{
    let n = s.unicode_len();
    let mut parts: Vec<String> = Vec::new();
    let mut start: usize = 0;
    let mut i: usize = 0;
    assert(s@.take(0) =~= Seq::<char>::empty());
    assert(parts@.map_values(|p: String| p@).push(s@.subrange(0, 0)) =~= seq![Seq::<char>::empty()]);
    while i < n
        invariant
            n == s@.len(),
            start <= i <= n,
            parts@.map_values(|p: String| p@).push(s@.subrange(start as int, i as int)) == split_on(
                s@.take(i as int),
                sep,
            ),
        decreases n - i,
    {
        let c = s.get_char(i);
        let ghost old_parts = parts@.map_values(|p: String| p@);
        assert(s@.take(i + 1).drop_last() =~= s@.take(i as int));
        assert(s@.take(i + 1).last() == c);
        if c == sep {
            let piece = s.substring_char(start, i).to_owned();
            parts.push(piece);
            assert(parts@.map_values(|p: String| p@) =~= old_parts.push(s@.subrange(start as int, i as int)));
            start = i + 1;
            assert(s@.subrange(start as int, start as int) =~= Seq::<char>::empty());
        } else {
            assert(s@.subrange(start as int, i + 1) =~= s@.subrange(start as int, i as int).push(c));
            assert(old_parts.push(s@.subrange(start as int, i + 1)) =~= old_parts.push(
                s@.subrange(start as int, i as int),
            ).update(old_parts.len() as int, s@.subrange(start as int, i as int).push(c)));
        }
        i = i + 1;
    }
    let last = s.substring_char(start, n).to_owned();
    let ghost before = parts@.map_values(|p: String| p@);
    parts.push(last);
    assert(parts@.map_values(|p: String| p@) =~= before.push(s@.subrange(start as int, n as int)));
    assert(s@.take(n as int) =~= s@);
    parts
}

/// Index of the last `c` in `s`, or -1 when there is none.
pub open spec fn last_index_of(s: Seq<char>, c: char) -> int
    decreases s.len(),
{
    if s.len() == 0 {
        -1
    } else if s.last() == c {
        s.len() - 1
    } else {
        last_index_of(s.drop_last(), c)
    }
}

/// The extension of a file name, as the documentation of `Path::extension`
/// gives it: none when the name holds no `.`, or when its only `.` is the
/// first character; otherwise what follows the last `.`.
pub open spec fn name_extension(name: Seq<char>) -> Option<Seq<char>> {
    let i = last_index_of(name, '.');
    if i <= 0 {
        None
    } else {
        Some(name.skip(i + 1))
    }
}

/// The extension of a file name, the empty text when it has none.
pub open spec fn extension_of(name: Seq<char>) -> Seq<char> {
    match name_extension(name) {
        Some(e) => e,
        None => Seq::<char>::empty(),
    }
}

/// Where the last occurrence stands.
pub proof fn lemma_last_index_of(s: Seq<char>, c: char)
    ensures
        -1 <= last_index_of(s, c) < s.len(),
        last_index_of(s, c) >= 0 ==> s[last_index_of(s, c)] == c,
        forall|j: int| last_index_of(s, c) < j < s.len() ==> s[j] != c,
    decreases s.len(),
{
    if s.len() > 0 && s.last() != c {
        lemma_last_index_of(s.drop_last(), c);
        assert forall|j: int| last_index_of(s, c) < j < s.len() implies s[j] != c by {
            if j < s.len() - 1 {
                assert(s.drop_last()[j] == s[j]);
            }
        }
    }
}

/// A non-empty extension holds no `.`, and the name ends with a `.` and the
/// extension.
pub proof fn lemma_extension_shape(name: Seq<char>)
    ensures
        !extension_of(name).contains('.'),
        extension_of(name).len() > 0 ==> name.skip(name.len() - extension_of(name).len() - 1)
            == seq!['.'] + extension_of(name),
{
    lemma_last_index_of(name, '.');
    let i = last_index_of(name, '.');
    if i > 0 {
        let e = name.skip(i + 1);
        if e.contains('.') {
            let j = choose|j: int| 0 <= j < e.len() && e[j] == '.';
            assert(name[i + 1 + j] == '.');
        }
        assert(name.skip(name.len() - e.len() - 1) =~= seq!['.'] + e);
    }
}

/// The extension of a file name, if it has one (see `name_extension`).
pub fn extension_in_name(name: &str) -> (ext: Option<String>)
    ensures
        match ext {
            Some(e) => name_extension(name@) == Some(e@),
            None => name_extension(name@) is None,
        },
{
    let n = name.unicode_len();
    let mut i: usize = n;
    while i > 0
        invariant
            n == name@.len(),
            i <= n,
            forall|j: int| i <= j < n ==> name@[j] != '.',
        decreases i,
    {
        if name.get_char(i - 1) == '.' {
            proof {
                lemma_last_index_of(name@, '.');
                let l = last_index_of(name@, '.');
                if l > i - 1 {
                    assert(name@[l] == '.');
                }
                assert(l == i - 1);
            }
            if i - 1 == 0 {
                return None;
            }
            return Some(name.substring_char(i, n).to_owned());
        }
        i = i - 1;
    }
    proof {
        lemma_last_index_of(name@, '.');
        let l = last_index_of(name@, '.');
        if l >= 0 {
            assert(name@[l] == '.');
        }
    }
    None
}

/// The extension of a file name (see `extension_of`).
pub fn extension_of_name(name: &str) -> (ext: String)
    ensures
        ext@ == extension_of(name@),
{
    match extension_in_name(name) {
        Some(e) => e,
        None => String::new(),
    }
}

/// Filtering a sequence with one more element at its end keeps that element
/// exactly when it passes.
pub proof fn lemma_filter_push<A>(s: Seq<A>, p: spec_fn(A) -> bool, x: A)
    ensures
        s.push(x).filter(p) == (if p(x) {
            s.filter(p).push(x)
        } else {
            s.filter(p)
        }),
{
    reveal(Seq::filter);
    assert(s.push(x).drop_last() =~= s);
}

} // verus!
