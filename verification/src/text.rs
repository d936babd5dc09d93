//! Character-level text primitives used by the manifest parser and rewriter.
//! Each executable function here states, as a spec function over `Seq<char>`,
//! the behaviour of the `str` method that the tool relies on.

use vstd::prelude::*;
use vstd::string::StringExecFns;
use vstd::utf8::is_ascii_chars;

verus! {

/// The Unicode `White_Space` property, which is what `char::is_whitespace` tests.
pub open spec fn is_white_space(c: char) -> bool {
    ||| ('\u{9}' <= c && c <= '\u{D}')
    ||| c == ' '
    ||| c == '\u{85}'
    ||| c == '\u{A0}'
    ||| c == '\u{1680}'
    ||| ('\u{2000}' <= c && c <= '\u{200A}')
    ||| c == '\u{2028}'
    ||| c == '\u{2029}'
    ||| c == '\u{202F}'
    ||| c == '\u{205F}'
    ||| c == '\u{3000}'
}

/// Whether `c` is white space in the sense of `char::is_whitespace`.
pub fn char_is_whitespace(c: char) -> (b: bool)
    ensures
        b == is_white_space(c),
{
    ('\u{9}' <= c && c <= '\u{D}') || c == ' ' || c == '\u{85}' || c == '\u{A0}' || c == '\u{1680}'
        || ('\u{2000}' <= c && c <= '\u{200A}') || c == '\u{2028}' || c == '\u{2029}'
        || c == '\u{202F}' || c == '\u{205F}' || c == '\u{3000}'
}


/// The predicate that `str::trim` strips (`quotes == false`) or that
/// `str::trim_matches('"')` strips (`quotes == true`).
pub open spec fn strip_pred(quotes: bool) -> spec_fn(char) -> bool {
    if quotes {
        |c: char| c == '"'
    } else {
        |c: char| is_white_space(c)
    }
}

/// `s` without its leading characters that satisfy `p`.
pub open spec fn trim_start_by(s: Seq<char>, p: spec_fn(char) -> bool) -> Seq<char>
    decreases s.len(),
{
    if s.len() > 0 && p(s[0]) {
        trim_start_by(s.drop_first(), p)
    } else {
        s
    }
}

/// `s` without its trailing characters that satisfy `p`.
pub open spec fn trim_end_by(s: Seq<char>, p: spec_fn(char) -> bool) -> Seq<char>
    decreases s.len(),
{
    if s.len() > 0 && p(s.last()) {
        trim_end_by(s.drop_last(), p)
    } else {
        s
    }
}

/// `s` without its leading and trailing characters that satisfy `p`.
pub open spec fn trim_by(s: Seq<char>, p: spec_fn(char) -> bool) -> Seq<char> {
    trim_end_by(trim_start_by(s, p), p)
}

/// What `str::trim` returns.
pub open spec fn trim(s: Seq<char>) -> Seq<char> {
    trim_by(s, strip_pred(false))
}

/// What `str::trim_matches('"')` returns.
pub open spec fn trim_quotes(s: Seq<char>) -> Seq<char> {
    trim_by(s, strip_pred(true))
}

fn strip_pred_exec(c: char, quotes: bool) -> (b: bool)
    ensures
        b == strip_pred(quotes)(c),
{
    if quotes {
        c == '"'
    } else {
        char_is_whitespace(c)
    }
}

/// Narrows the range `start..end` of `v` to its trimmed part.
pub fn trim_range(v: &[char], start: usize, end: usize, quotes: bool) -> (r: (usize, usize))
    requires
        start <= end <= v@.len(),
    ensures
        start <= r.0 <= r.1 <= end,
        v@.subrange(r.0 as int, end as int) == trim_start_by(
            v@.subrange(start as int, end as int),
            strip_pred(quotes),
        ),
        v@.subrange(r.0 as int, r.1 as int) == trim_by(
            v@.subrange(start as int, end as int),
            strip_pred(quotes),
        ),
{
    let ghost p = strip_pred(quotes);
    let mut i = start;
    while i < end && strip_pred_exec(v[i], quotes)
        invariant
            start <= i <= end <= v@.len(),
            p == strip_pred(quotes),
            trim_start_by(v@.subrange(start as int, end as int), p) == trim_start_by(
                v@.subrange(i as int, end as int),
                p,
            ),
        decreases end - i,
    {
        assert(v@.subrange(i as int, end as int).drop_first() =~= v@.subrange(
            i + 1,
            end as int,
        ));
        i += 1;
    }
    assert(trim_start_by(v@.subrange(i as int, end as int), p) == v@.subrange(
        i as int,
        end as int,
    ));
    let mut j = end;
    while j > i && strip_pred_exec(v[j - 1], quotes)
        invariant
            start <= i <= j <= end <= v@.len(),
            p == strip_pred(quotes),
            trim_end_by(v@.subrange(i as int, end as int), p) == trim_end_by(
                v@.subrange(i as int, j as int),
                p,
            ),
        decreases j - i,
    {
        assert(v@.subrange(i as int, j as int).drop_last() =~= v@.subrange(
            i as int,
            j - 1,
        ));
        j -= 1;
    }
    assert(trim_end_by(v@.subrange(i as int, j as int), p) == v@.subrange(i as int, j as int));
    (i, j)
}


/// Trimming skips a prefix whose characters all satisfy the predicate.
pub proof fn lemma_trim_start_prefix(w: Seq<char>, s: Seq<char>, p: spec_fn(char) -> bool)
    requires
        forall|i: int| 0 <= i < w.len() ==> p(#[trigger] w[i]),
    ensures
        trim_start_by(w + s, p) == trim_start_by(s, p),
    decreases w.len(),
{
    if w.len() > 0 {
        assert((w + s).drop_first() =~= w.drop_first() + s);
        assert((w + s)[0] == w[0]);
        assert forall|i: int| 0 <= i < w.drop_first().len() implies p(#[trigger] w.drop_first()[i]) by {
            assert(w.drop_first()[i] == w[i + 1]);
        }
        lemma_trim_start_prefix(w.drop_first(), s, p);
    } else {
        assert(w + s =~= s);
    }
}

/// Index of the first `c` in `s`, or `s.len()` when there is none.
pub open spec fn first_of(s: Seq<char>, c: char) -> nat
    decreases s.len(),
{
    if s.len() == 0 {
        0
    } else if s[0] == c {
        0
    } else {
        1 + first_of(s.drop_first(), c)
    }
}

/// `first_of` is the index of the first occurrence, or the length.
pub proof fn lemma_first_of(s: Seq<char>, c: char, k: int)
    requires
        0 <= k <= s.len(),
        forall|i: int| 0 <= i < k ==> s[i] != c,
        k == s.len() || s[k] == c,
    ensures
        first_of(s, c) == k,
    decreases s.len(),
{
    if s.len() > 0 && s[0] != c {
        lemma_first_of(s.drop_first(), c, k - 1);
    }
}

/// `first_of` is within bounds and, when below the length, points at `c`.
pub proof fn lemma_first_of_props(s: Seq<char>, c: char)
    ensures
        first_of(s, c) <= s.len(),
        first_of(s, c) < s.len() ==> s[first_of(s, c) as int] == c,
        forall|i: int| 0 <= i < first_of(s, c) ==> #[trigger] s[i] != c,
    decreases s.len(),
{
    if s.len() > 0 && s[0] != c {
        lemma_first_of_props(s.drop_first(), c);
        assert forall|i: int| 0 <= i < first_of(s, c) implies #[trigger] s[i] != c by {
            if i > 0 {
                assert(s[i] == s.drop_first()[i - 1]);
            }
        }
    }
}

/// The last line of a text that does not end with a newline is not empty and
/// ends with the text's last character.
pub proof fn lemma_lines_last(s: Seq<char>)
    requires
        s.len() > 0,
        s.last() != '\n',
    ensures
        lines(s).len() > 0,
        lines(s).last().len() > 0,
        lines(s).last().last() == s.last(),
    decreases s.len(),
{
    lemma_first_of_props(s, '\n');
    let k = first_of(s, '\n');
    if k < s.len() {
        let rest = s.skip(k + 1int);
        assert(rest.last() == s.last());
        lemma_lines_last(rest);
        assert(lines(s) == seq![strip_cr(s.take(k as int))] + lines(rest));
    }
}

/// The lines `ls`, each followed by a newline.
pub open spec fn joined_lines(ls: Seq<Seq<char>>) -> Seq<char>
    decreases ls.len(),
{
    if ls.len() == 0 {
        seq![]
    } else {
        joined_lines(ls.drop_last()) + ls.last() + seq!['\n']
    }
}

proof fn lemma_joined_lines_cons(a: Seq<char>, ls: Seq<Seq<char>>)
    ensures
        joined_lines(seq![a] + ls) == a + seq!['\n'] + joined_lines(ls),
    decreases ls.len(),
{
    if ls.len() == 0 {
        assert(seq![a] + ls =~= seq![a]);
        assert(seq![a].drop_last() =~= Seq::<Seq<char>>::empty());
        assert(joined_lines(Seq::<Seq<char>>::empty()) == Seq::<char>::empty());
        assert(seq![a].last() == a);
        assert(joined_lines(seq![a]) == joined_lines(seq![a].drop_last()) + a + seq!['\n']);
        assert(joined_lines(seq![a]) =~= a + seq!['\n']);
    } else {
        lemma_joined_lines_cons(a, ls.drop_last());
        assert((seq![a] + ls).drop_last() =~= seq![a] + ls.drop_last());
        assert(joined_lines(seq![a] + ls) =~= a + seq!['\n'] + joined_lines(ls));
    }
}

/// No line of `ls` holds a newline or ends with a carriage return.
pub open spec fn clean_lines(ls: Seq<Seq<char>>) -> bool {
    forall|i: int|
        0 <= i < ls.len() ==> (forall|j: int| 0 <= j < ls[i].len() ==> #[trigger] ls[i][j] != '\n')
            && (#[trigger] ls[i].len() > 0 ==> ls[i].last() != '\r')
}

/// The lines of a text hold no newline.
pub proof fn lemma_lines_no_newline(s: Seq<char>)
    ensures
        forall|i: int, j: int|
            0 <= i < lines(s).len() && 0 <= j < lines(s)[i].len() ==> #[trigger] lines(s)[i][j]
                != '\n',
    decreases s.len(),
{
    if s.len() > 0 {
        lemma_first_of_props(s, '\n');
        let k = first_of(s, '\n');
        if k < s.len() {
            let rest = s.skip(k + 1int);
            lemma_lines_no_newline(rest);
            let head = strip_cr(s.take(k as int));
            assert(lines(s) == seq![head] + lines(rest));
            assert forall|i: int, j: int|
                0 <= i < lines(s).len() && 0 <= j < lines(s)[i].len() implies #[trigger] lines(s)[i][j]
                != '\n' by {
                if i == 0 {
                    assert(lines(s)[0] == head);
                    assert(head[j] == s[j]);
                } else {
                    assert(lines(s)[i] == lines(rest)[i - 1]);
                }
            }
        } else {
            assert(lines(s) == seq![s]);
            assert forall|i: int, j: int|
                0 <= i < lines(s).len() && 0 <= j < lines(s)[i].len() implies #[trigger] lines(s)[i][j]
                != '\n' by {
                assert(lines(s)[i] == s);
            }
        }
    }
}

/// Reading back the lines written one after another gives them again.
pub proof fn lemma_lines_of_joined(ls: Seq<Seq<char>>)
    requires
        clean_lines(ls),
    ensures
        lines(joined_lines(ls)) == ls,
    decreases ls.len(),
{
    if ls.len() > 0 {
        let a = ls[0];
        let rest = ls.drop_first();
        assert(ls =~= seq![a] + rest);
        assert forall|i: int| 0 <= i < rest.len() implies (forall|j: int|
            0 <= j < rest[i].len() ==> #[trigger] rest[i][j] != '\n') && (#[trigger] rest[i].len()
            > 0 ==> rest[i].last() != '\r') by {
            assert(rest[i] == ls[i + 1]);
        }
        lemma_lines_of_joined(rest);
        lemma_joined_lines_cons(a, rest);
        let s = joined_lines(ls);
        assert(s =~= a + seq!['\n'] + joined_lines(rest));
        assert forall|i: int| 0 <= i < a.len() implies s[i] != '\n' by {
            assert(s[i] == a[i]);
            assert(ls[0][i] != '\n');
        }
        lemma_first_of(s, '\n', a.len() as int);
        assert(s.take(a.len() as int) =~= a);
        assert(s.skip(a.len() + 1int) =~= joined_lines(rest));
        assert(strip_cr(a) == a);
    } else {
        assert(lines(Seq::<char>::empty()) =~= Seq::<Seq<char>>::empty());
    }
}

/// A final newline adds no line to a text whose last line is not empty and
/// does not end with a carriage return.
pub proof fn lemma_lines_push_newline(y: Seq<char>)
    requires
        y.len() > 0,
        y.last() != '\n',
        y.last() != '\r',
    ensures
        lines(y.push('\n')) == lines(y),
    decreases y.len(),
{
    let x = y.push('\n');
    lemma_first_of_props(y, '\n');
    let k = first_of(y, '\n');
    if k < y.len() {
        lemma_first_of(x, '\n', k as int);
        let rest = y.skip(k + 1int);
        assert(x.skip(k + 1int) =~= rest.push('\n'));
        assert(x.take(k as int) =~= y.take(k as int));
        if rest.len() > 0 {
            assert(rest.last() == y.last());
            lemma_lines_push_newline(rest);
        } else {
            assert(k == y.len() - 1);
            assert(y[k as int] == '\n');
        }
    } else {
        assert forall|i: int| 0 <= i < y.len() implies x[i] != '\n' by {
            assert(x[i] == y[i]);
        }
        lemma_first_of(x, '\n', y.len() as int);
        assert(x.take(y.len() as int) =~= y);
        assert(x.skip(y.len() + 1int) =~= Seq::<char>::empty());
        assert(lines(Seq::<char>::empty()) =~= Seq::<Seq<char>>::empty());
        assert(lines(x) =~= seq![y]);
    }
}

/// `s` has no carriage return right before a newline.
pub open spec fn no_crlf(s: Seq<char>) -> bool {
    forall|i: int| 0 <= i < s.len() - 1 ==> !(#[trigger] s[i] == '\r' && s[i + 1] == '\n')
}

/// Joining the lines of a text without `\r\n` line ends gives the text back,
/// with a newline at the end whether or not it had one.
pub proof fn lemma_joined_lines_of(s: Seq<char>)
    requires
        no_crlf(s),
    ensures
        s.len() == 0 ==> joined_lines(lines(s)) == s,
        s.len() > 0 && s.last() == '\n' ==> joined_lines(lines(s)) == s,
        s.len() > 0 && s.last() != '\n' ==> joined_lines(lines(s)) == s.push('\n'),
    decreases s.len(),
{
    if s.len() > 0 {
        lemma_first_of_props(s, '\n');
        let k = first_of(s, '\n');
        if k < s.len() {
            let rest = s.skip(k + 1int);
            let head = s.take(k as int);
            assert(strip_cr(head) == head) by {
                if head.len() > 0 && head.last() == '\r' {
                    assert(s[k - 1] == '\r' && s[k as int] == '\n');
                }
            }
                    assert forall|i: int| 0 <= i < rest.len() - 1 implies !(#[trigger] rest[i] == '\r'
                && rest[i + 1] == '\n') by {
                assert(rest[i] == s[k + 1 + i] && rest[i + 1] == s[k + 2 + i]);
            }
            lemma_joined_lines_of(rest);
            lemma_joined_lines_cons(head, lines(rest));
            assert(lines(s) == seq![head] + lines(rest));
            if rest.len() == 0 {
                assert(s =~= head + seq!['\n']);
                assert(joined_lines(lines(rest)) =~= Seq::<char>::empty());
                assert(joined_lines(lines(s)) =~= s);
            } else {
                assert(rest.last() == s.last());
                assert(s =~= head + seq!['\n'] + rest);
                if s.last() == '\n' {
                    assert(joined_lines(lines(s)) =~= s);
                } else {
                    assert(joined_lines(lines(s)) =~= s.push('\n'));
                }
            }
        } else {
            assert(lines(s) == seq![s]);
            assert(seq![s].drop_last() =~= Seq::<Seq<char>>::empty());
            assert(joined_lines(Seq::<Seq<char>>::empty()) == Seq::<char>::empty());
            assert(seq![s].last() == s);
            assert(joined_lines(seq![s]) == joined_lines(seq![s].drop_last()) + s + seq!['\n']);
            assert(joined_lines(seq![s]) =~= s + seq!['\n']);
            assert(s[s.len() - 1] != '\n');
            assert(s + seq!['\n'] =~= s.push('\n'));
        }
    }
}

/// The pieces of `s` between occurrences of `c`, as `str::split(c)` yields them.
pub open spec fn split_char(s: Seq<char>, c: char) -> Seq<Seq<char>>
    decreases s.len(),
{
    let k = first_of(s, c);
    if k < s.len() {
        seq![s.take(k as int)] + split_char(s.skip(k + 1int), c)
    } else {
        seq![s]
    }
}

/// A line without the `'\r'` that precedes its `'\n'`.
pub open spec fn strip_cr(line: Seq<char>) -> Seq<char> {
    if line.len() > 0 && line.last() == '\r' {
        line.drop_last()
    } else {
        line
    }
}

/// The lines of `s`, as `str::lines` yields them: split at `'\n'`, with a
/// `'\r'` before the `'\n'` removed, and no empty line after a final `'\n'`.
pub open spec fn lines(s: Seq<char>) -> Seq<Seq<char>>
    decreases s.len(),
{
    if s.len() == 0 {
        seq![]
    } else {
        let k = first_of(s, '\n');
        if k < s.len() {
            seq![strip_cr(s.take(k as int))] + lines(s.skip(k + 1int))
        } else {
            seq![s]
        }
    }
}

/// The text of `v` in each range of `r`.
pub open spec fn range_texts(v: Seq<char>, r: Seq<(usize, usize)>) -> Seq<Seq<char>> {
    r.map_values(|p: (usize, usize)| v.subrange(p.0 as int, p.1 as int))
}

/// Every range of `r` lies within `start..end`.
pub open spec fn ranges_within(r: Seq<(usize, usize)>, start: int, end: int) -> bool {
    forall|i: int| 0 <= i < r.len() ==> start <= #[trigger] r[i].0 <= r[i].1 <= end
}

/// The ranges of the pieces of `v[start..end]` between occurrences of `c`.
pub fn split_ranges(v: &[char], start: usize, end: usize, c: char) -> (r: Vec<(usize, usize)>)
    requires
        start <= end <= v@.len(),
    ensures
        ranges_within(r@, start as int, end as int),
        range_texts(v@, r@) == split_char(v@.subrange(start as int, end as int), c),
{
    let mut r: Vec<(usize, usize)> = Vec::new();
    let mut piece = start;
    let mut j = start;
    while j < end
        invariant
            start <= piece <= j <= end <= v@.len(),
            ranges_within(r@, start as int, end as int),
            forall|i: int| piece <= i < j ==> v@[i] != c,
            range_texts(v@, r@) + split_char(v@.subrange(piece as int, end as int), c)
                == split_char(v@.subrange(start as int, end as int), c),
        decreases end - j,
    {
        if v[j] == c {
            let ghost s = v@.subrange(piece as int, end as int);
            proof {
                lemma_first_of(s, c, j - piece);
                assert(s.take(j - piece) =~= v@.subrange(piece as int, j as int));
                assert(s.skip(j - piece + 1) =~= v@.subrange(j + 1, end as int));
                assert(range_texts(v@, r@.push((piece, j))) =~= range_texts(v@, r@).push(
                    v@.subrange(piece as int, j as int),
                ));
            }
            r.push((piece, j));
            piece = j + 1;
        }
        j += 1;
    }
    let ghost s = v@.subrange(piece as int, end as int);
    proof {
        lemma_first_of(s, c, s.len() as int);
        assert(range_texts(v@, r@.push((piece, end))) =~= range_texts(v@, r@).push(s));
    }
    r.push((piece, end));
    r
}

/// The ranges of the lines of `v`.
pub fn line_ranges(v: &[char]) -> (r: Vec<(usize, usize)>)
    ensures
        ranges_within(r@, 0, v@.len() as int),
        range_texts(v@, r@) == lines(v@),
{
    let mut r: Vec<(usize, usize)> = Vec::new();
    let mut line = 0usize;
    let mut j = 0usize;
    let end = v.len();
    assert(v@.subrange(0, end as int) =~= v@);
    while j < end
        invariant
            0 <= line <= j <= end == v@.len(),
            ranges_within(r@, 0, end as int),
            forall|i: int| line <= i < j ==> v@[i] != '\n',
            range_texts(v@, r@) + lines(v@.subrange(line as int, end as int)) == lines(v@),
        decreases end - j,
    {
        if v[j] == '\n' {
            let ghost s = v@.subrange(line as int, end as int);
            let stop = if j > line && v[j - 1] == '\r' {
                j - 1
            } else {
                j
            };
            proof {
                lemma_first_of(s, '\n', j - line);
                assert(s.take(j - line) =~= v@.subrange(line as int, j as int));
                assert(strip_cr(s.take(j - line)) =~= v@.subrange(line as int, stop as int));
                assert(s.skip(j - line + 1) =~= v@.subrange(j + 1, end as int));
                assert(range_texts(v@, r@.push((line, stop))) =~= range_texts(v@, r@).push(
                    v@.subrange(line as int, stop as int),
                ));
            }
            r.push((line, stop));
            line = j + 1;
        }
        j += 1;
    }
    if line < end {
        let ghost s = v@.subrange(line as int, end as int);
        proof {
            lemma_first_of(s, '\n', s.len() as int);
            assert(range_texts(v@, r@.push((line, end))) =~= range_texts(v@, r@).push(s));
        }
        r.push((line, end));
    } else {
        assert(range_texts(v@, r@) + lines(v@.subrange(line as int, end as int)) =~= range_texts(v@, r@));
    }
    r
}


/// The characters of `s`, in order.
pub fn str_chars(s: &str) -> (v: Vec<char>)
    ensures
        v@ == s@,
{
    broadcast use vstd::string::group_string_axioms;

    let mut v: Vec<char> = Vec::new();
    for c in it: s.chars()
        invariant
            it.seq() == s@,
            v@ == s@.take(it.index() as int),
    {
        v.push(c);
    }
    assert(v@ =~= s@);
    v
}


/// Appends `c` to `s` (`String::push`).
#[verifier::external_body]
pub fn push_char(s: &mut String, c: char)
    ensures
        final(s)@ == old(s)@.push(c),
{
    s.push(c);
}

/// Removes the last character of `s` (`String::pop`).
#[verifier::external_body]
pub fn pop_char(s: &mut String) -> (r: Option<char>)
    ensures
        match r {
            Some(c) => old(s)@.len() > 0 && c == old(s)@.last() && final(s)@ == old(s)@.drop_last(),
            None => old(s)@.len() == 0 && final(s)@ == old(s)@,
        },
{
    s.pop()
}

/// Appends `t` to `s` (`String::push_str`).
pub fn push_text(s: &mut String, t: &str)
    ensures
        final(s)@ == old(s)@ + t@,
{
    s.append(t);
}

/// The characters of `v[start..end]` as a string.
pub fn string_of(v: &[char], start: usize, end: usize) -> (r: String)
    requires
        start <= end <= v@.len(),
    ensures
        r@ == v@.subrange(start as int, end as int),
{
    let mut r = String::new();
    let mut i = start;
    while i < end
        invariant
            start <= i <= end <= v@.len(),
            r@ == v@.subrange(start as int, i as int),
        decreases end - i,
    {
        push_char(&mut r, v[i]);
        assert(r@ =~= v@.subrange(start as int, i + 1));
        i += 1;
    }
    r
}

/// What `str::to_lowercase` returns for a string: its Unicode lowercase mapping.
pub uninterp spec fn lowercase(s: Seq<char>) -> Seq<char>;

/// ASCII lowercase of one character: `'A'..='Z'` become `'a'..='z'`.
pub open spec fn ascii_lower_char(c: char) -> char {
    if 'A' <= c && c <= 'Z' {
        ((c as u32) + 32) as char
    } else {
        c
    }
}

/// ASCII lowercase of a string.
pub open spec fn ascii_lower(s: Seq<char>) -> Seq<char> {
    s.map_values(|c: char| ascii_lower_char(c))
}

/// What `str::to_lowercase` returns: on ASCII text the mapping of
/// `'A'..='Z'` to `'a'..='z'`, elsewhere the Unicode mapping `lowercase`.
pub open spec fn lower_text(s: Seq<char>) -> Seq<char> {
    if is_ascii_chars(s) {
        ascii_lower(s)
    } else {
        lowercase(s)
    }
}

/// `str::to_lowercase`. The result is named `lower_text(s@)`; on ASCII text the
/// Unicode mapping only turns `'A'..='Z'` into `'a'..='z'`, which is stated too.
#[verifier::external_body]
pub fn to_lowercase(s: &str) -> (r: String)
    ensures
        r@ == lowercase(s@),
        is_ascii_chars(s@) ==> r@ == ascii_lower(s@),
{
    s.to_lowercase()
}

/// Whether `pat` occurs in `s` at position `i`.
pub open spec fn occurs_at(s: Seq<char>, pat: Seq<char>, i: int) -> bool {
    0 <= i && i + pat.len() <= s.len() && s.subrange(i, i + pat.len()) == pat
}

/// Whether `pat` occurs in `s` (`str::contains` with a string pattern).
pub open spec fn contains_text(s: Seq<char>, pat: Seq<char>) -> bool {
    exists|i: int| occurs_at(s, pat, i)
}

/// Whether `pat` occurs in `v[start..end]`.
pub fn range_contains(v: &[char], start: usize, end: usize, pat: &[char]) -> (b: bool)
    requires
        start <= end <= v@.len(),
    ensures
        b == contains_text(v@.subrange(start as int, end as int), pat@),
{
    let ghost s = v@.subrange(start as int, end as int);
    if pat.len() > end - start {
        assert forall|i: int| !occurs_at(s, pat@, i) by {}
        return false;
    }
    let last = end - pat.len();
    let mut i = start;
    while i <= last
        invariant
            start <= i <= last + 1,
            last + pat@.len() == end <= v@.len(),
            s == v@.subrange(start as int, end as int),
            forall|k: int| 0 <= k < i - start ==> !occurs_at(s, pat@, k),
        decreases last + 1 - i,
    {
        let mut j: usize = 0;
        let mut same = true;
        while j < pat.len()
            invariant
                j <= pat@.len(),
                start <= i <= last,
                last + pat@.len() == end <= v@.len(),
                same == (forall|m: int| 0 <= m < j ==> v@[i + m] == pat@[m]),
            decreases pat@.len() - j,
        {
            if v[i + j] != pat[j] {
                same = false;
            }
            j += 1;
        }
        if same {
            assert(s.subrange(i - start, i - start + pat@.len()) =~= pat@);
            assert(occurs_at(s, pat@, i - start));
            return true;
        }
        assert(!occurs_at(s, pat@, i - start)) by {
            let m = choose|m: int| 0 <= m < pat@.len() && v@[i + m] != pat@[m];
            assert(s.subrange(i - start, i - start + pat@.len())[m] == v@[i + m]);
        }
        i += 1;
    }
    assert forall|k: int| !occurs_at(s, pat@, k) by {
        if 0 <= k && k < i - start {
        }
    }
    false
}

/// The text of `parts` joined with `sep` between neighbours (`[String]::join`).
pub open spec fn join(parts: Seq<Seq<char>>, sep: Seq<char>) -> Seq<char>
    decreases parts.len(),
{
    if parts.len() == 0 {
        seq![]
    } else if parts.len() == 1 {
        parts[0]
    } else {
        join(parts.drop_last(), sep) + sep + parts.last()
    }
}

/// The characters of each string in `v`.
pub open spec fn texts(v: Seq<String>) -> Seq<Seq<char>> {
    v.map_values(|s: String| s@)
}

/// `parts` joined with `sep` between neighbours.
pub fn join_strings(parts: &Vec<String>, sep: &str) -> (r: String)
    ensures
        r@ == join(texts(parts@), sep@),
{
    let mut r = String::new();
    let mut i: usize = 0;
    while i < parts.len()
        invariant
            i <= parts@.len(),
            r@ == join(texts(parts@).take(i as int), sep@),
        decreases parts@.len() - i,
    {
        let ghost before = r@;
        if i > 0 {
            push_text(&mut r, sep);
        }
        push_text(&mut r, parts[i].as_str());
        assert(texts(parts@).take(i + 1).drop_last() =~= texts(parts@).take(i as int));
        if i == 0 {
            assert(r@ =~= join(texts(parts@).take(1), sep@));
        }
        i += 1;
    }
    assert(texts(parts@).take(i as int) =~= texts(parts@));
    r
}


/// `s` begins with `p`.
pub open spec fn starts_with_text(s: Seq<char>, p: Seq<char>) -> bool {
    p.len() <= s.len() && s.subrange(0, p.len() as int) == p
}

/// `s` ends with `p`.
pub open spec fn ends_with_text(s: Seq<char>, p: Seq<char>) -> bool {
    p.len() <= s.len() && s.subrange(s.len() - p.len(), s.len() as int) == p
}

/// Whether `v[at..at + p.len()]` is `p`.
fn matches_at(v: &[char], at: usize, p: &[char]) -> (b: bool)
    requires
        at + p@.len() <= v@.len(),
    ensures
        b == (v@.subrange(at as int, at + p@.len()) == p@),
{
    let n = v.len();
    let mut j: usize = 0;
    while j < p.len()
        invariant
            j <= p@.len(),
            n == v@.len(),
            at + p@.len() <= v@.len(),
            forall|m: int| 0 <= m < j ==> v@[at + m] == p@[m],
        decreases p@.len() - j,
    {
        if v[at + j] != p[j] {
            assert(v@.subrange(at as int, at + p@.len())[j as int] != p@[j as int]);
            return false;
        }
        j += 1;
    }
    assert(v@.subrange(at as int, at + p@.len()) =~= p@);
    true
}

/// Whether `s` begins with `p` (`str::starts_with`).
pub fn str_starts_with(s: &str, p: &str) -> (b: bool)
    ensures
        b == starts_with_text(s@, p@),
{
    let v = str_chars(s);
    let w = str_chars(p);
    if w.len() > v.len() {
        return false;
    }
    matches_at(v.as_slice(), 0, w.as_slice())
}

/// Whether `s` ends with `p` (`str::ends_with`).
pub fn str_ends_with(s: &str, p: &str) -> (b: bool)
    ensures
        b == ends_with_text(s@, p@),
{
    let v = str_chars(s);
    let w = str_chars(p);
    if w.len() > v.len() {
        return false;
    }
    matches_at(v.as_slice(), v.len() - w.len(), w.as_slice())
}

} // verus!
