//! Character-level text handling shared by the parsers of the store:
//! whitespace trimming, line splitting, field splitting and word splitting,
//! each specified over `Seq<char>` the way the standard library behaves.
use vstd::prelude::*;

verus! {

/// The characters with the Unicode `White_Space` property, which is what
/// `char::is_whitespace` (and so `str::trim` and `str::split_whitespace`) uses.
pub open spec fn is_whitespace(c: char) -> bool {
    ||| ('\u{9}' <= c && c <= '\u{d}')
    ||| c == ' '
    ||| c == '\u{85}'
    ||| c == '\u{a0}'
    ||| c == '\u{1680}'
    ||| ('\u{2000}' <= c && c <= '\u{200a}')
    ||| c == '\u{2028}'
    ||| c == '\u{2029}'
    ||| c == '\u{202f}'
    ||| c == '\u{205f}'
    ||| c == '\u{3000}'
}

/// The sequence without its leading whitespace.
pub open spec fn trim_start(s: Seq<char>) -> Seq<char>
    decreases s.len(),
{
    if s.len() > 0 && is_whitespace(s[0]) {
        trim_start(s.drop_first())
    } else {
        s
    }
}

/// The sequence without its trailing whitespace.
pub open spec fn trim_end(s: Seq<char>) -> Seq<char>
    decreases s.len(),
{
    if s.len() > 0 && is_whitespace(s.last()) {
        trim_end(s.drop_last())
    } else {
        s
    }
}

/// The sequence without leading and trailing whitespace (`str::trim`).
pub open spec fn trimmed(s: Seq<char>) -> Seq<char> {
    trim_end(trim_start(s))
}

/// Lines as `BufRead::lines` yields them, `cur` being the line read so far:
/// a line ends at `'\n'`, which is dropped together with one `'\r'` before
/// it; a last line without `'\n'` is kept as it is when it is not empty.
pub open spec fn lines_from(s: Seq<char>, cur: Seq<char>) -> Seq<Seq<char>>
    decreases s.len(),
{
    if s.len() == 0 {
        if cur.len() == 0 {
            seq![]
        } else {
            seq![cur]
        }
    } else if s[0] == '\n' {
        seq![strip_cr(cur)] + lines_from(s.drop_first(), seq![])
    } else {
        lines_from(s.drop_first(), cur.push(s[0]))
    }
}

/// One trailing `'\r'` removed.
pub open spec fn strip_cr(line: Seq<char>) -> Seq<char> {
    if line.len() > 0 && line.last() == '\r' {
        line.drop_last()
    } else {
        line
    }
}

/// The lines of a text.
pub open spec fn lines_of(s: Seq<char>) -> Seq<Seq<char>> {
    lines_from(s, seq![])
}

/// Fields separated by `sep`, as `str::split` yields them, `cur` being the
/// field read so far: there is always one field more than separators.
pub open spec fn fields_from(s: Seq<char>, sep: char, cur: Seq<char>) -> Seq<Seq<char>>
    decreases s.len(),
{
    if s.len() == 0 {
        seq![cur]
    } else if s[0] == sep {
        seq![cur] + fields_from(s.drop_first(), sep, seq![])
    } else {
        fields_from(s.drop_first(), sep, cur.push(s[0]))
    }
}

/// The fields of a text separated by `sep`.
pub open spec fn fields_of(s: Seq<char>, sep: char) -> Seq<Seq<char>> {
    fields_from(s, sep, seq![])
}

/// A word, if the word read so far is not empty.
pub open spec fn word_if_any(cur: Seq<char>) -> Seq<Seq<char>> {
    if cur.len() == 0 {
        seq![]
    } else {
        seq![cur]
    }
}

/// The maximal runs of non-whitespace characters (`str::split_whitespace`),
/// `cur` being the run read so far.
pub open spec fn words_from(s: Seq<char>, cur: Seq<char>) -> Seq<Seq<char>>
    decreases s.len(),
{
    if s.len() == 0 {
        word_if_any(cur)
    } else if is_whitespace(s[0]) {
        word_if_any(cur) + words_from(s.drop_first(), seq![])
    } else {
        words_from(s.drop_first(), cur.push(s[0]))
    }
}

/// The words of a text.
pub open spec fn words_of(s: Seq<char>) -> Seq<Seq<char>> {
    words_from(s, seq![])
}

/// The views of a sequence of strings.
pub open spec fn views(v: Seq<String>) -> Seq<Seq<char>> {
    v.map_values(|s: String| s@)
}

pub proof fn lemma_views_push(v: Seq<String>, s: String)
    ensures
        views(v.push(s)) == views(v).push(s@),
{
    assert(views(v.push(s)) =~= views(v).push(s@));
}

/// The characters of a string slice.
pub fn chars_of(s: &str) -> (v: Vec<char>)
    ensures
        v@ == s@,
{
    let mut v: Vec<char> = Vec::new();
    for c in it: s.chars()
        invariant
            v@ == it.seq().take(it.index() as int),
            it.seq() == s@,
    {
        v.push(c);
    }
    v
}

/// Whether `c` is whitespace.
pub fn is_whitespace_char(c: char) -> (b: bool)
    ensures
        b == is_whitespace(c),
{
    ('\u{9}' <= c && c <= '\u{d}') || c == ' ' || c == '\u{85}' || c == '\u{a0}' || c
        == '\u{1680}' || ('\u{2000}' <= c && c <= '\u{200a}') || c == '\u{2028}' || c
        == '\u{2029}' || c == '\u{202f}' || c == '\u{205f}' || c == '\u{3000}'
}

/// The part of `s` between two character positions, as an owned string.
pub fn substring(s: &str, from: usize, to: usize) -> (r: String)
    requires
        from <= to <= s@.len(),
    ensures
        r@ == s@.subrange(from as int, to as int),
{
    s.substring_char(from, to).to_owned()
}

/// Leading and trailing whitespace removed.
pub fn trim(s: &str) -> (r: String)
    ensures
        r@ == trimmed(s@),
{
    let v = chars_of(s);
    let n = v.len();
    let mut i: usize = 0;
    assert(v@.subrange(0, n as int) =~= v@);
    while i < n && is_whitespace_char(v[i])
        invariant
            i <= n,
            n == v@.len(),
            trim_start(v@) == trim_start(v@.subrange(i as int, n as int)),
        decreases n - i,
    {
        assert(v@.subrange(i as int, n as int).drop_first() =~= v@.subrange(i + 1, n as int));
        i = i + 1;
    }
    let ghost t = v@.subrange(i as int, n as int);
    assert(trim_start(t) == t);
    let mut j: usize = n;
    while j > i && is_whitespace_char(v[j - 1])
        invariant
            i <= j <= n,
            n == v@.len(),
            trim_end(t) == trim_end(v@.subrange(i as int, j as int)),
            t == v@.subrange(i as int, n as int),
        decreases j,
    {
        assert(v@.subrange(i as int, j as int).drop_last() =~= v@.subrange(i as int, j - 1));
        j = j - 1;
    }
    assert(trim_end(v@.subrange(i as int, j as int)) == v@.subrange(i as int, j as int));
    substring(s, i, j)
}

/// The lines of a text (`str::lines` on a file's contents, as `BufRead::lines`
/// reads them).
pub fn lines(s: &str) -> (r: Vec<String>)
    ensures
        views(r@) == lines_of(s@),
{
    let v = chars_of(s);
    let n = v.len();
    let mut out: Vec<String> = Vec::new();
    let mut start: usize = 0;
    let mut i: usize = 0;
    assert(v@.skip(0) =~= v@);
    assert(v@.subrange(0, 0) =~= Seq::<char>::empty());
    while i < n
        invariant
            start <= i <= n,
            n == v@.len(),
            v@ == s@,
            lines_of(s@) == views(out@) + lines_from(
                v@.skip(i as int),
                v@.subrange(start as int, i as int),
            ),
        decreases n - i,
    {
        let ghost cur = v@.subrange(start as int, i as int);
        assert(v@.skip(i as int).drop_first() =~= v@.skip(i + 1));
        if v[i] == '\n' {
            let end = if i > start && v[i - 1] == '\r' {
                i - 1
            } else {
                i
            };
            assert(v@.subrange(start as int, end as int) == strip_cr(cur)) by {
                if i > start && v@[i - 1] == '\r' {
                    assert(cur.drop_last() =~= v@.subrange(start as int, end as int));
                }
            }
            let line = substring(s, start, end);
            proof {
                lemma_views_push(out@, line);
                assert(v@.subrange(i + 1, i + 1) =~= Seq::<char>::empty());
            }
            out.push(line);
            i = i + 1;
            start = i;
        } else {
            assert(cur.push(v@[i as int]) =~= v@.subrange(start as int, i + 1));
            i = i + 1;
        }
    }
    assert(v@.skip(n as int) =~= Seq::<char>::empty());
    if start < n {
        let line = substring(s, start, n);
        proof {
            lemma_views_push(out@, line);
        }
        out.push(line);
    }
    assert(views(out@) =~= lines_of(s@));
    out
}

/// The fields of a text separated by `sep` (`str::split` with a character).
pub fn fields(s: &str, sep: char) -> (r: Vec<String>)
    ensures
        views(r@) == fields_of(s@, sep),
{
    let v = chars_of(s);
    let n = v.len();
    let mut out: Vec<String> = Vec::new();
    let mut start: usize = 0;
    let mut i: usize = 0;
    assert(v@.skip(0) =~= v@);
    assert(v@.subrange(0, 0) =~= Seq::<char>::empty());
    while i < n
        invariant
            start <= i <= n,
            n == v@.len(),
            v@ == s@,
            fields_of(s@, sep) == views(out@) + fields_from(
                v@.skip(i as int),
                sep,
                v@.subrange(start as int, i as int),
            ),
        decreases n - i,
    {
        let ghost cur = v@.subrange(start as int, i as int);
        assert(v@.skip(i as int).drop_first() =~= v@.skip(i + 1));
        if v[i] == sep {
            let field = substring(s, start, i);
            proof {
                lemma_views_push(out@, field);
                assert(v@.subrange(i + 1, i + 1) =~= Seq::<char>::empty());
            }
            out.push(field);
            i = i + 1;
            start = i;
        } else {
            assert(cur.push(v@[i as int]) =~= v@.subrange(start as int, i + 1));
            i = i + 1;
        }
    }
    assert(v@.skip(n as int) =~= Seq::<char>::empty());
    let field = substring(s, start, n);
    proof {
        lemma_views_push(out@, field);
    }
    out.push(field);
    assert(views(out@) =~= fields_of(s@, sep));
    out
}

/// The words of a text (`str::split_whitespace`).
pub fn words(s: &str) -> (r: Vec<String>)
    ensures
        views(r@) == words_of(s@),
{
    let v = chars_of(s);
    let n = v.len();
    let mut out: Vec<String> = Vec::new();
    let mut start: usize = 0;
    let mut i: usize = 0;
    assert(v@.skip(0) =~= v@);
    assert(v@.subrange(0, 0) =~= Seq::<char>::empty());
    while i < n
        invariant
            start <= i <= n,
            n == v@.len(),
            v@ == s@,
            words_of(s@) == views(out@) + words_from(
                v@.skip(i as int),
                v@.subrange(start as int, i as int),
            ),
        decreases n - i,
    {
        let ghost cur = v@.subrange(start as int, i as int);
        assert(v@.skip(i as int).drop_first() =~= v@.skip(i + 1));
        if is_whitespace_char(v[i]) {
            if start < i {
                let word = substring(s, start, i);
                proof {
                    lemma_views_push(out@, word);
                }
                out.push(word);
            }
            proof {
                assert(v@.subrange(i + 1, i + 1) =~= Seq::<char>::empty());
            }
            i = i + 1;
            start = i;
        } else {
            assert(cur.push(v@[i as int]) =~= v@.subrange(start as int, i + 1));
            i = i + 1;
        }
    }
    assert(v@.skip(n as int) =~= Seq::<char>::empty());
    if start < n {
        let word = substring(s, start, n);
        proof {
            lemma_views_push(out@, word);
        }
        out.push(word);
    }
    assert(views(out@) =~= words_of(s@));
    out
}

} // verus!

verus! {

/// Whether two texts are the same.
pub fn same_text(a: &str, b: &str) -> (r: bool)
    ensures
        r == (a@ == b@),
{
    let x = chars_of(a);
    let y = chars_of(b);
    if x.len() != y.len() {
        return false;
    }
    let n = x.len();
    let mut i: usize = 0;
    while i < n
        invariant
            i <= n,
            n == x@.len(),
            n == y@.len(),
            x@ == a@,
            y@ == b@,
            forall|j: int| 0 <= j < i ==> x@[j] == y@[j],
        decreases n - i,
    {
        if x[i] != y[i] {
            assert(a@[i as int] != b@[i as int]);
            return false;
        }
        i = i + 1;
    }
    assert(x@ =~= y@);
    true
}

/// Lines joined, each followed by `'\n'`.
pub open spec fn join_lines(ls: Seq<Seq<char>>) -> Seq<char>
    decreases ls.len(),
{
    if ls.len() == 0 {
        seq![]
    } else {
        ls[0] + seq!['\n'] + join_lines(ls.drop_first())
    }
}

/// Fields joined with `sep` between each two of them.
pub open spec fn join_fields(fs: Seq<Seq<char>>, sep: char) -> Seq<char>
    decreases fs.len(),
{
    if fs.len() <= 1 {
        if fs.len() == 0 {
            seq![]
        } else {
            fs[0]
        }
    } else {
        fs[0] + seq![sep] + join_fields(fs.drop_first(), sep)
    }
}

/// `c` does not occur in `s`.
pub open spec fn free_of(s: Seq<char>, c: char) -> bool {
    forall|i: int| 0 <= i < s.len() ==> s[i] != c
}

/// Reading a line that ends with `'\n'`.
pub proof fn lemma_lines_from_line(l: Seq<char>, rest: Seq<char>, cur: Seq<char>)
    requires
        free_of(l, '\n'),
    ensures
        lines_from(l + seq!['\n'] + rest, cur) == seq![strip_cr(cur + l)] + lines_from(
            rest,
            seq![],
        ),
    decreases l.len(),
{
    let t = l + seq!['\n'] + rest;
    if l.len() == 0 {
        assert(t =~= seq!['\n'] + rest);
        assert(t.drop_first() =~= rest);
        assert(cur + l =~= cur);
    } else {
        assert(t[0] == l[0]);
        assert(t.drop_first() =~= l.drop_first() + seq!['\n'] + rest);
        lemma_lines_from_line(l.drop_first(), rest, cur.push(l[0]));
        assert(cur.push(l[0]) + l.drop_first() =~= cur + l);
    }
}

/// Lines joined by `join_lines` read back as themselves, up to one trailing
/// `'\r'` each.
pub proof fn lemma_lines_of_join(ls: Seq<Seq<char>>)
    requires
        forall|i: int| 0 <= i < ls.len() ==> free_of(#[trigger] ls[i], '\n'),
    ensures
        lines_of(join_lines(ls)) == ls.map_values(|l: Seq<char>| strip_cr(l)),
    decreases ls.len(),
{
    if ls.len() == 0 {
        assert(ls.map_values(|l: Seq<char>| strip_cr(l)) =~= Seq::<Seq<char>>::empty());
    } else {
        let rest = ls.drop_first();
        assert forall|i: int| 0 <= i < rest.len() implies free_of(#[trigger] rest[i], '\n') by {
            assert(rest[i] == ls[i + 1]);
        }
        lemma_lines_of_join(rest);
        assert(free_of(ls[0], '\n'));
        lemma_lines_from_line(ls[0], join_lines(rest), seq![]);
        assert(Seq::<char>::empty() + ls[0] =~= ls[0]);
        assert(join_lines(ls) == ls[0] + seq!['\n'] + join_lines(rest));
        assert(ls.map_values(|l: Seq<char>| strip_cr(l)) =~= seq![strip_cr(ls[0])]
            + rest.map_values(|l: Seq<char>| strip_cr(l)));
    }
}

/// Reading a field that runs to the end of the text.
pub proof fn lemma_fields_from_last(f: Seq<char>, sep: char, cur: Seq<char>)
    requires
        free_of(f, sep),
    ensures
        fields_from(f, sep, cur) == seq![cur + f],
    decreases f.len(),
{
    if f.len() == 0 {
        assert(cur + f =~= cur);
    } else {
        lemma_fields_from_last(f.drop_first(), sep, cur.push(f[0]));
        assert(cur.push(f[0]) + f.drop_first() =~= cur + f);
    }
}

/// Reading a field that ends with the separator.
pub proof fn lemma_fields_from_field(f: Seq<char>, sep: char, rest: Seq<char>, cur: Seq<char>)
    requires
        free_of(f, sep),
    ensures
        fields_from(f + seq![sep] + rest, sep, cur) == seq![cur + f] + fields_from(
            rest,
            sep,
            seq![],
        ),
    decreases f.len(),
{
    let t = f + seq![sep] + rest;
    if f.len() == 0 {
        assert(t =~= seq![sep] + rest);
        assert(t.drop_first() =~= rest);
        assert(cur + f =~= cur);
    } else {
        assert(t[0] == f[0]);
        assert(t.drop_first() =~= f.drop_first() + seq![sep] + rest);
        lemma_fields_from_field(f.drop_first(), sep, rest, cur.push(f[0]));
        assert(cur.push(f[0]) + f.drop_first() =~= cur + f);
    }
}

/// Fields joined by `join_fields` read back as themselves.
pub proof fn lemma_fields_of_join(fs: Seq<Seq<char>>, sep: char)
    requires
        fs.len() >= 1,
        forall|i: int| 0 <= i < fs.len() ==> free_of(#[trigger] fs[i], sep),
    ensures
        fields_of(join_fields(fs, sep), sep) == fs,
    decreases fs.len(),
{
    assert(free_of(fs[0], sep));
    if fs.len() == 1 {
        lemma_fields_from_last(fs[0], sep, seq![]);
        assert(Seq::<char>::empty() + fs[0] =~= fs[0]);
        assert(seq![fs[0]] =~= fs);
    } else {
        let rest = fs.drop_first();
        assert forall|i: int| 0 <= i < rest.len() implies free_of(#[trigger] rest[i], sep) by {
            assert(rest[i] == fs[i + 1]);
        }
        lemma_fields_of_join(rest, sep);
        lemma_fields_from_field(fs[0], sep, join_fields(rest, sep), seq![]);
        assert(Seq::<char>::empty() + fs[0] =~= fs[0]);
        assert(seq![fs[0]] + rest =~= fs);
    }
}

} // verus!

verus! {

/// A sequence that neither starts nor ends with whitespace is its own trim.
pub proof fn lemma_trimmed_unchanged(s: Seq<char>)
    requires
        s.len() > 0,
        !is_whitespace(s[0]),
        !is_whitespace(s.last()),
    ensures
        trimmed(s) == s,
{
    assert(trim_start(s) == s);
    assert(trim_end(s) == s);
}

/// No character of `s` is whitespace.
pub open spec fn free_of_whitespace(s: Seq<char>) -> bool {
    forall|i: int| 0 <= i < s.len() ==> !is_whitespace(#[trigger] s[i])
}

/// Reading a word that runs to the end of the text.
pub proof fn lemma_words_from_last(f: Seq<char>, cur: Seq<char>)
    requires
        free_of_whitespace(f),
    ensures
        words_from(f, cur) == word_if_any(cur + f),
    decreases f.len(),
{
    if f.len() == 0 {
        assert(cur + f =~= cur);
    } else {
        assert(!is_whitespace(f[0]));
        lemma_words_from_last(f.drop_first(), cur.push(f[0]));
        assert(cur.push(f[0]) + f.drop_first() =~= cur + f);
    }
}

/// Reading a word that a space ends.
pub proof fn lemma_words_from_word(f: Seq<char>, rest: Seq<char>, cur: Seq<char>)
    requires
        free_of_whitespace(f),
    ensures
        words_from(f + seq![' '] + rest, cur) == word_if_any(cur + f) + words_from(rest, seq![]),
    decreases f.len(),
{
    let t = f + seq![' '] + rest;
    if f.len() == 0 {
        assert(t =~= seq![' '] + rest);
        assert(t.drop_first() =~= rest);
        assert(cur + f =~= cur);
    } else {
        assert(t[0] == f[0]);
        assert(!is_whitespace(f[0]));
        assert(t.drop_first() =~= f.drop_first() + seq![' '] + rest);
        lemma_words_from_word(f.drop_first(), rest, cur.push(f[0]));
        assert(cur.push(f[0]) + f.drop_first() =~= cur + f);
    }
}

/// Non-empty words joined by single spaces read back as themselves.
pub proof fn lemma_words_of_join(ws: Seq<Seq<char>>)
    requires
        forall|i: int| 0 <= i < ws.len() ==> (#[trigger] ws[i]).len() > 0 && free_of_whitespace(ws[i]),
    ensures
        words_of(join_fields(ws, ' ')) == ws,
    decreases ws.len(),
{
    if ws.len() == 0 {
        assert(ws =~= Seq::<Seq<char>>::empty());
    } else if ws.len() == 1 {
        assert(ws[0].len() > 0 && free_of_whitespace(ws[0]));
        lemma_words_from_last(ws[0], seq![]);
        assert(Seq::<char>::empty() + ws[0] =~= ws[0]);
        assert(seq![ws[0]] =~= ws);
    } else {
        let rest = ws.drop_first();
        assert forall|i: int| 0 <= i < rest.len() implies (#[trigger] rest[i]).len() > 0
            && free_of_whitespace(rest[i]) by {
            assert(rest[i] == ws[i + 1]);
        }
        lemma_words_of_join(rest);
        assert(ws[0].len() > 0 && free_of_whitespace(ws[0]));
        lemma_words_from_word(ws[0], join_fields(rest, ' '), seq![]);
        assert(Seq::<char>::empty() + ws[0] =~= ws[0]);
        assert(seq![ws[0]] + rest =~= ws);
    }
}

/// Lines joined, followed by one more line.
pub proof fn lemma_join_lines_push(ls: Seq<Seq<char>>, l: Seq<char>)
    ensures
        join_lines(ls.push(l)) == join_lines(ls) + l + seq!['\n'],
    decreases ls.len(),
{
    if ls.len() == 0 {
        assert(ls.push(l).drop_first() =~= Seq::<Seq<char>>::empty());
        assert(ls.push(l)[0] == l);
        assert(join_lines(Seq::<Seq<char>>::empty()) == Seq::<char>::empty());
        assert(join_lines(ls.push(l)) =~= l + seq!['\n']);
        assert(join_lines(ls) + l + seq!['\n'] =~= l + seq!['\n']);
    } else {
        assert(ls.push(l)[0] == ls[0]);
        assert(ls.push(l).drop_first() =~= ls.drop_first().push(l));
        lemma_join_lines_push(ls.drop_first(), l);
        assert(ls[0] + seq!['\n'] + (join_lines(ls.drop_first()) + l + seq!['\n']) =~= ls[0]
            + seq!['\n'] + join_lines(ls.drop_first()) + l + seq!['\n']);
    }
}

/// Pieces joined with `sep` between each two of them, joined from the back.
pub open spec fn join_with(ls: Seq<Seq<char>>, sep: Seq<char>) -> Seq<char>
    decreases ls.len(),
{
    if ls.len() == 0 {
        seq![]
    } else if ls.len() == 1 {
        ls[0]
    } else {
        join_with(ls.drop_last(), sep) + sep + ls.last()
    }
}

/// `n` spaces.
pub open spec fn spaces(n: nat) -> Seq<char> {
    Seq::new(n, |i: int| ' ')
}

/// `s` right-aligned in a column of `width` characters.
pub open spec fn pad_left(s: Seq<char>, width: nat) -> Seq<char> {
    if s.len() < width {
        spaces((width - s.len()) as nat) + s
    } else {
        s
    }
}

/// `s` right-aligned in a column of `width` characters (`format!("{s:>width$}")`).
pub fn pad_left_text(s: &str, width: usize) -> (r: String)
    ensures
        r@ == pad_left(s@, width as nat),
{
    let n = s.unicode_len();
    let mut r = String::new();
    if n < width {
        let mut i: usize = 0;
        while i < width - n
            invariant
                n < width,
                i <= width - n,
                r@ == spaces(i as nat),
            decreases width - n - i,
        {
            r.append(" ");
            proof {
                reveal_strlit(" ");
                assert(spaces(i as nat) + " "@ =~= spaces((i + 1) as nat));
            }
            i = i + 1;
        }
    }
    let ghost before = r@;
    r.append(s);
    if n < width {
        assert(before == spaces((width - n) as nat));
    } else {
        assert(before =~= Seq::<char>::empty());
    }
    assert(r@ =~= pad_left(s@, width as nat));
    r
}

} // verus!
