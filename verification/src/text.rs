//! Character-level theory of hosts-file text: whitespace classification,
//! trimming, tokenization, line splitting, joining, and the lexicographic
//! order used to render canonical output.

use vstd::prelude::*;
use vstd::relations::total_ordering;

verus! {

/// A character with the Unicode `White_Space` property, the class that
/// `str::trim` and `str::split_whitespace` treat as whitespace.
pub open spec fn is_ws(c: char) -> bool {
    let u = c as u32;
    ||| u == 0x09
    ||| u == 0x0A
    ||| u == 0x0B
    ||| u == 0x0C
    ||| u == 0x0D
    ||| u == 0x20
    ||| u == 0x85
    ||| u == 0xA0
    ||| u == 0x1680
    ||| (0x2000 <= u && u <= 0x200A)
    ||| u == 0x2028
    ||| u == 0x2029
    ||| u == 0x202F
    ||| u == 0x205F
    ||| u == 0x3000
}

/// Executable test for [`is_ws`].
pub fn is_ws_char(c: char) -> (r: bool)
    ensures
        r == is_ws(c),
{
    let u = c as u32;
    u == 0x09 || u == 0x0A || u == 0x0B || u == 0x0C || u == 0x0D || u == 0x20 || u == 0x85
        || u == 0xA0 || u == 0x1680 || (0x2000 <= u && u <= 0x200A) || u == 0x2028 || u == 0x2029
        || u == 0x202F || u == 0x205F || u == 0x3000
}

/// A token as produced by tokenization: non-empty and free of whitespace.
pub open spec fn is_token(t: Seq<char>) -> bool {
    t.len() > 0 && (forall|i: int| 0 <= i < t.len() ==> !is_ws(#[trigger] t[i]))
}

/// Lexicographic order on character sequences by Unicode scalar value; this
/// coincides with the order `str::cmp` induces on the rendered lines.
pub open spec fn lex_le(a: Seq<char>, b: Seq<char>) -> bool
    decreases a.len(),
{
    if a.len() == 0 {
        true
    } else if b.len() == 0 {
        false
    } else if (a[0] as u32) < (b[0] as u32) {
        true
    } else if a[0] == b[0] {
        lex_le(a.drop_first(), b.drop_first())
    } else {
        false
    }
}

/// [`lex_le`] as a first-class relation, for use with vstd's ordering lemmas.
pub open spec fn lex_le_fn() -> spec_fn(Seq<char>, Seq<char>) -> bool {
    |a: Seq<char>, b: Seq<char>| lex_le(a, b)
}

/// Distinct characters have distinct Unicode scalar values.
pub proof fn lemma_char_cast_injective(x: char, y: char)
    requires
        x as u32 == y as u32,
    ensures
        x == y,
{
    vstd::utf8::char_u32_cast(x, x as u32);
    vstd::utf8::char_u32_cast(y, y as u32);
}

pub proof fn lemma_lex_le_refl(a: Seq<char>)
    ensures
        lex_le(a, a),
    decreases a.len(),
{
    if a.len() > 0 {
        lemma_lex_le_refl(a.drop_first());
    }
}

pub proof fn lemma_lex_le_trans(a: Seq<char>, b: Seq<char>, c: Seq<char>)
    requires
        lex_le(a, b),
        lex_le(b, c),
    ensures
        lex_le(a, c),
    decreases a.len(),
{
    if a.len() > 0 && b.len() > 0 && c.len() > 0 {
        if a[0] == b[0] && b[0] == c[0] {
            lemma_lex_le_trans(a.drop_first(), b.drop_first(), c.drop_first());
        }
    }
}

pub proof fn lemma_lex_le_antisym(a: Seq<char>, b: Seq<char>)
    requires
        lex_le(a, b),
        lex_le(b, a),
    ensures
        a == b,
    decreases a.len(),
{
    if a.len() > 0 && b.len() > 0 {
        lemma_lex_le_antisym(a.drop_first(), b.drop_first());
        assert(a =~= seq![a[0]] + a.drop_first());
        assert(b =~= seq![b[0]] + b.drop_first());
    } else {
        assert(a =~= b);
    }
}

pub proof fn lemma_lex_le_connected(a: Seq<char>, b: Seq<char>)
    ensures
        lex_le(a, b) || lex_le(b, a),
    decreases a.len(),
{
    if a.len() > 0 && b.len() > 0 {
        if a[0] == b[0] {
            lemma_lex_le_connected(a.drop_first(), b.drop_first());
        } else if (a[0] as u32) == (b[0] as u32) {
            lemma_char_cast_injective(a[0], b[0]);
        }
    }
}

/// The lexicographic order is a total order, so sorting by it has a unique
/// result.
pub proof fn lemma_lex_le_total_ordering()
    ensures
        total_ordering(lex_le_fn()),
{
    assert forall|a: Seq<char>| #[trigger] lex_le_fn()(a, a) by {
        lemma_lex_le_refl(a);
    }
    assert forall|a: Seq<char>, b: Seq<char>|
        #[trigger] lex_le_fn()(a, b) && #[trigger] lex_le_fn()(b, a) implies a == b by {
        lemma_lex_le_antisym(a, b);
    }
    assert forall|a: Seq<char>, b: Seq<char>, c: Seq<char>|
        #[trigger] lex_le_fn()(a, b) && #[trigger] lex_le_fn()(b, c) implies lex_le_fn()(
        a,
        c,
    ) by {
        lemma_lex_le_trans(a, b, c);
    }
    assert forall|a: Seq<char>, b: Seq<char>| #[trigger] lex_le_fn()(a, b) || #[trigger] lex_le_fn()(
        b,
        a,
    ) by {
        lemma_lex_le_connected(a, b);
    }
}

/// Leading whitespace removed.
pub open spec fn trim_start(s: Seq<char>) -> Seq<char>
    decreases s.len(),
{
    if s.len() > 0 && is_ws(s[0]) {
        trim_start(s.drop_first())
    } else {
        s
    }
}

/// Trailing whitespace removed.
pub open spec fn trim_end(s: Seq<char>) -> Seq<char>
    decreases s.len(),
{
    if s.len() > 0 && is_ws(s.last()) {
        trim_end(s.drop_last())
    } else {
        s
    }
}

/// Leading and trailing whitespace removed, as `str::trim` does.
pub open spec fn trim(s: Seq<char>) -> Seq<char> {
    trim_end(trim_start(s))
}

/// The maximal whitespace-free runs of `s`, in order, as `str::split_whitespace`
/// produces them.
pub open spec fn tokenize(s: Seq<char>) -> Seq<Seq<char>>
    decreases s.len(),
{
    if s.len() == 0 {
        Seq::empty()
    } else {
        let pre = tokenize(s.drop_last());
        let c = s.last();
        if is_ws(c) {
            pre
        } else if s.len() >= 2 && !is_ws(s[s.len() - 2]) {
            pre.update(pre.len() - 1, pre.last().push(c))
        } else {
            pre.push(seq![c])
        }
    }
}

/// The pieces of `s` between newline characters, as `str::split('\n')`
/// produces them: always at least one piece, and one more piece than there
/// are newlines.
pub open spec fn split_lines(s: Seq<char>) -> Seq<Seq<char>>
    decreases s.len(),
{
    if s.len() == 0 {
        seq![Seq::empty()]
    } else {
        let pre = split_lines(s.drop_last());
        let c = s.last();
        if c == '\n' {
            pre.push(Seq::empty())
        } else {
            pre.update(pre.len() - 1, pre.last().push(c))
        }
    }
}

/// The pieces joined with a single separator character between consecutive
/// pieces, and nothing appended after the last.
pub open spec fn join_with(parts: Seq<Seq<char>>, sep: char) -> Seq<char>
    decreases parts.len(),
{
    if parts.len() == 0 {
        Seq::empty()
    } else if parts.len() == 1 {
        parts[0]
    } else {
        join_with(parts.drop_last(), sep) + seq![sep] + parts.last()
    }
}

pub proof fn lemma_split_lines_len(s: Seq<char>)
    ensures
        split_lines(s).len() >= 1,
    decreases s.len(),
{
    if s.len() > 0 {
        lemma_split_lines_len(s.drop_last());
    }
}

/// A sequence ending in a non-whitespace character tokenizes to at least one
/// token.
pub proof fn lemma_tokenize_nonempty(s: Seq<char>)
    requires
        s.len() > 0,
        !is_ws(s.last()),
    ensures
        tokenize(s).len() > 0,
    decreases s.len(),
{
    if s.len() >= 2 && !is_ws(s[s.len() - 2]) {
        lemma_tokenize_nonempty(s.drop_last());
    }
}

/// Every piece produced by tokenization is a token: non-empty and free of
/// whitespace.
pub proof fn lemma_tokenize_pieces_are_tokens(s: Seq<char>)
    ensures
        forall|i: int| 0 <= i < tokenize(s).len() ==> is_token(#[trigger] tokenize(s)[i]),
    decreases s.len(),
{
    if s.len() > 0 {
        lemma_tokenize_pieces_are_tokens(s.drop_last());
        let pre = tokenize(s.drop_last());
        let c = s.last();
        if !is_ws(c) && s.len() >= 2 && !is_ws(s[s.len() - 2]) {
            lemma_tokenize_nonempty(s.drop_last());
            assert(is_token(pre.last().push(c)));
        }
    }
}

/// A whitespace-free, non-empty sequence is a single token.
pub proof fn lemma_tokenize_single(t: Seq<char>)
    requires
        is_token(t),
    ensures
        tokenize(t) == seq![t],
    decreases t.len(),
{
    if t.len() == 1 {
        assert(t =~= seq![t[0]]);
        assert(tokenize(t.drop_last()) == Seq::<Seq<char>>::empty());
        assert(tokenize(t) == Seq::<Seq<char>>::empty().push(seq![t[0]]));
        assert(tokenize(t) =~~= seq![t]);
    } else {
        lemma_tokenize_single(t.drop_last());
        assert(t.drop_last().last() == t[t.len() - 2]);
        assert(tokenize(t) =~~= seq![t]);
    }
}

/// A single whitespace character separates tokenizations: the tokens of
/// `a + [w] + b` are the tokens of `a` followed by the tokens of `b`.
pub proof fn lemma_tokenize_ws_sep(a: Seq<char>, w: char, b: Seq<char>)
    requires
        is_ws(w),
    ensures
        tokenize(a + seq![w] + b) == tokenize(a) + tokenize(b),
    decreases b.len(),
{
    let s = a + seq![w] + b;
    if b.len() == 0 {
        assert(s.drop_last() =~= a);
        assert(tokenize(s) =~= tokenize(a) + tokenize(b));
    } else {
        lemma_tokenize_ws_sep(a, w, b.drop_last());
        assert(s.drop_last() =~= a + seq![w] + b.drop_last());
        let pre = tokenize(a + seq![w] + b.drop_last());
        let c = b.last();
        assert(s.last() == c);
        if is_ws(c) {
            assert(tokenize(s) =~= tokenize(a) + tokenize(b));
        } else if b.len() >= 2 && !is_ws(b[b.len() - 2]) {
            assert(s[s.len() - 2] == b[b.len() - 2]);
            lemma_tokenize_nonempty(b.drop_last());
            let q = tokenize(b.drop_last());
            assert(pre == tokenize(a) + q);
            assert(pre.len() == tokenize(a).len() + q.len());
            assert(pre.last() == q.last());
            assert(tokenize(s) == pre.update(pre.len() - 1, pre.last().push(c)));
            assert(tokenize(b) == q.update(q.len() - 1, q.last().push(c)));
            assert(tokenize(s) =~= tokenize(a) + tokenize(b));
        } else {
            assert(s[s.len() - 2] == if b.len() >= 2 {
                b[b.len() - 2]
            } else {
                w
            });
            assert(tokenize(s) == pre.push(seq![c]));
            assert(tokenize(b) == tokenize(b.drop_last()).push(seq![c]));
            assert(tokenize(s) =~= tokenize(a) + tokenize(b));
        }
    }
}

/// Leading whitespace does not change tokenization.
pub proof fn lemma_tokenize_ws_prefix(w: char, b: Seq<char>)
    requires
        is_ws(w),
    ensures
        tokenize(seq![w] + b) == tokenize(b),
    decreases b.len(),
{
    lemma_tokenize_ws_sep(Seq::empty(), w, b);
    assert(Seq::<char>::empty() + seq![w] + b =~= seq![w] + b);
    assert(tokenize(Seq::<char>::empty() + seq![w] + b) == tokenize(Seq::<char>::empty())
        + tokenize(b));
    assert(Seq::<Seq<char>>::empty() + tokenize(b) =~= tokenize(b));
}

/// Tokenizing tokens joined by single spaces gives the tokens back.
pub proof fn lemma_tokenize_join(parts: Seq<Seq<char>>)
    requires
        forall|i: int| 0 <= i < parts.len() ==> is_token(#[trigger] parts[i]),
    ensures
        tokenize(join_with(parts, ' ')) == parts,
    decreases parts.len(),
{
    if parts.len() == 0 {
    } else if parts.len() == 1 {
        lemma_tokenize_single(parts[0]);
        assert(tokenize(join_with(parts, ' ')) =~= parts);
    } else {
        lemma_tokenize_join(parts.drop_last());
        lemma_tokenize_ws_sep(join_with(parts.drop_last(), ' '), ' ', parts.last());
        lemma_tokenize_single(parts.last());
        assert(tokenize(join_with(parts, ' ')) =~= parts);
    }
}

/// A newline separates line splits: splitting `a + ['\n'] + b` gives the
/// lines of `a` followed by the lines of `b`.
pub proof fn lemma_split_lines_sep(a: Seq<char>, b: Seq<char>)
    ensures
        split_lines(a + seq!['\n'] + b) == split_lines(a) + split_lines(b),
    decreases b.len(),
{
    let s = a + seq!['\n'] + b;
    lemma_split_lines_len(a);
    lemma_split_lines_len(b);
    if b.len() == 0 {
        assert(s.drop_last() =~= a);
        assert(s.last() == '\n');
        assert(split_lines(s) == split_lines(a).push(Seq::empty()));
        assert(split_lines(b) =~= seq![Seq::<char>::empty()]);
        assert(split_lines(s) =~= split_lines(a) + split_lines(b));
    } else {
        lemma_split_lines_sep(a, b.drop_last());
        lemma_split_lines_len(b.drop_last());
        assert(s.drop_last() =~= a + seq!['\n'] + b.drop_last());
        let pre = split_lines(a + seq!['\n'] + b.drop_last());
        let q = split_lines(b.drop_last());
        let c = b.last();
        assert(s.last() == c);
        assert(pre == split_lines(a) + q);
        assert(pre.len() == split_lines(a).len() + q.len());
        assert(pre.last() == q.last());
        if c == '\n' {
            assert(split_lines(s) =~= split_lines(a) + split_lines(b));
        } else {
            assert(split_lines(s) == pre.update(pre.len() - 1, pre.last().push(c)));
            assert(split_lines(b) == q.update(q.len() - 1, q.last().push(c)));
            assert(split_lines(s) =~= split_lines(a) + split_lines(b));
        }
    }
}

/// A piece without newlines splits to itself alone.
pub proof fn lemma_split_lines_single(p: Seq<char>)
    requires
        forall|i: int| 0 <= i < p.len() ==> #[trigger] p[i] != '\n',
    ensures
        split_lines(p) == seq![p],
    decreases p.len(),
{
    if p.len() == 0 {
        assert(split_lines(p) =~~= seq![p]);
    } else {
        lemma_split_lines_single(p.drop_last());
        assert(split_lines(p) =~~= seq![p]);
    }
}

/// Splitting newline-free pieces joined by newlines gives the pieces back.
pub proof fn lemma_split_lines_join(parts: Seq<Seq<char>>)
    requires
        parts.len() >= 1,
        forall|i: int, j: int|
            0 <= i < parts.len() && 0 <= j < parts[i].len() ==> #[trigger] parts[i][j] != '\n',
    ensures
        split_lines(join_with(parts, '\n')) == parts,
    decreases parts.len(),
{
    if parts.len() == 1 {
        lemma_split_lines_single(parts[0]);
        assert(split_lines(join_with(parts, '\n')) =~= parts);
    } else {
        lemma_split_lines_join(parts.drop_last());
        lemma_split_lines_sep(join_with(parts.drop_last(), '\n'), parts.last());
        lemma_split_lines_single(parts.last());
        assert(split_lines(join_with(parts, '\n')) =~= parts);
    }
}

/// Trimming removes exactly the whitespace margin: if everything before `a`
/// and everything from `b` on is whitespace, and the characters at the edges
/// `a` and `b - 1` are not, the trim of `s` is `s[a..b]`.
pub proof fn lemma_trim_margin(s: Seq<char>, a: int, b: int)
    requires
        0 <= a <= b <= s.len(),
        forall|i: int| 0 <= i < a ==> is_ws(#[trigger] s[i]),
        forall|i: int| b <= i < s.len() ==> is_ws(#[trigger] s[i]),
        a == b || !is_ws(s[a]),
        a == b || !is_ws(s[b - 1]),
    ensures
        trim(s) == s.subrange(a, b),
    decreases s.len(),
{
    if a == b {
        lemma_trim_start_all_ws(s);
        assert(trim(s) =~= s.subrange(a, b));
    } else if a > 0 {
        lemma_trim_margin(s.drop_first(), a - 1, b - 1);
        assert(s.drop_first().subrange(a - 1, b - 1) =~= s.subrange(a, b));
    } else if b < s.len() {
        assert(trim_start(s) == s);
        lemma_trim_end_margin(s, b);
        assert(trim(s) == s.take(b));
        assert(s.take(b) =~= s.subrange(a, b));
    } else {
        assert(trim_start(s) == s);
        assert(trim_end(s) == s);
        assert(s.subrange(0, s.len() as int) =~= s);
    }
}

/// A sequence of nothing but whitespace trims from the start to nothing.
pub proof fn lemma_trim_start_all_ws(s: Seq<char>)
    requires
        forall|i: int| 0 <= i < s.len() ==> is_ws(#[trigger] s[i]),
    ensures
        trim_start(s) == Seq::<char>::empty(),
    decreases s.len(),
{
    if s.len() > 0 {
        lemma_trim_start_all_ws(s.drop_first());
    } else {
        assert(s =~= Seq::<char>::empty());
    }
}

pub proof fn lemma_trim_end_margin(s: Seq<char>, b: int)
    requires
        0 <= b <= s.len(),
        forall|i: int| b <= i < s.len() ==> is_ws(#[trigger] s[i]),
        b == 0 || !is_ws(s[b - 1]),
    ensures
        trim_end(s) == s.take(b),
    decreases s.len(),
{
    if b < s.len() {
        lemma_trim_end_margin(s.drop_last(), b);
        assert(s.drop_last().take(b) =~= s.take(b));
    } else {
        assert(s.take(s.len() as int) =~= s);
    }
}

pub proof fn lemma_trim_start_first(s: Seq<char>)
    requires
        trim_start(s).len() > 0,
    ensures
        !is_ws(trim_start(s)[0]),
    decreases s.len(),
{
    if s.len() > 0 && is_ws(s[0]) {
        lemma_trim_start_first(s.drop_first());
    }
}

pub proof fn lemma_trim_end_last(s: Seq<char>)
    requires
        trim_end(s).len() > 0,
    ensures
        !is_ws(trim_end(s).last()),
    decreases s.len(),
{
    if s.len() > 0 && is_ws(s.last()) {
        lemma_trim_end_last(s.drop_last());
    }
}

pub proof fn lemma_trim_end_first(s: Seq<char>)
    requires
        trim_end(s).len() > 0,
    ensures
        s.len() > 0,
        trim_end(s)[0] == s[0],
    decreases s.len(),
{
    if s.len() > 0 && is_ws(s.last()) {
        lemma_trim_end_first(s.drop_last());
    }
}

/// A non-empty trim result has non-whitespace characters at both ends.
pub proof fn lemma_trim_shape(s: Seq<char>)
    requires
        trim(s).len() > 0,
    ensures
        !is_ws(trim(s)[0]),
        !is_ws(trim(s).last()),
{
    lemma_trim_end_last(trim_start(s));
    lemma_trim_end_first(trim_start(s));
    lemma_trim_start_first(s);
}

/// The first token starts with the first character, where that character is
/// not whitespace.
pub proof fn lemma_tokenize_first(s: Seq<char>)
    requires
        s.len() > 0,
        !is_ws(s[0]),
    ensures
        tokenize(s).len() > 0,
        tokenize(s)[0].len() > 0,
        tokenize(s)[0][0] == s[0],
    decreases s.len(),
{
    if s.len() == 1 {
    } else {
        lemma_tokenize_first(s.drop_last());
    }
}

/// Which whitespace character separates two pieces makes no difference to
/// tokenization.
pub proof fn lemma_ws_char_interchangeable(a: Seq<char>, u: char, v: char, b: Seq<char>)
    requires
        is_ws(u),
        is_ws(v),
    ensures
        tokenize(a + seq![u] + b) == tokenize(a + seq![v] + b),
{
    lemma_tokenize_ws_sep(a, u, b);
    lemma_tokenize_ws_sep(a, v, b);
}

/// A run of two whitespace characters tokenizes as a single one, so any run
/// collapses to a single separator.
pub proof fn lemma_ws_run_collapses(a: Seq<char>, u: char, v: char, b: Seq<char>)
    requires
        is_ws(u),
        is_ws(v),
    ensures
        tokenize(a + seq![u, v] + b) == tokenize(a + seq![u] + b),
{
    assert(a + seq![u, v] + b =~= a + seq![u] + (seq![v] + b));
    lemma_tokenize_ws_sep(a, u, seq![v] + b);
    lemma_tokenize_ws_prefix(v, b);
    lemma_tokenize_ws_sep(a, u, b);
}

/// Tokens joined by single spaces end in a non-whitespace character.
pub proof fn lemma_join_tokens_last(parts: Seq<Seq<char>>)
    requires
        parts.len() > 0,
        forall|i: int| 0 <= i < parts.len() ==> is_token(#[trigger] parts[i]),
    ensures
        join_with(parts, ' ').len() > 0,
        !is_ws(join_with(parts, ' ').last()),
{
    if parts.len() == 1 {
        assert(join_with(parts, ' ') == parts[0]);
    } else {
        let j = join_with(parts.drop_last(), ' ') + seq![' '] + parts.last();
        assert(join_with(parts, ' ') == j);
        assert(j.last() == parts.last().last());
    }
}

/// No character of a space-joined token list is a newline.
pub proof fn lemma_join_tokens_no_newline(parts: Seq<Seq<char>>)
    requires
        forall|i: int| 0 <= i < parts.len() ==> is_token(#[trigger] parts[i]),
    ensures
        forall|k: int|
            0 <= k < join_with(parts, ' ').len() ==> #[trigger] join_with(parts, ' ')[k] != '\n',
    decreases parts.len(),
{
    if parts.len() == 0 {
    } else if parts.len() == 1 {
        assert(join_with(parts, ' ') == parts[0]);
        assert forall|k: int|
            0 <= k < join_with(parts, ' ').len() implies #[trigger] join_with(parts, ' ')[k]
            != '\n' by {
            assert(!is_ws(parts[0][k]));
        }
    } else {
        lemma_join_tokens_no_newline(parts.drop_last());
        let pre = join_with(parts.drop_last(), ' ');
        let j = pre + seq![' '] + parts.last();
        assert(join_with(parts, ' ') == j);
        assert forall|k: int| 0 <= k < j.len() implies #[trigger] j[k] != '\n' by {
            if k < pre.len() {
                assert(j[k] == pre[k]);
            } else if k == pre.len() {
                assert(j[k] == ' ');
            } else {
                assert(j[k] == parts.last()[k - pre.len() - 1]);
                assert(!is_ws(parts.last()[k - pre.len() - 1]));
            }
        }
    }
}

/// A sequence with non-whitespace characters at both ends trims to itself.
pub proof fn lemma_trim_id(s: Seq<char>)
    requires
        s.len() > 0,
        !is_ws(s[0]),
        !is_ws(s.last()),
    ensures
        trim(s) == s,
{
    lemma_trim_margin(s, 0, s.len() as int);
    assert(s.subrange(0, s.len() as int) =~= s);
}

} // verus!
