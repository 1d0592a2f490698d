//! The abstract model of a hosts file: a map from address to hostname set,
//! the parse of a text blob into such a map, and the canonical rendering of a
//! map back to text.

use crate::text::{is_token, join_with, lex_le_fn, split_lines, tokenize, trim};
use vstd::prelude::*;
use vstd::relations::sorted_by;
use vstd::seq_lib::{
    group_to_multiset_ensures, lemma_multiset_commutative, lemma_sorted_unique,
};

verus! {

/// The hostname sets of `m` at `a`, or the empty set where `a` has no entry.
pub open spec fn hosts_or_empty(m: Map<Seq<char>, Set<Seq<char>>>, a: Seq<char>) -> Set<Seq<char>> {
    if m.dom().contains(a) {
        m[a]
    } else {
        Set::empty()
    }
}

/// One line folded into the accumulated entries. A line that trims to nothing
/// or to a comment is skipped; otherwise its first token is the address and
/// the remaining tokens join that address's hostname set. A data line without
/// tokens is the single parse error, carrying the trimmed line.
pub open spec fn process_line(m: Map<Seq<char>, Set<Seq<char>>>, line: Seq<char>) -> Result<
    Map<Seq<char>, Set<Seq<char>>>,
    Seq<char>,
> {
    let t = trim(line);
    if t.len() == 0 || t[0] == '#' {
        Ok(m)
    } else {
        let toks = tokenize(t);
        if toks.len() == 0 {
            Err(t)
        } else {
            Ok(
                m.insert(
                    toks[0],
                    hosts_or_empty(m, toks[0]).union(toks.drop_first().to_set()),
                ),
            )
        }
    }
}

/// The lines folded left to right, stopping at the first malformed line.
pub open spec fn parse_lines(ls: Seq<Seq<char>>) -> Result<
    Map<Seq<char>, Set<Seq<char>>>,
    Seq<char>,
>
    decreases ls.len(),
{
    if ls.len() == 0 {
        Ok(Map::empty())
    } else {
        match parse_lines(ls.drop_last()) {
            Ok(m) => process_line(m, ls.last()),
            Err(e) => Err(e),
        }
    }
}

/// What parsing a text blob yields: its newline-separated lines folded into a
/// map, or the first malformed line.
pub open spec fn parse(text: Seq<char>) -> Result<Map<Seq<char>, Set<Seq<char>>>, Seq<char>> {
    parse_lines(split_lines(text))
}

/// The entries with the given hostnames taken out of the set at `a`; other
/// addresses are untouched, and an absent `a` changes nothing.
pub open spec fn without_hosts(
    m: Map<Seq<char>, Set<Seq<char>>>,
    a: Seq<char>,
    hs: Set<Seq<char>>,
) -> Map<Seq<char>, Set<Seq<char>>> {
    if m.dom().contains(a) {
        m.insert(a, m[a].difference(hs))
    } else {
        m
    }
}

/// Every address whose hostname set is empty removed: the global cleanup
/// sweep that `remove` performs.
pub open spec fn prune(m: Map<Seq<char>, Set<Seq<char>>>) -> Map<Seq<char>, Set<Seq<char>>> {
    Map::new(
        |a: Seq<char>| m.dom().contains(a) && m[a] != Set::<Seq<char>>::empty(),
        |a: Seq<char>| m[a],
    )
}

/// The rendered line of one entry: the address, a space, then the hostnames
/// joined by single spaces. An empty hostname list leaves a trailing space.
pub open spec fn entry_line(addr: Seq<char>, hl: Seq<Seq<char>>) -> Seq<char> {
    addr + seq![' '] + join_with(hl, ' ')
}

/// `line` is the rendering of the entry `(addr, hs)`: its hostnames sorted
/// lexicographically, without duplicates.
pub open spec fn line_for(addr: Seq<char>, hs: Set<Seq<char>>, line: Seq<char>) -> bool {
    exists|hl: Seq<Seq<char>>|
        {
            &&& sorted_by(hl, lex_le_fn())
            &&& hl.no_duplicates()
            &&& hl.to_set() == hs
            &&& line == entry_line(addr, hl)
        }
}

/// `raw` lists one rendered line per entry of `m`, in the order of the
/// address list `addrs`.
pub open spec fn lines_for(
    m: Map<Seq<char>, Set<Seq<char>>>,
    addrs: Seq<Seq<char>>,
    raw: Seq<Seq<char>>,
) -> bool {
    &&& addrs.no_duplicates()
    &&& addrs.to_set() == m.dom()
    &&& raw.len() == addrs.len()
    &&& forall|i: int|
        0 <= i < addrs.len() ==> line_for(addrs[i], m[addrs[i]], #[trigger] raw[i])
}

/// `out` is the canonical rendering of `m`: one line per entry, hostnames
/// sorted within each line, the lines themselves sorted, joined by newlines
/// with no trailing newline.
pub open spec fn is_render(m: Map<Seq<char>, Set<Seq<char>>>, out: Seq<char>) -> bool {
    exists|addrs: Seq<Seq<char>>, raw: Seq<Seq<char>>, ls: Seq<Seq<char>>|
        {
            &&& lines_for(m, addrs, raw)
            &&& sorted_by(ls, lex_le_fn())
            &&& ls.to_multiset() == raw.to_multiset()
            &&& out == join_with(ls, '\n')
        }
}

/// The canonical rendering of `m`. It is uniquely determined wherever a
/// rendering exists at all; see [`lemma_render_unique`].
pub open spec fn render(m: Map<Seq<char>, Set<Seq<char>>>) -> Seq<char> {
    choose|out: Seq<char>| is_render(m, out)
}

/// A parse error in a prefix of the lines is the parse error of the whole:
/// parsing stops at the first malformed line.
pub proof fn lemma_parse_lines_err_extends(a: Seq<Seq<char>>, b: Seq<Seq<char>>)
    requires
        parse_lines(a) is Err,
    ensures
        parse_lines(a + b) == parse_lines(a),
    decreases b.len(),
{
    if b.len() == 0 {
        assert(a + b =~= a);
    } else {
        lemma_parse_lines_err_extends(a, b.drop_last());
        assert((a + b).drop_last() =~= a + b.drop_last());
        assert((a + b).last() == b.last());
    }
}

/// Duplicate-free sequences over the same elements have the same multiset.
pub proof fn lemma_no_dup_same_set_multiset<A>(s1: Seq<A>, s2: Seq<A>)
    requires
        s1.no_duplicates(),
        s2.no_duplicates(),
        s1.to_set() == s2.to_set(),
    ensures
        s1.to_multiset() == s2.to_multiset(),
{
    broadcast use group_to_multiset_ensures;

    s1.lemma_multiset_has_no_duplicates();
    s2.lemma_multiset_has_no_duplicates();
    assert forall|x: A| s1.to_multiset().count(x) == s2.to_multiset().count(x) by {
        assert(s1.contains(x) <==> s1.to_set().contains(x));
        assert(s2.contains(x) <==> s2.to_set().contains(x));
        if s1.to_multiset().count(x) > 0 {
            assert(s1.to_multiset().contains(x));
        }
        if s2.to_multiset().count(x) > 0 {
            assert(s2.to_multiset().contains(x));
        }
    }
    assert(s1.to_multiset() =~= s2.to_multiset());
}

/// Mapping a function over sequences with equal multisets yields equal
/// multisets.
pub proof fn lemma_map_values_multiset<A, B>(s1: Seq<A>, s2: Seq<A>, f: spec_fn(A) -> B)
    requires
        s1.to_multiset() == s2.to_multiset(),
    ensures
        s1.map_values(f).to_multiset() == s2.map_values(f).to_multiset(),
    decreases s1.len(),
{
    broadcast use group_to_multiset_ensures;
    broadcast use vstd::multiset::group_multiset_axioms;

    if s1.len() == 0 {
        assert(s1.to_multiset().len() == s1.len());
        assert(s2.to_multiset().len() == s2.len());
        assert(s2.len() == 0);
        assert(s1.map_values(f) =~= s2.map_values(f));
    } else {
        let x = s1[0];
        assert(s1.contains(x));
        assert(s1.to_multiset().count(x) > 0);
        assert(s2.contains(x));
        let i = choose|i: int| 0 <= i < s2.len() && s2[i] == x;
        let s1r = s1.remove(0);
        let s2r = s2.remove(i);
        assert(s1r.to_multiset() == s1.to_multiset().remove(x));
        assert(s2r.to_multiset() == s2.to_multiset().remove(x));
        lemma_map_values_multiset(s1r, s2r, f);
        assert(s1.map_values(f).remove(0) =~= s1r.map_values(f));
        assert(s2.map_values(f).remove(i) =~= s2r.map_values(f));
        assert(s1.map_values(f).remove(0).to_multiset() == s1.map_values(f).to_multiset().remove(
            f(x),
        ));
        assert(s2.map_values(f).remove(i).to_multiset() == s2.map_values(f).to_multiset().remove(
            f(x),
        ));
        assert(s1.map_values(f).to_multiset().count(f(x)) > 0);
        assert(s2.map_values(f).to_multiset().count(f(x)) > 0);
        assert forall|y: B|
            s1.map_values(f).to_multiset().count(y) == s2.map_values(f).to_multiset().count(
                y,
            ) by {
            if y == f(x) {
                assert(s1.map_values(f).to_multiset().remove(f(x)).count(f(x)) == s1.map_values(
                    f,
                ).to_multiset().count(f(x)) - 1);
                assert(s2.map_values(f).to_multiset().remove(f(x)).count(f(x)) == s2.map_values(
                    f,
                ).to_multiset().count(f(x)) - 1);
            } else {
                assert(s1.map_values(f).to_multiset().remove(f(x)).count(y) == s1.map_values(
                    f,
                ).to_multiset().count(y));
                assert(s2.map_values(f).to_multiset().remove(f(x)).count(y) == s2.map_values(
                    f,
                ).to_multiset().count(y));
            }
        }
        assert(s1.map_values(f).to_multiset() =~= s2.map_values(f).to_multiset());
    }
}

/// An entry renders to exactly one line: the sorted, duplicate-free hostname
/// list over a given set is unique.
pub proof fn lemma_line_unique(addr: Seq<char>, hs: Set<Seq<char>>, l1: Seq<char>, l2: Seq<char>)
    requires
        line_for(addr, hs, l1),
        line_for(addr, hs, l2),
    ensures
        l1 == l2,
{
    let hl1 = choose|hl: Seq<Seq<char>>|
        {
            &&& sorted_by(hl, lex_le_fn())
            &&& hl.no_duplicates()
            &&& hl.to_set() == hs
            &&& l1 == entry_line(addr, hl)
        };
    let hl2 = choose|hl: Seq<Seq<char>>|
        {
            &&& sorted_by(hl, lex_le_fn())
            &&& hl.no_duplicates()
            &&& hl.to_set() == hs
            &&& l2 == entry_line(addr, hl)
        };
    lemma_no_dup_same_set_multiset(hl1, hl2);
    crate::text::lemma_lex_le_total_ordering();
    lemma_sorted_unique(hl1, hl2, lex_le_fn());
}

/// Determinism of rendering: a map has at most one canonical rendering,
/// whatever order its entries or hostnames were accumulated in.
pub proof fn lemma_render_unique(m: Map<Seq<char>, Set<Seq<char>>>, o1: Seq<char>, o2: Seq<char>)
    requires
        is_render(m, o1),
        is_render(m, o2),
    ensures
        o1 == o2,
{
    let (addrs1, raw1, ls1): (Seq<Seq<char>>, Seq<Seq<char>>, Seq<Seq<char>>) = choose|
        addrs: Seq<Seq<char>>,
        raw: Seq<Seq<char>>,
        ls: Seq<Seq<char>>,
    |
        {
            &&& lines_for(m, addrs, raw)
            &&& sorted_by(ls, lex_le_fn())
            &&& ls.to_multiset() == raw.to_multiset()
            &&& o1 == join_with(ls, '\n')
        };
    let (addrs2, raw2, ls2): (Seq<Seq<char>>, Seq<Seq<char>>, Seq<Seq<char>>) = choose|
        addrs: Seq<Seq<char>>,
        raw: Seq<Seq<char>>,
        ls: Seq<Seq<char>>,
    |
        {
            &&& lines_for(m, addrs, raw)
            &&& sorted_by(ls, lex_le_fn())
            &&& ls.to_multiset() == raw.to_multiset()
            &&& o2 == join_with(ls, '\n')
        };
    let lf = |a: Seq<char>| choose|l: Seq<char>| line_for(a, m[a], l);
    assert forall|i: int| 0 <= i < addrs1.len() implies raw1[i] == lf(addrs1[i]) by {
        assert(line_for(addrs1[i], m[addrs1[i]], raw1[i]));
        assert(line_for(addrs1[i], m[addrs1[i]], lf(addrs1[i])));
        lemma_line_unique(addrs1[i], m[addrs1[i]], raw1[i], lf(addrs1[i]));
    }
    assert forall|i: int| 0 <= i < addrs2.len() implies raw2[i] == lf(addrs2[i]) by {
        assert(line_for(addrs2[i], m[addrs2[i]], raw2[i]));
        assert(line_for(addrs2[i], m[addrs2[i]], lf(addrs2[i])));
        lemma_line_unique(addrs2[i], m[addrs2[i]], raw2[i], lf(addrs2[i]));
    }
    assert(raw1 =~= addrs1.map_values(lf));
    assert(raw2 =~= addrs2.map_values(lf));
    lemma_no_dup_same_set_multiset(addrs1, addrs2);
    lemma_map_values_multiset(addrs1, addrs2, lf);
    crate::text::lemma_lex_le_total_ordering();
    lemma_sorted_unique(ls1, ls2, lex_le_fn());
}

/// A blank or comment line never changes the entries.
pub proof fn lemma_skipped_line(m: Map<Seq<char>, Set<Seq<char>>>, line: Seq<char>)
    requires
        trim(line).len() == 0 || trim(line)[0] == '#',
    ensures
        process_line(m, line) == Ok::<Map<Seq<char>, Set<Seq<char>>>, Seq<char>>(m),
{
}

/// No single line can fail: a non-empty trimmed line starts and ends with
/// non-whitespace, so it always has a first token.
pub proof fn lemma_process_line_total(m: Map<Seq<char>, Set<Seq<char>>>, line: Seq<char>)
    ensures
        process_line(m, line) is Ok,
{
    let t = trim(line);
    if t.len() == 0 || t[0] == '#' {
    } else {
        crate::text::lemma_trim_shape(line);
        crate::text::lemma_tokenize_nonempty(t);
    }
}

proof fn lemma_parse_lines_total(ls: Seq<Seq<char>>)
    ensures
        parse_lines(ls) is Ok,
    decreases ls.len(),
{
    if ls.len() > 0 {
        lemma_parse_lines_total(ls.drop_last());
        lemma_process_line_total(parse_lines(ls.drop_last())->Ok_0, ls.last());
    }
}

/// Parsing is total: the malformed-line error is unreachable, because
/// trimming guarantees that every line kept as a data line has an address
/// token. The error variant exists for the shape of the result alone.
pub proof fn lemma_parse_total(text: Seq<char>)
    ensures
        parse(text) is Ok,
{
    lemma_parse_lines_total(split_lines(text));
}

/// The shape of every parse result: addresses and hostnames are tokens, and
/// no address starts with the comment mark.
pub open spec fn parseable(m: Map<Seq<char>, Set<Seq<char>>>) -> bool {
    forall|a: Seq<char>| #[trigger]
        m.dom().contains(a) ==> is_token(a) && a[0] != '#' && (forall|h: Seq<char>| #[trigger]
            m[a].contains(h) ==> is_token(h))
}

proof fn lemma_process_line_parseable(m: Map<Seq<char>, Set<Seq<char>>>, line: Seq<char>)
    requires
        parseable(m),
        process_line(m, line) is Ok,
    ensures
        parseable(process_line(m, line)->Ok_0),
{
    let t = trim(line);
    if t.len() == 0 || t[0] == '#' {
    } else {
        let toks = tokenize(t);
        if toks.len() > 0 {
            crate::text::lemma_trim_shape(line);
            crate::text::lemma_tokenize_pieces_are_tokens(t);
            crate::text::lemma_tokenize_first(t);
            let a = toks[0];
            let m2 = process_line(m, line)->Ok_0;
            assert(is_token(a));
            assert(a[0] == t[0]);
            assert forall|a2: Seq<char>| #[trigger] m2.dom().contains(a2) implies is_token(a2)
                && a2[0] != '#' && (forall|h: Seq<char>| #[trigger]
                m2[a2].contains(h) ==> is_token(h)) by {
                if a2 == a {
                    assert forall|h: Seq<char>| #[trigger] m2[a2].contains(h) implies is_token(
                        h,
                    ) by {
                        if toks.drop_first().to_set().contains(h) {
                            let i = choose|i: int|
                                0 <= i < toks.drop_first().len() && (#[trigger] toks.drop_first()[i])
                                    == h;
                            assert(toks[i + 1] == h);
                        } else {
                            assert(hosts_or_empty(m, a).contains(h));
                            assert(m.dom().contains(a) && m[a].contains(h));
                        }
                    }
                }
            }
        }
    }
}

proof fn lemma_parse_lines_parseable(ls: Seq<Seq<char>>)
    ensures
        parse_lines(ls) is Ok,
        parseable(parse_lines(ls)->Ok_0),
    decreases ls.len(),
{
    if ls.len() == 0 {
        assert(parseable(Map::<Seq<char>, Set<Seq<char>>>::empty()));
    } else {
        lemma_parse_lines_parseable(ls.drop_last());
        lemma_process_line_total(parse_lines(ls.drop_last())->Ok_0, ls.last());
        lemma_process_line_parseable(parse_lines(ls.drop_last())->Ok_0, ls.last());
    }
}

/// Every parse succeeds and yields a map of token-shaped addresses and
/// hostnames.
pub proof fn lemma_parse_parseable(text: Seq<char>)
    ensures
        parse(text) is Ok,
        parseable(parse(text)->Ok_0),
{
    lemma_parse_lines_parseable(split_lines(text));
}

/// Processing the rendered line of an entry inserts exactly that entry.
proof fn lemma_process_entry_line(
    macc: Map<Seq<char>, Set<Seq<char>>>,
    a: Seq<char>,
    hl: Seq<Seq<char>>,
)
    requires
        is_token(a),
        a[0] != '#',
        forall|i: int| 0 <= i < hl.len() ==> is_token(#[trigger] hl[i]),
    ensures
        tokenize(trim(entry_line(a, hl))) == seq![a] + hl,
        process_line(macc, entry_line(a, hl)) == Ok::<Map<Seq<char>, Set<Seq<char>>>, Seq<char>>(
            macc.insert(a, hosts_or_empty(macc, a).union(hl.to_set())),
        ),
{
    let l = entry_line(a, hl);
    if hl.len() == 0 {
        assert(l =~= a + seq![' ']);
        crate::text::lemma_trim_margin(l, 0, a.len() as int);
        assert(trim(l) =~= a);
        crate::text::lemma_tokenize_single(a);
        assert(tokenize(trim(l)) =~= seq![a] + hl);
        assert((seq![a] + hl)[0] == a);
        assert((seq![a] + hl).drop_first() =~= hl);
    } else {
        crate::text::lemma_join_tokens_last(hl);
        let j = join_with(hl, ' ');
        assert(l.last() == j.last());
        assert(l[0] == a[0]);
        crate::text::lemma_trim_id(l);
        crate::text::lemma_tokenize_ws_sep(a, ' ', j);
        crate::text::lemma_tokenize_single(a);
        crate::text::lemma_tokenize_join(hl);
        assert(tokenize(trim(l)) =~= seq![a] + hl);
        assert((seq![a] + hl)[0] == a);
        assert((seq![a] + hl).drop_first() =~= hl);
    }
}

/// `l` is the rendered line of some entry of `m`.
pub open spec fn rendered_line_of(m: Map<Seq<char>, Set<Seq<char>>>, l: Seq<char>) -> bool {
    exists|a: Seq<char>| #[trigger] m.dom().contains(a) && line_for(a, m[a], l)
}

proof fn lemma_parse_rendered_lines(m: Map<Seq<char>, Set<Seq<char>>>, ls: Seq<Seq<char>>)
    requires
        parseable(m),
        forall|i: int| 0 <= i < ls.len() ==> rendered_line_of(m, #[trigger] ls[i]),
    ensures
        parse_lines(ls) is Ok,
        forall|a: Seq<char>| #[trigger]
            parse_lines(ls)->Ok_0.dom().contains(a) ==> m.dom().contains(a) && parse_lines(
                ls,
            )->Ok_0[a] == m[a],
        forall|a: Seq<char>, i: int|
            0 <= i < ls.len() && m.dom().contains(a) && #[trigger] line_for(a, m[a], ls[i])
                ==> parse_lines(ls)->Ok_0.dom().contains(a),
    decreases ls.len(),
{
    if ls.len() == 0 {
    } else {
        assert forall|i: int|
            0 <= i < ls.drop_last().len() implies rendered_line_of(
            m,
            #[trigger] ls.drop_last()[i],
        ) by {
            assert(ls.drop_last()[i] == ls[i]);
        }
        lemma_parse_rendered_lines(m, ls.drop_last());
        let res0 = parse_lines(ls.drop_last())->Ok_0;
        let l = ls.last();
        assert(rendered_line_of(m, ls[ls.len() - 1]));
        let a = choose|a: Seq<char>| #[trigger] m.dom().contains(a) && line_for(a, m[a], l);
        let hl = choose|hl: Seq<Seq<char>>|
            {
                &&& sorted_by(hl, lex_le_fn())
                &&& hl.no_duplicates()
                &&& hl.to_set() == m[a]
                &&& l == entry_line(a, hl)
            };
        assert forall|i: int| 0 <= i < hl.len() implies is_token(#[trigger] hl[i]) by {
            assert(hl.to_set().contains(hl[i]));
            assert(m[a].contains(hl[i]));
        }
        lemma_process_entry_line(res0, a, hl);
        let v = hosts_or_empty(res0, a).union(hl.to_set());
        assert(v =~= m[a]) by {
            if res0.dom().contains(a) {
                assert(res0[a] == m[a]);
            }
        }
        let res = parse_lines(ls)->Ok_0;
        assert(res == res0.insert(a, v));
        assert forall|a2: Seq<char>, i: int|
            0 <= i < ls.len() && m.dom().contains(a2) && #[trigger] line_for(
                a2,
                m[a2],
                ls[i],
            ) implies res.dom().contains(a2) by {
            if i < ls.len() - 1 {
                assert(ls.drop_last()[i] == ls[i]);
            } else {
                let hl2 = choose|hl2: Seq<Seq<char>>|
                    {
                        &&& sorted_by(hl2, lex_le_fn())
                        &&& hl2.no_duplicates()
                        &&& hl2.to_set() == m[a2]
                        &&& l == entry_line(a2, hl2)
                    };
                assert forall|k: int| 0 <= k < hl2.len() implies is_token(#[trigger] hl2[k]) by {
                    assert(hl2.to_set().contains(hl2[k]));
                    assert(m[a2].contains(hl2[k]));
                }
                lemma_process_entry_line(res0, a2, hl2);
                assert((seq![a2] + hl2)[0] == (seq![a] + hl)[0]);
                assert(a2 == a);
            }
        }
    }
}

/// Re-parsing a canonical rendering of a token-shaped map yields the map
/// back.
pub proof fn lemma_parse_of_render(m: Map<Seq<char>, Set<Seq<char>>>, out: Seq<char>)
    requires
        parseable(m),
        is_render(m, out),
    ensures
        parse(out) == Ok::<Map<Seq<char>, Set<Seq<char>>>, Seq<char>>(m),
{
    broadcast use group_to_multiset_ensures;

    let (addrs, raw, ls): (Seq<Seq<char>>, Seq<Seq<char>>, Seq<Seq<char>>) = choose|
        addrs: Seq<Seq<char>>,
        raw: Seq<Seq<char>>,
        ls: Seq<Seq<char>>,
    |
        {
            &&& lines_for(m, addrs, raw)
            &&& sorted_by(ls, lex_le_fn())
            &&& ls.to_multiset() == raw.to_multiset()
            &&& out == join_with(ls, '\n')
        };
    assert(ls.to_multiset().len() == raw.to_multiset().len());
    assert(ls.len() == raw.len());
    if addrs.len() == 0 {
        assert(m.dom() =~= Set::<Seq<char>>::empty()) by {
            assert(addrs.to_set() =~= Set::<Seq<char>>::empty());
        }
        assert(m =~= Map::<Seq<char>, Set<Seq<char>>>::empty());
        assert(ls.len() == 0);
        assert(out == Seq::<char>::empty());
        assert(split_lines(out) == seq![Seq::<char>::empty()]);
        assert(seq![Seq::<char>::empty()].drop_last() =~= Seq::<Seq<char>>::empty());
        assert(parse_lines(Seq::<Seq<char>>::empty()) == Ok::<
            Map<Seq<char>, Set<Seq<char>>>,
            Seq<char>,
        >(Map::empty()));
        assert(seq![Seq::<char>::empty()].last() == Seq::<char>::empty());
        assert(seq![Seq::<char>::empty()].len() == 1);
        assert(parse_lines(seq![Seq::<char>::empty()]) == process_line(
            Map::<Seq<char>, Set<Seq<char>>>::empty(),
            Seq::<char>::empty(),
        ));
        assert(trim(Seq::<char>::empty()).len() == 0);
        assert(parse(out) == Ok::<Map<Seq<char>, Set<Seq<char>>>, Seq<char>>(m));
    } else {
        assert forall|i: int| 0 <= i < ls.len() implies rendered_line_of(m, #[trigger] ls[i]) by {
            assert(ls.contains(ls[i]));
            assert(ls.to_multiset().count(ls[i]) > 0);
            assert(raw.contains(ls[i]));
            let j = choose|j: int| 0 <= j < raw.len() && (#[trigger] raw[j]) == ls[i];
            assert(line_for(addrs[j], m[addrs[j]], raw[j]));
            assert(addrs.to_set().contains(addrs[j]));
            assert(m.dom().contains(addrs[j]));
        }
        assert forall|i: int, k: int|
            0 <= i < ls.len() && 0 <= k < ls[i].len() implies #[trigger] ls[i][k] != '\n' by {
            assert(rendered_line_of(m, ls[i]));
            let a = choose|a: Seq<char>| #[trigger] m.dom().contains(a) && line_for(a, m[a], ls[i]);
            let hl = choose|hl: Seq<Seq<char>>|
                {
                    &&& sorted_by(hl, lex_le_fn())
                    &&& hl.no_duplicates()
                    &&& hl.to_set() == m[a]
                    &&& ls[i] == entry_line(a, hl)
                };
            assert forall|q: int| 0 <= q < hl.len() implies is_token(#[trigger] hl[q]) by {
                assert(hl.to_set().contains(hl[q]));
                assert(m[a].contains(hl[q]));
            }
            crate::text::lemma_join_tokens_no_newline(hl);
            let jn = join_with(hl, ' ');
            if k < a.len() {
                assert(ls[i][k] == a[k]);
                assert(!crate::text::is_ws(a[k]));
            } else if k == a.len() {
                assert(ls[i][k] == ' ');
            } else {
                assert(ls[i][k] == jn[k - a.len() - 1]);
            }
        }
        crate::text::lemma_split_lines_join(ls);
        lemma_parse_rendered_lines(m, ls);
        let res = parse_lines(ls)->Ok_0;
        assert forall|a: Seq<char>| #[trigger] m.dom().contains(a) implies res.dom().contains(
            a,
        ) by {
            assert(addrs.to_set().contains(a));
            let j = choose|j: int| 0 <= j < addrs.len() && (#[trigger] addrs[j]) == a;
            assert(line_for(a, m[a], raw[j]));
            assert(raw.contains(raw[j]));
            assert(raw.to_multiset().count(raw[j]) > 0);
            assert(ls.contains(raw[j]));
            let i = choose|i: int| 0 <= i < ls.len() && (#[trigger] ls[i]) == raw[j];
            assert(line_for(a, m[a], ls[i]));
        }
        assert(res =~= m);
        assert(parse(out) == Ok::<Map<Seq<char>, Set<Seq<char>>>, Seq<char>>(m));
    }
}

/// Round-trip idempotence: rendering a freshly parsed hostfile and re-parsing
/// the result yields the same entries, whatever formatting, comments or
/// blank lines the original text had.
pub proof fn lemma_round_trip(t: Seq<char>, out: Seq<char>)
    requires
        is_render(parse(t)->Ok_0, out),
    ensures
        parse(t) is Ok,
        parse(out) == parse(t),
{
    lemma_parse_parseable(t);
    lemma_parse_of_render(parse(t)->Ok_0, out);
}

} // verus!
