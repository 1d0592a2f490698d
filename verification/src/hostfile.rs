//! The hostfile itself: parsed from text, mutated by adding or removing
//! hostname associations, and rendered back to canonical text.
//!
//! The abstract value of a [`Hostfile`] is a `Map<Seq<char>, Set<Seq<char>>>`
//! from address to hostname set; every operation's contract is stated against
//! the functions of [`crate::model`] over that map.

use crate::model::{
    entry_line, hosts_or_empty, is_render, lemma_parse_lines_err_extends, line_for, lines_for,
    parse, parse_lines, process_line, prune, render, without_hosts,
};
use crate::text::{
    is_ws, is_ws_char, join_with, lemma_split_lines_len, lex_le, lex_le_fn, split_lines, tokenize,
    trim,
};
use vstd::multiset::Multiset;
use vstd::prelude::*;
use vstd::relations::sorted_by;
use vstd::seq_lib::group_to_multiset_ensures;

verus! {

/// The single parse failure: a data line that yields no address token,
/// carrying the offending trimmed line.
#[derive(Debug)]
pub enum HostfileError {
    NoAddressFound(String),
}

/// One address and its hostnames. The list holds no duplicates; the set
/// semantics of the model rest on that.
struct Entry {
    address: Vec<char>,
    hostnames: Vec<Vec<char>>,
}

/// An in-memory hosts file: entries are accumulated unordered and sorting is
/// imposed only when rendering.
pub struct Hostfile {
    entries: Vec<Entry>,
}

/// The character sequences of a list of character vectors.
pub open spec fn views_of(s: Seq<Vec<char>>) -> Seq<Seq<char>> {
    s.map_values(|v: Vec<char>| v@)
}

spec fn entry_hosts(e: Entry) -> Set<Seq<char>> {
    views_of(e.hostnames@).to_set()
}

spec fn addr_views(es: Seq<Entry>) -> Seq<Seq<char>> {
    es.map_values(|e: Entry| e.address@)
}

spec fn distinct_addresses(es: Seq<Entry>) -> bool {
    forall|i: int, j: int|
        0 <= i < j < es.len() ==> (#[trigger] es[i].address@) != (#[trigger] es[j].address@)
}

spec fn entries_map(es: Seq<Entry>) -> Map<Seq<char>, Set<Seq<char>>>
    decreases es.len(),
{
    if es.len() == 0 {
        Map::empty()
    } else {
        entries_map(es.drop_last()).insert(es.last().address@, entry_hosts(es.last()))
    }
}

proof fn lemma_entries_map_dom(es: Seq<Entry>)
    ensures
        entries_map(es).dom() == addr_views(es).to_set(),
    decreases es.len(),
{
    broadcast use vstd::prelude::Seq::lemma_push_to_set_commute;

    if es.len() == 0 {
        assert(entries_map(es).dom() =~= addr_views(es).to_set());
    } else {
        lemma_entries_map_dom(es.drop_last());
        assert(addr_views(es) =~= addr_views(es.drop_last()).push(es.last().address@));
        assert(addr_views(es).to_set() =~= addr_views(es.drop_last()).to_set().insert(
            es.last().address@,
        ));
        assert(entries_map(es).dom() =~= addr_views(es).to_set());
    }
}

proof fn lemma_entries_map_index(es: Seq<Entry>, i: int)
    requires
        distinct_addresses(es),
        0 <= i < es.len(),
    ensures
        entries_map(es).dom().contains(es[i].address@),
        entries_map(es)[es[i].address@] == entry_hosts(es[i]),
    decreases es.len(),
{
    if i == es.len() - 1 {
    } else {
        lemma_entries_map_index(es.drop_last(), i);
    }
}

proof fn lemma_entries_map_remove(es: Seq<Entry>, i: int)
    requires
        distinct_addresses(es),
        0 <= i < es.len(),
    ensures
        entries_map(es.remove(i)) == entries_map(es).remove(es[i].address@),
        distinct_addresses(es.remove(i)),
    decreases es.len(),
{
    assert forall|x: int, y: int|
        0 <= x < y < es.remove(i).len() implies (#[trigger] es.remove(i)[x].address@) != (
    #[trigger] es.remove(i)[y].address@) by {
        let x0 = if x < i {
            x
        } else {
            x + 1
        };
        let y0 = if y < i {
            y
        } else {
            y + 1
        };
        assert(es.remove(i)[x] == es[x0]);
        assert(es.remove(i)[y] == es[y0]);
    }
    if i == es.len() - 1 {
        assert(es.remove(i) =~= es.drop_last());
        lemma_entries_map_dom(es.drop_last());
        assert(!addr_views(es.drop_last()).contains(es[i].address@)) by {
            if addr_views(es.drop_last()).contains(es[i].address@) {
                let j = choose|j: int|
                    0 <= j < addr_views(es.drop_last()).len() && addr_views(es.drop_last())[j]
                        == es[i].address@;
                assert(es[j].address@ == es[i].address@);
            }
        }
        assert(entries_map(es.drop_last()) =~= entries_map(es).remove(es[i].address@));
    } else {
        lemma_entries_map_remove(es.drop_last(), i);
        assert(es.remove(i).drop_last() =~= es.drop_last().remove(i));
        assert(es.remove(i).last() == es.last());
        assert(entries_map(es.remove(i)) == entries_map(es.drop_last().remove(i)).insert(
            es.last().address@,
            entry_hosts(es.last()),
        ));
        assert(entries_map(es.remove(i)) =~= entries_map(es).remove(es[i].address@));
    }
}

/// The well-formed hostfile and its abstract value.
impl Hostfile {
    /// Structural validity: addresses are pairwise distinct and no hostname
    /// list holds a duplicate. Constructors establish it and every method
    /// preserves it.
    pub closed spec fn wf(&self) -> bool {
        &&& distinct_addresses(self.entries@)
        &&& forall|i: int|
            0 <= i < self.entries@.len() ==> views_of(
                (#[trigger] self.entries@[i]).hostnames@,
            ).no_duplicates()
    }
}

impl View for Hostfile {
    type V = Map<Seq<char>, Set<Seq<char>>>;

    closed spec fn view(&self) -> Map<Seq<char>, Set<Seq<char>>> {
        entries_map(self.entries@)
    }
}

/// The characters of a string slice, in order.
fn chars_of(s: &str) -> (v: Vec<char>)
    ensures
        v@ == s@,
{
    let n = s.unicode_len();
    let mut v: Vec<char> = Vec::new();
    let mut i: usize = 0;
    while i < n
        invariant
            i <= n,
            n as nat == s@.len(),
            v@ == s@.take(i as int),
        decreases n - i,
    {
        let c = s.get_char(i);
        v.push(c);
        assert(s@.take(i + 1 as int) =~= s@.take(i as int).push(s@[i as int]));
        i += 1;
    }
    assert(s@.take(n as int) =~= s@);
    v
}

/// Relies on `String`'s `FromIterator<char>` implementation: collecting
/// characters yields the string of exactly those characters, in order.
#[verifier::external_body]
fn string_from_chars(v: &Vec<char>) -> (s: String)
    ensures
        s@ == v@,
{
    v.iter().collect()
}

fn vec_chars_eq(a: &Vec<char>, b: &Vec<char>) -> (r: bool)
    ensures
        r == (a@ == b@),
{
    if a.len() != b.len() {
        assert(a@ != b@);
        return false;
    }
    let mut i: usize = 0;
    while i < a.len()
        invariant
            i <= a@.len(),
            a@.len() == b@.len(),
            forall|j: int| 0 <= j < i ==> a@[j] == b@[j],
        decreases a@.len() - i,
    {
        if a[i] != b[i] {
            return false;
        }
        i += 1;
    }
    assert(a@ =~= b@);
    true
}

fn clone_chars(v: &Vec<char>) -> (r: Vec<char>)
    ensures
        r@ == v@,
{
    let mut r: Vec<char> = Vec::new();
    let mut i: usize = 0;
    while i < v.len()
        invariant
            i <= v@.len(),
            r@ == v@.take(i as int),
        decreases v@.len() - i,
    {
        r.push(v[i]);
        assert(v@.take(i + 1 as int) =~= v@.take(i as int).push(v@[i as int]));
        i += 1;
    }
    assert(v@.take(v@.len() as int) =~= v@);
    r
}

fn append_chars(dst: &mut Vec<char>, src: &Vec<char>)
    ensures
        final(dst)@ == old(dst)@ + src@,
{
    let mut i: usize = 0;
    while i < src.len()
        invariant
            i <= src@.len(),
            dst@ == old(dst)@ + src@.take(i as int),
        decreases src@.len() - i,
    {
        dst.push(src[i]);
        assert(old(dst)@ + src@.take(i + 1 as int) =~= (old(dst)@ + src@.take(i as int)).push(
            src@[i as int],
        ));
        i += 1;
    }
    assert(src@.take(src@.len() as int) =~= src@);
}

fn copy_range(v: &Vec<char>, a: usize, b: usize) -> (r: Vec<char>)
    requires
        a <= b <= v@.len(),
    ensures
        r@ == v@.subrange(a as int, b as int),
{
    let mut r: Vec<char> = Vec::new();
    let mut i: usize = a;
    while i < b
        invariant
            a <= i <= b <= v@.len(),
            r@ == v@.subrange(a as int, i as int),
        decreases b - i,
    {
        r.push(v[i]);
        assert(v@.subrange(a as int, i + 1 as int) =~= v@.subrange(a as int, i as int).push(
            v@[i as int],
        ));
        i += 1;
    }
    r
}

fn hosts_contain(hs: &Vec<Vec<char>>, h: &Vec<char>) -> (r: bool)
    ensures
        r == views_of(hs@).contains(h@),
{
    let mut i: usize = 0;
    while i < hs.len()
        invariant
            i <= hs@.len(),
            forall|j: int| 0 <= j < i ==> views_of(hs@)[j] != h@,
        decreases hs@.len() - i,
    {
        if vec_chars_eq(&hs[i], h) {
            assert(views_of(hs@)[i as int] == h@);
            return true;
        }
        i += 1;
    }
    false
}

/// Pushes `h` unless an equal hostname is already present, so the list keeps
/// set semantics.
fn push_unique(hs: &mut Vec<Vec<char>>, h: Vec<char>)
    requires
        views_of(old(hs)@).no_duplicates(),
    ensures
        views_of(final(hs)@).no_duplicates(),
        views_of(final(hs)@).to_set() == views_of(old(hs)@).to_set().insert(h@),
{
    if !hosts_contain(hs, &h) {
        let ghost h_view = h@;
        hs.push(h);
        assert(views_of(hs@) =~= views_of(old(hs)@).push(h_view));
        proof {
            views_of(old(hs)@).lemma_push_to_set_commute(h_view);
        }
        assert(views_of(hs@).to_set() =~= views_of(old(hs)@).to_set().insert(h_view));
    } else {
        assert(hs@ == old(hs)@);
        assert(views_of(hs@).contains(h@));
        assert forall|x: Seq<char>|
            views_of(hs@).to_set().contains(x) <==> views_of(old(hs)@).to_set().insert(
                h@,
            ).contains(x) by {
            if x == h@ {
                assert(views_of(hs@).to_set().contains(x));
            }
        }
        assert(views_of(hs@).to_set() =~= views_of(old(hs)@).to_set().insert(h@));
    }
}

proof fn lemma_to_set_drop_first<A>(s: Seq<A>)
    requires
        s.len() > 0,
    ensures
        s.to_set() == s.drop_first().to_set().insert(s[0]),
{
    assert(s =~= seq![s[0]] + s.drop_first());
    vstd::seq_lib::seq_to_set_distributes_over_add(seq![s[0]], s.drop_first());
    assert(seq![s[0]].to_set() =~= Set::empty().insert(s[0]));
    assert(s.to_set() =~= s.drop_first().to_set().insert(s[0]));
}

/// The tokens of `line[a..b]`, by one left-to-right scan.
fn tokenize_range(line: &Vec<char>, a: usize, b: usize) -> (toks: Vec<Vec<char>>)
    requires
        a <= b <= line@.len(),
    ensures
        views_of(toks@) == tokenize(line@.subrange(a as int, b as int)),
{
    let ghost t = line@.subrange(a as int, b as int);
    let mut toks: Vec<Vec<char>> = Vec::new();
    let mut cur: Vec<char> = Vec::new();
    let mut j: usize = a;
    while j < b
        invariant
            a <= j <= b <= line@.len(),
            t == line@.subrange(a as int, b as int),
            cur@.len() == 0 ==> views_of(toks@) == tokenize(t.take(j - a)) && (j == a || is_ws(
                t[j - a - 1],
            )),
            cur@.len() > 0 ==> views_of(toks@).push(cur@) == tokenize(t.take(j - a)) && j > a
                && !is_ws(t[j - a - 1]),
        decreases b - j,
    {
        let c = line[j];
        proof {
            assert(t[j - a] == c);
            assert(t.take(j - a + 1).drop_last() =~= t.take(j - a));
            assert(t.take(j - a + 1).last() == t[j - a]);
            if j > a {
                assert(t.take(j - a + 1)[j - a - 1] == t[j - a - 1]);
            }
        }
        if is_ws_char(c) {
            if cur.len() > 0 {
                let ghost prev = toks@;
                let ghost curv = cur@;
                toks.push(cur);
                cur = Vec::new();
                proof {
                    assert(views_of(toks@) =~= views_of(prev).push(curv));
                }
            }
        } else {
            let ghost prev = toks@;
            let ghost curv = cur@;
            cur.push(c);
            proof {
                assert(cur@ == curv.push(c));
                if curv.len() == 0 {
                    assert(cur@ =~= seq![c]);
                    assert(tokenize(t.take(j - a + 1)) == tokenize(t.take(j - a)).push(seq![c]));
                } else {
                    let p = views_of(prev).push(curv);
                    assert(p.last() == curv);
                    assert(tokenize(t.take(j - a + 1)) == p.update(p.len() - 1, curv.push(c)));
                    assert(p.update(p.len() - 1, curv.push(c)) =~= views_of(prev).push(cur@));
                }
            }
        }
        j += 1;
    }
    proof {
        assert(t.take(b - a) =~= t);
    }
    if cur.len() > 0 {
        let ghost prev = toks@;
        let ghost curv = cur@;
        toks.push(cur);
        proof {
            assert(views_of(toks@) =~= views_of(prev).push(curv));
        }
    }
    toks
}

/// A permutation preserves the element set and freedom from duplicates.
proof fn lemma_multiset_perm_props<A>(s1: Seq<A>, s2: Seq<A>)
    requires
        s1.to_multiset() == s2.to_multiset(),
    ensures
        s1.to_set() == s2.to_set(),
        s1.no_duplicates() <==> s2.no_duplicates(),
{
    broadcast use group_to_multiset_ensures;

    assert forall|x: A| s1.to_set().contains(x) <==> s2.to_set().contains(x) by {
        assert(s1.contains(x) <==> s1.to_multiset().count(x) > 0);
        assert(s2.contains(x) <==> s2.to_multiset().count(x) > 0);
    }
    assert(s1.to_set() =~= s2.to_set());
    if s1.no_duplicates() {
        s1.lemma_multiset_has_no_duplicates();
        s2.lemma_multiset_has_no_duplicates_conv();
    }
    if s2.no_duplicates() {
        s2.lemma_multiset_has_no_duplicates();
        s1.lemma_multiset_has_no_duplicates_conv();
    }
}

/// Whether `a` precedes `b` in the lexicographic order, by one scan.
fn lex_le_chars(a: &Vec<char>, b: &Vec<char>) -> (r: bool)
    ensures
        r == lex_le(a@, b@),
{
    let n: usize = if a.len() < b.len() {
        a.len()
    } else {
        b.len()
    };
    let mut i: usize = 0;
    proof {
        assert(a@.skip(0) =~= a@);
        assert(b@.skip(0) =~= b@);
    }
    while i < n
        invariant
            i <= n,
            n <= a@.len(),
            n <= b@.len(),
            n == a@.len() || n == b@.len(),
            lex_le(a@, b@) == lex_le(a@.skip(i as int), b@.skip(i as int)),
        decreases n - i,
    {
        let ca = a[i];
        let cb = b[i];
        proof {
            assert(a@.skip(i as int)[0] == ca);
            assert(b@.skip(i as int)[0] == cb);
            assert(a@.skip(i as int).drop_first() =~= a@.skip(i as int + 1));
            assert(b@.skip(i as int).drop_first() =~= b@.skip(i as int + 1));
        }
        if ca != cb {
            return (ca as u32) < (cb as u32);
        }
        i += 1;
    }
    proof {
        if a.len() <= b.len() {
            assert(a@.skip(n as int).len() == 0);
        } else {
            assert(b@.skip(n as int).len() == 0);
            assert(a@.skip(n as int).len() > 0);
        }
    }
    a.len() <= b.len()
}

/// The index of a lexicographically least element.
fn min_index(v: &Vec<Vec<char>>) -> (mi: usize)
    requires
        v@.len() > 0,
    ensures
        mi < v@.len(),
        forall|k: int| 0 <= k < v@.len() ==> lex_le(v@[mi as int]@, (#[trigger] v@[k])@),
{
    let mut mi: usize = 0;
    let mut k: usize = 1;
    proof {
        crate::text::lemma_lex_le_refl(v@[0]@);
    }
    while k < v.len()
        invariant
            mi < k <= v@.len(),
            forall|t: int| 0 <= t < k ==> lex_le(v@[mi as int]@, (#[trigger] v@[t])@),
        decreases v@.len() - k,
    {
        if lex_le_chars(&v[k], &v[mi]) {
            proof {
                assert forall|t: int| 0 <= t < k + 1 implies lex_le(
                    v@[k as int]@,
                    (#[trigger] v@[t])@,
                ) by {
                    if t < k {
                        crate::text::lemma_lex_le_trans(v@[k as int]@, v@[mi as int]@, v@[t]@);
                    } else {
                        crate::text::lemma_lex_le_refl(v@[k as int]@);
                    }
                }
            }
            mi = k;
        } else {
            proof {
                crate::text::lemma_lex_le_connected(v@[k as int]@, v@[mi as int]@);
            }
        }
        k += 1;
    }
    mi
}

/// A copy of `v`, sorted lexicographically; duplicates are kept, so the
/// multiset of elements is unchanged.
fn sorted_copy(v: &Vec<Vec<char>>) -> (r: Vec<Vec<char>>)
    ensures
        sorted_by(views_of(r@), lex_le_fn()),
        views_of(r@).to_multiset() == views_of(v@).to_multiset(),
{
    let mut pending: Vec<Vec<char>> = Vec::new();
    let mut i: usize = 0;
    while i < v.len()
        invariant
            i <= v@.len(),
            views_of(pending@) == views_of(v@).take(i as int),
        decreases v@.len() - i,
    {
        let ghost prev = pending@;
        let h = clone_chars(&v[i]);
        pending.push(h);
        proof {
            assert(views_of(pending@) =~= views_of(prev).push(v@[i as int]@));
            assert(views_of(v@).take(i as int + 1) =~= views_of(v@).take(i as int).push(
                views_of(v@)[i as int],
            ));
        }
        i += 1;
    }
    let ghost total = views_of(v@);
    proof {
        assert(views_of(v@).take(v@.len() as int) =~= total);
    }
    let mut out: Vec<Vec<char>> = Vec::new();
    proof {
        broadcast use group_to_multiset_ensures;
        broadcast use vstd::multiset::group_multiset_axioms;

        assert(views_of(out@) =~= Seq::<Seq<char>>::empty());
        assert(views_of(out@).to_multiset().add(views_of(pending@).to_multiset())
            =~= total.to_multiset());
    }
    while pending.len() > 0
        invariant
            sorted_by(views_of(out@), lex_le_fn()),
            views_of(out@).to_multiset().add(views_of(pending@).to_multiset())
                == total.to_multiset(),
            forall|x: int, y: int|
                0 <= x < out@.len() && 0 <= y < pending@.len() ==> lex_le(
                    (#[trigger] out@[x])@,
                    (#[trigger] pending@[y])@,
                ),
        decreases pending@.len(),
    {
        let mi = min_index(&pending);
        let ghost pv = views_of(pending@);
        let ghost ov = views_of(out@);
        let ghost e = pv[mi as int];
        let x = pending.remove(mi);
        out.push(x);
        proof {
            broadcast use group_to_multiset_ensures;
            broadcast use vstd::multiset::group_multiset_axioms;

            assert(views_of(pending@) =~= pv.remove(mi as int));
            assert(views_of(out@) =~= ov.push(e));
            assert(pv.contains(e));
            assert(pv.to_multiset().count(e) > 0);
            assert(views_of(out@).to_multiset() =~= ov.to_multiset().insert(e));
            assert(views_of(pending@).to_multiset() =~= pv.to_multiset().remove(e));
            assert forall|z: Seq<char>|
                views_of(out@).to_multiset().add(views_of(pending@).to_multiset()).count(z)
                    == total.to_multiset().count(z) by {
                assert(ov.to_multiset().add(pv.to_multiset()).count(z) == total.to_multiset().count(
                    z,
                ));
            }
            assert(views_of(out@).to_multiset().add(views_of(pending@).to_multiset())
                =~= total.to_multiset());
            assert forall|p: int, q: int| 0 <= p < q < views_of(out@).len() implies lex_le_fn()(
                views_of(out@)[p],
                views_of(out@)[q],
            ) by {
                if q < ov.len() {
                    assert(lex_le_fn()(ov[p], ov[q]));
                } else {
                    assert(lex_le(ov[p], pv[mi as int]));
                }
            }
            assert forall|p: int, q: int|
                0 <= p < out@.len() && 0 <= q < pending@.len() implies lex_le(
                (#[trigger] out@[p])@,
                (#[trigger] pending@[q])@,
            ) by {
                let q0 = if q < mi {
                    q
                } else {
                    q + 1
                };
                assert(pending@[q]@ == pv[q0]);
                if p < ov.len() {
                    assert(lex_le(ov[p], pv[q0]));
                } else {
                    assert(out@[p]@ == e);
                    assert(lex_le(pv[mi as int], pv[q0]));
                }
            }
        }
    }
    proof {
        broadcast use group_to_multiset_ensures;
        broadcast use vstd::multiset::group_multiset_axioms;

        assert(views_of(pending@) =~= Seq::<Seq<char>>::empty());
        assert(views_of(pending@).to_multiset() =~= Multiset::<Seq<char>>::empty());
        assert(views_of(out@).to_multiset() =~= total.to_multiset());
    }
    out
}

impl Hostfile {
    fn find_entry(&self, addr: &Vec<char>) -> (r: Option<usize>)
        ensures
            match r {
                Some(i) => i < self.entries@.len() && self.entries@[i as int].address@ == addr@,
                None => forall|j: int|
                    0 <= j < self.entries@.len() ==> (#[trigger] self.entries@[j]).address@
                        != addr@,
            },
    {
        let mut i: usize = 0;
        while i < self.entries.len()
            invariant
                i <= self.entries@.len(),
                forall|j: int| 0 <= j < i ==> (#[trigger] self.entries@[j]).address@ != addr@,
            decreases self.entries@.len() - i,
        {
            if vec_chars_eq(&self.entries[i].address, addr) {
                return Some(i);
            }
            i += 1;
        }
        None
    }

    /// Folds the hostnames of `names` (duplicates allowed) into the entry at
    /// `addr`, creating the entry when it is absent.
    fn upsert(&mut self, addr: Vec<char>, names: Vec<Vec<char>>)
        requires
            old(self).wf(),
        ensures
            final(self).wf(),
            final(self)@ == old(self)@.insert(
                addr@,
                hosts_or_empty(old(self)@, addr@).union(views_of(names@).to_set()),
            ),
    {
        let ghost addr0 = addr@;
        let ghost names0 = views_of(names@);
        let ghost m0 = self@;
        let ghost es0 = self.entries@;
        let mut names = names;
        let found = self.find_entry(&addr);
        match found {
            Some(i) => {
                proof {
                    lemma_entries_map_index(es0, i as int);
                    lemma_entries_map_remove(es0, i as int);
                }
                let mut e = self.entries.remove(i);
                let ghost orig = views_of(e.hostnames@).to_set();
                while names.len() > 0
                    invariant
                        views_of(e.hostnames@).no_duplicates(),
                        e.address@ == addr0,
                        views_of(e.hostnames@).to_set().union(views_of(names@).to_set())
                            == orig.union(names0.to_set()),
                    decreases names@.len(),
                {
                    let ghost pre_names = views_of(names@);
                    let ghost pre_set = views_of(e.hostnames@).to_set();
                    let h = names.remove(0);
                    proof {
                        assert(views_of(names@) =~= pre_names.drop_first());
                        lemma_to_set_drop_first(pre_names);
                    }
                    push_unique(&mut e.hostnames, h);
                    proof {
                        assert(views_of(e.hostnames@).to_set().union(views_of(names@).to_set())
                            =~= orig.union(names0.to_set()));
                    }
                }
                proof {
                    assert(views_of(names@) =~= Seq::<Seq<char>>::empty());
                    assert(views_of(names@).to_set() =~= Set::<Seq<char>>::empty());
                    assert(views_of(e.hostnames@).to_set() =~= orig.union(names0.to_set()));
                }
                let ghost es1 = self.entries@;
                let ghost e_snap = e;
                self.entries.push(e);
                proof {
                    assert(self.entries@.drop_last() =~= es1);
                    assert(self.entries@.last() == e_snap);
                    assert(entries_map(self.entries@) == entries_map(es1).insert(
                        addr0,
                        entry_hosts(e_snap),
                    ));
                    assert(entry_hosts(e_snap) == orig.union(names0.to_set()));
                    assert(hosts_or_empty(m0, addr0) == orig);
                    assert(entries_map(self.entries@) =~= m0.insert(
                        addr0,
                        hosts_or_empty(m0, addr0).union(names0.to_set()),
                    ));
                    assert forall|k: int| 0 <= k < es1.len() implies (#[trigger] es1[k]).address@
                        != addr0 && views_of(es1[k].hostnames@).no_duplicates() by {
                        let k0 = if k < i {
                            k
                        } else {
                            k + 1
                        };
                        assert(es1[k] == es0[k0]);
                    }
                    assert(distinct_addresses(self.entries@));
                }
            },
            None => {
                proof {
                    lemma_entries_map_dom(es0);
                    assert(!addr_views(es0).contains(addr0)) by {
                        if addr_views(es0).contains(addr0) {
                            let j = choose|j: int|
                                0 <= j < addr_views(es0).len() && addr_views(es0)[j] == addr0;
                            assert(es0[j].address@ == addr0);
                        }
                    }
                    assert(!m0.dom().contains(addr0));
                }
                let mut hs: Vec<Vec<char>> = Vec::new();
                while names.len() > 0
                    invariant
                        views_of(hs@).no_duplicates(),
                        views_of(hs@).to_set().union(views_of(names@).to_set()) == names0.to_set(),
                    decreases names@.len(),
                {
                    let ghost pre_names = views_of(names@);
                    let h = names.remove(0);
                    proof {
                        assert(views_of(names@) =~= pre_names.drop_first());
                        lemma_to_set_drop_first(pre_names);
                    }
                    push_unique(&mut hs, h);
                    proof {
                        assert(views_of(hs@).to_set().union(views_of(names@).to_set())
                            =~= names0.to_set());
                    }
                }
                proof {
                    assert(views_of(names@) =~= Seq::<Seq<char>>::empty());
                    assert(views_of(names@).to_set() =~= Set::<Seq<char>>::empty());
                    assert(views_of(hs@).to_set() =~= names0.to_set());
                }
                let e = Entry { address: addr, hostnames: hs };
                let ghost e_snap = e;
                self.entries.push(e);
                proof {
                    assert(self.entries@.drop_last() =~= es0);
                    assert(self.entries@.last() == e_snap);
                    assert(entries_map(self.entries@) == entries_map(es0).insert(
                        addr0,
                        entry_hosts(e_snap),
                    ));
                    assert(hosts_or_empty(m0, addr0) == Set::<Seq<char>>::empty());
                    assert(Set::<Seq<char>>::empty().union(names0.to_set()) =~= names0.to_set());
                    assert(entries_map(self.entries@) =~= m0.insert(
                        addr0,
                        hosts_or_empty(m0, addr0).union(names0.to_set()),
                    ));
                    assert(distinct_addresses(self.entries@));
                }
            },
        }
    }

    /// Removes one occurrence of `h`; under the no-duplicates invariant that is
    /// exactly the set removal, and a missing hostname is a no-op.
    fn remove_host(hs: &mut Vec<Vec<char>>, h: &Vec<char>)
        requires
            views_of(old(hs)@).no_duplicates(),
        ensures
            views_of(final(hs)@).no_duplicates(),
            views_of(final(hs)@).to_set() == views_of(old(hs)@).to_set().remove(h@),
    {
        let ghost vs = views_of(hs@);
        let mut j: usize = 0;
        while j < hs.len()
            invariant
                j <= hs@.len(),
                views_of(hs@) == vs,
                vs == views_of(old(hs)@),
                vs.no_duplicates(),
                forall|k: int| 0 <= k < j ==> vs[k] != h@,
            decreases hs@.len() - j,
        {
            if vec_chars_eq(&hs[j], h) {
                proof {
                    assert(vs[j as int] == h@);
                }
                hs.remove(j);
                proof {
                    let r = vs.remove(j as int);
                    assert(views_of(hs@) =~= r);
                    assert(r =~= vs.take(j as int) + vs.skip(j as int + 1));
                    assert forall|x: Seq<char>|
                        #[trigger] r.to_set().contains(x) <==> (vs.to_set().contains(x) && x
                            != h@) by {
                        if r.to_set().contains(x) {
                            let k = choose|k: int| 0 <= k < r.len() && (#[trigger] r[k]) == x;
                            let k0 = if k < j {
                                k
                            } else {
                                k + 1
                            };
                            assert(vs[k0] == x);
                            assert(vs.contains(x));
                            assert(k0 != j);
                            assert(vs[k0] != vs[j as int]);
                        }
                        if vs.to_set().contains(x) && x != h@ {
                            let k0 = choose|k0: int|
                                0 <= k0 < vs.len() && (#[trigger] vs[k0]) == x;
                            let k = if k0 < j {
                                k0
                            } else {
                                k0 - 1
                            };
                            assert(r[k] == vs[k0]);
                            assert(r.contains(x));
                        }
                    }
                    assert(views_of(hs@).to_set() =~= vs.to_set().remove(h@));
                    assert forall|x: int, y: int| 0 <= x < y < r.len() implies (#[trigger] r[x])
                        != (#[trigger] r[y]) by {
                        let x0 = if x < j {
                            x
                        } else {
                            x + 1
                        };
                        let y0 = if y < j {
                            y
                        } else {
                            y + 1
                        };
                        assert(r[x] == vs[x0]);
                        assert(r[y] == vs[y0]);
                    }
                    assert(views_of(hs@).no_duplicates());
                }
                return ;
            }
            j += 1;
        }
        proof {
            assert(!vs.contains(h@));
            assert(!vs.to_set().contains(h@));
            assert(views_of(hs@).to_set() =~= vs.to_set().remove(h@));
        }
    }

    /// A deep copy of one entry.
    fn clone_entry(e: &Entry) -> (r: Entry)
        ensures
            r.address@ == e.address@,
            views_of(r.hostnames@) == views_of(e.hostnames@),
    {
        let address = clone_chars(&e.address);
        let mut hostnames: Vec<Vec<char>> = Vec::new();
        let mut k: usize = 0;
        while k < e.hostnames.len()
            invariant
                k <= e.hostnames@.len(),
                views_of(hostnames@) == views_of(e.hostnames@).take(k as int),
            decreases e.hostnames@.len() - k,
        {
            let ghost prev = hostnames@;
            let h = clone_chars(&e.hostnames[k]);
            hostnames.push(h);
            proof {
                assert(views_of(hostnames@) =~= views_of(prev).push(e.hostnames@[k as int]@));
                assert(views_of(e.hostnames@).take(k as int + 1) =~= views_of(
                    e.hostnames@,
                ).take(k as int).push(views_of(e.hostnames@)[k as int]));
            }
            k += 1;
        }
        proof {
            assert(views_of(e.hostnames@).take(e.hostnames@.len() as int) =~= views_of(
                e.hostnames@,
            ));
        }
        Entry { address, hostnames }
    }

    /// The global cleanup sweep: every entry whose hostname set is empty is
    /// deleted, whatever made it empty.
    fn sweep(&mut self)
        requires
            old(self).wf(),
        ensures
            final(self).wf(),
            final(self)@ == prune(old(self)@),
    {
        let ghost es0 = self.entries@;
        let mut out: Vec<Entry> = Vec::new();
        let mut i: usize = 0;
        proof {
            assert(es0.take(0) =~= Seq::<Entry>::empty());
            assert(entries_map(out@) =~= prune(entries_map(es0.take(0))));
        }
        while i < self.entries.len()
            invariant
                i <= es0.len(),
                self.entries@ == es0,
                old(self).wf(),
                es0 == old(self).entries@,
                distinct_addresses(out@),
                forall|k: int|
                    0 <= k < out@.len() ==> views_of(
                        (#[trigger] out@[k]).hostnames@,
                    ).no_duplicates(),
                entries_map(out@) == prune(entries_map(es0.take(i as int))),
            decreases es0.len() - i,
        {
            let ghost mi = entries_map(es0.take(i as int));
            let ghost e_i = es0[i as int];
            proof {
                assert(es0.take(i as int + 1).drop_last() =~= es0.take(i as int));
                assert(es0.take(i as int + 1).last() == e_i);
                lemma_entries_map_dom(es0.take(i as int));
                assert(!addr_views(es0.take(i as int)).contains(e_i.address@)) by {
                    if addr_views(es0.take(i as int)).contains(e_i.address@) {
                        let j = choose|j: int|
                            0 <= j < i && addr_views(es0.take(i as int))[j] == e_i.address@;
                        assert(es0[j].address@ == e_i.address@);
                    }
                }
                assert(!mi.dom().contains(e_i.address@));
            }
            if self.entries[i].hostnames.len() > 0 {
                let e2 = Self::clone_entry(&self.entries[i]);
                let ghost out_pre = out@;
                let ghost e2s = e2;
                out.push(e2);
                proof {
                    assert(entry_hosts(e_i).contains(views_of(e_i.hostnames@)[0]));
                    assert(entry_hosts(e_i) != Set::<Seq<char>>::empty());
                    assert(out@.drop_last() =~= out_pre);
                    assert(out@.last() == e2s);
                    assert(entry_hosts(e2s) == entry_hosts(e_i));
                    assert(entries_map(out@) == entries_map(out_pre).insert(
                        e_i.address@,
                        entry_hosts(e_i),
                    ));
                    assert(entries_map(out@) =~= prune(entries_map(es0.take(i as int + 1))));
                    lemma_entries_map_dom(out_pre);
                    assert(!addr_views(out_pre).to_set().contains(e_i.address@)) by {
                        assert(addr_views(out_pre).to_set() == entries_map(out_pre).dom());
                        assert(entries_map(out_pre).dom().subset_of(mi.dom()));
                    }
                    assert forall|k: int| 0 <= k < out_pre.len() implies (
                    #[trigger] out_pre[k]).address@ != e_i.address@ by {
                        assert(addr_views(out_pre)[k] == out_pre[k].address@);
                        assert(addr_views(out_pre).to_set().contains(addr_views(out_pre)[k]));
                    }
                    assert(distinct_addresses(out@));
                }
            } else {
                proof {
                    assert(views_of(e_i.hostnames@) =~= Seq::<Seq<char>>::empty());
                    assert(entry_hosts(e_i) =~= Set::<Seq<char>>::empty());
                    assert(entries_map(es0.take(i as int + 1)) == mi.insert(
                        e_i.address@,
                        entry_hosts(e_i),
                    ));
                    assert(entries_map(out@) =~= prune(entries_map(es0.take(i as int + 1))));
                }
            }
            i += 1;
        }
        proof {
            assert(es0.take(es0.len() as int) =~= es0);
        }
        self.entries = out;
    }

    /// Removes the given hostnames from `address` (absent hostnames and an
    /// absent address are no-ops), then sweeps every entry whose hostname set
    /// is now empty.
    pub fn remove(&mut self, address: &str, hostnames: &[&str])
        requires
            old(self).wf(),
        ensures
            final(self).wf(),
            final(self)@ == prune(
                without_hosts(old(self)@, address@, hostnames.deep_view().to_set()),
            ),
    {
        let ghost m0 = self@;
        let ghost es0 = self.entries@;
        let ghost nameset = hostnames.deep_view().to_set();
        let addr = chars_of(address);
        let found = self.find_entry(&addr);
        match found {
            Some(i) => {
                proof {
                    lemma_entries_map_index(es0, i as int);
                    lemma_entries_map_remove(es0, i as int);
                }
                let mut e = self.entries.remove(i);
                let ghost orig = views_of(e.hostnames@).to_set();
                let mut k: usize = 0;
                proof {
                    assert(hostnames.deep_view().take(0) =~= Seq::<Seq<char>>::empty());
                    assert(orig.difference(hostnames.deep_view().take(0).to_set()) =~= orig);
                }
                while k < hostnames.len()
                    invariant
                        k <= hostnames@.len(),
                        views_of(e.hostnames@).no_duplicates(),
                        e.address@ == address@,
                        views_of(e.hostnames@).to_set() == orig.difference(
                            hostnames.deep_view().take(k as int).to_set(),
                        ),
                    decreases hostnames@.len() - k,
                {
                    let ghost pre_set = views_of(e.hostnames@).to_set();
                    let h = chars_of(hostnames[k]);
                    proof {
                        assert(hostnames.deep_view()[k as int] == hostnames@[k as int]@);
                    }
                    Self::remove_host(&mut e.hostnames, &h);
                    proof {
                        let dv = hostnames.deep_view();
                        assert(dv.take(k as int + 1) =~= dv.take(k as int).push(dv[k as int]));
                        dv.take(k as int).lemma_push_to_set_commute(dv[k as int]);
                        assert(views_of(e.hostnames@).to_set() =~= orig.difference(
                            dv.take(k as int + 1).to_set(),
                        ));
                    }
                    k += 1;
                }
                let ghost es1 = self.entries@;
                let ghost e_snap = e;
                self.entries.push(e);
                proof {
                    assert(hostnames.deep_view().take(hostnames@.len() as int)
                        =~= hostnames.deep_view());
                    assert(self.entries@.drop_last() =~= es1);
                    assert(self.entries@.last() == e_snap);
                    assert(entries_map(self.entries@) == entries_map(es1).insert(
                        address@,
                        entry_hosts(e_snap),
                    ));
                    assert(entries_map(self.entries@) =~= without_hosts(m0, address@, nameset));
                    assert forall|k2: int| 0 <= k2 < es1.len() implies (
                    #[trigger] es1[k2]).address@ != address@ && views_of(
                        es1[k2].hostnames@,
                    ).no_duplicates() by {
                        let k0 = if k2 < i {
                            k2
                        } else {
                            k2 + 1
                        };
                        assert(es1[k2] == es0[k0]);
                    }
                    assert(distinct_addresses(self.entries@));
                }
            },
            None => {
                proof {
                    lemma_entries_map_dom(es0);
                    assert(!addr_views(es0).contains(address@)) by {
                        if addr_views(es0).contains(address@) {
                            let j = choose|j: int|
                                0 <= j < addr_views(es0).len() && addr_views(es0)[j] == address@;
                            assert(es0[j].address@ == address@);
                        }
                    }
                    assert(!m0.dom().contains(address@));
                    assert(without_hosts(m0, address@, nameset) == m0);
                }
            },
        }
        self.sweep();
    }

    /// One line of input folded into the entries, as [`process_line`] says:
    /// blank and comment lines are skipped, a data line joins its hostnames to
    /// its address, and a tokenless data line is the parse error.
    fn apply_line(&mut self, line: &Vec<char>) -> (r: Result<(), Vec<char>>)
        requires
            old(self).wf(),
        ensures
            final(self).wf(),
            match r {
                Ok(_) => process_line(old(self)@, line@) == Ok::<
                    Map<Seq<char>, Set<Seq<char>>>,
                    Seq<char>,
                >(final(self)@),
                Err(l) => {
                    &&& process_line(old(self)@, line@) == Err::<
                        Map<Seq<char>, Set<Seq<char>>>,
                        Seq<char>,
                    >(l@)
                    &&& final(self)@ == old(self)@
                },
            },
    {
        let ghost m0 = self@;
        let mut a: usize = 0;
        loop
            invariant
                a <= line@.len(),
                forall|j: int| 0 <= j < a ==> is_ws(#[trigger] line@[j]),
            ensures
                a <= line@.len(),
                forall|j: int| 0 <= j < a ==> is_ws(#[trigger] line@[j]),
                a == line@.len() || !is_ws(line@[a as int]),
            decreases line@.len() - a,
        {
            if a == line.len() {
                break ;
            }
            if !is_ws_char(line[a]) {
                break ;
            }
            a += 1;
        }
        let mut b: usize = line.len();
        loop
            invariant
                a <= b <= line@.len(),
                forall|j: int| b <= j < line@.len() ==> is_ws(#[trigger] line@[j]),
            ensures
                a <= b <= line@.len(),
                forall|j: int| b <= j < line@.len() ==> is_ws(#[trigger] line@[j]),
                b == a || !is_ws(line@[b - 1]),
            decreases b,
        {
            if b == a {
                break ;
            }
            if !is_ws_char(line[b - 1]) {
                break ;
            }
            b -= 1;
        }
        proof {
            crate::text::lemma_trim_margin(line@, a as int, b as int);
        }
        let ghost t = trim(line@);
        if a == b {
            return Ok(());
        }
        if line[a] == '#' {
            assert(t[0] == '#');
            return Ok(());
        }
        let mut toks = tokenize_range(line, a, b);
        let ghost all_toks = tokenize(t);
        // A non-empty trimmed line always yields a first token
        // (crate::model::lemma_parse_total), so this branch cannot be taken;
        // it is the error surface of the parse all the same.
        if toks.len() == 0 {
            let l = copy_range(line, a, b);
            return Err(l);
        }
        let ghost pre_toks = views_of(toks@);
        let addr = toks.remove(0);
        proof {
            assert(views_of(toks@) =~= pre_toks.drop_first());
            assert(addr@ == all_toks[0]);
        }
        self.upsert(addr, toks);
        Ok(())
    }

    /// Parses a full text blob: lines separated by `'\n'`, each folded in by
    /// [`process_line`], stopping at the first malformed line.
    pub fn new_from_str(data: &str) -> (r: Result<Hostfile, HostfileError>)
        ensures
            match r {
                Ok(hf) => hf.wf() && parse(data@) == Ok::<
                    Map<Seq<char>, Set<Seq<char>>>,
                    Seq<char>,
                >(hf@),
                Err(e) => {
                    &&& parse(data@) is Err
                    &&& (e matches HostfileError::NoAddressFound(l) && l@ == parse(data@)->Err_0)
                },
            },
    {
        let text = chars_of(data);
        let mut hf = Hostfile { entries: Vec::new() };
        let mut cur: Vec<char> = Vec::new();
        let mut i: usize = 0;
        proof {
            assert(hf@ =~= Map::<Seq<char>, Set<Seq<char>>>::empty());
            assert(text@.take(0) =~= Seq::<char>::empty());
        }
        while i < text.len()
            invariant
                i <= text@.len(),
                text@ == data@,
                hf.wf(),
                split_lines(text@.take(i as int)).len() >= 1,
                parse_lines(split_lines(text@.take(i as int)).drop_last()) == Ok::<
                    Map<Seq<char>, Set<Seq<char>>>,
                    Seq<char>,
                >(hf@),
                cur@ == split_lines(text@.take(i as int)).last(),
            decreases text@.len() - i,
        {
            let ghost pre = text@.take(i as int);
            let ghost sl = split_lines(pre);
            proof {
                lemma_split_lines_len(pre);
                assert(text@.take(i as int + 1).drop_last() =~= pre);
                assert(text@.take(i as int + 1).last() == text@[i as int]);
            }
            let c = text[i];
            if c == '\n' {
                let ghost m_before = hf@;
                let res = hf.apply_line(&cur);
                match res {
                    Ok(_) => {},
                    Err(l) => {
                        proof {
                            assert(parse_lines(sl) == Err::<
                                Map<Seq<char>, Set<Seq<char>>>,
                                Seq<char>,
                            >(l@));
                            assert(text@ =~= pre + seq!['\n'] + text@.skip(i as int + 1));
                            crate::text::lemma_split_lines_sep(pre, text@.skip(i as int + 1));
                            lemma_parse_lines_err_extends(sl, split_lines(text@.skip(i as int + 1)));
                        }
                        return Err(HostfileError::NoAddressFound(string_from_chars(&l)));
                    },
                }
                cur = Vec::new();
                proof {
                    assert(split_lines(text@.take(i as int + 1)) == sl.push(Seq::empty()));
                    assert(sl.push(Seq::<char>::empty()).drop_last() =~= sl);
                    assert(parse_lines(sl) == Ok::<Map<Seq<char>, Set<Seq<char>>>, Seq<char>>(hf@));
                }
            } else {
                cur.push(c);
                proof {
                    let slp = split_lines(text@.take(i as int + 1));
                    assert(slp == sl.update(sl.len() - 1, sl.last().push(text@[i as int])));
                    assert(slp.drop_last() =~= sl.drop_last());
                    assert(slp.last() == cur@);
                }
            }
            i += 1;
        }
        proof {
            assert(text@.take(text@.len() as int) =~= text@);
        }
        let ghost sl = split_lines(text@);
        let res = hf.apply_line(&cur);
        match res {
            Ok(_) => {
                proof {
                    assert(parse(data@) == Ok::<Map<Seq<char>, Set<Seq<char>>>, Seq<char>>(hf@));
                }
                Ok(hf)
            },
            Err(l) => {
                proof {
                    assert(parse_lines(sl) == Err::<Map<Seq<char>, Set<Seq<char>>>, Seq<char>>(
                        l@,
                    ));
                }
                Err(HostfileError::NoAddressFound(string_from_chars(&l)))
            },
        }
    }

    /// The canonical text of the hostfile: one line per address, hostnames
    /// sorted and space-joined after the address, lines sorted, joined by
    /// newlines with no trailing newline. The output depends only on the
    /// abstract entries, never on insertion order.
    pub fn to_string(&self) -> (r: String)
        requires
            self.wf(),
        ensures
            is_render(self@, r@),
            r@ == render(self@),
    {
        let ghost m = self@;
        let ghost es = self.entries@;
        let mut lines: Vec<Vec<char>> = Vec::new();
        let mut i: usize = 0;
        while i < self.entries.len()
            invariant
                i <= es.len(),
                self.entries@ == es,
                self.wf(),
                m == self@,
                lines@.len() == i,
                forall|j: int|
                    0 <= j < i ==> line_for(
                        addr_views(es)[j],
                        m[addr_views(es)[j]],
                        (#[trigger] views_of(lines@)[j]),
                    ),
            decreases es.len() - i,
        {
            let e = &self.entries[i];
            let sorted_hosts = sorted_copy(&e.hostnames);
            let ghost hl = views_of(sorted_hosts@);
            proof {
                lemma_multiset_perm_props(hl, views_of(e.hostnames@));
                lemma_entries_map_index(es, i as int);
            }
            let mut line = clone_chars(&e.address);
            line.push(' ');
            let ghost base = es[i as int].address@ + seq![' '];
            proof {
                assert(line@ =~= base);
                assert(hl.take(0) =~= Seq::<Seq<char>>::empty());
                assert(line@ =~= base + join_with(hl.take(0), ' '));
            }
            let mut k: usize = 0;
            while k < sorted_hosts.len()
                invariant
                    k <= hl.len(),
                    views_of(sorted_hosts@) == hl,
                    base == es[i as int].address@ + seq![' '],
                    line@ == base + join_with(hl.take(k as int), ' '),
                decreases hl.len() - k,
            {
                let ghost line_pre = line@;
                if k > 0 {
                    line.push(' ');
                }
                append_chars(&mut line, &sorted_hosts[k]);
                proof {
                    assert(hl.take(k as int + 1).drop_last() =~= hl.take(k as int));
                    assert(hl.take(k as int + 1).last() == hl[k as int]);
                    if k == 0 {
                        assert(join_with(hl.take(1), ' ') == hl[0]);
                        assert(line@ =~= base + join_with(hl.take(1), ' '));
                    } else {
                        assert(join_with(hl.take(k as int + 1), ' ') == join_with(
                            hl.take(k as int),
                            ' ',
                        ) + seq![' '] + hl[k as int]);
                        assert(line@ =~= base + join_with(hl.take(k as int + 1), ' '));
                    }
                }
                k += 1;
            }
            proof {
                assert(hl.take(hl.len() as int) =~= hl);
                assert(line@ == entry_line(es[i as int].address@, hl));
            }
            let ghost lv = line@;
            let ghost lines_pre = lines@;
            lines.push(line);
            proof {
                assert(views_of(lines@) =~= views_of(lines_pre).push(lv));
                assert(hl.to_set() == m[es[i as int].address@]);
                assert(line_for(es[i as int].address@, m[es[i as int].address@], lv));
                assert(addr_views(es)[i as int] == es[i as int].address@);
                assert forall|j: int| 0 <= j < i + 1 implies line_for(
                    addr_views(es)[j],
                    m[addr_views(es)[j]],
                    (#[trigger] views_of(lines@)[j]),
                ) by {
                    if j < i {
                        assert(views_of(lines@)[j] == views_of(lines_pre)[j]);
                    }
                }
            }
            i += 1;
        }
        let sorted_lines = sorted_copy(&lines);
        let ghost raw = views_of(lines@);
        let ghost ls = views_of(sorted_lines@);
        let mut out: Vec<char> = Vec::new();
        proof {
            assert(ls.take(0) =~= Seq::<Seq<char>>::empty());
            assert(out@ =~= join_with(ls.take(0), '\n'));
        }
        let mut k: usize = 0;
        while k < sorted_lines.len()
            invariant
                k <= ls.len(),
                views_of(sorted_lines@) == ls,
                out@ == join_with(ls.take(k as int), '\n'),
            decreases ls.len() - k,
        {
            if k > 0 {
                out.push('\n');
            }
            append_chars(&mut out, &sorted_lines[k]);
            proof {
                assert(ls.take(k as int + 1).drop_last() =~= ls.take(k as int));
                assert(ls.take(k as int + 1).last() == ls[k as int]);
                if k == 0 {
                    assert(join_with(ls.take(1), '\n') == ls[0]);
                    assert(out@ =~= join_with(ls.take(1), '\n'));
                } else {
                    assert(out@ =~= join_with(ls.take(k as int + 1), '\n'));
                }
            }
            k += 1;
        }
        proof {
            assert(ls.take(ls.len() as int) =~= ls);
        }
        let s = string_from_chars(&out);
        proof {
            let addrs = addr_views(es);
            lemma_entries_map_dom(es);
            assert(addrs.no_duplicates()) by {
                assert forall|x: int, y: int|
                    0 <= x < y < addrs.len() implies (#[trigger] addrs[x]) != (
                #[trigger] addrs[y]) by {
                    assert(addrs[x] == es[x].address@);
                    assert(addrs[y] == es[y].address@);
                }
            }
            assert(lines_for(m, addrs, raw));
            assert(s@ == join_with(ls, '\n'));
            assert(is_render(m, s@));
            assert(is_render(m, render(m)));
            crate::model::lemma_render_unique(m, s@, render(m));
        }
        s
    }

    /// Adds the given hostnames to `address`, creating the entry when absent;
    /// hostnames already present are untouched, so the set semantics hold.
    pub fn add(&mut self, address: &str, hostnames: &[&str])
        requires
            old(self).wf(),
        ensures
            final(self).wf(),
            final(self)@ == old(self)@.insert(
                address@,
                hosts_or_empty(old(self)@, address@).union(hostnames.deep_view().to_set()),
            ),
    {
        let addr = chars_of(address);
        let mut names: Vec<Vec<char>> = Vec::new();
        let mut k: usize = 0;
        while k < hostnames.len()
            invariant
                k <= hostnames@.len(),
                views_of(names@) == hostnames.deep_view().take(k as int),
        decreases hostnames@.len() - k,
        {
            let h = chars_of(hostnames[k]);
            names.push(h);
            proof {
                assert(hostnames.deep_view()[k as int] == hostnames@[k as int]@);
                assert(views_of(names@) =~= hostnames.deep_view().take(k as int).push(
                    hostnames.deep_view()[k as int],
                ));
                assert(hostnames.deep_view().take(k as int + 1) =~= hostnames.deep_view().take(
                    k as int,
                ).push(hostnames.deep_view()[k as int]));
            }
            k += 1;
        }
        proof {
            assert(hostnames.deep_view().take(hostnames@.len() as int) =~= hostnames.deep_view());
        }
        self.upsert(addr, names);
    }
}

} // verus!
