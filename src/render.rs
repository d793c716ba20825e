//! Writing entries back as indented bullet lines, and reading them again.

use crate::parser::{
    content_of, entries_of, entries_of_text, indent_from, line_end, line_text, lines_from,
};
use crate::text::{is_blank, trim_start, whitespace_of};
use vstd::prelude::*;

verus! {

/// `n` spaces.
pub open spec fn spaces(n: nat) -> Seq<char> {
    Seq::new(n, |i: int| ' ')
}

/// Entry `e` written as a bullet line: two spaces per level, then `- ` and the content.
pub open spec fn bullet_line(e: (nat, Seq<char>)) -> Seq<char> {
    spaces(2 * e.0) + seq!['-', ' '] + e.1
}

/// The entries written one bullet line each, every line ended by a line break.
pub open spec fn bullet_text(es: Seq<(nat, Seq<char>)>) -> Seq<char>
    decreases es.len(),
{
    if es.len() == 0 {
        Seq::empty()
    } else {
        bullet_line(es[0]) + seq!['\n'] + bullet_text(es.drop_first())
    }
}

/// A content that a bullet line carries unchanged: not blank, on one line, and not ending in a
/// carriage return.
pub open spec fn plain_content(c: Seq<char>) -> bool {
    &&& !is_blank(c)
    &&& !c.contains('\n')
    &&& c.last() != '\r'
}

/// The entries written as bullet lines, each ended by a line break.
pub fn render_entries(entries: &Vec<(usize, String)>) -> (r: String)
    requires
        forall|t: int| 0 <= t < entries@.len() ==> 2 * (#[trigger] entries@[t]).0 <= usize::MAX,
    ensures
        r@ == bullet_text(crate::parser::entry_views(entries@)),
{
    let ghost es = crate::parser::entry_views(entries@);
    let mut out: Vec<char> = Vec::new();
    let mut t: usize = 0;
    proof {
        assert(es.subrange(0, es.len() as int) =~= es);
        assert(out@ + bullet_text(es) =~= bullet_text(es));
    }
    while t < entries.len()
        invariant
            t <= entries@.len(),
            es == crate::parser::entry_views(entries@),
            forall|m: int| 0 <= m < entries@.len() ==> 2 * (#[trigger] entries@[m]).0 <= usize::MAX,
            out@ + bullet_text(es.subrange(t as int, es.len() as int)) == bullet_text(es),
        decreases entries.len() - t,
    {
        let ghost before = out@;
        let level = entries[t].0;
        let width = 2 * level;
        let mut k: usize = 0;
        while k < width
            invariant
                k <= width,
                out@ == before + spaces(k as nat),
            decreases width - k,
        {
            out.push(' ');
            proof {
                assert(out@ =~= before + spaces((k + 1) as nat));
            }
            k = k + 1;
        }
        out.push('-');
        out.push(' ');
        let cs = crate::text::chars_of(entries[t].1.as_str());
        let mut k: usize = 0;
        let ghost mid = out@;
        while k < cs.len()
            invariant
                k <= cs@.len(),
                out@ == mid + cs@.subrange(0, k as int),
            decreases cs.len() - k,
        {
            out.push(cs[k]);
            proof {
                assert(out@ =~= mid + cs@.subrange(0, k + 1));
            }
            k = k + 1;
        }
        out.push('\n');
        proof {
            let rest = es.subrange(t as int, es.len() as int);
            assert(rest[0] == es[t as int]);
            assert(rest.drop_first() =~= es.subrange(t + 1, es.len() as int));
            assert(cs@.subrange(0, cs@.len() as int) =~= cs@);
            assert(es[t as int] == (level as nat, entries@[t as int].1@));
            assert(out@ =~= before + bullet_line(es[t as int]) + seq!['\n']);
            assert(bullet_text(rest) == bullet_line(rest[0]) + seq!['\n'] + bullet_text(rest.drop_first()));
            assert(out@ + bullet_text(es.subrange(t + 1, es.len() as int)) =~= before + bullet_text(rest));
        }
        t = t + 1;
    }
    proof {
        assert(es.subrange(es.len() as int, es.len() as int) =~= Seq::<(nat, Seq<char>)>::empty());
        assert(out@ + Seq::<char>::empty() =~= out@);
    }
    crate::text::string_of(out.as_slice())
}

pub proof fn lemma_trim_spaces(m: nat, x: Seq<char>)
    ensures
        trim_start(spaces(m) + x) == trim_start(x),
    decreases m,
{
    if m > 0 {
        let s = spaces(m) + x;
        assert(s[0] == ' ');
        assert(whitespace_of(' '));
        assert(s.drop_first() =~= spaces((m - 1) as nat) + x);
        lemma_trim_spaces((m - 1) as nat, x);
    } else {
        assert(spaces(0) + x =~= x);
    }
}

/// A bullet line gives back its content.
pub proof fn lemma_bullet_content(e: (nat, Seq<char>))
    ensures
        content_of(bullet_line(e)) == e.1,
{
    let x = seq!['-', ' '] + e.1;
    assert(bullet_line(e) =~= spaces(2 * e.0) + x);
    lemma_trim_spaces(2 * e.0, x);
    assert(!whitespace_of('-'));
    assert(x[0] == '-');
    assert(trim_start(x) == x);
    assert(x.subrange(2, x.len() as int) =~= e.1);
}

pub proof fn lemma_indent_of_spaces(s: Seq<char>, i: int, k: nat)
    requires
        0 <= i,
        i + 2 * k < s.len(),
        forall|j: int| i <= j < i + 2 * k ==> s[j] == ' ',
        s[i + 2 * k] == '-',
    ensures
        indent_from(s, i) == k,
    decreases k,
{
    if k > 0 {
        assert(s[i] == ' ' && s[i + 1] == ' ');
        lemma_indent_of_spaces(s, i + 2, (k - 1) as nat);
    }
}

/// A bullet line gives back its level.
pub proof fn lemma_bullet_indent(e: (nat, Seq<char>))
    ensures
        indent_from(bullet_line(e), 0) == e.0,
{
    let l = bullet_line(e);
    assert(l[2 * e.0 as int] == '-');
    lemma_indent_of_spaces(l, 0, e.0);
}

pub proof fn lemma_line_end_at(s: Seq<char>, i: int, p: int)
    requires
        0 <= i <= p <= s.len(),
        forall|j: int| i <= j < p ==> s[j] != '\n',
        p == s.len() || s[p] == '\n',
    ensures
        line_end(s, i) == p,
    decreases p - i,
{
    if i < p {
        lemma_line_end_at(s, i + 1, p);
    }
}

pub proof fn lemma_line_end_shift(a: Seq<char>, b: Seq<char>, i: int)
    requires
        a.len() <= i <= a.len() + b.len(),
    ensures
        line_end(a + b, i) == a.len() + line_end(b, i - a.len()),
    decreases a.len() + b.len() - i,
{
    let s = a + b;
    if i < s.len() {
        assert(s[i] == b[i - a.len()]);
        if s[i] != '\n' {
            lemma_line_end_shift(a, b, i + 1);
        }
    }
}

/// The lines of `a + b` from a position inside `b` are the lines of `b` from there.
pub proof fn lemma_lines_shift(a: Seq<char>, b: Seq<char>, i: int)
    requires
        a.len() <= i <= a.len() + b.len(),
    ensures
        lines_from(a + b, i) == lines_from(b, i - a.len()),
    decreases a.len() + b.len() - i,
{
    let s = a + b;
    let k = i - a.len();
    if i < s.len() {
        lemma_line_end_shift(a, b, i);
        crate::parser::lemma_line_end_bounds(b, k);
        let e = line_end(s, i);
        let f = line_end(b, k);
        assert(e == a.len() + f);
        assert(s.subrange(i, e) =~= b.subrange(k, f));
        if e > i && e < s.len() {
            assert(s[e - 1] == b[f - 1]);
            assert(s.subrange(i, e - 1) =~= b.subrange(k, f - 1));
        }
        assert(line_text(s, i, e) == line_text(b, k, f));
        if e < s.len() {
            lemma_lines_shift(a, b, e + 1);
        }
    }
}

/// The entries are all written as bullet lines that read back.
pub open spec fn plain_entries(es: Seq<(nat, Seq<char>)>) -> bool {
    forall|t: int| 0 <= t < es.len() ==> plain_content(#[trigger] es[t].1)
}

pub proof fn lemma_bullet_lines(es: Seq<(nat, Seq<char>)>)
    requires
        plain_entries(es),
    ensures
        lines_from(bullet_text(es), 0) == es.map_values(|e: (nat, Seq<char>)| bullet_line(e)),
    decreases es.len(),
{
    if es.len() == 0 {
        assert(es.map_values(|e: (nat, Seq<char>)| bullet_line(e)) =~= Seq::<Seq<char>>::empty());
    } else {
        let e = es[0];
        let l = bullet_line(e);
        let rest = es.drop_first();
        let r = bullet_text(rest);
        let a = l + seq!['\n'];
        let s = bullet_text(es);
        assert(s == a + r);
        assert(plain_content(e.1));
        assert forall|t: int| 0 <= t < rest.len() implies plain_content(#[trigger] rest[t].1) by {
            assert(rest[t] == es[t + 1]);
        }
        lemma_bullet_lines(rest);
        let n = 2 * e.0;
        assert forall|j: int| 0 <= j < l.len() implies l[j] != '\n' by {
            if j >= n + 2 {
                assert(l[j] == e.1[j - n - 2]);
                if e.1[j - n - 2] == '\n' {
                    assert(e.1.contains('\n'));
                }
            }
        }
        assert forall|j: int| 0 <= j < l.len() implies s[j] != '\n' by {
            assert(s[j] == l[j]);
        }
        assert(s[l.len() as int] == '\n');
        lemma_line_end_at(s, 0, l.len() as int);
        assert(e.1.len() > 0) by {
            if e.1.len() == 0 {
                assert(crate::text::is_blank(e.1));
            }
        }
        assert(s[l.len() - 1] == e.1.last());
        assert(s.subrange(0, l.len() as int) =~= l);
        assert(line_text(s, 0, l.len() as int) == l);
        lemma_lines_shift(a, r, a.len() as int);
        assert(lines_from(s, 0) == seq![l] + lines_from(s, (l.len() + 1) as int));
        assert(es.map_values(|e: (nat, Seq<char>)| bullet_line(e)) =~= seq![l] + rest.map_values(|e: (nat, Seq<char>)| bullet_line(e)));
    }
}

pub proof fn lemma_bullet_entries(es: Seq<(nat, Seq<char>)>)
    requires
        plain_entries(es),
    ensures
        entries_of(es.map_values(|e: (nat, Seq<char>)| bullet_line(e))) == es,
    decreases es.len(),
{
    let ls = es.map_values(|e: (nat, Seq<char>)| bullet_line(e));
    if es.len() > 0 {
        let d = es.drop_last();
        assert forall|t: int| 0 <= t < d.len() implies plain_content(#[trigger] d[t].1) by {
            assert(d[t] == es[t]);
        }
        lemma_bullet_entries(d);
        assert(ls.drop_last() =~= d.map_values(|e: (nat, Seq<char>)| bullet_line(e)));
        let e = es.last();
        assert(plain_content(es[es.len() - 1].1));
        let l = bullet_line(e);
        assert(ls.last() == l);
        lemma_bullet_content(e);
        lemma_bullet_indent(e);
        assert(!is_blank(l)) by {
            assert(l[2 * e.0 as int] == '-');
            assert(!whitespace_of('-'));
        }
        assert(d.push(e) =~= es);
    } else {
        assert(ls =~= Seq::<Seq<char>>::empty());
    }
}

/// Entries written as bullet lines read back as the same entries: the same levels and the
/// same contents, in the same order, so the parser builds the same tree from them.
pub proof fn lemma_bullets_round_trip(es: Seq<(nat, Seq<char>)>)
    requires
        plain_entries(es),
    ensures
        entries_of_text(bullet_text(es)) == es,
{
    lemma_bullet_lines(es);
    lemma_bullet_entries(es);
}

/// Two block trees built from the same entries have, position by position, the same contents
/// and levels, and the same parent positions (identifiers aside): the same tree.
pub proof fn lemma_same_entries_same_tree(bs1: Seq<crate::entities::BlockView>, bs2: Seq<crate::entities::BlockView>, es: Seq<(nat, Seq<char>)>)
    requires
        crate::aggregates::tree_ok(bs1),
        crate::aggregates::tree_ok(bs2),
        crate::parser::parsed_as(bs1, es),
        crate::parser::parsed_as(bs2, es),
        crate::parser::well_nested(es),
    ensures
        bs1.len() == bs2.len(),
        forall|t: int| 0 <= t < bs1.len() ==> {
            &&& (#[trigger] bs1[t]).content == bs2[t].content
            &&& bs1[t].indent == bs2[t].indent
            &&& (bs1[t].parent is None <==> bs2[t].parent is None)
            &&& bs1[t].parent is Some ==> crate::aggregates::index_of(bs1, bs1[t].parent->0)
                == crate::aggregates::index_of(bs2, bs2[t].parent->0)
        },
{
    assert forall|t: int| 0 <= t < bs1.len() implies {
        &&& (#[trigger] bs1[t]).content == bs2[t].content
        &&& bs1[t].indent == bs2[t].indent
        &&& (bs1[t].parent is None <==> bs2[t].parent is None)
        &&& bs1[t].parent is Some ==> crate::aggregates::index_of(bs1, bs1[t].parent->0)
            == crate::aggregates::index_of(bs2, bs2[t].parent->0)
    } by {
        assert(crate::aggregates::as_stored(bs1[t]) == crate::parser::parsed_block(es, crate::parser::ids_of(bs1), t));
        assert(crate::aggregates::as_stored(bs2[t]) == crate::parser::parsed_block(es, crate::parser::ids_of(bs2), t));
        if es[t].0 != 0 {
            assert(crate::parser::placeable(es, t));
            let s = crate::parser::parent_entry(es, t);
            crate::parser::lemma_nearest_bounds(es, t, (es[t].0 - 1) as nat);
            assert(0 <= s < t);
            crate::aggregates::lemma_index_of(bs1, s);
            crate::aggregates::lemma_index_of(bs2, s);
        }
    }
}

} // verus!
