//! Facts about the text layout of the index file: which lines and tokens the
//! rendered records read back as.
use vstd::prelude::*;
use crate::index::{group, render, render_locations, render_record};
use crate::text::{
    decimal, ends_done, is_digit, is_ws, line_ends, line_state, lines, terminator_len, token_state,
    tokens,
};

verus! {

/// An index line without its terminator.
pub open spec fn record_line(r: (Seq<char>, Seq<u64>)) -> Seq<char> {
    r.0 + seq![' '] + render_locations(r.1)
}

/// No character of `s` is whitespace.
pub open spec fn no_ws(s: Seq<char>) -> bool {
    forall|i: int| 0 <= i < s.len() ==> !is_ws(#[trigger] s[i])
}

/// A word that can stand in an index line: not empty, no whitespace.
pub open spec fn good_word(w: Seq<char>) -> bool {
    w.len() > 0 && no_ws(w)
}

pub proof fn lemma_decimal_digits(n: nat)
    ensures
        decimal(n).len() > 0,
        forall|i: int| 0 <= i < decimal(n).len() ==> is_digit(#[trigger] decimal(n)[i]),
    decreases n,
{
    if n >= 10 {
        lemma_decimal_digits(n / 10);
        let d = decimal(n / 10);
        let c = (('0' as u32) + (n % 10)) as char;
        assert forall|i: int| 0 <= i < decimal(n).len() implies is_digit(#[trigger] decimal(n)[i]) by {
            if i < d.len() {
                assert(decimal(n)[i] == d[i]);
            }
        }
    }
}

/// Every character of rendered locations is a digit or a space.
pub proof fn lemma_locations_chars(locs: Seq<u64>)
    ensures
        forall|i: int| 0 <= i < render_locations(locs).len() ==> (is_digit(
            #[trigger] render_locations(locs)[i],
        ) || render_locations(locs)[i] == ' '),
    decreases locs.len(),
{
    if locs.len() > 0 {
        lemma_locations_chars(locs.drop_last());
        lemma_decimal_digits(locs.last() as nat);
        let a = render_locations(locs.drop_last());
        let d = decimal(locs.last() as nat);
        assert forall|i: int| 0 <= i < render_locations(locs).len() implies (is_digit(
            #[trigger] render_locations(locs)[i],
        ) || render_locations(locs)[i] == ' ') by {
            if i < a.len() {
                assert(render_locations(locs)[i] == a[i]);
            } else if i < a.len() + d.len() {
                assert(render_locations(locs)[i] == d[i - a.len()]);
            }
        }
    }
}

/// Reading characters without `\\n` only grows the current line.
pub proof fn lemma_line_state_append(s: Seq<char>, x: Seq<char>)
    requires
        forall|i: int| 0 <= i < x.len() ==> #[trigger] x[i] != '\n',
    ensures
        line_state(s + x) == (line_state(s).0, line_state(s).1 + x),
        ends_done(s + x) == ends_done(s),
    decreases x.len(),
{
    if x.len() == 0 {
        assert(s + x =~= s);
        assert(line_state(s).1 + x =~= line_state(s).1);
    } else {
        let x0 = x.drop_last();
        lemma_line_state_append(s, x0);
        assert((s + x).drop_last() =~= s + x0);
        assert((s + x).last() == x.last());
        assert(line_state(s).1 + x0 + seq![x.last()] =~= line_state(s).1 + x);
    }
}

/// Reading non-whitespace characters only grows the current token.
pub proof fn lemma_token_state_append(s: Seq<char>, x: Seq<char>)
    requires
        no_ws(x),
    ensures
        token_state(s + x) == (token_state(s).0, token_state(s).1 + x),
    decreases x.len(),
{
    if x.len() == 0 {
        assert(s + x =~= s);
        assert(token_state(s).1 + x =~= token_state(s).1);
    } else {
        let x0 = x.drop_last();
        lemma_token_state_append(s, x0);
        assert((s + x).drop_last() =~= s + x0);
        assert((s + x).last() == x.last());
        assert(token_state(s).1 + x0 + seq![x.last()] =~= token_state(s).1 + x);
    }
}

/// After a token and one space, the token is finished.
pub proof fn lemma_token_then_space(s: Seq<char>, x: Seq<char>)
    requires
        token_state(s).1.len() == 0,
        good_word(x),
    ensures
        token_state(s + x + seq![' ']) == (token_state(s).0.push(x), Seq::<char>::empty()),
{
    lemma_token_state_append(s, x);
    assert((s + x + seq![' ']).drop_last() =~= s + x);
    assert(token_state(s).1 + x =~= x);
}

/// The tokens of a record line: the word, then one per location.
pub proof fn lemma_record_tokens(r: (Seq<char>, Seq<u64>))
    requires
        good_word(r.0),
    ensures
        token_state(record_line(r)).1.len() == 0,
        token_state(record_line(r)).0.len() == 1 + r.1.len(),
        token_state(record_line(r)).0[0] == r.0,
        tokens(record_line(r)).len() == 1 + r.1.len(),
        tokens(record_line(r))[0] == r.0,
    decreases r.1.len(),
{
    let e = Seq::<char>::empty();
    if r.1.len() == 0 {
        assert(token_state(e) == (Seq::<Seq<char>>::empty(), e));
        lemma_token_then_space(e, r.0);
        assert(e + r.0 + seq![' '] =~= record_line(r));
    } else {
        let r0 = (r.0, r.1.drop_last());
        lemma_record_tokens(r0);
        let d = decimal(r.1.last() as nat);
        lemma_decimal_digits(r.1.last() as nat);
        assert(no_ws(d)) by {
            assert forall|i: int| 0 <= i < d.len() implies !is_ws(#[trigger] d[i]) by {
                assert(is_digit(d[i]));
            }
        }
        lemma_token_then_space(record_line(r0), d);
        assert(record_line(r0) + d + seq![' '] =~= record_line(r));
    }
}

/// A record line holds no `\\n` and does not end in `\\r`.
pub proof fn lemma_record_line_chars(r: (Seq<char>, Seq<u64>))
    requires
        good_word(r.0),
    ensures
        forall|i: int| 0 <= i < record_line(r).len() ==> #[trigger] record_line(r)[i] != '\n',
        record_line(r).len() > 0,
        record_line(r).last() != '\r',
{
    lemma_locations_chars(r.1);
    let l = record_line(r);
    let w = r.0;
    let rl = render_locations(r.1);
    assert forall|i: int| 0 <= i < l.len() implies #[trigger] l[i] != '\n' by {
        if i < w.len() {
            assert(l[i] == w[i]);
            assert(!is_ws(w[i]));
        } else if i > w.len() {
            assert(l[i] == rl[i - w.len() - 1]);
        }
    }
    if rl.len() > 0 {
        assert(l.last() == rl[rl.len() - 1]);
    }
}

/// The lines of rendered records are the records' lines.
pub proof fn lemma_render_lines(rs: Seq<(Seq<char>, Seq<u64>)>)
    requires
        forall|a: int| 0 <= a < rs.len() ==> good_word(#[trigger] rs[a].0),
    ensures
        line_state(render(rs)) == (
            Seq::new(rs.len(), |a: int| record_line(rs[a])),
            Seq::<char>::empty(),
        ),
        lines(render(rs)) == Seq::new(rs.len(), |a: int| record_line(rs[a])),
        ends_done(render(rs)) == Seq::new(rs.len(), |a: int| 1u64),
        line_ends(render(rs)) == Seq::new(rs.len(), |a: int| 1u64),
    decreases rs.len(),
{
    let e = Seq::<char>::empty();
    if rs.len() == 0 {
        assert(render(rs) == e);
        assert(line_state(e) == (Seq::<Seq<char>>::empty(), e));
        assert(Seq::new(rs.len(), |a: int| record_line(rs[a])) =~= Seq::<Seq<char>>::empty());
        assert(Seq::new(rs.len(), |a: int| 1u64) =~= Seq::<u64>::empty());
    } else {
        let r0 = rs.drop_last();
        assert forall|a: int| 0 <= a < r0.len() implies good_word(#[trigger] r0[a].0) by {
            assert(r0[a] == rs[a]);
        }
        lemma_render_lines(r0);
        let l = record_line(rs.last());
        lemma_record_line_chars(rs.last());
        lemma_line_state_append(render(r0), l);
        assert(render(rs) == render(r0) + render_record(rs.last()));
        assert(render_record(rs.last()) =~= l + seq!['\n']);
        assert(render(rs) =~= (render(r0) + l).push('\n'));
        assert((render(r0) + l).push('\n').drop_last() =~= render(r0) + l);
        assert(e + l =~= l);
        assert(Seq::new(r0.len(), |a: int| record_line(r0[a])).push(l) =~= Seq::new(
            rs.len(),
            |a: int| record_line(rs[a]),
        ));
        assert(line_state(render(r0) + l).1 =~= l);
        assert(terminator_len(l) == 1);
        assert(Seq::new(r0.len(), |a: int| 1u64).push(1u64) =~= Seq::new(rs.len(), |a: int| 1u64));
    }
    assert(line_state(render(rs)).1.len() == 0);
}

/// Every finished token is a word, and the current one has no whitespace.
pub proof fn lemma_token_words(s: Seq<char>)
    ensures
        forall|a: int| 0 <= a < token_state(s).0.len() ==> good_word(#[trigger] token_state(s).0[a]),
        no_ws(token_state(s).1),
        forall|a: int| 0 <= a < tokens(s).len() ==> good_word(#[trigger] tokens(s)[a]),
    decreases s.len(),
{
    if s.len() > 0 {
        lemma_token_words(s.drop_last());
        let (d, c) = token_state(s.drop_last());
        if !is_ws(s.last()) {
            assert forall|i: int| 0 <= i < c.push(s.last()).len() implies !is_ws(
                #[trigger] c.push(s.last())[i],
            ) by {
                if i < c.len() {
                    assert(c.push(s.last())[i] == c[i]);
                }
            }
        }
    }
    let (d, c) = token_state(s);
    if c.len() > 0 {
        assert forall|a: int| 0 <= a < tokens(s).len() implies good_word(#[trigger] tokens(s)[a]) by {
            if a < d.len() {
                assert(tokens(s)[a] == d[a]);
            }
        }
    }
}

/// Pairs with equal words stand together: no other word comes between two
/// pairs of one word.
pub open spec fn pre_grouped(ps: Seq<(Seq<char>, u64)>) -> bool {
    forall|i: int, j: int, k: int|
        0 <= i < j < k < ps.len() && #[trigger] ps[i].0 == #[trigger] ps[k].0 ==> #[trigger] ps[j].0
            == ps[i].0
}

/// Number of pairs whose word is `w`.
pub open spec fn occurrences(ps: Seq<(Seq<char>, u64)>, w: Seq<char>) -> nat
    decreases ps.len(),
{
    if ps.len() == 0 {
        0
    } else {
        occurrences(ps.drop_last(), w) + if ps.last().0 == w {
            1nat
        } else {
            0nat
        }
    }
}

pub proof fn lemma_occurrences_witness(ps: Seq<(Seq<char>, u64)>, w: Seq<char>)
    requires
        occurrences(ps, w) > 0,
    ensures
        exists|j: int| 0 <= j < ps.len() && (#[trigger] ps[j]).0 == w,
    decreases ps.len(),
{
    if ps.last().0 == w {
        assert(ps[ps.len() - 1].0 == w);
    } else {
        lemma_occurrences_witness(ps.drop_last(), w);
        let j = choose|j: int| 0 <= j < ps.len() - 1 && (#[trigger] ps.drop_last()[j]).0 == w;
        assert(ps[j] == ps.drop_last()[j]);
    }
}

/// For pre-grouped pairs, grouping gives one record per distinct word, with
/// as many locations as the word has pairs.
pub proof fn lemma_group(ps: Seq<(Seq<char>, u64)>)
    requires
        pre_grouped(ps),
    ensures
        ps.len() > 0 ==> group(ps).len() > 0 && group(ps).last().0 == ps.last().0,
        forall|a: int, b: int|
            0 <= a < b < group(ps).len() ==> #[trigger] group(ps)[a].0 != #[trigger] group(
                ps,
            )[b].0,
        forall|a: int|
            0 <= a < group(ps).len() ==> (#[trigger] group(ps)[a]).1.len() == occurrences(
                ps,
                group(ps)[a].0,
            ) && group(ps)[a].1.len() > 0,
        forall|w: Seq<char>|
            occurrences(ps, w) > 0 ==> exists|a: int|
                0 <= a < group(ps).len() && (#[trigger] group(ps)[a]).0 == w,
    decreases ps.len(),
{
    if ps.len() > 0 {
        let p0 = ps.drop_last();
        let p = ps.last();
        assert(pre_grouped(p0)) by {
            assert forall|i: int, j: int, k: int|
                0 <= i < j < k < p0.len() && #[trigger] p0[i].0 == #[trigger] p0[k].0 implies #[trigger] p0[j].0
                == p0[i].0 by {
                assert(p0[i] == ps[i] && p0[j] == ps[j] && p0[k] == ps[k]);
            }
        }
        lemma_group(p0);
        let g = group(p0);
        let g2 = group(ps);
        if g.len() > 0 && g.last().0 == p.0 {
            assert(g2 == g.update(g.len() - 1, (p.0, g.last().1.push(p.1))));
            assert forall|a: int| 0 <= a < g2.len() implies (#[trigger] g2[a]).1.len() == occurrences(
                ps,
                g2[a].0,
            ) && g2[a].1.len() > 0 by {
                if a < g.len() - 1 {
                    assert(g[a].0 != g[g.len() - 1].0);
                    assert(g2[a] == g[a]);
                }
            }
            assert forall|w: Seq<char>| occurrences(ps, w) > 0 implies exists|a: int|
                0 <= a < g2.len() && (#[trigger] g2[a]).0 == w by {
                if w == p.0 {
                    assert(g2[g2.len() - 1].0 == w);
                } else {
                    assert(occurrences(p0, w) > 0);
                    let a = choose|a: int| 0 <= a < g.len() && (#[trigger] g[a]).0 == w;
                    assert(g2[a].0 == w);
                }
            }
            assert forall|a: int, b: int| 0 <= a < b < g2.len() implies #[trigger] g2[a].0
                != #[trigger] g2[b].0 by {
                assert(g[a].0 != g[b].0);
            }
        } else {
            assert(g2 == g.push((p.0, seq![p.1])));
            assert(occurrences(p0, p.0) == 0) by {
                if occurrences(p0, p.0) > 0 {
                    lemma_occurrences_witness(p0, p.0);
                    let j = choose|j: int| 0 <= j < p0.len() && (#[trigger] p0[j]).0 == p.0;
                    assert(ps[j].0 == ps[ps.len() - 1].0);
                    assert(p0.len() > 0);
                    assert(j < p0.len() - 1 ==> ps[p0.len() - 1].0 == ps[j].0);
                    assert(g.last().0 == p0.last().0);
                }
            }
            assert forall|a: int| 0 <= a < g2.len() implies (#[trigger] g2[a]).1.len() == occurrences(
                ps,
                g2[a].0,
            ) && g2[a].1.len() > 0 by {
                if a < g.len() {
                    assert(g2[a] == g[a]);
                    if g[a].0 == p.0 {
                        assert(occurrences(p0, p.0) > 0);
                    }
                }
            }
            assert forall|w: Seq<char>| occurrences(ps, w) > 0 implies exists|a: int|
                0 <= a < g2.len() && (#[trigger] g2[a]).0 == w by {
                if w == p.0 {
                    assert(g2[g2.len() - 1].0 == w);
                } else {
                    assert(occurrences(p0, w) > 0);
                    let a = choose|a: int| 0 <= a < g.len() && (#[trigger] g[a]).0 == w;
                    assert(g2[a].0 == w);
                }
            }
            assert forall|a: int, b: int| 0 <= a < b < g2.len() implies #[trigger] g2[a].0
                != #[trigger] g2[b].0 by {
                if b == g.len() {
                    assert(g2[a] == g[a]);
                    assert(g[a].1.len() == occurrences(p0, g[a].0));
                    if g[a].0 == p.0 {
                        assert(occurrences(p0, p.0) > 0);
                    }
                } else {
                    assert(g[a].0 != g[b].0);
                }
            }
        }
    }
}

} // verus!
