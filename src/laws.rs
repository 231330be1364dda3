//! Properties that relate the builders, the table and the lookup.
use vstd::prelude::*;
use crate::hash::{hash_of, lemma_hash_bound, HASHED_CHARS, TABLE_SIZE};
use crate::index::{
    all_raw_ok, group, index_outcome, index_records, index_text, pair_of, pairs_of, render,
    IndexError,
};
use crate::layout::{
    good_word, lemma_group, lemma_occurrences_witness, lemma_record_tokens, lemma_render_lines,
    lemma_token_words, occurrences, pre_grouped, record_line,
};
use crate::lookup::{line_at, lookup, scan_from, scan_step_spec, ScanStep};
use crate::table::{
    bucket_table_of, lemma_lines_bytes, lemma_offset_monotone, lemma_table_len, line_offset,
    line_word, table_after, table_file, SENTINEL,
};
use crate::text::{byte_len, line_ends, line_state, lines, tokens};

verus! {

/// The hash is a function of the word's text alone: equal texts hash
/// equally, whatever call computes them.
pub proof fn law_hash_deterministic(w1: Seq<char>, w2: Seq<char>)
    requires
        w1 == w2,
    ensures
        hash_of(w1) == hash_of(w2),
{
}

/// Characters after the third do not change the hash.
pub proof fn law_hash_ignores_tail(w: Seq<char>, extra: Seq<char>)
    requires
        w.len() >= HASHED_CHARS,
    ensures
        hash_of(w + extra) == hash_of(w),
{
    assert((w + extra).take(HASHED_CHARS as int) =~= w.take(HASHED_CHARS as int));
    if w.len() == HASHED_CHARS {
        assert(w.take(HASHED_CHARS as int) =~= w);
    }
}

/// Building twice from the same raw text gives the same index, and so the
/// same table file.
pub proof fn law_rebuild_identical(
    raw: Seq<char>,
    a: Result<String, IndexError>,
    b: Result<String, IndexError>,
)
    requires
        index_outcome(raw, a),
        index_outcome(raw, b),
    ensures
        a is Ok <==> b is Ok,
        a is Ok ==> a->Ok_0@ == b->Ok_0@,
        a is Ok ==> table_file(bucket_table_of(a->Ok_0@)) == table_file(
            bucket_table_of(b->Ok_0@),
        ),
{
}

/// An empty raw input gives an empty index, a table of empty buckets, and
/// a lookup that finds nothing.
pub proof fn law_empty_input(target: Seq<char>)
    ensures
        index_text(Seq::<char>::empty()) == Seq::<char>::empty(),
        lines(Seq::<char>::empty()) == Seq::<Seq<char>>::empty(),
        bucket_table_of(Seq::<char>::empty()) == Seq::new(TABLE_SIZE as nat, |i: int| SENTINEL),
        lookup(
            target,
            bucket_table_of(Seq::<char>::empty()),
            lines(Seq::<char>::empty()),
            line_ends(Seq::<char>::empty()),
        )
            == Ok::<Option<nat>, nat>(None),
{
    let e = Seq::<char>::empty();
    assert(line_state(e) == (Seq::<Seq<char>>::empty(), e));
    assert(lines(e) =~= Seq::<Seq<char>>::empty());
    assert(line_ends(e) =~= Seq::<u64>::empty());
    assert(pairs_of(lines(e)) =~= Seq::<(Seq<char>, u64)>::empty());
    assert(group(pairs_of(lines(e))) == Seq::<(Seq<char>, Seq<u64>)>::empty());
    assert(render(Seq::<(Seq<char>, Seq<u64>)>::empty()) == e);
    lemma_hash_bound(target);
}

/// Records that share a hash stand together in the index.
pub open spec fn hash_contiguous(rs: Seq<(Seq<char>, Seq<u64>)>) -> bool {
    forall|i: int, j: int, k: int|
        0 <= i < j < k < rs.len() && hash_of(#[trigger] rs[i].0) == hash_of(#[trigger] rs[k].0)
            ==> hash_of(#[trigger] rs[j].0) == hash_of(rs[i].0)
}

/// A slot stays empty while no line read so far hashes to it.
pub proof fn lemma_slot_empty(ls: Seq<Seq<char>>, es: Seq<u64>, h: int, n: int)
    requires
        0 <= h < TABLE_SIZE,
        n <= ls.len(),
        forall|k: int| 0 <= k < n ==> hash_of(line_word(#[trigger] ls[k])) != h,
    ensures
        table_after(ls, es, n)[h] == SENTINEL,
    decreases n,
{
    lemma_table_len(ls, es, n);
    if n > 0 {
        lemma_slot_empty(ls, es, h, n - 1);
        lemma_table_len(ls, es, n - 1);
        let hk = hash_of(line_word(ls[n - 1])) as int;
        lemma_hash_bound(line_word(ls[n - 1]));
        assert(hk != h);
        let t = table_after(ls, es, n - 1);
        assert(t.update(hk, line_offset(ls, es, n - 1) as u64)[h] == t[h]);
    } else {
        assert(table_after(ls, es, 0) == Seq::new(TABLE_SIZE as nat, |i: int| SENTINEL));
    }
}

/// A slot holds the offset of the first line that hashes to it.
pub proof fn lemma_slot_first(ls: Seq<Seq<char>>, es: Seq<u64>, h: int, k0: int, n: int)
    requires
        0 <= h < TABLE_SIZE,
        0 <= k0 < n <= ls.len(),
        hash_of(line_word(ls[k0])) == h,
        forall|k: int| 0 <= k < k0 ==> hash_of(line_word(#[trigger] ls[k])) != h,
        line_offset(ls, es, k0) < SENTINEL,
    ensures
        table_after(ls, es, n)[h] == line_offset(ls, es, k0) as u64,
    decreases n,
{
    lemma_table_len(ls, es, n);
    lemma_table_len(ls, es, n - 1);
    let t = table_after(ls, es, n - 1);
    let hk = hash_of(line_word(ls[n - 1])) as int;
    lemma_hash_bound(line_word(ls[n - 1]));
    if n - 1 == k0 {
        lemma_slot_empty(ls, es, h, k0);
        assert(t.update(hk, line_offset(ls, es, n - 1) as u64)[h] == line_offset(ls, es, k0) as u64);
    } else {
        lemma_slot_first(ls, es, h, k0, n - 1);
        if hk != h {
            assert(t.update(hk, line_offset(ls, es, n - 1) as u64)[h] == t[h]);
        }
    }
}

/// The line found at a line's own offset is that line.
pub proof fn lemma_line_at_offset(ls: Seq<Seq<char>>, es: Seq<u64>, k0: int, k: int)
    requires
        0 <= k <= k0 < ls.len(),
        es.len() == ls.len(),
        forall|j: int| 0 <= j < es.len() ==> #[trigger] es[j] >= 1,
    ensures
        line_at(ls, es, line_offset(ls, es, k0), k) == Some(k0),
    decreases k0 - k,
{
    if k < k0 {
        lemma_offset_monotone(ls, es, k + 1, k0);
        lemma_line_at_offset(ls, es, k0, k + 1);
    }
}

/// Some line with hash `h` comes first.
pub proof fn lemma_first_with_hash(ls: Seq<Seq<char>>, h: int, a: int)
    requires
        0 <= a < ls.len(),
        hash_of(line_word(ls[a])) == h,
    ensures
        exists|k0: int|
            0 <= k0 <= a && hash_of(line_word(#[trigger] ls[k0])) == h && forall|k: int|
                0 <= k < k0 ==> hash_of(line_word(#[trigger] ls[k])) != h,
    decreases a,
{
    if exists|k: int| 0 <= k < a && hash_of(line_word(#[trigger] ls[k])) == h {
        let k = choose|k: int| 0 <= k < a && hash_of(line_word(#[trigger] ls[k])) == h;
        lemma_first_with_hash(ls, h, k);
    } else {
        assert(hash_of(line_word(ls[a])) == h);
    }
}

/// The index records of well-formed raw text have good words, and its index
/// lines are the records' lines.
pub proof fn lemma_index_lines(raw: Seq<char>)
    requires
        all_raw_ok(lines(raw)),
        pre_grouped(pairs_of(lines(raw))),
    ensures
        ({
            let rs = index_records(raw);
            let ls = lines(index_text(raw));
            &&& ls.len() == rs.len()
            &&& line_ends(index_text(raw)) == Seq::new(rs.len(), |a: int| 1u64)
            &&& forall|a: int|
                0 <= a < rs.len() ==> good_word(#[trigger] rs[a].0) && line_word(ls[a]) == rs[a].0
                    && tokens(ls[a]).len() == 1 + rs[a].1.len()
            &&& forall|a: int|
                #![trigger rs[a]]
                0 <= a < rs.len() ==> exists|j: int|
                    0 <= j < pairs_of(lines(raw)).len() && (#[trigger] pairs_of(lines(raw))[j]).0
                        == rs[a].0
        }),
{
    let ps = pairs_of(lines(raw));
    let rs = index_records(raw);
    lemma_group(ps);
    assert forall|j: int| 0 <= j < ps.len() implies good_word((#[trigger] ps[j]).0) by {
        let l = lines(raw)[j];
        assert(ps[j] == pair_of(l));
        lemma_token_words(l);
        assert(tokens(l).len() >= 2);
    }
    assert forall|a: int| #![trigger rs[a]] 0 <= a < rs.len() implies exists|j: int|
        0 <= j < ps.len() && (#[trigger] ps[j]).0 == rs[a].0 by {
        assert(occurrences(ps, rs[a].0) > 0);
        lemma_occurrences_witness(ps, rs[a].0);
    }
    assert forall|a: int| 0 <= a < rs.len() implies good_word(#[trigger] rs[a].0) by {
        let j = choose|j: int| 0 <= j < ps.len() && (#[trigger] ps[j]).0 == rs[a].0;
    }
    lemma_render_lines(rs);
    let ls = lines(index_text(raw));
    let es = line_ends(index_text(raw));
    assert forall|a: int| 0 <= a < rs.len() implies good_word(#[trigger] rs[a].0) && line_word(
        ls[a],
    ) == rs[a].0 && tokens(ls[a]).len() == 1 + rs[a].1.len() by {
        assert(ls[a] == record_line(rs[a]));
        lemma_record_tokens(rs[a]);
    }
}

/// Indexing only one word, a lookup of a word with another hash finds
/// nothing.
pub proof fn law_other_hash_not_found(raw: Seq<char>, w1: Seq<char>, w2: Seq<char>)
    requires
        all_raw_ok(lines(raw)),
        forall|j: int|
            0 <= j < pairs_of(lines(raw)).len() ==> (#[trigger] pairs_of(lines(raw))[j]).0 == w2,
        hash_of(w1) != hash_of(w2),
    ensures
        lookup(w1, bucket_table_of(index_text(raw)), lines(index_text(raw)), line_ends(index_text(raw))) == Ok::<
            Option<nat>,
            nat,
        >(None),
{
    let ps = pairs_of(lines(raw));
    assert(pre_grouped(ps)) by {
        assert forall|i: int, j: int, k: int|
            0 <= i < j < k < ps.len() && #[trigger] ps[i].0 == #[trigger] ps[k].0 implies #[trigger] ps[j].0
            == ps[i].0 by {
            assert(ps[i].0 == w2 && ps[j].0 == w2);
        }
    }
    lemma_index_lines(raw);
    let rs = index_records(raw);
    let ls = lines(index_text(raw));
    let es = line_ends(index_text(raw));
    let h = hash_of(w1) as int;
    lemma_hash_bound(w1);
    assert forall|k: int| 0 <= k < ls.len() implies hash_of(line_word(#[trigger] ls[k])) != h by {
        assert(line_word(ls[k]) == rs[k].0);
        let j = choose|j: int| 0 <= j < ps.len() && (#[trigger] ps[j]).0 == rs[k].0;
    }
    lemma_slot_empty(ls, es, h, ls.len() as int);
}

/// Scanning from the first line of a hash group reaches the line of a word
/// of that group.
pub proof fn lemma_scan_reaches(
    w: Seq<char>,
    rs: Seq<(Seq<char>, Seq<u64>)>,
    ls: Seq<Seq<char>>,
    k0: int,
    k: int,
    a: int,
)
    requires
        ls.len() == rs.len(),
        forall|i: int|
            0 <= i < rs.len() ==> line_word(#[trigger] ls[i]) == rs[i].0 && tokens(ls[i]).len() == 1
                + rs[i].1.len(),
        forall|i: int, j: int| 0 <= i < j < rs.len() ==> #[trigger] rs[i].0 != #[trigger] rs[j].0,
        hash_contiguous(rs),
        0 <= k0 <= k <= a < rs.len(),
        rs[a].0 == w,
        hash_of(rs[k0].0) == hash_of(w),
        rs[a].1.len() <= usize::MAX,
    ensures
        scan_from(w, ls, k) == Ok::<Option<nat>, nat>(Some(rs[a].1.len())),
    decreases a - k,
{
    assert(line_word(ls[k]) == rs[k].0);
    assert(tokens(ls[k]).len() > 0);
    if k == a {
        assert(scan_step_spec(w, ls[k]) == ScanStep::Match { count: rs[a].1.len() as usize });
    } else {
        if k0 < k {
            assert(hash_of(rs[k].0) == hash_of(rs[k0].0));
        }
        assert(rs[k].0 != rs[a].0);
        assert(scan_step_spec(w, ls[k]) == ScanStep::Collision);
        lemma_scan_reaches(w, rs, ls, k0, k + 1, a);
    }
}

/// Round trip: after building the index and its table from pre-grouped raw
/// text whose hash groups stand together, a lookup of any word of the input
/// finds it with as many locations as it has pairs in the input.
pub proof fn law_round_trip(raw: Seq<char>, w: Seq<char>)
    requires
        all_raw_ok(lines(raw)),
        pre_grouped(pairs_of(lines(raw))),
        hash_contiguous(index_records(raw)),
        byte_len(index_text(raw)) < u64::MAX,
        occurrences(pairs_of(lines(raw)), w) > 0,
        occurrences(pairs_of(lines(raw)), w) <= usize::MAX,
    ensures
        lookup(w, bucket_table_of(index_text(raw)), lines(index_text(raw)), line_ends(index_text(raw))) == Ok::<
            Option<nat>,
            nat,
        >(Some(occurrences(pairs_of(lines(raw)), w))),
{
    let ps = pairs_of(lines(raw));
    let rs = index_records(raw);
    let ls = lines(index_text(raw));
    let es = line_ends(index_text(raw));
    lemma_group(ps);
    lemma_index_lines(raw);
    let a = choose|a: int| 0 <= a < rs.len() && (#[trigger] rs[a]).0 == w;
    let h = hash_of(w) as int;
    lemma_hash_bound(w);
    assert(hash_of(line_word(ls[a])) == h);
    lemma_first_with_hash(ls, h, a);
    let k0 = choose|k0: int|
        0 <= k0 <= a && hash_of(line_word(#[trigger] ls[k0])) == h && forall|k: int|
            0 <= k < k0 ==> hash_of(line_word(#[trigger] ls[k])) != h;
    lemma_lines_bytes(index_text(raw));
    lemma_offset_monotone(ls, es, k0 + 1, ls.len() as int);
    lemma_slot_first(ls, es, h, k0, ls.len() as int);
    lemma_line_at_offset(ls, es, k0, 0);
    assert(line_word(ls[k0]) == rs[k0].0);
    lemma_scan_reaches(w, rs, ls, k0, k0, a);
}

} // verus!
