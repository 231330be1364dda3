//! The index builder: groups a pre-grouped stream of `word location` lines
//! into one index line per word run.
use vstd::prelude::*;
use crate::text::{
    decimal, lines, parse_u64, parse_u64_spec, push_decimal, split_lines, split_tokens,
    to_chars, tokens,
};

verus! {

/// The reason why an input could not be turned into an index or a table.
#[derive(Debug, Clone, Copy, PartialEq, Eq, Structural)]
pub enum IndexError {
    /// The line with this (0-based) number does not hold the fields a record
    /// needs.
    MalformedRecord { line: usize },
}

/// A raw line is well formed when it has a word and a location that parses.
pub open spec fn raw_line_ok(l: Seq<char>) -> bool {
    tokens(l).len() >= 2 && parse_u64_spec(tokens(l)[1]) is Some
}

/// The `(word, location)` pair that a well-formed raw line holds.
pub open spec fn pair_of(l: Seq<char>) -> (Seq<char>, u64) {
    (tokens(l)[0], parse_u64_spec(tokens(l)[1])->Some_0)
}

/// The pairs of a sequence of raw lines.
pub open spec fn pairs_of(ls: Seq<Seq<char>>) -> Seq<(Seq<char>, u64)> {
    Seq::new(ls.len(), |i: int| pair_of(ls[i]))
}

/// Groups adjacent pairs with equal words into one record per run, keeping
/// the locations in input order.
pub open spec fn group(ps: Seq<(Seq<char>, u64)>) -> Seq<(Seq<char>, Seq<u64>)>
    decreases ps.len(),
{
    if ps.len() == 0 {
        seq![]
    } else {
        let g = group(ps.drop_last());
        let (w, loc) = ps.last();
        if g.len() > 0 && g.last().0 == w {
            g.update(g.len() - 1, (w, g.last().1.push(loc)))
        } else {
            g.push((w, seq![loc]))
        }
    }
}

/// Each location followed by one space.
pub open spec fn render_locations(locs: Seq<u64>) -> Seq<char>
    decreases locs.len(),
{
    if locs.len() == 0 {
        seq![]
    } else {
        render_locations(locs.drop_last()) + decimal(locs.last() as nat) + seq![' ']
    }
}

/// One index line: `word loc_1 loc_2 ... loc_k \n`.
pub open spec fn render_record(r: (Seq<char>, Seq<u64>)) -> Seq<char> {
    r.0 + seq![' '] + render_locations(r.1) + seq!['\n']
}

/// The index file text of a sequence of records.
pub open spec fn render(rs: Seq<(Seq<char>, Seq<u64>)>) -> Seq<char>
    decreases rs.len(),
{
    if rs.len() == 0 {
        seq![]
    } else {
        render(rs.drop_last()) + render_record(rs.last())
    }
}

/// Whether every raw line of `ls` is well formed.
pub open spec fn all_raw_ok(ls: Seq<Seq<char>>) -> bool {
    forall|i: int| 0 <= i < ls.len() ==> raw_line_ok(#[trigger] ls[i])
}

/// The records that the raw lines of `text` make.
pub open spec fn index_records(text: Seq<char>) -> Seq<(Seq<char>, Seq<u64>)> {
    group(pairs_of(lines(text)))
}

/// The index file that raw input `text` makes, when all its lines are well
/// formed.
pub open spec fn index_text(text: Seq<char>) -> Seq<char> {
    render(index_records(text))
}

/// The outcome of building an index from raw text: the index text, or the
/// first malformed line.
pub open spec fn index_outcome(text: Seq<char>, r: Result<String, IndexError>) -> bool {
    let ls = lines(text);
    &&& r is Ok <==> all_raw_ok(ls)
    &&& r is Ok ==> r->Ok_0@ == index_text(text)
    &&& r is Err ==> {
        let line = r->Err_0->MalformedRecord_line;
        &&& line < ls.len()
        &&& !raw_line_ok(ls[line as int])
        &&& forall|j: int| 0 <= j < line ==> raw_line_ok(#[trigger] ls[j])
    }
}

/// The text that Windows-1252 decoding gives for `raw`.
pub uninterp spec fn windows_1252_text(raw: Seq<u8>) -> Seq<char>;

/// Relies on `encoding_rs::Encoding::decode` on `WINDOWS_1252`: a BOM, if
/// any, selects its encoding and is dropped, malformed bytes become U+FFFD,
/// and the text depends on the bytes alone.
#[verifier::external_body]
fn decode_windows_1252(raw: &[u8]) -> (text: String)
    ensures
        text@ == windows_1252_text(raw@),
{
    let (text, _, _) = encoding_rs::WINDOWS_1252.decode(raw);
    text.into_owned()
}

/// Relies on `String: FromIterator<char>`: the string holds the characters
/// in order.
#[verifier::external_body]
pub(crate) fn string_of(chars: &Vec<char>) -> (s: String)
    ensures
        s@ == chars@,
{
    chars.iter().collect()
}

/// Whether two character vectors are equal.
pub fn chars_eq(a: &Vec<char>, b: &Vec<char>) -> (r: bool)
    ensures
        r == (a@ == b@),
{
    if a.len() != b.len() {
        return false;
    }
    let mut i: usize = 0;
    while i < a.len()
        invariant
            i <= a.len() == b.len(),
            forall|j: int| 0 <= j < i ==> a@[j] == b@[j],
        decreases a.len() - i,
    {
        if a[i] != b[i] {
            return false;
        }
        i = i + 1;
    }
    proof {
        assert(a@ =~= b@);
    }
    true
}

/// Appends all characters of `s`.
pub fn push_chars(out: &mut Vec<char>, s: &Vec<char>)
    ensures
        final(out)@ == old(out)@ + s@,
{
    let ghost start = out@;
    let mut i: usize = 0;
    while i < s.len()
        invariant
            i <= s.len(),
            out@ == start + s@.take(i as int),
        decreases s.len() - i,
    {
        out.push(s[i]);
        i = i + 1;
        proof {
            assert(out@ =~= start + s@.take(i as int));
        }
    }
    proof {
        assert(s@.take(i as int) =~= s@);
    }
}

/// Appends the index line of one record.
pub fn push_record(out: &mut Vec<char>, word: &Vec<char>, locations: &Vec<u64>)
    ensures
        final(out)@ == old(out)@ + render_record((word@, locations@)),
{
    let ghost start = out@;
    push_chars(out, word);
    out.push(' ');
    let ghost head = out@;
    let mut i: usize = 0;
    while i < locations.len()
        invariant
            i <= locations.len(),
            out@ == head + render_locations(locations@.take(i as int)),
        decreases locations.len() - i,
    {
        proof {
            assert(locations@.take(i + 1).drop_last() =~= locations@.take(i as int));
        }
        push_decimal(out, locations[i]);
        out.push(' ');
        i = i + 1;
        proof {
            assert(out@ =~= head + render_locations(locations@.take(i as int)));
        }
    }
    out.push('\n');
    proof {
        assert(locations@.take(i as int) =~= locations@);
        assert(out@ =~= start + render_record((word@, locations@)));
    }
}

/// Builds the index text from raw lines; fails on the first malformed one.
pub fn index_from_lines(ls: &Vec<Vec<char>>) -> (r: Result<Vec<char>, IndexError>)
    ensures
        ({
            let v = ls@.map_values(|l: Vec<char>| l@);
            &&& r is Ok <==> all_raw_ok(v)
            &&& r is Ok ==> r->Ok_0@ == render(group(pairs_of(v)))
            &&& r is Err ==> {
                let line = r->Err_0->MalformedRecord_line;
                &&& line < v.len()
                &&& !raw_line_ok(v[line as int])
                &&& forall|j: int| 0 <= j < line ==> raw_line_ok(#[trigger] v[j])
            }
        }),
{
    let ghost v = ls@.map_values(|l: Vec<char>| l@);
    let ghost ps = pairs_of(v);
    let mut out: Vec<char> = Vec::new();
    let mut pre_word: Vec<char> = Vec::new();
    let mut locations: Vec<u64> = Vec::new();
    let mut i: usize = 0;
    while i < ls.len()
        invariant
            i <= ls.len(),
            v == ls@.map_values(|l: Vec<char>| l@),
            ps == pairs_of(v),
            forall|j: int| 0 <= j < i ==> raw_line_ok(#[trigger] v[j]),
            ({
                let g = group(ps.take(i as int));
                &&& (i == 0) <==> g.len() == 0
                &&& i > 0 ==> g.last() == (pre_word@, locations@)
                &&& i > 0 ==> out@ == render(g.drop_last())
                &&& i == 0 ==> out@ == Seq::<char>::empty()
                &&& i == 0 ==> locations@ == Seq::<u64>::empty()
            }),
        decreases ls.len() - i,
    {
        let mut toks = split_tokens(&ls[i]);
        proof {
            assert(toks@.map_values(|t: Vec<char>| t@) == tokens(v[i as int]));
        }
        if toks.len() < 2 {
            return Err(IndexError::MalformedRecord { line: i });
        }
        let loc = match parse_u64(&toks[1]) {
            Some(x) => x,
            None => {
                proof {
                    assert(toks@[1]@ == tokens(v[i as int])[1]);
                }
                return Err(IndexError::MalformedRecord { line: i });
            },
        };
        proof {
            assert(toks@[1]@ == tokens(v[i as int])[1]);
            assert(toks@[0]@ == tokens(v[i as int])[0]);
        }
        let word = toks.remove(0);
        let ghost g = group(ps.take(i as int));
        let ghost g2 = group(ps.take(i + 1));
        proof {
            assert(ps.take(i + 1).drop_last() =~= ps.take(i as int));
            assert(ps.take(i + 1).last() == (word@, loc));
        }
        let ghost old_locs = locations@;
        let ghost wd = word@;
        if i > 0 && !chars_eq(&word, &pre_word) {
            push_record(&mut out, &pre_word, &locations);
            pre_word = word;
            locations = Vec::new();
            proof {
                assert(g2 == g.push((word@, seq![loc])));
                assert(g2.drop_last() =~= g);
                assert(g =~= g.drop_last().push(g.last()));
            }
        } else if i == 0 {
            pre_word = word;
        }
        locations.push(loc);
        proof {
            if i > 0 && wd == g.last().0 {
                assert(g2 == g.update(g.len() - 1, (wd, old_locs.push(loc))));
                assert(g2.drop_last() =~= g.drop_last());
                assert(g2.last().1 == old_locs.push(loc));
                assert(locations@ == old_locs.push(loc));
            } else if i > 0 {
                assert(g2 == g.push((wd, seq![loc])));
                assert(locations@ =~= seq![loc]);
            } else {
                assert(g2 =~= seq![(word@, seq![loc])]);
                assert(g2.drop_last() =~= Seq::<(Seq<char>, Seq<u64>)>::empty());
            }
            assert(locations@ =~= g2.last().1);
        }
        i = i + 1;
    }
    proof {
        assert(ps.take(i as int) =~= ps);
    }
    if i > 0 {
        push_record(&mut out, &pre_word, &locations);
        proof {
            let g = group(ps);
            assert(g =~= g.drop_last().push(g.last()));
        }
    }
    Ok(out)
}

/// Builds the index file from decoded raw text: one line per run of equal
/// words, with the run's locations in order.
pub fn index_from_text(text: &str) -> (r: Result<String, IndexError>)
    ensures
        index_outcome(text@, r),
{
    let chars = to_chars(text);
    let (ls, _) = split_lines(&chars);
    match index_from_lines(&ls) {
        Ok(out) => Ok(string_of(&out)),
        Err(e) => Err(e),
    }
}

/// Builds the index file from raw Windows-1252 bytes: decodes them, then
/// builds as `index_from_text` does.
pub fn make_index_file(raw: &[u8]) -> (r: Result<String, IndexError>)
    ensures
        index_outcome(windows_1252_text(raw@), r),
{
    let text = decode_windows_1252(raw);
    index_from_text(text.as_str())
}

} // verus!
